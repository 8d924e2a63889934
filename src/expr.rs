//! Tokens of candle expressions: the tokenizer (`E@I` to tokens, operands
//! suffixed with `@kline_I`) and the conversion to postfix by operator
//! precedence, each with the spec function it computes and the laws about
//! them.
use crate::error::ServerError;
use vstd::prelude::*;

verus! {

/// A binary operator of a candle expression.
#[derive(Clone, Copy, Debug, PartialEq, Eq, Structural)]
pub enum Operator {
    Plus,
    Minus,
    Multiply,
    Divide,
}

pub open spec fn operator_of(c: char) -> Option<Operator> {
    if c == '+' {
        Some(Operator::Plus)
    } else if c == '-' {
        Some(Operator::Minus)
    } else if c == '*' {
        Some(Operator::Multiply)
    } else if c == '/' {
        Some(Operator::Divide)
    } else {
        None
    }
}

pub open spec fn symbol_of(op: Operator) -> char {
    match op {
        Operator::Plus => '+',
        Operator::Minus => '-',
        Operator::Multiply => '*',
        Operator::Divide => '/',
    }
}

impl Operator {
    /// The operator written with the character `c`, if any.
    pub fn from_char(c: char) -> (r: Option<Operator>)
        ensures
            r == operator_of(c),
    {
        match c {
            '+' => Some(Operator::Plus),
            '-' => Some(Operator::Minus),
            '*' => Some(Operator::Multiply),
            '/' => Some(Operator::Divide),
            _ => None,
        }
    }

    /// The character that writes this operator.
    pub fn symbol(&self) -> (r: char)
        ensures
            r == symbol_of(*self),
            operator_of(r) == Some(*self),
    {
        match self {
            Operator::Plus => '+',
            Operator::Minus => '-',
            Operator::Multiply => '*',
            Operator::Divide => '/',
        }
    }
}

/// A token of a candle expression. An operand carries the full upstream
/// stream identifier (`btcusdt@kline_1m`), not the bare symbol.
#[derive(Debug, PartialEq)]
pub enum Token {
    Operator(Operator),
    Operand(String),
    LeftParenthesis,
    RightParenthesis,
}

/// The mathematical value of a [`Token`].
pub enum TokenView {
    Operator(Operator),
    Operand(Seq<char>),
    LeftParenthesis,
    RightParenthesis,
}

impl View for Token {
    type V = TokenView;

    open spec fn view(&self) -> TokenView {
        match self {
            Token::Operator(op) => TokenView::Operator(*op),
            Token::Operand(s) => TokenView::Operand(s@),
            Token::LeftParenthesis => TokenView::LeftParenthesis,
            Token::RightParenthesis => TokenView::RightParenthesis,
        }
    }
}

impl Clone for Token {
    fn clone(&self) -> (r: Self)
        ensures
            r@ == self@,
    {
        match self {
            Token::Operator(op) => Token::Operator(*op),
            Token::Operand(s) => Token::Operand(s.clone()),
            Token::LeftParenthesis => Token::LeftParenthesis,
            Token::RightParenthesis => Token::RightParenthesis,
        }
    }
}

/// How a token is written.
pub open spec fn token_text(t: TokenView) -> Seq<char> {
    match t {
        TokenView::Operator(op) => seq![symbol_of(op)],
        TokenView::Operand(s) => s,
        TokenView::LeftParenthesis => seq!['('],
        TokenView::RightParenthesis => seq![')'],
    }
}

impl Token {
    /// The token as written: its symbol, or the operand's stream
    /// identifier.
    pub fn text(&self) -> (r: String)
        ensures
            r@ == token_text(self@),
    {
        proof {
            reveal_strlit("+");
            reveal_strlit("-");
            reveal_strlit("*");
            reveal_strlit("/");
            reveal_strlit("(");
            reveal_strlit(")");
        }
        let r = match self {
            Token::Operator(Operator::Plus) => "+".to_owned(),
            Token::Operator(Operator::Minus) => "-".to_owned(),
            Token::Operator(Operator::Multiply) => "*".to_owned(),
            Token::Operator(Operator::Divide) => "/".to_owned(),
            Token::Operand(s) => s.clone(),
            Token::LeftParenthesis => "(".to_owned(),
            Token::RightParenthesis => ")".to_owned(),
        };
        assert(r@ =~= token_text(self@));
        r
    }
}

pub open spec fn views(ts: Seq<Token>) -> Seq<TokenView> {
    ts.map_values(|t: Token| t@)
}

/// What `char::is_alphanumeric` answers for `c`.
pub uninterp spec fn alphanumeric(c: char) -> bool;

/// Relies on `char::is_alphanumeric`: whether `c` is Unicode Alphabetic or
/// Numeric.
#[verifier::external_body]
fn is_alphanumeric(c: char) -> (r: bool)
    ensures
        r == alphanumeric(c),
{
    c.is_alphanumeric()
}

/// Index of the last `@` in `s`, or -1.
pub open spec fn last_at(s: Seq<char>) -> int
    decreases s.len(),
{
    if s.len() == 0 {
        -1
    } else if s.last() == '@' {
        s.len() - 1
    } else {
        last_at(s.drop_last())
    }
}

pub open spec fn kline_marker() -> Seq<char> {
    seq!['@', 'k', 'l', 'i', 'n', 'e', '_']
}

/// The text appended to every operand of an expression with this interval.
pub open spec fn stream_suffix(interval: Seq<char>) -> Seq<char> {
    kline_marker() + interval
}

/// Emits a pending operand, if there is one.
pub open spec fn flush(tokens: Seq<TokenView>, operand: Seq<char>, suffix: Seq<char>) -> Seq<
    TokenView,
> {
    if operand.len() == 0 {
        tokens
    } else {
        tokens.push(TokenView::Operand(operand + suffix))
    }
}

/// One character of tokenization: from the tokens so far and the pending
/// operand, the next ones, or `None` for a character that has no place in
/// an expression.
pub open spec fn scan_char(
    tokens: Seq<TokenView>,
    operand: Seq<char>,
    c: char,
    alnum: bool,
    suffix: Seq<char>,
) -> Option<
    (Seq<TokenView>, Seq<char>),
> {
    if operator_of(c) is Some {
        Some((flush(tokens, operand, suffix).push(TokenView::Operator(operator_of(c)->0)), seq![]))
    } else if c == '(' {
        Some((flush(tokens, operand, suffix).push(TokenView::LeftParenthesis), seq![]))
    } else if c == ')' {
        Some((flush(tokens, operand, suffix).push(TokenView::RightParenthesis), seq![]))
    } else if alnum {
        Some((tokens, operand.push(c)))
    } else {
        None
    }
}

/// Tokenization of an infix text, before the last pending operand is
/// emitted; `alnum[i]` tells whether `text[i]` is alphanumeric.
pub open spec fn scan(text: Seq<char>, alnum: Seq<bool>, suffix: Seq<char>) -> Option<
    (Seq<TokenView>, Seq<char>),
>
    decreases text.len(),
{
    if text.len() == 0 {
        Some((seq![], seq![]))
    } else {
        match scan(text.drop_last(), alnum, suffix) {
            None => None,
            Some(st) => scan_char(st.0, st.1, text.last(), alnum[text.len() - 1], suffix),
        }
    }
}

/// The tokens of `E@I`: `E` tokenized with `@kline_I` appended to every
/// operand; `None` when there is no `@` or `E` holds a character that is
/// neither an operator, a parenthesis nor alphanumeric (`alnum[i]` telling
/// whether `input[i]` is).
pub open spec fn tokenize_with(input: Seq<char>, alnum: Seq<bool>) -> Option<Seq<TokenView>> {
    let d = last_at(input);
    if d < 0 {
        None
    } else {
        let suffix = stream_suffix(input.subrange(d + 1, input.len() as int));
        match scan(input.subrange(0, d), alnum, suffix) {
            None => None,
            Some(st) => Some(flush(st.0, st.1, suffix)),
        }
    }
}

/// Which characters of `s` are alphanumeric.
pub open spec fn alnum_classes(s: Seq<char>) -> Seq<bool> {
    s.map_values(|c: char| alphanumeric(c))
}

/// The tokens of `E@I` (see `tokenize_with`).
pub open spec fn tokenize(input: Seq<char>) -> Option<Seq<TokenView>> {
    tokenize_with(input, alnum_classes(input))
}

proof fn lemma_last_at_range(s: Seq<char>)
    ensures
        -1 <= last_at(s) < s.len(),
        last_at(s) >= 0 ==> s[last_at(s)] == '@',
    decreases s.len(),
{
    if s.len() > 0 {
        lemma_last_at_range(s.drop_last());
    }
}

proof fn lemma_scan_failed(text: Seq<char>, alnum: Seq<bool>, n: int, suffix: Seq<char>)
    requires
        0 <= n <= text.len(),
        scan(text.subrange(0, n), alnum, suffix) is None,
    ensures
        scan(text, alnum, suffix) is None,
    decreases text.len() - n,
{
    if n < text.len() {
        assert(text.subrange(0, n + 1).drop_last() =~= text.subrange(0, n));
        lemma_scan_failed(text, alnum, n + 1, suffix);
    } else {
        assert(text.subrange(0, n) =~= text);
    }
}

fn chars_of(s: &str) -> (r: Vec<char>)
    ensures
        r@ == s@,
{
    let mut v: Vec<char> = Vec::new();
    for c in it: s.chars()
        invariant
            v@ == it.seq().take(it.index() as int),
    {
        v.push(c);
    }
    proof {
        broadcast use vstd::string::group_string_axioms;

    }
    assert(v@ =~= s@);
    v
}

/// Position of the last `@` of `chars`, if any.
fn find_last_at(chars: &Vec<char>) -> (r: Option<usize>)
    ensures
        match r {
            Some(d) => d == last_at(chars@),
            None => last_at(chars@) == -1,
        },
{
    let mut i: usize = chars.len();
    assert(chars@.subrange(0, i as int) =~= chars@);
    while i > 0
        invariant
            i <= chars.len(),
            last_at(chars@) == last_at(chars@.subrange(0, i as int)),
        decreases i,
    {
        assert(chars@.subrange(0, i as int).drop_last() =~= chars@.subrange(0, i - 1));
        if chars[i - 1] == '@' {
            return Some(i - 1);
        }
        i = i - 1;
    }
    None
}

/// `@kline_I`, where `I` is what follows position `d` of `input`.
pub(crate) fn suffix_after(input: &str, d: usize) -> (r: String)
    requires
        d < input@.len(),
    ensures
        r@ == stream_suffix(input@.subrange(d + 1, input@.len() as int)),
{
    let n = input.unicode_len();
    let interval = input.substring_char(d + 1, n);
    let marker = "@kline_";
    proof {
        reveal_strlit("@kline_");
    }
    assert(marker@ =~= kline_marker());
    let suffix = marker.to_owned().concat(interval);
    assert(suffix@ =~= stream_suffix(input@.subrange(d + 1, input@.len() as int)));
    suffix
}

/// Position of the last `@` of `input`, if any.
pub(crate) fn last_at_of(input: &str) -> (r: Option<usize>)
    ensures
        match r {
            Some(d) => d == last_at(input@) && d < input@.len(),
            None => last_at(input@) == -1,
        },
{
    proof {
        lemma_last_at_range(input@);
    }
    find_last_at(&chars_of(input))
}

/// Appends the pending operand `chars[start..end]`, with `suffix`, if it is
/// not empty.
fn push_operand(
    tokens: &mut Vec<Token>,
    input: &str,
    start: usize,
    end: usize,
    suffix: &String,
)
    requires
        start <= end <= input@.len(),
    ensures
        views(final(tokens)@) == flush(
            views(old(tokens)@),
            input@.subrange(start as int, end as int),
            suffix@,
        ),
{
    if start < end {
        let name = input.substring_char(start, end).to_owned();
        let operand = name.concat(suffix.as_str());
        tokens.push(Token::Operand(operand));
        assert(views(final(tokens)@) =~= views(old(tokens)@).push(
            TokenView::Operand(input@.subrange(start as int, end as int) + suffix@),
        ));
    }
}

/// Splits `E@I` into tokens as `parse` does, `alnum[i]` telling whether
/// the character `i` of `input` is alphanumeric.
pub fn parse_classified(input: &str, alnum: &Vec<bool>) -> (r: Result<Vec<Token>, ServerError>)
    requires
        alnum@.len() == input@.len(),
    ensures
        match tokenize_with(input@, alnum@) {
            Some(ts) => r is Ok && views(r->Ok_0@) == ts,
            None => r == Err::<Vec<Token>, ServerError>(ServerError::ParsingStream),
        },
{
    let chars = chars_of(input);
    let d = match find_last_at(&chars) {
        Some(d) => d,
        None => return Err(ServerError::ParsingStream),
    };
    proof {
        lemma_last_at_range(input@);
    }
    let ghost s = input@;
    let suffix = suffix_after(input, d);
    let ghost sfx = stream_suffix(s.subrange(d + 1, s.len() as int));
    let mut tokens: Vec<Token> = Vec::new();
    let mut start: usize = 0;
    let mut i: usize = 0;
    while i < d
        invariant
            s == input@,
            chars@ == s,
            d < s.len(),
            d == last_at(s),
            alnum@.len() == s.len(),
            sfx == stream_suffix(s.subrange(d + 1, s.len() as int)),
            suffix@ == sfx,
            start <= i <= d,
            scan(s.subrange(0, i as int), alnum@, sfx) == Some(
                (views(tokens@), s.subrange(start as int, i as int)),
            ),
        decreases d - i,
    {
        let c = chars[i];
        assert(s.subrange(0, i + 1).drop_last() =~= s.subrange(0, i as int));
        assert(s.subrange(0, i + 1).last() == c);
        let ghost before = views(tokens@);
        if Operator::from_char(c).is_some() || c == '(' || c == ')' {
            push_operand(&mut tokens, input, start, i, &suffix);
            let tok = match Operator::from_char(c) {
                Some(op) => Token::Operator(op),
                None => if c == '(' {
                    Token::LeftParenthesis
                } else {
                    Token::RightParenthesis
                },
            };
            tokens.push(tok);
            assert(views(tokens@) =~= flush(before, s.subrange(start as int, i as int), sfx).push(
                tok@,
            ));
            start = i + 1;
        } else if alnum[i] {
            assert(s.subrange(start as int, i + 1) =~= s.subrange(start as int, i as int).push(c));
        } else {
            proof {
                assert(s.subrange(0, d as int).subrange(0, i + 1) =~= s.subrange(0, i + 1));
                lemma_scan_failed(s.subrange(0, d as int), alnum@, i + 1, sfx);
            }
            return Err(ServerError::ParsingStream);
        }
        i = i + 1;
    }
    push_operand(&mut tokens, input, start, d, &suffix);
    Ok(tokens)
}

/// Splits `E@I` into tokens, turning each operand `X` of `E` into
/// `X@kline_I`.
///
/// Fails with `ParsingStream` when the input has no `@`, or when `E` holds
/// a character that is neither `+ - * /`, a parenthesis nor alphanumeric.
/// An empty operand between two operators gives no token.
pub fn parse(input: &str) -> (r: Result<Vec<Token>, ServerError>)
    ensures
        match tokenize(input@) {
            Some(ts) => r is Ok && views(r->Ok_0@) == ts,
            None => r == Err::<Vec<Token>, ServerError>(ServerError::ParsingStream),
        },
{
    let chars = chars_of(input);
    let mut alnum: Vec<bool> = Vec::new();
    let mut i: usize = 0;
    while i < chars.len()
        invariant
            chars@ == input@,
            i <= chars.len(),
            alnum@ == alnum_classes(input@).take(i as int),
        decreases chars.len() - i,
    {
        alnum.push(is_alphanumeric(chars[i]));
        i = i + 1;
        assert(alnum@ =~= alnum_classes(input@).take(i as int));
    }
    assert(alnum@ =~= alnum_classes(input@));
    parse_classified(input, &alnum)
}

/// Binding strength of a token on the operator stack: `+ -` bind at 1,
/// `* /` at 2, and `(` at 0, under every operator.
pub open spec fn precedence(t: TokenView) -> nat {
    match t {
        TokenView::Operator(Operator::Plus) | TokenView::Operator(Operator::Minus) => 1,
        TokenView::Operator(Operator::Multiply) | TokenView::Operator(Operator::Divide) => 2,
        _ => 0,
    }
}

/// State of the conversion to postfix: the output so far, the operator
/// stack (top last) and the number of unclosed `(`.
pub struct RpnState {
    pub out: Seq<TokenView>,
    pub stack: Seq<TokenView>,
    pub open: nat,
}

/// Moves stack entries that bind at least as strongly as `p` to the output.
pub open spec fn pop_while(out: Seq<TokenView>, stack: Seq<TokenView>, p: nat) -> (Seq<TokenView>, Seq<TokenView>)
    decreases stack.len(),
{
    if stack.len() > 0 && p <= precedence(stack.last()) {
        pop_while(out.push(stack.last()), stack.drop_last(), p)
    } else {
        (out, stack)
    }
}

/// Moves stack entries to the output up to the nearest `(`, which is
/// dropped.
pub open spec fn pop_group(out: Seq<TokenView>, stack: Seq<TokenView>) -> (Seq<TokenView>, Seq<TokenView>)
    decreases stack.len(),
{
    if stack.len() == 0 {
        (out, stack)
    } else if stack.last() is LeftParenthesis {
        (out, stack.drop_last())
    } else {
        pop_group(out.push(stack.last()), stack.drop_last())
    }
}

pub open spec fn rpn_step(st: RpnState, t: TokenView) -> Option<RpnState> {
    match t {
        TokenView::Operator(_) => {
            let (out, stack) = pop_while(st.out, st.stack, precedence(t));
            Some(RpnState { out, stack: stack.push(t), open: st.open })
        },
        TokenView::LeftParenthesis => Some(
            RpnState { out: st.out, stack: st.stack.push(t), open: st.open + 1 },
        ),
        TokenView::RightParenthesis => {
            if st.open == 0 {
                None
            } else {
                let (out, stack) = pop_group(st.out, st.stack);
                Some(RpnState { out, stack, open: (st.open - 1) as nat })
            }
        },
        TokenView::Operand(_) => Some(
            RpnState { out: st.out.push(t), stack: st.stack, open: st.open },
        ),
    }
}

pub open spec fn rpn_scan(ts: Seq<TokenView>) -> Option<RpnState>
    decreases ts.len(),
{
    if ts.len() == 0 {
        Some(RpnState { out: seq![], stack: seq![], open: 0 })
    } else {
        match rpn_scan(ts.drop_last()) {
            None => None,
            Some(st) => rpn_step(st, ts.last()),
        }
    }
}

/// The postfix form of `ts` by operator precedence (shunting-yard), or
/// `None` when its parentheses do not match.
pub open spec fn rpn(ts: Seq<TokenView>) -> Option<Seq<TokenView>> {
    match rpn_scan(ts) {
        None => None,
        Some(st) => if st.open != 0 {
            None
        } else {
            Some(st.out + st.stack.reverse())
        },
    }
}

fn precedence_of(t: &Token) -> (r: usize)
    ensures
        r == precedence(t@),
{
    match t {
        Token::Operator(Operator::Plus) | Token::Operator(Operator::Minus) => 1,
        Token::Operator(Operator::Multiply) | Token::Operator(Operator::Divide) => 2,
        _ => 0,
    }
}

/// Converts infix tokens to Reverse Polish Notation: operators by
/// precedence, left-associative, parentheses grouping; operands pass
/// through unchanged.
///
/// Fails with `ParsingStream` when a `)` has no matching `(` or a `(` is
/// never closed.
pub fn to_rpn(tokens: &[Token]) -> (r: Result<Vec<Token>, ServerError>)
    ensures
        match rpn(views(tokens@)) {
            Some(out) => r is Ok && views(r->Ok_0@) == out,
            None => r == Err::<Vec<Token>, ServerError>(ServerError::ParsingStream),
        },
{
    let mut rpn: Vec<Token> = Vec::new();
    let mut stack: Vec<Token> = Vec::new();
    let mut open: usize = 0;
    let ghost ts = views(tokens@);
    let mut i: usize = 0;
    assert(ts.take(0) =~= seq![]);
    assert(views(rpn@) =~= seq![]);
    assert(views(stack@) =~= seq![]);
    while i < tokens.len()
        invariant
            ts == views(tokens@),
            i <= tokens.len(),
            open <= i,
            rpn_scan(ts.take(i as int)) == Some(
                RpnState { out: views(rpn@), stack: views(stack@), open: open as nat },
            ),
        decreases tokens.len() - i,
    {
        let token = &tokens[i];
        assert(ts.take(i + 1).drop_last() =~= ts.take(i as int));
        assert(ts.take(i + 1).last() == token@);
        let ghost out0 = views(rpn@);
        let ghost stack0 = views(stack@);
        match token {
            Token::Operator(_) => {
                let p = precedence_of(token);
                while stack.len() > 0 && p <= precedence_of(&stack[stack.len() - 1])
                    invariant
                        pop_while(out0, stack0, p as nat) == pop_while(
                            views(rpn@),
                            views(stack@),
                            p as nat,
                        ),
                    decreases stack.len(),
                {
                    let ghost sv = views(stack@);
                    let ghost rv = views(rpn@);
                    let top = stack.pop().unwrap();
                    assert(views(stack@) =~= sv.drop_last());
                    rpn.push(top);
                    assert(views(rpn@) =~= rv.push(top@));
                }
                let ghost out1 = views(rpn@);
                let ghost stack1 = views(stack@);
                stack.push(token.clone());
                assert(views(stack@) =~= stack1.push(token@));
            },
            Token::LeftParenthesis => {
                stack.push(token.clone());
                assert(views(stack@) =~= stack0.push(token@));
                open = open + 1;
            },
            Token::RightParenthesis => {
                if open == 0 {
                    proof {
                        lemma_rpn_scan_failed(ts, i + 1);
                    }
                    return Err(ServerError::ParsingStream);
                }
                loop
                    invariant_except_break
                        pop_group(out0, stack0) == pop_group(views(rpn@), views(stack@)),
                    ensures
                        pop_group(out0, stack0) == (views(rpn@), views(stack@)),
                    decreases stack.len(),
                {
                    let ghost sv = views(stack@);
                    let ghost rv = views(rpn@);
                    match stack.pop() {
                        None => break,
                        Some(top) => {
                            assert(views(stack@) =~= sv.drop_last());
                            if let Token::LeftParenthesis = top {
                                break;
                            }
                            rpn.push(top);
                            assert(views(rpn@) =~= rv.push(top@));
                        },
                    }
                }
                open = open - 1;
            },
            Token::Operand(_) => {
                rpn.push(token.clone());
                assert(views(rpn@) =~= out0.push(token@));
            },
        }
        i = i + 1;
    }
    assert(ts.take(i as int) =~= ts);
    if open != 0 {
        return Err(ServerError::ParsingStream);
    }
    let ghost out1 = views(rpn@);
    let ghost stack1 = views(stack@);
    while stack.len() > 0
        invariant
            out1 + stack1.reverse() == views(rpn@) + views(stack@).reverse(),
        decreases stack.len(),
    {
        let ghost s0 = views(stack@);
        let ghost rv = views(rpn@);
        let top = stack.pop().unwrap();
        proof {
            assert(views(stack@) =~= s0.drop_last());
            assert(s0.reverse() =~= seq![top@] + s0.drop_last().reverse());
        }
        rpn.push(top);
        assert(views(rpn@) =~= rv.push(top@));
    }
    assert(views(stack@).reverse() =~= seq![]);
    assert(views(rpn@) + views(stack@).reverse() =~= views(rpn@));
    Ok(rpn)
}

proof fn lemma_rpn_scan_failed(ts: Seq<TokenView>, n: int)
    requires
        0 <= n <= ts.len(),
        rpn_scan(ts.take(n)) is None,
    ensures
        rpn_scan(ts) is None,
    decreases ts.len() - n,
{
    if n < ts.len() {
        assert(ts.take(n + 1).drop_last() =~= ts.take(n));
        lemma_rpn_scan_failed(ts, n + 1);
    } else {
        assert(ts.take(n) =~= ts);
    }
}

/// Nesting depth of parentheses after `ts`, or `None` once a `)` closes
/// nothing.
pub open spec fn paren_depth(ts: Seq<TokenView>) -> Option<nat>
    decreases ts.len(),
{
    if ts.len() == 0 {
        Some(0)
    } else {
        match paren_depth(ts.drop_last()) {
            None => None,
            Some(d) => match ts.last() {
                TokenView::LeftParenthesis => Some(d + 1),
                TokenView::RightParenthesis => if d == 0 {
                    None
                } else {
                    Some((d - 1) as nat)
                },
                _ => Some(d),
            },
        }
    }
}

/// Every `)` closes an earlier `(` and every `(` is closed.
pub open spec fn balanced(ts: Seq<TokenView>) -> bool {
    paren_depth(ts) == Some(0nat)
}

proof fn lemma_rpn_scan_depth(ts: Seq<TokenView>)
    ensures
        rpn_scan(ts) is Some <==> paren_depth(ts) is Some,
        rpn_scan(ts) is Some ==> rpn_scan(ts)->0.open == paren_depth(ts)->0,
    decreases ts.len(),
{
    if ts.len() > 0 {
        lemma_rpn_scan_depth(ts.drop_last());
    }
}

/// Tokens whose parentheses do not match have no postfix form, and those
/// whose parentheses match always have one: `to_rpn` fails with
/// `ParsingStream` exactly on unbalanced input.
pub proof fn unbalanced_parentheses_rejected(ts: Seq<TokenView>)
    ensures
        rpn(ts) is None <==> !balanced(ts),
{
    lemma_rpn_scan_depth(ts);
}

/// A character that separates operands: an operator or a parenthesis.
pub open spec fn is_separator(c: char) -> bool {
    operator_of(c) is Some || c == '(' || c == ')'
}

/// `t`, if an operand, is a non-empty name free of separators followed by
/// `suffix`.
pub open spec fn suffixed(t: TokenView, suffix: Seq<char>) -> bool {
    t is Operand ==> {
        let x = t->Operand_0;
        let n = x.len() - suffix.len();
        &&& n > 0
        &&& x.subrange(n, x.len() as int) == suffix
        &&& forall|j: int| 0 <= j < n ==> !is_separator(#[trigger] x[j])
    }
}

pub open spec fn all_suffixed(ts: Seq<TokenView>, suffix: Seq<char>) -> bool {
    forall|i: int| 0 <= i < ts.len() ==> suffixed(#[trigger] ts[i], suffix)
}

proof fn lemma_flush_suffixed(ts: Seq<TokenView>, buf: Seq<char>, suffix: Seq<char>)
    requires
        all_suffixed(ts, suffix),
        forall|j: int| 0 <= j < buf.len() ==> !is_separator(#[trigger] buf[j]),
    ensures
        all_suffixed(flush(ts, buf, suffix), suffix),
{
    if buf.len() > 0 {
        let f = flush(ts, buf, suffix);
        assert forall|i: int| 0 <= i < f.len() implies suffixed(#[trigger] f[i], suffix) by {
            if i == ts.len() {
                let x = buf + suffix;
                assert(x.subrange(buf.len() as int, x.len() as int) =~= suffix);
                assert forall|j: int| 0 <= j < buf.len() implies !is_separator(#[trigger] x[j]) by {
                    assert(x[j] == buf[j]);
                }
            }
        }
    }
}

proof fn lemma_scan_suffixed(text: Seq<char>, alnum: Seq<bool>, suffix: Seq<char>)
    requires
        scan(text, alnum, suffix) is Some,
    ensures
        all_suffixed((scan(text, alnum, suffix)->0).0, suffix),
        forall|j: int|
            0 <= j < (scan(text, alnum, suffix)->0).1.len() ==> !is_separator(
                #[trigger] (scan(text, alnum, suffix)->0).1[j],
            ),
    decreases text.len(),
{
    if text.len() > 0 {
        lemma_scan_suffixed(text.drop_last(), alnum, suffix);
        let st = scan(text.drop_last(), alnum, suffix)->0;
        let c = text.last();
        lemma_flush_suffixed(st.0, st.1, suffix);
        let f = flush(st.0, st.1, suffix);
        if is_separator(c) {
            let t = if operator_of(c) is Some {
                TokenView::Operator(operator_of(c)->0)
            } else if c == '(' {
                TokenView::LeftParenthesis
            } else {
                TokenView::RightParenthesis
            };
            assert((scan(text, alnum, suffix)->0).0 == f.push(t));
            assert forall|i: int| 0 <= i < f.push(t).len() implies suffixed(
                #[trigger] f.push(t)[i],
                suffix,
            ) by {
                if i < f.len() {
                    assert(f.push(t)[i] == f[i]);
                }
            }
        } else if alnum[text.len() - 1] {
            let b = st.1.push(c);
            assert forall|j: int| 0 <= j < b.len() implies !is_separator(#[trigger] b[j]) by {
                if j < st.1.len() {
                    assert(b[j] == st.1[j]);
                }
            }
        }
    }
}

/// Every token of the tokenization of `E@I` that is an operand is a
/// non-empty separator-free name followed by `@kline_I`.
proof fn lemma_tokenize_suffixed(input: Seq<char>)
    requires
        tokenize(input) is Some,
    ensures
        all_suffixed(
            tokenize(input)->0,
            stream_suffix(input.subrange(last_at(input) + 1, input.len() as int)),
        ),
{
    let d = last_at(input);
    let suffix = stream_suffix(input.subrange(d + 1, input.len() as int));
    lemma_scan_suffixed(input.subrange(0, d), alnum_classes(input), suffix);
    let st = scan(input.subrange(0, d), alnum_classes(input), suffix)->0;
    lemma_flush_suffixed(st.0, st.1, suffix);
}

/// Every token is one that `pred` accepts.
pub open spec fn all_tokens(ts: Seq<TokenView>, pred: spec_fn(TokenView) -> bool) -> bool {
    forall|i: int| 0 <= i < ts.len() ==> pred(#[trigger] ts[i])
}

proof fn lemma_all_tokens_push(ts: Seq<TokenView>, t: TokenView, pred: spec_fn(TokenView) -> bool)
    requires
        all_tokens(ts, pred),
        pred(t),
    ensures
        all_tokens(ts.push(t), pred),
{
    assert forall|i: int| 0 <= i < ts.push(t).len() implies pred(#[trigger] ts.push(t)[i]) by {
        if i < ts.len() {
            assert(ts.push(t)[i] == ts[i]);
        }
    }
}

proof fn lemma_all_tokens_drop_last(ts: Seq<TokenView>, pred: spec_fn(TokenView) -> bool)
    requires
        all_tokens(ts, pred),
        ts.len() > 0,
    ensures
        all_tokens(ts.drop_last(), pred),
        pred(ts.last()),
{
    assert forall|i: int| 0 <= i < ts.drop_last().len() implies pred(
        #[trigger] ts.drop_last()[i],
    ) by {
        assert(ts.drop_last()[i] == ts[i]);
    }
}

proof fn lemma_pop_while_keeps(out: Seq<TokenView>, stack: Seq<TokenView>, p: nat, pred: spec_fn(TokenView) -> bool)
    requires
        all_tokens(out, pred),
        all_tokens(stack, pred),
    ensures
        all_tokens(pop_while(out, stack, p).0, pred),
        all_tokens(pop_while(out, stack, p).1, pred),
    decreases stack.len(),
{
    if stack.len() > 0 && p <= precedence(stack.last()) {
        lemma_all_tokens_drop_last(stack, pred);
        lemma_all_tokens_push(out, stack.last(), pred);
        lemma_pop_while_keeps(out.push(stack.last()), stack.drop_last(), p, pred);
    }
}

proof fn lemma_pop_group_keeps(out: Seq<TokenView>, stack: Seq<TokenView>, pred: spec_fn(TokenView) -> bool)
    requires
        all_tokens(out, pred),
        all_tokens(stack, pred),
    ensures
        all_tokens(pop_group(out, stack).0, pred),
        all_tokens(pop_group(out, stack).1, pred),
    decreases stack.len(),
{
    if stack.len() > 0 {
        lemma_all_tokens_drop_last(stack, pred);
        if !(stack.last() is LeftParenthesis) {
            lemma_all_tokens_push(out, stack.last(), pred);
            lemma_pop_group_keeps(out.push(stack.last()), stack.drop_last(), pred);
        }
    }
}

proof fn lemma_rpn_scan_keeps(ts: Seq<TokenView>, pred: spec_fn(TokenView) -> bool)
    requires
        all_tokens(ts, pred),
        rpn_scan(ts) is Some,
    ensures
        all_tokens(rpn_scan(ts)->0.out, pred),
        all_tokens(rpn_scan(ts)->0.stack, pred),
    decreases ts.len(),
{
    if ts.len() > 0 {
        lemma_all_tokens_drop_last(ts, pred);
        lemma_rpn_scan_keeps(ts.drop_last(), pred);
        let st = rpn_scan(ts.drop_last())->0;
        let t = ts.last();
        match t {
            TokenView::Operator(_) => {
                lemma_pop_while_keeps(st.out, st.stack, precedence(t), pred);
                lemma_all_tokens_push(pop_while(st.out, st.stack, precedence(t)).1, t, pred);
            },
            TokenView::LeftParenthesis => {
                lemma_all_tokens_push(st.stack, t, pred);
            },
            TokenView::RightParenthesis => {
                lemma_pop_group_keeps(st.out, st.stack, pred);
            },
            TokenView::Operand(_) => {
                lemma_all_tokens_push(st.out, t, pred);
            },
        }
    }
}

/// Postfix conversion only reorders tokens: whatever holds of every input
/// token holds of every output token.
pub proof fn rpn_keeps_tokens(ts: Seq<TokenView>, pred: spec_fn(TokenView) -> bool)
    requires
        all_tokens(ts, pred),
        rpn(ts) is Some,
    ensures
        all_tokens(rpn(ts)->0, pred),
{
    lemma_rpn_scan_keeps(ts, pred);
    let st = rpn_scan(ts)->0;
    let r = st.out + st.stack.reverse();
    assert forall|i: int| 0 <= i < r.len() implies pred(#[trigger] r[i]) by {
        if i < st.out.len() {
            assert(r[i] == st.out[i]);
        } else {
            assert(r[i] == st.stack[st.stack.len() - 1 - (i - st.out.len())]);
        }
    }
}

/// Every operand of the postfix plan of `E@I` ends in `@kline_I` after a
/// non-empty name free of `+ - * / ( )`; when `I` itself is free of those
/// characters, so is the whole operand.
pub proof fn operands_carry_stream_suffix(input: Seq<char>)
    requires
        tokenize(input) is Some,
        rpn(tokenize(input)->0) is Some,
    ensures
        ({
            let interval = input.subrange(last_at(input) + 1, input.len() as int);
            let out = rpn(tokenize(input)->0)->0;
            &&& all_suffixed(out, stream_suffix(interval))
            &&& (forall|j: int| 0 <= j < interval.len() ==> !is_separator(#[trigger] interval[j]))
                ==> forall|i: int, j: int|
                0 <= i < out.len() && out[i] is Operand && 0 <= j < out[i]->Operand_0.len()
                    ==> !is_separator(#[trigger] out[i]->Operand_0[j])
        }),
{
    let interval = input.subrange(last_at(input) + 1, input.len() as int);
    let suffix = stream_suffix(interval);
    lemma_tokenize_suffixed(input);
    let pred = |t: TokenView| suffixed(t, suffix);
    rpn_keeps_tokens(tokenize(input)->0, pred);
    let out = rpn(tokenize(input)->0)->0;
    assert(all_suffixed(out, suffix)) by {
        assert forall|i: int| 0 <= i < out.len() implies suffixed(#[trigger] out[i], suffix) by {
            assert(pred(out[i]));
        }
    }
    if forall|j: int| 0 <= j < interval.len() ==> !is_separator(#[trigger] interval[j]) {
        assert forall|i: int, j: int|
            0 <= i < out.len() && out[i] is Operand && 0 <= j < out[i]->Operand_0.len()
                implies !is_separator(#[trigger] out[i]->Operand_0[j]) by {
            assert(suffixed(out[i], suffix));
            let x = out[i]->Operand_0;
            let n = x.len() - suffix.len();
            if j >= n {
                assert(x[j] == x.subrange(n, x.len() as int)[j - n]);
                if j - n >= 7 {
                    assert(suffix[j - n] == interval[j - n - 7]);
                } else {
                    assert(suffix[j - n] == kline_marker()[j - n]);
                }
            }
        }
    }
}

} // verus!
