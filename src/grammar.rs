//! Expression trees, and the proof that the conversion to postfix gives
//! the standard postfix form of every infix expression written with the
//! usual precedence.
use crate::expr::{
    alnum_classes, alphanumeric, flush, is_separator, last_at, operator_of, pop_group, pop_while,
    precedence, rpn, rpn_scan, rpn_step, scan, scan_char, stream_suffix, symbol_of, tokenize,
    Operator, RpnState, TokenView,
};
use crate::plan::compiled;
use vstd::prelude::*;

verus! {

/// An expression tree over operands; `Group` is a parenthesized
/// sub-expression.
pub enum Expr {
    Leaf(Seq<char>),
    Bin(Operator, Box<Expr>, Box<Expr>),
    Group(Box<Expr>),
}

/// The tokens that write `e` in infix form.
pub open spec fn infix(e: Expr) -> Seq<TokenView>
    decreases e,
{
    match e {
        Expr::Leaf(x) => seq![TokenView::Operand(x)],
        Expr::Bin(op, l, r) => infix(*l) + seq![TokenView::Operator(op)] + infix(*r),
        Expr::Group(g) => seq![TokenView::LeftParenthesis] + infix(*g) + seq![
            TokenView::RightParenthesis,
        ],
    }
}

/// The standard postfix form of `e`: both operands, then the operator.
pub open spec fn postfix(e: Expr) -> Seq<TokenView>
    decreases e,
{
    match e {
        Expr::Leaf(x) => seq![TokenView::Operand(x)],
        Expr::Bin(op, l, r) => postfix(*l) + postfix(*r) + seq![TokenView::Operator(op)],
        Expr::Group(g) => postfix(*g),
    }
}

pub open spec fn operator_precedence(op: Operator) -> nat {
    precedence(TokenView::Operator(op))
}

/// How strongly the top of `e` binds: its operator, or above every
/// operator for an operand or a group.
pub open spec fn level(e: Expr) -> nat {
    match e {
        Expr::Bin(op, _, _) => operator_precedence(op),
        _ => 3,
    }
}

/// `e` is what its infix form means under the usual rules: a left operand
/// binds at least as strongly as its operator (left associativity), a right
/// operand strictly more strongly; anything else needs a group.
pub open spec fn well_formed(e: Expr) -> bool
    decreases e,
{
    match e {
        Expr::Leaf(_) => true,
        Expr::Bin(op, l, r) => well_formed(*l) && well_formed(*r) && level(*l)
            >= operator_precedence(op) && level(*r) > operator_precedence(op),
        Expr::Group(g) => well_formed(*g),
    }
}

/// Operators of `e` still on the stack once its infix form has been read.
pub open spec fn pending(e: Expr) -> Seq<TokenView>
    decreases e,
{
    match e {
        Expr::Bin(op, _, r) => seq![TokenView::Operator(op)] + pending(*r),
        _ => seq![],
    }
}

/// Output produced while the infix form of `e` is read.
pub open spec fn emitted(e: Expr) -> Seq<TokenView>
    decreases e,
{
    match e {
        Expr::Leaf(x) => seq![TokenView::Operand(x)],
        Expr::Bin(_, l, r) => emitted(*l) + pending(*l).reverse() + emitted(*r),
        Expr::Group(g) => postfix(*g),
    }
}

/// Runs the conversion to postfix over `ts` from state `st`.
pub open spec fn rpn_run(st: Option<RpnState>, ts: Seq<TokenView>) -> Option<RpnState>
    decreases ts.len(),
{
    if ts.len() == 0 {
        st
    } else {
        match rpn_run(st, ts.drop_last()) {
            None => None,
            Some(s) => rpn_step(s, ts.last()),
        }
    }
}

proof fn lemma_rpn_run_scan(ts: Seq<TokenView>)
    ensures
        rpn_scan(ts) == rpn_run(Some(RpnState { out: seq![], stack: seq![], open: 0 }), ts),
    decreases ts.len(),
{
    if ts.len() > 0 {
        lemma_rpn_run_scan(ts.drop_last());
    }
}

proof fn lemma_rpn_run_append(st: Option<RpnState>, a: Seq<TokenView>, b: Seq<TokenView>)
    ensures
        rpn_run(st, a + b) == rpn_run(rpn_run(st, a), b),
    decreases b.len(),
{
    if b.len() == 0 {
        assert(a + b =~= a);
    } else {
        assert((a + b).drop_last() =~= a + b.drop_last());
        assert((a + b).last() == b.last());
        lemma_rpn_run_append(st, a, b.drop_last());
    }
}

proof fn lemma_rpn_run_one(st: RpnState, t: TokenView)
    ensures
        rpn_run(Some(st), seq![t]) == rpn_step(st, t),
{
    assert(seq![t].drop_last() =~= seq![]);
    assert(rpn_run(Some(st), seq![t].drop_last()) == Some(st));
    assert(seq![t].last() == t);
}

proof fn lemma_postfix_split(e: Expr)
    ensures
        postfix(e) == emitted(e) + pending(e).reverse(),
    decreases e,
{
    match e {
        Expr::Leaf(_) => {
            assert(emitted(e) + pending(e).reverse() =~= emitted(e));
        },
        Expr::Group(_) => {
            assert(emitted(e) + pending(e).reverse() =~= emitted(e));
        },
        Expr::Bin(op, l, r) => {
            lemma_postfix_split(*l);
            lemma_postfix_split(*r);
            let o = seq![TokenView::Operator(op)];
            assert((o + pending(*r)).reverse() =~= pending(*r).reverse() + o);
            assert(postfix(e) =~= emitted(e) + pending(e).reverse());
        },
    }
}

/// Pending operators bind at least as strongly as `e` itself.
proof fn lemma_pending_operators(e: Expr)
    requires
        well_formed(e),
    ensures
        forall|i: int|
            0 <= i < pending(e).len() ==> pending(e)[i] is Operator && precedence(
                #[trigger] pending(e)[i],
            ) >= level(e),
    decreases e,
{
    if let Expr::Bin(op, l, r) = e {
        lemma_pending_operators(*r);
        let o = seq![TokenView::Operator(op)];
        assert forall|i: int| 0 <= i < pending(e).len() implies pending(e)[i] is Operator
            && precedence(#[trigger] pending(e)[i]) >= level(e) by {
            if i > 0 {
                assert(pending(e)[i] == pending(*r)[i - 1]);
            }
        }
    }
}

proof fn lemma_pop_while_spine(out: Seq<TokenView>, stack: Seq<TokenView>, spine: Seq<TokenView>, p: nat)
    requires
        p >= 1,
        forall|i: int| 0 <= i < spine.len() ==> precedence(#[trigger] spine[i]) >= p,
        stack.len() == 0 || precedence(stack.last()) < p,
    ensures
        pop_while(out, stack + spine, p) == (out + spine.reverse(), stack),
    decreases spine.len(),
{
    if spine.len() == 0 {
        assert(stack + spine =~= stack);
        assert(out + spine.reverse() =~= out);
    } else {
        let s = stack + spine;
        assert(s.last() == spine.last());
        assert(s.drop_last() =~= stack + spine.drop_last());
        assert(out + spine.reverse() =~= out.push(spine.last()) + spine.drop_last().reverse());
        lemma_pop_while_spine(out.push(spine.last()), stack, spine.drop_last(), p);
    }
}

proof fn lemma_pop_group_spine(out: Seq<TokenView>, stack: Seq<TokenView>, spine: Seq<TokenView>)
    requires
        forall|i: int| 0 <= i < spine.len() ==> (#[trigger] spine[i]) is Operator,
    ensures
        pop_group(out, stack.push(TokenView::LeftParenthesis) + spine) == (
            out + spine.reverse(),
            stack,
        ),
    decreases spine.len(),
{
    let s = stack.push(TokenView::LeftParenthesis) + spine;
    if spine.len() == 0 {
        assert(s =~= stack.push(TokenView::LeftParenthesis));
        assert(out + spine.reverse() =~= out);
        assert(s.drop_last() =~= stack);
    } else {
        assert(s.last() == spine.last());
        assert(s.drop_last() =~= stack.push(TokenView::LeftParenthesis) + spine.drop_last());
        assert(out + spine.reverse() =~= out.push(spine.last()) + spine.drop_last().reverse());
        lemma_pop_group_spine(out.push(spine.last()), stack, spine.drop_last());
    }
}

/// Reading the infix form of `e` on top of a stack whose top binds less
/// strongly than `e` adds `emitted(e)` to the output and `pending(e)` to
/// the stack.
proof fn lemma_read_infix(e: Expr, st: RpnState)
    requires
        well_formed(e),
        st.stack.len() == 0 || precedence(st.stack.last()) < level(e),
        forall|i: int| 0 <= i < st.stack.len() ==> precedence(#[trigger] st.stack[i]) <= 2,
    ensures
        rpn_run(Some(st), infix(e)) == Some(
            RpnState { out: st.out + emitted(e), stack: st.stack + pending(e), open: st.open },
        ),
    decreases e,
{
    match e {
        Expr::Leaf(x) => {
            lemma_rpn_run_one(st, TokenView::Operand(x));
            assert(st.stack + pending(e) =~= st.stack);
            assert(st.out.push(TokenView::Operand(x)) =~= st.out + emitted(e));
        },
        Expr::Bin(op, l, r) => {
            let o = seq![TokenView::Operator(op)];
            lemma_rpn_run_append(Some(st), infix(*l) + o, infix(*r));
            lemma_rpn_run_append(Some(st), infix(*l), o);
            lemma_read_infix(*l, st);
            let st1 = RpnState {
                out: st.out + emitted(*l),
                stack: st.stack + pending(*l),
                open: st.open,
            };
            lemma_rpn_run_one(st1, TokenView::Operator(op));
            lemma_pending_operators(*l);
            lemma_pop_while_spine(st.out + emitted(*l), st.stack, pending(*l), operator_precedence(op));
            let st2 = RpnState {
                out: st.out + emitted(*l) + pending(*l).reverse(),
                stack: st.stack.push(TokenView::Operator(op)),
                open: st.open,
            };
            assert(rpn_run(Some(st), infix(*l) + o) == Some(st2));
            assert forall|i: int| 0 <= i < st2.stack.len() implies precedence(
                #[trigger] st2.stack[i],
            ) <= 2 by {
                if i < st.stack.len() {
                    assert(st2.stack[i] == st.stack[i]);
                }
            }
            lemma_read_infix(*r, st2);
            assert(st2.out + emitted(*r) =~= st.out + emitted(e));
            assert(st2.stack + pending(*r) =~= st.stack + pending(e));
            assert(infix(e) == infix(*l) + o + infix(*r));
        },
        Expr::Group(g) => {
            let lp = seq![TokenView::LeftParenthesis];
            let rp = seq![TokenView::RightParenthesis];
            lemma_rpn_run_append(Some(st), lp + infix(*g), rp);
            lemma_rpn_run_append(Some(st), lp, infix(*g));
            lemma_rpn_run_one(st, TokenView::LeftParenthesis);
            let st1 = RpnState {
                out: st.out,
                stack: st.stack.push(TokenView::LeftParenthesis),
                open: st.open + 1,
            };
            assert forall|i: int| 0 <= i < st1.stack.len() implies precedence(
                #[trigger] st1.stack[i],
            ) <= 2 by {
                if i < st.stack.len() {
                    assert(st1.stack[i] == st.stack[i]);
                }
            }
            lemma_read_infix(*g, st1);
            let st2 = RpnState {
                out: st.out + emitted(*g),
                stack: st1.stack + pending(*g),
                open: st.open + 1,
            };
            lemma_rpn_run_one(st2, TokenView::RightParenthesis);
            lemma_pending_operators(*g);
            lemma_pop_group_spine(st.out + emitted(*g), st.stack, pending(*g));
            lemma_postfix_split(*g);
            assert(st.out + emitted(*g) + pending(*g).reverse() =~= st.out + emitted(e));
            assert(st.stack + pending(e) =~= st.stack);
            assert(infix(e) == lp + infix(*g) + rp);
        },
    }
}

/// For every expression written with the usual precedence and left
/// associativity, the conversion gives its standard postfix form
/// (`a - b - c` gives `a b - c -`).
pub proof fn rpn_is_standard_postfix(e: Expr)
    requires
        well_formed(e),
    ensures
        rpn(infix(e)) == Some(postfix(e)),
{
    let init = RpnState { out: seq![], stack: seq![], open: 0 };
    lemma_rpn_run_scan(infix(e));
    lemma_read_infix(e, init);
    lemma_postfix_split(e);
    assert(init.out + emitted(e) =~= emitted(e));
    assert(init.stack + pending(e) =~= pending(e));
}

/// The text that writes `e`, operands by name.
pub open spec fn text(e: Expr) -> Seq<char>
    decreases e,
{
    match e {
        Expr::Leaf(x) => x,
        Expr::Bin(op, l, r) => text(*l) + seq![symbol_of(op)] + text(*r),
        Expr::Group(g) => seq!['('] + text(*g) + seq![')'],
    }
}

/// `e` with `suffix` after every operand name.
pub open spec fn with_suffix(e: Expr, suffix: Seq<char>) -> Expr
    decreases e,
{
    match e {
        Expr::Leaf(x) => Expr::Leaf(x + suffix),
        Expr::Bin(op, l, r) => Expr::Bin(
            op,
            Box::new(with_suffix(*l, suffix)),
            Box::new(with_suffix(*r, suffix)),
        ),
        Expr::Group(g) => Expr::Group(Box::new(with_suffix(*g, suffix))),
    }
}

/// A character an operand name may hold.
pub open spec fn name_char(c: char) -> bool {
    alphanumeric(c) && !is_separator(c) && c != '@'
}

/// Every operand of `e` has a non-empty name of name characters.
pub open spec fn plain_names(e: Expr) -> bool
    decreases e,
{
    match e {
        Expr::Leaf(x) => x.len() > 0 && forall|i: int| 0 <= i < x.len() ==> name_char(#[trigger] x[i]),
        Expr::Bin(_, l, r) => plain_names(*l) && plain_names(*r),
        Expr::Group(g) => plain_names(*g),
    }
}

proof fn lemma_with_suffix_well_formed(e: Expr, suffix: Seq<char>)
    requires
        well_formed(e),
    ensures
        well_formed(with_suffix(e, suffix)),
        level(with_suffix(e, suffix)) == level(e),
    decreases e,
{
    match e {
        Expr::Leaf(_) => {},
        Expr::Bin(_, l, r) => {
            lemma_with_suffix_well_formed(*l, suffix);
            lemma_with_suffix_well_formed(*r, suffix);
        },
        Expr::Group(g) => {
            lemma_with_suffix_well_formed(*g, suffix);
        },
    }
}

proof fn lemma_text_chars(e: Expr)
    requires
        plain_names(e),
    ensures
        forall|i: int| 0 <= i < text(e).len() ==> #[trigger] text(e)[i] != '@',
    decreases e,
{
    match e {
        Expr::Leaf(x) => {
            assert forall|i: int| 0 <= i < text(e).len() implies #[trigger] text(e)[i] != '@' by {
                assert(name_char(x[i]));
            }
        },
        Expr::Bin(op, l, r) => {
            lemma_text_chars(*l);
            lemma_text_chars(*r);
            let a = text(*l);
            let b = text(*r);
            assert forall|i: int| 0 <= i < text(e).len() implies #[trigger] text(e)[i] != '@' by {
                if i < a.len() {
                    assert(text(e)[i] == a[i]);
                } else if i > a.len() {
                    assert(text(e)[i] == b[i - a.len() - 1]);
                }
            }
        },
        Expr::Group(g) => {
            lemma_text_chars(*g);
            let a = text(*g);
            assert forall|i: int| 0 <= i < text(e).len() implies #[trigger] text(e)[i] != '@' by {
                if 0 < i < a.len() + 1 {
                    assert(text(e)[i] == a[i - 1]);
                }
            }
        },
    }
}

proof fn lemma_last_at_split(p: Seq<char>, q: Seq<char>)
    requires
        forall|i: int| 0 <= i < q.len() ==> #[trigger] q[i] != '@',
    ensures
        last_at(p + seq!['@'] + q) == p.len(),
    decreases q.len(),
{
    let s = p + seq!['@'] + q;
    if q.len() == 0 {
        assert(s.drop_last() =~= p);
        assert(s.last() == '@');
    } else {
        assert(s.drop_last() =~= p + seq!['@'] + q.drop_last());
        assert(s.last() == q[q.len() - 1]);
        lemma_last_at_split(p, q.drop_last());
    }
}

/// The alphanumeric flags of a text agree with `alnum` on its positions.
pub open spec fn classes_agree(t: Seq<char>, alnum: Seq<bool>) -> bool {
    t.len() <= alnum.len() && forall|i: int| 0 <= i < t.len() ==> alnum[i] == alphanumeric(
        #[trigger] t[i],
    )
}

proof fn lemma_scan_push(p: Seq<char>, c: char, alnum: Seq<bool>, suffix: Seq<char>)
    requires
        p.len() < alnum.len(),
        scan(p, alnum, suffix) is Some,
    ensures
        scan(p.push(c), alnum, suffix) == scan_char(
            (scan(p, alnum, suffix)->0).0,
            (scan(p, alnum, suffix)->0).1,
            c,
            alnum[p.len() as int],
            suffix,
        ),
{
    assert(p.push(c).drop_last() =~= p);
}

proof fn lemma_scan_name(p: Seq<char>, x: Seq<char>, alnum: Seq<bool>, suffix: Seq<char>, ts: Seq<TokenView>, b: Seq<char>)
    requires
        scan(p, alnum, suffix) == Some((ts, b)),
        classes_agree(p + x, alnum),
        forall|i: int| 0 <= i < x.len() ==> name_char(#[trigger] x[i]),
    ensures
        scan(p + x, alnum, suffix) == Some((ts, b + x)),
    decreases x.len(),
{
    if x.len() == 0 {
        assert(p + x =~= p);
        assert(b + x =~= b);
    } else {
        let y = x.drop_last();
        let c = x.last();
        assert(p + x =~= (p + y).push(c));
        assert forall|i: int| 0 <= i < (p + y).len() implies alnum[i] == alphanumeric(
            #[trigger] (p + y)[i],
        ) by {
            assert((p + y)[i] == (p + x)[i]);
        }
        assert forall|i: int| 0 <= i < y.len() implies name_char(#[trigger] y[i]) by {
            assert(y[i] == x[i]);
        }
        lemma_scan_name(p, y, alnum, suffix, ts, b);
        assert(name_char(x[x.len() - 1]));
        assert((p + x)[(p + y).len() as int] == c);
        lemma_scan_push(p + y, c, alnum, suffix);
        assert(b + x =~= (b + y).push(c));
    }
}

/// Scanning the text of `e` after a prefix that left no pending operand
/// adds the infix tokens of `e` (operands suffixed), the last operand
/// possibly still pending; a separator emits it.
proof fn lemma_scan_expr(e: Expr, p: Seq<char>, alnum: Seq<bool>, suffix: Seq<char>, ts: Seq<TokenView>)
    requires
        plain_names(e),
        scan(p, alnum, suffix) == Some((ts, Seq::<char>::empty())),
        classes_agree(p + text(e), alnum),
    ensures
        scan(p + text(e), alnum, suffix) is Some,
        ({
            let st = scan(p + text(e), alnum, suffix)->0;
            flush(st.0, st.1, suffix) == ts + infix(with_suffix(e, suffix))
        }),
    decreases e,
{
    match e {
        Expr::Leaf(x) => {
            lemma_scan_name(p, x, alnum, suffix, ts, seq![]);
            assert(Seq::<char>::empty() + x =~= x);
            assert(ts.push(TokenView::Operand(x + suffix)) =~= ts + infix(with_suffix(e, suffix)));
        },
        Expr::Bin(op, l, r) => {
            let a = text(*l);
            let c = symbol_of(op);
            let pa = p + a;
            assert(p + text(e) =~= pa.push(c) + text(*r));
            assert forall|i: int| 0 <= i < pa.len() implies alnum[i] == alphanumeric(#[trigger] pa[i]) by {
                assert(pa[i] == (p + text(e))[i]);
            }
            lemma_scan_expr(*l, p, alnum, suffix, ts);
            lemma_scan_push(pa, c, alnum, suffix);
            assert(operator_of(c) == Some(op));
            let ts2 = ts + infix(with_suffix(*l, suffix)) + seq![TokenView::Operator(op)];
            assert(flush(ts, seq![], suffix) == ts);
            let st = scan(pa, alnum, suffix)->0;
            assert(flush(st.0, st.1, suffix).push(TokenView::Operator(op)) =~= ts2);
            assert(scan(pa.push(c), alnum, suffix) == Some((ts2, Seq::<char>::empty())));
            lemma_scan_expr(*r, pa.push(c), alnum, suffix, ts2);
            assert(ts2 + infix(with_suffix(*r, suffix)) =~= ts + infix(with_suffix(e, suffix)));
        },
        Expr::Group(g) => {
            let inner_start = p.push('(');
            let a = text(*g);
            assert(p + text(e) =~= (inner_start + a).push(')'));
            assert(alnum[p.len() as int] == alphanumeric((p + text(e))[p.len() as int]));
            assert(scan(p, alnum, suffix)->0 == (ts, Seq::<char>::empty()));
            lemma_scan_push(p, '(', alnum, suffix);
            let ts1 = ts.push(TokenView::LeftParenthesis);
            assert(scan(inner_start, alnum, suffix) == Some((ts1, Seq::<char>::empty())));
            assert forall|i: int| 0 <= i < (inner_start + a).len() implies alnum[i] == alphanumeric(
                #[trigger] (inner_start + a)[i],
            ) by {
                assert((inner_start + a)[i] == (p + text(e))[i]);
            }
            lemma_scan_expr(*g, inner_start, alnum, suffix, ts1);
            lemma_scan_push(inner_start + a, ')', alnum, suffix);
            let st = scan(inner_start + a, alnum, suffix)->0;
            assert(flush(st.0, st.1, suffix).push(TokenView::RightParenthesis) =~= ts + infix(
                with_suffix(e, suffix),
            ));
        },
    }
}

/// For every expression written with the usual precedence over
/// alphanumeric operand names, and every interval `I` without `@`,
/// compiling its text `E@I` gives the standard postfix form of the
/// expression with `@kline_I` after each operand.
pub proof fn compile_is_standard_postfix(e: Expr, interval: Seq<char>)
    requires
        well_formed(e),
        plain_names(e),
        forall|i: int| 0 <= i < interval.len() ==> #[trigger] interval[i] != '@',
    ensures
        ({
            let input = text(e) + seq!['@'] + interval;
            let e2 = with_suffix(e, stream_suffix(interval));
            &&& tokenize(input) == Some(infix(e2))
            &&& compiled(input) == Some(postfix(e2))
        }),
{
    let t = text(e);
    let input = t + seq!['@'] + interval;
    let suffix = stream_suffix(interval);
    let alnum = alnum_classes(input);
    lemma_last_at_split(t, interval);
    assert(input.subrange(0, t.len() as int) =~= t);
    assert(input.subrange(t.len() as int + 1, input.len() as int) =~= interval);
    assert(scan(Seq::<char>::empty(), alnum, suffix) == Some((Seq::<TokenView>::empty(), Seq::<char>::empty())));
    assert(Seq::<char>::empty() + t =~= t);
    assert forall|i: int| 0 <= i < t.len() implies alnum[i] == alphanumeric(#[trigger] t[i]) by {
        assert(input[i] == t[i]);
    }
    lemma_scan_expr(e, Seq::<char>::empty(), alnum, suffix, Seq::<TokenView>::empty());
    let e2 = with_suffix(e, suffix);
    assert(Seq::<TokenView>::empty() + infix(e2) =~= infix(e2));
    lemma_with_suffix_well_formed(e, suffix);
    rpn_is_standard_postfix(e2);
}

} // verus!
