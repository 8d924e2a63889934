//! Compiled expressions, and one evaluation of a plan on aligned candles.
use crate::candle::{
    combined, no_zero, perform_operation, some_zero, total_arith, total_test, Candle, Operation,
};
use crate::error::ServerError;
use crate::expr::{
    alnum_classes, flush, last_at, paren_depth, parse, rpn, scan, stream_suffix, to_rpn, tokenize,
    unbalanced_parentheses_rejected, views, Operator, Token, TokenView,
};
use vstd::prelude::*;

verus! {

/// A compiled client expression: the postfix token list, the distinct
/// operand stream identifiers in first-seen order, and the expression as
/// the client wrote it.
pub struct ExpressionPlan {
    pub rpn: Vec<Token>,
    pub operands: Vec<String>,
    pub stream: String,
}

pub open spec fn string_views(v: Seq<String>) -> Seq<Seq<char>> {
    v.map_values(|s: String| s@)
}

impl ExpressionPlan {
    pub open spec fn names(&self) -> Seq<Seq<char>> {
        string_views(self.operands@)
    }
}

/// The distinct operands of `ts`, in order of first occurrence.
pub open spec fn distinct_operands(ts: Seq<TokenView>) -> Seq<Seq<char>>
    decreases ts.len(),
{
    if ts.len() == 0 {
        seq![]
    } else {
        let prev = distinct_operands(ts.drop_last());
        match ts.last() {
            TokenView::Operand(x) => if prev.contains(x) {
                prev
            } else {
                prev.push(x)
            },
            _ => prev,
        }
    }
}

/// The postfix plan of a client stream `E@I`, if it compiles.
pub open spec fn compiled(input: Seq<char>) -> Option<Seq<TokenView>> {
    match tokenize(input) {
        None => None,
        Some(ts) => rpn(ts),
    }
}

fn contains_name(names: &Vec<String>, x: &String) -> (r: Option<usize>)
    ensures
        match r {
            Some(j) => j < names.len() && names@[j as int]@ == x@,
            None => !string_views(names@).contains(x@),
        },
{
    let mut j: usize = 0;
    while j < names.len()
        invariant
            j <= names.len(),
            forall|k: int| 0 <= k < j ==> names@[k]@ != x@,
        decreases names.len() - j,
    {
        if names[j] == *x {
            return Some(j);
        }
        j = j + 1;
    }
    proof {
        if string_views(names@).contains(x@) {
            let k = choose|k: int| 0 <= k < names@.len() && string_views(names@)[k] == x@;
            assert(names@[k]@ == x@);
        }
    }
    None
}

/// Compiles a client stream `E@I`: tokenizes it (operands become
/// `X@kline_I`), converts to postfix, and collects the distinct operands.
/// Fails with `ParsingStream` exactly when tokenization or the conversion
/// does.
pub fn compile(stream: &str) -> (r: Result<ExpressionPlan, ServerError>)
    ensures
        match compiled(stream@) {
            None => r == Err::<ExpressionPlan, ServerError>(ServerError::ParsingStream),
            Some(out) => r is Ok && views(r->Ok_0.rpn@) == out && r->Ok_0.names()
                == distinct_operands(out) && r->Ok_0.stream@ == stream@,
        },
{
    let tokens = parse(stream)?;
    let rpn = to_rpn(tokens.as_slice())?;
    let ghost out = views(rpn@);
    let mut operands: Vec<String> = Vec::new();
    let mut i: usize = 0;
    assert(out.take(0) =~= seq![]);
    assert(string_views(operands@) =~= seq![]);
    while i < rpn.len()
        invariant
            out == views(rpn@),
            i <= rpn.len(),
            string_views(operands@) == distinct_operands(out.take(i as int)),
        decreases rpn.len() - i,
    {
        assert(out.take(i + 1).drop_last() =~= out.take(i as int));
        assert(out.take(i + 1).last() == rpn@[i as int]@);
        if let Token::Operand(x) = &rpn[i] {
            match contains_name(&operands, x) {
                None => {
                    let ghost before = string_views(operands@);
                    operands.push(x.clone());
                    assert(string_views(operands@) =~= before.push(x@));
                },
                Some(j) => {
                    assert(string_views(operands@)[j as int] == x@);
                },
            }
        }
        i = i + 1;
    }
    assert(out.take(i as int) =~= out);
    Ok(ExpressionPlan { rpn, operands, stream: stream.to_owned() })
}

pub open spec fn operation_of(op: Operator) -> Operation {
    match op {
        Operator::Plus => Operation::Add,
        Operator::Minus => Operation::Subtract,
        Operator::Multiply => Operation::Multiply,
        Operator::Divide => Operation::Divide,
    }
}

impl Operator {
    /// The candle operation this operator stands for.
    pub fn operation(&self) -> (r: Operation)
        ensures
            r == operation_of(*self),
    {
        match self {
            Operator::Plus => Operation::Add,
            Operator::Minus => Operation::Subtract,
            Operator::Multiply => Operation::Multiply,
            Operator::Divide => Operation::Divide,
        }
    }
}

/// Stack depth after the first tokens of a postfix plan, or `None` once a
/// token cannot be evaluated: an unknown operand, an operator with fewer
/// than two values below it, or a parenthesis.
pub open spec fn depth_after(ts: Seq<TokenView>, names: Seq<Seq<char>>) -> Option<nat>
    decreases ts.len(),
{
    if ts.len() == 0 {
        Some(0)
    } else {
        match depth_after(ts.drop_last(), names) {
            None => None,
            Some(d) => match ts.last() {
                TokenView::Operand(x) => if names.contains(x) {
                    Some(d + 1)
                } else {
                    None
                },
                TokenView::Operator(_) => if d >= 2 {
                    Some((d - 1) as nat)
                } else {
                    None
                },
                _ => None,
            },
        }
    }
}

/// A plan that evaluates to exactly one value.
pub open spec fn well_shaped(ts: Seq<TokenView>, names: Seq<Seq<char>>) -> bool {
    depth_after(ts, names) == Some(1nat)
}

/// All candles share the timestamp of the first.
pub open spec fn aligned<P>(vals: Seq<Candle<P>>) -> bool {
    forall|i: int| 0 <= i < vals.len() ==> (#[trigger] vals[i]).t == vals[0].t
}

/// One token of evaluation, from stack `s0` to stack `s`; the candle of
/// operand `names[j]` is `vals[j]`.
pub open spec fn eval_step<P, F: Fn(Operation, P, P) -> P, Z: Fn(P) -> bool>(
    t: TokenView,
    names: Seq<Seq<char>>,
    vals: Seq<Candle<P>>,
    arith: F,
    is_zero: Z,
    s0: Seq<Candle<P>>,
    s: Seq<Candle<P>>,
) -> bool {
    match t {
        TokenView::Operand(x) => exists|j: int|
            0 <= j < names.len() && #[trigger] names[j] == x && s == s0.push(vals[j]),
        TokenView::Operator(op) => {
            &&& s0.len() >= 2
            &&& s.len() == s0.len() - 1
            &&& s.drop_last() == s0.subrange(0, s0.len() - 2)
            &&& combined(arith, operation_of(op), s0[s0.len() - 2], s0.last(), s.last())
            &&& op == Operator::Divide ==> no_zero(is_zero, s0.last())
        },
        _ => false,
    }
}

/// `trace[k]` is the stack after evaluating the first `k` tokens of `ts`.
pub open spec fn valid_trace<P, F: Fn(Operation, P, P) -> P, Z: Fn(P) -> bool>(
    ts: Seq<TokenView>,
    names: Seq<Seq<char>>,
    vals: Seq<Candle<P>>,
    arith: F,
    is_zero: Z,
    trace: Seq<Seq<Candle<P>>>,
) -> bool {
    &&& 1 <= trace.len() <= ts.len() + 1
    &&& trace[0].len() == 0
    &&& forall|k: int|
        1 <= k < trace.len() ==> eval_step(
            ts[k - 1],
            names,
            vals,
            arith,
            is_zero,
            trace[k - 1],
            #[trigger] trace[k],
        )
}

/// `s` is the stack after evaluating the first `n` tokens of `ts`.
pub open spec fn reachable<P, F: Fn(Operation, P, P) -> P, Z: Fn(P) -> bool>(
    ts: Seq<TokenView>,
    names: Seq<Seq<char>>,
    vals: Seq<Candle<P>>,
    arith: F,
    is_zero: Z,
    n: nat,
    s: Seq<Candle<P>>,
) -> bool {
    exists|trace: Seq<Seq<Candle<P>>>|
        #[trigger] valid_trace(ts, names, vals, arith, is_zero, trace) && trace.len() == n + 1
            && trace.last() == s
}

/// Evaluation reaches a division whose right-hand candle has a zero price.
pub open spec fn zero_division_reached<P, F: Fn(Operation, P, P) -> P, Z: Fn(P) -> bool>(
    ts: Seq<TokenView>,
    names: Seq<Seq<char>>,
    vals: Seq<Candle<P>>,
    arith: F,
    is_zero: Z,
) -> bool {
    exists|n: nat, s: Seq<Candle<P>>|
        n < ts.len() && #[trigger] reachable(ts, names, vals, arith, is_zero, n, s) && ts[n as int]
            == TokenView::Operator(Operator::Divide) && s.len() >= 2 && some_zero(is_zero, s.last())
}

proof fn lemma_trace_step<P, F: Fn(Operation, P, P) -> P, Z: Fn(P) -> bool>(
    ts: Seq<TokenView>,
    names: Seq<Seq<char>>,
    vals: Seq<Candle<P>>,
    arith: F,
    is_zero: Z,
    trace: Seq<Seq<Candle<P>>>,
    s: Seq<Candle<P>>,
)
    requires
        valid_trace(ts, names, vals, arith, is_zero, trace),
        trace.len() <= ts.len(),
        eval_step(ts[trace.len() - 1], names, vals, arith, is_zero, trace.last(), s),
    ensures
        valid_trace(ts, names, vals, arith, is_zero, trace.push(s)),
{
    let t2 = trace.push(s);
    assert forall|k: int| 1 <= k < t2.len() implies eval_step(
        ts[k - 1],
        names,
        vals,
        arith,
        is_zero,
        t2[k - 1],
        #[trigger] t2[k],
    ) by {
        if k < trace.len() {
            assert(t2[k] == trace[k]);
            assert(t2[k - 1] == trace[k - 1]);
        }
    }
}

proof fn lemma_depth_failed(ts: Seq<TokenView>, names: Seq<Seq<char>>, n: int)
    requires
        0 <= n <= ts.len(),
        depth_after(ts.take(n), names) is None,
    ensures
        depth_after(ts, names) is None,
    decreases ts.len() - n,
{
    if n < ts.len() {
        assert(ts.take(n + 1).drop_last() =~= ts.take(n));
        lemma_depth_failed(ts, names, n + 1);
    } else {
        assert(ts.take(n) =~= ts);
    }
}

/// Whether the plan evaluates to exactly one value.
fn check_shape(plan: &ExpressionPlan) -> (r: bool)
    ensures
        r == well_shaped(views(plan.rpn@), plan.names()),
{
    let ghost ts = views(plan.rpn@);
    let mut depth: usize = 0;
    let mut i: usize = 0;
    assert(ts.take(0) =~= seq![]);
    while i < plan.rpn.len()
        invariant
            ts == views(plan.rpn@),
            i <= plan.rpn.len(),
            depth <= i,
            depth_after(ts.take(i as int), plan.names()) == Some(depth as nat),
        decreases plan.rpn.len() - i,
    {
        assert(ts.take(i + 1).drop_last() =~= ts.take(i as int));
        assert(ts.take(i + 1).last() == plan.rpn@[i as int]@);
        let ok = match &plan.rpn[i] {
            Token::Operand(x) => match contains_name(&plan.operands, x) {
                Some(j) => {
                    assert(plan.names()[j as int] == x@);
                    depth = depth + 1;
                    true
                },
                None => false,
            },
            Token::Operator(_) => if depth >= 2 {
                depth = depth - 1;
                true
            } else {
                false
            },
            _ => false,
        };
        if !ok {
            proof {
                lemma_depth_failed(ts, plan.names(), i + 1);
            }
            return false;
        }
        i = i + 1;
    }
    assert(ts.take(i as int) =~= ts);
    depth == 1
}

/// Evaluates the plan once, `values[j]` being the candle of operand
/// `plan.operands[j]`: each operand pushes its candle, each operator pops
/// the right then the left operand and pushes `left op right`.
///
/// Fails with `ParsingStream` exactly when the plan does not evaluate to
/// one value (checked before any arithmetic), with `DivisionByZero` when a
/// division by a candle with a zero price is reached, and with
/// `MismatchedTimestamps` only on candles that are not aligned.
pub fn evaluate<P: Copy, F: Fn(Operation, P, P) -> P, Z: Fn(P) -> bool>(
    plan: &ExpressionPlan,
    values: &Vec<Candle<P>>,
    arith: &F,
    is_zero: &Z,
) -> (r: Result<Candle<P>, ServerError>)
    requires
        total_arith(*arith),
        total_test(*is_zero),
        values.len() == plan.operands.len(),
    ensures
        r == Err::<Candle<P>, ServerError>(ServerError::ParsingStream) <==> !well_shaped(
            views(plan.rpn@),
            plan.names(),
        ),
        r is Ok ==> reachable(
            views(plan.rpn@),
            plan.names(),
            values@,
            *arith,
            *is_zero,
            plan.rpn@.len(),
            seq![r->Ok_0],
        ),
        r is Ok ==> values@.len() > 0,
        r is Ok && aligned(values@) ==> r->Ok_0.t == values@[0].t,
        r == Err::<Candle<P>, ServerError>(ServerError::DivisionByZero) ==> zero_division_reached(
            views(plan.rpn@),
            plan.names(),
            values@,
            *arith,
            *is_zero,
        ),
        r == Err::<Candle<P>, ServerError>(ServerError::MismatchedTimestamps) ==> !aligned(values@),
        r is Err ==> r == Err::<Candle<P>, ServerError>(ServerError::ParsingStream) || r == Err::<
            Candle<P>,
            ServerError,
        >(ServerError::DivisionByZero) || r == Err::<Candle<P>, ServerError>(
            ServerError::MismatchedTimestamps,
        ),
{
    if !check_shape(plan) {
        return Err(ServerError::ParsingStream);
    }
    let ghost ts = views(plan.rpn@);
    let ghost names = plan.names();
    let mut stack: Vec<Candle<P>> = Vec::new();
    let mut i: usize = 0;
    let ghost mut trace: Seq<Seq<Candle<P>>> = seq![stack@];
    assert(ts.take(0) =~= seq![]);
    while i < plan.rpn.len()
        invariant
            valid_trace(ts, names, values@, *arith, *is_zero, trace),
            trace.len() == i + 1,
            trace.last() == stack@,
            ts == views(plan.rpn@),
            names == plan.names(),
            well_shaped(ts, names),
            values.len() == plan.operands.len(),
            total_arith(*arith),
            total_test(*is_zero),
            i <= plan.rpn.len(),
            depth_after(ts.take(i as int), names) == Some(stack@.len()),
            stack@.len() > 0 ==> values@.len() > 0,
            aligned(values@) ==> forall|k: int|
                0 <= k < stack@.len() ==> (#[trigger] stack@[k]).t == values@[0].t,
        decreases plan.rpn.len() - i,
    {
        assert(ts.take(i + 1).drop_last() =~= ts.take(i as int));
        assert(ts.take(i + 1).last() == plan.rpn@[i as int]@);
        assert(ts[i as int] == plan.rpn@[i as int]@);
        let ghost s0 = stack@;
        match &plan.rpn[i] {
            Token::Operand(x) => {
                match contains_name(&plan.operands, x) {
                    Some(j) => {
                        assert(names[j as int] == x@);
                        stack.push(values[j]);
                        assert(eval_step(ts[i as int], names, values@, *arith, *is_zero, s0, stack@));
                        proof {
                            lemma_trace_step(ts, names, values@, *arith, *is_zero, trace, stack@);
                            trace = trace.push(stack@);
                        }
                    },
                    None => {
                        proof {
                            lemma_depth_failed(ts, names, i + 1);
                        }
                        return Err(ServerError::ParsingStream);
                    },
                }
            },
            Token::Operator(op) => {
                if stack.len() < 2 {
                    proof {
                        lemma_depth_failed(ts, names, i + 1);
                    }
                    return Err(ServerError::ParsingStream);
                }
                let rhs = stack.pop().unwrap();
                let lhs = stack.pop().unwrap();
                let operation = op.operation();
                match perform_operation(&lhs, &rhs, &operation, arith, is_zero) {
                    Ok(c) => {
                        stack.push(c);
                        assert(stack@.drop_last() =~= s0.subrange(0, s0.len() - 2));
                        assert(eval_step(ts[i as int], names, values@, *arith, *is_zero, s0, stack@));
                        proof {
                            lemma_trace_step(ts, names, values@, *arith, *is_zero, trace, stack@);
                            trace = trace.push(stack@);
                        }
                    },
                    Err(e) => {
                        proof {
                            if e == ServerError::DivisionByZero {
                                assert(reachable(ts, names, values@, *arith, *is_zero, i as nat, s0));
                                assert(some_zero(*is_zero, s0.last()));
                            }
                        }
                        return Err(e);
                    },
                }
            },
            _ => {
                proof {
                    lemma_depth_failed(ts, names, i + 1);
                }
                return Err(ServerError::ParsingStream);
            },
        }
        i = i + 1;
    }
    assert(ts.take(i as int) =~= ts);
    let result = stack[0];
    assert(stack@ =~= seq![result]);
    assert(reachable(ts, names, values@, *arith, *is_zero, plan.rpn@.len() as nat, stack@));
    Ok(result)
}

/// Nesting depth of the parentheses of a text, or `None` once a `)`
/// closes nothing.
pub open spec fn char_depth(text: Seq<char>) -> Option<nat>
    decreases text.len(),
{
    if text.len() == 0 {
        Some(0)
    } else {
        match char_depth(text.drop_last()) {
            None => None,
            Some(d) => if text.last() == '(' {
                Some(d + 1)
            } else if text.last() == ')' {
                if d == 0 {
                    None
                } else {
                    Some((d - 1) as nat)
                }
            } else {
                Some(d)
            },
        }
    }
}

proof fn lemma_depth_push(ts: Seq<TokenView>, t: TokenView)
    ensures
        paren_depth(ts.push(t)) == match paren_depth(ts) {
            None => None,
            Some(d) => match t {
                TokenView::LeftParenthesis => Some(d + 1),
                TokenView::RightParenthesis => if d == 0 {
                    None
                } else {
                    Some((d - 1) as nat)
                },
                _ => Some(d),
            },
        },
{
    assert(ts.push(t).drop_last() =~= ts);
}

proof fn lemma_scan_depth(text: Seq<char>, alnum: Seq<bool>, suffix: Seq<char>)
    requires
        scan(text, alnum, suffix) is Some,
    ensures
        paren_depth((scan(text, alnum, suffix)->0).0) == char_depth(text),
    decreases text.len(),
{
    if text.len() > 0 {
        lemma_scan_depth(text.drop_last(), alnum, suffix);
        let st = scan(text.drop_last(), alnum, suffix)->0;
        let f = flush(st.0, st.1, suffix);
        if st.1.len() > 0 {
            lemma_depth_push(st.0, TokenView::Operand(st.1 + suffix));
        }
        let c = text.last();
        if crate::expr::operator_of(c) is Some {
            lemma_depth_push(f, TokenView::Operator(crate::expr::operator_of(c)->0));
        } else if c == '(' {
            lemma_depth_push(f, TokenView::LeftParenthesis);
        } else if c == ')' {
            lemma_depth_push(f, TokenView::RightParenthesis);
        }
    }
}

/// A client stream `E@I` whose `E` has unbalanced parentheses does not
/// compile: `compile` fails on it with `ParsingStream`.
pub proof fn unbalanced_expression_rejected(input: Seq<char>)
    requires
        last_at(input) >= 0,
        char_depth(input.subrange(0, last_at(input))) != Some(0nat),
    ensures
        compiled(input) is None,
{
    let d = last_at(input);
    let suffix = stream_suffix(input.subrange(d + 1, input.len() as int));
    let body = input.subrange(0, d);
    let alnum = alnum_classes(input);
    if scan(body, alnum, suffix) is Some {
        lemma_scan_depth(body, alnum, suffix);
        let st = scan(body, alnum, suffix)->0;
        if st.1.len() > 0 {
            lemma_depth_push(st.0, TokenView::Operand(st.1 + suffix));
        }
        unbalanced_parentheses_rejected(flush(st.0, st.1, suffix));
    }
}

} // verus!
