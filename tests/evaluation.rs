use candle_server::{
    compile, evaluate, perform_operation, Action, Candle, Evaluator, Operation, ResultMessage,
    ServerError,
};

fn arith(op: Operation, a: f64, b: f64) -> f64 {
    match op {
        Operation::Add => a + b,
        Operation::Subtract => a - b,
        Operation::Multiply => a * b,
        Operation::Divide => a / b,
    }
}

fn is_zero(x: f64) -> bool {
    x == 0.0
}

fn candle(t: u64, o: f64, c: f64, h: f64, l: f64) -> Candle<f64> {
    Candle::new(t, o, c, h, l)
}

/// Runs an evaluator over finite per-operand tick lists until it wants a
/// candle of an exhausted operand or fails.
fn run(
    stream: &str,
    ticks: Vec<Vec<Candle<f64>>>,
) -> (Vec<ResultMessage<f64>>, Option<ServerError>) {
    let plan = compile(stream).unwrap();
    assert_eq!(plan.operands.len(), ticks.len());
    let mut ev = Evaluator::new(plan);
    let mut pos = vec![0usize; ticks.len()];
    let mut out = Vec::new();
    loop {
        match ev.advance(&arith, &is_zero) {
            Ok(Action::Pull(k)) => {
                if pos[k] == ticks[k].len() {
                    return (out, None);
                }
                ev.deliver(k, ticks[k][pos[k]]);
                pos[k] += 1;
            }
            Ok(Action::Emit(m)) => out.push(m),
            Err(e) => return (out, Some(e)),
        }
    }
}

#[test]
fn candle_algebra_keeps_timestamp() {
    let x = candle(60_000, 10.0, 11.0, 12.0, 9.0);
    let y = candle(60_000, 2.0, 4.0, 8.0, 3.0);
    assert_eq!(x.add(y, &arith), Ok(candle(60_000, 12.0, 15.0, 20.0, 12.0)));
    assert_eq!(x.sub(y, &arith), Ok(candle(60_000, 8.0, 7.0, 4.0, 6.0)));
    assert_eq!(x.mul(y, &arith), Ok(candle(60_000, 20.0, 44.0, 96.0, 27.0)));
    assert_eq!(x.div(y, &arith, &is_zero), Ok(candle(60_000, 5.0, 2.75, 1.5, 3.0)));
}

#[test]
fn candle_algebra_rejects_mismatched_timestamps() {
    let x = candle(1000, 1.0, 1.0, 1.0, 1.0);
    let y = candle(2000, 1.0, 1.0, 1.0, 1.0);
    assert_eq!(x.add(y, &arith), Err(ServerError::MismatchedTimestamps));
    assert_eq!(x.sub(y, &arith), Err(ServerError::MismatchedTimestamps));
    assert_eq!(x.mul(y, &arith), Err(ServerError::MismatchedTimestamps));
    assert_eq!(x.div(y, &arith, &is_zero), Err(ServerError::MismatchedTimestamps));
    assert_eq!(
        perform_operation(&x, &y, &Operation::Divide, &arith, &is_zero),
        Err(ServerError::MismatchedTimestamps)
    );
}

#[test]
fn division_by_zero_price_fails() {
    let x = candle(1000, 1.0, 1.0, 1.0, 1.0);
    let y = candle(1000, 1.0, 1.0, 1.0, 0.0);
    assert_eq!(x.div(y, &arith, &is_zero), Err(ServerError::DivisionByZero));
    let z = candle(2000, 0.0, 1.0, 1.0, 1.0);
    assert_eq!(x.div(z, &arith, &is_zero), Err(ServerError::DivisionByZero));
}

#[test]
fn perform_operation_dispatches_each_operation() {
    let x = candle(5, 6.0, 6.0, 6.0, 6.0);
    let y = candle(5, 3.0, 3.0, 3.0, 3.0);
    let r = |op| perform_operation(&x, &y, &op, &arith, &is_zero).unwrap();
    assert_eq!(r(Operation::Add), candle(5, 9.0, 9.0, 9.0, 9.0));
    assert_eq!(r(Operation::Subtract), candle(5, 3.0, 3.0, 3.0, 3.0));
    assert_eq!(r(Operation::Multiply), candle(5, 18.0, 18.0, 18.0, 18.0));
    assert_eq!(r(Operation::Divide), candle(5, 2.0, 2.0, 2.0, 2.0));
}

#[test]
fn non_finite_results_propagate() {
    let x = candle(5, f64::MAX, 1.0, 1.0, 1.0);
    let r = perform_operation(&x, &x, &Operation::Add, &arith, &is_zero).unwrap();
    assert!(r.o.is_infinite());
}

#[test]
fn evaluator_sums_aligned_candles() {
    let (out, err) = run(
        "a+b@1m",
        vec![
            vec![candle(1000, 10.0, 11.0, 12.0, 9.0)],
            vec![candle(1000, 1.0, 2.0, 3.0, 4.0)],
        ],
    );
    assert_eq!(err, None);
    assert_eq!(out.len(), 1);
    assert_eq!(out[0].stream, "a+b@1m");
    assert_eq!(out[0].data, candle(1000, 11.0, 13.0, 15.0, 13.0));
}

#[test]
fn evaluator_stops_on_division_by_zero() {
    let (out, err) = run(
        "a/b@1m",
        vec![
            vec![candle(1000, 10.0, 11.0, 12.0, 9.0)],
            vec![candle(1000, 1.0, 2.0, 3.0, 0.0)],
        ],
    );
    assert!(out.is_empty());
    assert_eq!(err, Some(ServerError::DivisionByZero));
}

#[test]
fn evaluator_emits_once_per_common_timestamp_in_order() {
    let c = |t: u64| candle(t, 1.0, 1.0, 1.0, 1.0);
    let (out, err) = run(
        "a*b-c@1m",
        vec![
            vec![c(1), c(2), c(4), c(5), c(7), c(9)],
            vec![c(2), c(3), c(5), c(6), c(7)],
            vec![c(0), c(2), c(5), c(7), c(8), c(9)],
        ],
    );
    assert_eq!(err, None);
    let times: Vec<u64> = out.iter().map(|m| m.data.t).collect();
    assert_eq!(times, vec![2, 5, 7]);
}

#[test]
fn evaluator_reads_a_repeated_operand_once() {
    let plan = compile("a+a*b@1m").unwrap();
    assert_eq!(plan.operands, vec!["a@kline_1m".to_string(), "b@kline_1m".to_string()]);
    let (out, _) = run(
        "a+a*b@1m",
        vec![vec![candle(3, 2.0, 2.0, 2.0, 2.0)], vec![candle(3, 5.0, 5.0, 5.0, 5.0)]],
    );
    assert_eq!(out[0].data, candle(3, 12.0, 12.0, 12.0, 12.0));
}

#[test]
fn evaluator_reports_malformed_plan() {
    let (out, err) = run("a++b@1m", vec![vec![candle(1, 1.0, 1.0, 1.0, 1.0)], vec![candle(1, 1.0, 1.0, 1.0, 1.0)]]);
    assert!(out.is_empty());
    assert_eq!(err, Some(ServerError::ParsingStream));
}

#[test]
fn compile_rejects_unbalanced_parentheses() {
    assert_eq!(compile("(a+b@1m").err(), Some(ServerError::ParsingStream));
    assert_eq!(compile("a+b)@1m").err(), Some(ServerError::ParsingStream));
    assert_eq!(compile("(a+b))(@1m").err(), Some(ServerError::ParsingStream));
}

#[test]
fn evaluate_checks_timestamps_of_unaligned_values() {
    let plan = compile("a-b@1m").unwrap();
    let vals = vec![candle(1, 1.0, 1.0, 1.0, 1.0), candle(2, 1.0, 1.0, 1.0, 1.0)];
    assert_eq!(evaluate(&plan, &vals, &arith, &is_zero), Err(ServerError::MismatchedTimestamps));
}

#[test]
fn evaluator_asks_for_every_operand_first() {
    let plan = compile("a+b@1m").unwrap();
    let mut ev: Evaluator<f64> = Evaluator::new(plan);
    assert_eq!(ev.advance(&arith, &is_zero), Ok(Action::Pull(0)));
    ev.deliver(0, candle(10, 1.0, 1.0, 1.0, 1.0));
    assert_eq!(ev.advance(&arith, &is_zero), Ok(Action::Pull(1)));
    ev.deliver(1, candle(20, 1.0, 1.0, 1.0, 1.0));
    assert_eq!(ev.wanted(), Some(0));
    assert_eq!(ev.advance(&arith, &is_zero), Ok(Action::Pull(0)));
}
