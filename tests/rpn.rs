use candle_server::expr::parse_classified;
use candle_server::{parse, to_rpn, Operator, ServerError, Token};

fn operand(s: &str) -> Token {
    Token::Operand(s.into())
}

#[test]
fn test_to_rpn_simple_expression() {
    let tokens = parse("btcusdt+ethusdt@1m").unwrap();
    let result = to_rpn(&tokens).unwrap();
    assert_eq!(
        result,
        vec![
            Token::Operand("btcusdt@kline_1m".into()),
            Token::Operand("ethusdt@kline_1m".into()),
            Token::Operator(Operator::Plus)
        ]
    );
}

#[test]
fn test_to_rpn_expression_with_parentheses() {
    let tokens = parse("(btcusdt+ethusdt)*adausdt@1m").unwrap();
    let result = to_rpn(&tokens).unwrap();
    assert_eq!(
        result,
        vec![
            Token::Operand("btcusdt@kline_1m".into()),
            Token::Operand("ethusdt@kline_1m".into()),
            Token::Operator(Operator::Plus),
            Token::Operand("adausdt@kline_1m".into()),
            Token::Operator(Operator::Multiply)
        ]
    );
}

#[test]
fn test_to_rpn_mismatched_parentheses() {
    let tokens = parse("(btcusdt+ethusdt*adausdt@1m").unwrap();
    let result = to_rpn(&tokens);
    assert!(result.is_err());
}

#[test]
fn test_to_rpn_operator_precedence() {
    let tokens = parse("btcusdt+ethusdt*adausdt@1h").unwrap();
    let result = to_rpn(&tokens).unwrap();
    assert_eq!(
        result,
        vec![
            Token::Operand("btcusdt@kline_1h".into()),
            Token::Operand("ethusdt@kline_1h".into()),
            Token::Operand("adausdt@kline_1h".into()),
            Token::Operator(Operator::Multiply),
            Token::Operator(Operator::Plus)
        ]
    );
}

#[test]
fn test_to_rpn_with_complex_expression() {
    let tokens = parse("btcusdt+ethusdt*(bnbusdt-trxusdt)@1h").unwrap();
    let expected = vec![
        Token::Operand("btcusdt@kline_1h".into()),
        Token::Operand("ethusdt@kline_1h".into()),
        Token::Operand("bnbusdt@kline_1h".into()),
        Token::Operand("trxusdt@kline_1h".into()),
        Token::Operator(Operator::Minus),
        Token::Operator(Operator::Multiply),
        Token::Operator(Operator::Plus),
    ];
    assert_eq!(to_rpn(&tokens).unwrap(), expected);
}

#[test]
fn test_to_rpn_with_no_parentheses() {
    let tokens = parse("btcusdt+ethusdt*bnbusdt/trxusdt@1M").unwrap();
    let expected = vec![
        Token::Operand("btcusdt@kline_1M".into()),
        Token::Operand("ethusdt@kline_1M".into()),
        Token::Operand("bnbusdt@kline_1M".into()),
        Token::Operator(Operator::Multiply),
        Token::Operand("trxusdt@kline_1M".into()),
        Token::Operator(Operator::Divide),
        Token::Operator(Operator::Plus),
    ];
    assert_eq!(to_rpn(&tokens).unwrap(), expected);
}

#[test]
fn test_to_rpn_with_all_operators() {
    let tokens = parse("btcusdt+ethusdt-bnbusdt*trxusdt/bchusdt@1M").unwrap();
    let expected = vec![
        Token::Operand("btcusdt@kline_1M".into()),
        Token::Operand("ethusdt@kline_1M".into()),
        Token::Operator(Operator::Plus),
        Token::Operand("bnbusdt@kline_1M".into()),
        Token::Operand("trxusdt@kline_1M".into()),
        Token::Operator(Operator::Multiply),
        Token::Operand("bchusdt@kline_1M".into()),
        Token::Operator(Operator::Divide),
        Token::Operator(Operator::Minus),
    ];
    assert_eq!(to_rpn(&tokens).unwrap(), expected);
}

#[test]
fn test_to_rpn_with_multiple_parentheses() {
    let tokens = parse("(btcusdt+(ethusdt-(bnbusdt*(trxusdt/bchusdt))))@1M").unwrap();
    let expected = vec![
        Token::Operand("btcusdt@kline_1M".into()),
        Token::Operand("ethusdt@kline_1M".into()),
        Token::Operand("bnbusdt@kline_1M".into()),
        Token::Operand("trxusdt@kline_1M".into()),
        Token::Operand("bchusdt@kline_1M".into()),
        Token::Operator(Operator::Divide),
        Token::Operator(Operator::Multiply),
        Token::Operator(Operator::Minus),
        Token::Operator(Operator::Plus),
    ];
    assert_eq!(to_rpn(&tokens).unwrap(), expected);
}

#[test]
fn single_operand_plan() {
    let tokens = parse("btcusdt@1m").unwrap();
    assert_eq!(to_rpn(&tokens).unwrap(), vec![operand("btcusdt@kline_1m")]);
}

#[test]
fn sum_of_two_hourly_streams() {
    let tokens = parse("btcusdt+ethusdt@1h").unwrap();
    assert_eq!(
        to_rpn(&tokens).unwrap(),
        vec![
            operand("btcusdt@kline_1h"),
            operand("ethusdt@kline_1h"),
            Token::Operator(Operator::Plus)
        ]
    );
}

#[test]
fn unclosed_parenthesis_fails_with_parsing_stream() {
    let tokens = parse("(btcusdt+ethusdt*adausdt@1m").unwrap();
    assert_eq!(to_rpn(&tokens), Err(ServerError::ParsingStream));
}

#[test]
fn unopened_parenthesis_fails_with_parsing_stream() {
    let tokens = parse("btcusdt)+ethusdt@1m").unwrap();
    assert_eq!(to_rpn(&tokens), Err(ServerError::ParsingStream));
}

#[test]
fn subtraction_is_left_associative() {
    let tokens = parse("a-b-c@1m").unwrap();
    assert_eq!(
        to_rpn(&tokens).unwrap(),
        vec![
            operand("a@kline_1m"),
            operand("b@kline_1m"),
            Token::Operator(Operator::Minus),
            operand("c@kline_1m"),
            Token::Operator(Operator::Minus)
        ]
    );
}

#[test]
fn division_chain_is_left_associative() {
    let tokens = parse("a/b*c@5m").unwrap();
    assert_eq!(
        to_rpn(&tokens).unwrap(),
        vec![
            operand("a@kline_5m"),
            operand("b@kline_5m"),
            Token::Operator(Operator::Divide),
            operand("c@kline_5m"),
            Token::Operator(Operator::Multiply)
        ]
    );
}

#[test]
fn parse_uses_last_at_sign_for_interval() {
    let tokens = parse("a@x@1m").unwrap_err();
    assert_eq!(tokens, ServerError::ParsingStream);
    let tokens = parse("ab+c@1w").unwrap();
    assert_eq!(
        tokens,
        vec![
            operand("ab@kline_1w"),
            Token::Operator(Operator::Plus),
            operand("c@kline_1w")
        ]
    );
}

#[test]
fn parse_without_at_sign_fails() {
    assert_eq!(parse("btcusdt+ethusdt"), Err(ServerError::ParsingStream));
}

#[test]
fn parse_rejects_non_alphanumeric_characters() {
    assert_eq!(parse("btc usdt@1m"), Err(ServerError::ParsingStream));
    assert_eq!(parse("btc$usdt@1m"), Err(ServerError::ParsingStream));
}

#[test]
fn parse_accepts_unicode_letters_and_digits() {
    assert_eq!(parse("über1@1m").unwrap(), vec![operand("über1@kline_1m")]);
}

#[test]
fn parse_drops_empty_operands() {
    assert_eq!(
        parse("a++b@1m").unwrap(),
        vec![
            operand("a@kline_1m"),
            Token::Operator(Operator::Plus),
            Token::Operator(Operator::Plus),
            operand("b@kline_1m")
        ]
    );
}

#[test]
fn parse_flushes_operand_before_parenthesis() {
    assert_eq!(
        parse("a(b)@1m").unwrap(),
        vec![
            operand("a@kline_1m"),
            Token::LeftParenthesis,
            operand("b@kline_1m"),
            Token::RightParenthesis
        ]
    );
}

#[test]
fn operands_carry_suffix_and_no_separators() {
    let tokens = parse("(x1-y2)*z3/w4@15m").unwrap();
    for t in to_rpn(&tokens).unwrap() {
        if let Token::Operand(s) = t {
            assert!(s.ends_with("@kline_15m"));
            assert!(!s.contains(|c: char| "+-*/()".contains(c)));
        }
    }
}

#[test]
fn operator_symbols_round_trip() {
    for c in ['+', '-', '*', '/'] {
        assert_eq!(Operator::from_char(c).unwrap().symbol(), c);
    }
    assert_eq!(Operator::from_char('x'), None);
}

#[test]
fn tokens_write_as_their_symbols() {
    let tokens = parse("(a*b)-c@1m").unwrap();
    let text: Vec<String> = tokens.iter().map(|t| t.text()).collect();
    assert_eq!(text, vec!["(", "a@kline_1m", "*", "b@kline_1m", ")", "-", "c@kline_1m"]);
}

#[test]
fn parse_classified_follows_given_classes() {
    let all = vec![true, false, true, false, false, false];
    assert_eq!(
        parse_classified("a+b@1m", &all).unwrap(),
        vec![operand("a@kline_1m"), Token::Operator(Operator::Plus), operand("b@kline_1m")]
    );
    let first_not = vec![false, false, true, false, false, false];
    assert_eq!(parse_classified("a+b@1m", &first_not), Err(ServerError::ParsingStream));
}
