use candle_server::{parse_streams, subscription_for, Request};

#[test]
fn test_parse_streams_single_token() {
    let input = "btcusdt@1m";
    let expected = vec!["btcusdt@kline_1m"];
    assert_eq!(parse_streams(input), expected);
}

#[test]
fn test_parse_streams_multiple_tokens() {
    let input = "btcusdt+ethusdt@1h";
    let expected = vec!["btcusdt@kline_1h", "ethusdt@kline_1h"];
    assert_eq!(parse_streams(input), expected);
}

#[test]
fn test_parse_streams_with_operations() {
    let input = "(btcusdt-ethusdt)*bnbusdt@1d";
    let expected = vec!["btcusdt@kline_1d", "ethusdt@kline_1d", "bnbusdt@kline_1d"];
    assert_eq!(parse_streams(input), expected);
}

#[test]
fn test_parse_streams_with_empty_tokens() {
    let input = "btcusdt++ethusdt@1m";
    let expected = vec!["btcusdt@kline_1m", "ethusdt@kline_1m"];
    assert_eq!(parse_streams(input), expected);
}

#[test]
fn parse_streams_skips_blank_pieces_and_keeps_repeats() {
    let input = "a* (b)/a@4h";
    let expected = vec!["a@kline_4h", "b@kline_4h", "a@kline_4h"];
    assert_eq!(parse_streams(input), expected);
}

#[test]
fn subscription_names_one_stream_with_request_id_and_method() {
    let req = Request { id: 7, method: "SUBSCRIBE".to_string(), stream: "a+b@1m".to_string() };
    let sub = subscription_for(&req, "a@kline_1m");
    assert_eq!(sub.id, 7);
    assert_eq!(sub.method, "SUBSCRIBE");
    assert_eq!(sub.params, vec!["a@kline_1m".to_string()]);
}
