use candle_server::{Registry, ServerError};

#[test]
fn first_subscriber_opens_and_last_release_closes() {
    let mut reg = Registry::new();
    assert!(reg.subscribe("btcusdt@kline_1m", 1));
    assert!(!reg.subscribe("btcusdt@kline_1m", 2));
    assert!(!reg.subscribe("btcusdt@kline_1m", 3));
    assert_eq!(reg.subscribers("btcusdt@kline_1m"), Some(vec![1, 2, 3]));
    assert_eq!(reg.release("btcusdt@kline_1m", 2), Ok(false));
    assert_eq!(reg.release("btcusdt@kline_1m", 1), Ok(false));
    assert_eq!(reg.subscribers("btcusdt@kline_1m"), Some(vec![3]));
    assert_eq!(reg.release("btcusdt@kline_1m", 3), Ok(true));
    assert_eq!(reg.subscribers("btcusdt@kline_1m"), None);
    assert!(reg.subscribe("btcusdt@kline_1m", 4));
}

#[test]
fn streams_are_independent() {
    let mut reg = Registry::new();
    assert!(reg.subscribe("a@kline_1m", 1));
    assert!(reg.subscribe("b@kline_1m", 1));
    assert_eq!(reg.release("a@kline_1m", 1), Ok(true));
    assert_eq!(reg.subscribers("b@kline_1m"), Some(vec![1]));
}

#[test]
fn release_of_unknown_key_fails() {
    let mut reg = Registry::new();
    assert_eq!(reg.release("a@kline_1m", 1), Err(ServerError::KeyNotFound));
    reg.subscribe("a@kline_1m", 1);
    assert_eq!(reg.release("a@kline_1m", 2), Err(ServerError::KeyNotFound));
    assert_eq!(reg.subscribers("a@kline_1m"), Some(vec![1]));
}

#[test]
fn teardown_returns_all_subscribers() {
    let mut reg = Registry::new();
    reg.subscribe("a@kline_1m", 5);
    reg.subscribe("a@kline_1m", 6);
    assert_eq!(reg.remove_stream("a@kline_1m"), Some(vec![5, 6]));
    assert_eq!(reg.remove_stream("a@kline_1m"), None);
    assert_eq!(reg.release("a@kline_1m", 5), Err(ServerError::KeyNotFound));
}
