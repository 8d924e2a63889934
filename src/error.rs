//! Error kinds of the candle server.
use vstd::prelude::*;

verus! {

/// The kinds of failure of the candle server.
///
/// Transport and decoding failures carry no payload here: the layer that
/// talks to sockets and JSON keeps its own richer error and maps it onto
/// these kinds.
#[derive(Debug, PartialEq, Eq)]
pub enum ServerError {
    Io,
    WebSocket,
    Serde,
    UrlParse,
    ParseFloatError,
    KeyNotFound,
    WebSocketConnect,
    WebSocketAccept,
    WebSocketTimeout,
    WebSocketWrite,
    DivisionByZero,
    Serialization,
    MismatchedTimestamps,
    ParsingStream,
    InvalidMessage(String),
}

} // verus!
