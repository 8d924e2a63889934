//! Candle-expression evaluation: compiling symbol arithmetic into a
//! postfix plan, candle algebra, tick alignment and the upstream
//! subscription registry.

pub mod alignment;
pub mod candle;
pub mod error;
pub mod evaluator;
pub mod expr;
pub mod grammar;
pub mod plan;
pub mod registry;
pub mod upstream;

pub use candle::{perform_operation, Candle, Operation};
pub use error::ServerError;
pub use evaluator::{Action, Evaluator, ResultMessage};
pub use expr::{parse, to_rpn, Operator, Token};
pub use plan::{compile, evaluate, ExpressionPlan};
pub use registry::Registry;
pub use upstream::{
    parse_streams, subscription_for, BinanceData, BinanceKlineData, BinanceMessage,
    BinanceSubscription, Request,
};
