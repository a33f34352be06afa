//! The errors the engine reports, each with its message.
use vstd::prelude::*;
use vstd::string::*;

verus! {

#[derive(Clone, Debug)]
pub enum EngineError {
    RedisConnectionFailed(String),
    RedisPopFailed(String),
    RedisPushFailed(String),
    InvalidRequest(String),
    MissingField(String),
    InvalidSymbol(String),
    InvalidSide(String),
    InvalidOrderType(String),
    OrderNotFound(String),
    InsufficientLiquidity,
    SerializationFailed(String),
    DeserializationFailed(String),
}

/// The message of an error: what went wrong, then the detail it carries.
pub open spec fn message_of(e: EngineError) -> Seq<char> {
    match e {
        EngineError::RedisConnectionFailed(msg) => "Redis connection failed: "@ + msg@,
        EngineError::RedisPopFailed(msg) => "Redis pop failed: "@ + msg@,
        EngineError::RedisPushFailed(msg) => "Redis push failed: "@ + msg@,
        EngineError::InvalidRequest(msg) => "Invalid request: "@ + msg@,
        EngineError::MissingField(field) => "Missing field: "@ + field@,
        EngineError::InvalidSymbol(symbol) => "Invalid symbol: "@ + symbol@,
        EngineError::InvalidSide(side) => "Invalid side: "@ + side@,
        EngineError::InvalidOrderType(ot) => "Invalid order type: "@ + ot@,
        EngineError::OrderNotFound(id) => "Order not found: "@ + id@,
        EngineError::InsufficientLiquidity => "Insufficient liquidity"@,
        EngineError::SerializationFailed(msg) => "Serialization failed: "@ + msg@,
        EngineError::DeserializationFailed(msg) => "Deserialization failed: "@ + msg@,
    }
}

fn prefixed(prefix: &str, detail: &String) -> (s: String)
    ensures
        s@ == prefix@ + detail@,
{
    String::from_str(prefix).concat(detail.as_str())
}

impl EngineError {
    /// The error's message, as the engine displays it.
    pub fn message(&self) -> (s: String)
        ensures
            s@ == message_of(*self),
    {
        match self {
            EngineError::RedisConnectionFailed(msg) => prefixed("Redis connection failed: ", msg),
            EngineError::RedisPopFailed(msg) => prefixed("Redis pop failed: ", msg),
            EngineError::RedisPushFailed(msg) => prefixed("Redis push failed: ", msg),
            EngineError::InvalidRequest(msg) => prefixed("Invalid request: ", msg),
            EngineError::MissingField(field) => prefixed("Missing field: ", field),
            EngineError::InvalidSymbol(symbol) => prefixed("Invalid symbol: ", symbol),
            EngineError::InvalidSide(side) => prefixed("Invalid side: ", side),
            EngineError::InvalidOrderType(ot) => prefixed("Invalid order type: ", ot),
            EngineError::OrderNotFound(id) => prefixed("Order not found: ", id),
            EngineError::InsufficientLiquidity => String::from_str("Insufficient liquidity"),
            EngineError::SerializationFailed(msg) => prefixed("Serialization failed: ", msg),
            EngineError::DeserializationFailed(msg) => prefixed("Deserialization failed: ", msg),
        }
    }
}

} // verus!
