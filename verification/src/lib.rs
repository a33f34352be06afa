pub mod error;
pub mod handler_laws;
pub mod handlers;
pub mod keys;
pub mod laws;
pub mod matcher;
pub mod models;
pub mod orderbook;
pub mod redis;
