//! Core logic of a price-time priority matching engine with a risk gateway.
pub mod types;
pub mod order_book;
pub mod engine;
pub mod wire;
pub mod persistence;
pub mod text;
pub mod metrics;
pub mod engine_server;
pub mod risk;
pub mod protocol;
pub mod accounts;
pub mod auth;
pub mod session;
pub mod codec;
pub mod frame;
pub mod gateway;
pub mod gateway_config;
pub mod server_config;
