//! A limit order matching engine for prediction markets: the order book with
//! price-time priority, the stages of the core around it, and what a gateway
//! makes of it for its clients.
pub mod accounts;
pub mod bench;
pub mod config;
pub mod errors;
pub mod feed;
pub mod journal;
pub mod ladder;
pub mod laws;
pub mod lemmas;
pub mod local_book;
pub mod model;
pub mod order_id;
pub mod orderbook;
pub mod pipeline;
pub mod proto;
pub mod reader;
pub mod submit;
pub mod sync;
pub mod transport;
pub mod types;
