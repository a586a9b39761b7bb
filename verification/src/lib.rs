//! A continuous limit-order-book matching engine: price-time-priority books
//! per trading pair, a durable trade log with cursor-based paging, and the
//! submission logic that ties them together.

pub mod book_laws;
pub mod codec;
pub mod engine;
pub mod instrument;
pub mod lex;
pub mod market_maker;
pub mod orderbook;
pub mod orders;
pub mod session;
pub mod store;
pub mod store_laws;
pub mod trade;
