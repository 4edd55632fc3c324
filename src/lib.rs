//! A single-product limit order book matching engine: a price-laddered continuous
//! book with price-time priority, a call-auction pool, the fixed-frame wire codec and
//! the engine core that ties them together.
pub mod types;
pub mod codec;
pub mod ladder;
pub mod book;
pub mod auction;
pub mod engine;
pub mod perf;
pub mod number;
