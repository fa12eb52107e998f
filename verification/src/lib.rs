//! A central limit order book sequencer and the rollup state-transition
//! checks that a zero-knowledge guest runs over batches of its trades.

pub mod book_laws;
pub mod book_model;
pub mod codec;
pub mod digest;
pub mod engine;
pub mod orderbook;
pub mod price_levels;
pub mod rollup;
pub mod rpc;
pub mod signatures;
pub mod trade;
pub mod book_invariant;
