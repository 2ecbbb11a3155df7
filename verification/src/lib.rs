//! A single-instrument limit-order matching engine.
//!
//! Incoming orders rest on one of two price-ordered sides of a book; whenever
//! the best bid and the best ask satisfy each other's price, the crossing loop
//! pairs them and emits a trade, at the resting ask's price, until no further
//! match is possible.

pub mod book;
pub mod codec;
pub mod engine;
pub mod laws;
pub mod order;
