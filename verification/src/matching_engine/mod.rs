//! The matching engine: domain types, the arena of resting orders and the book.

pub mod arena;
pub mod depth;
pub mod laws;
pub mod levels;
pub mod matching;
pub mod models;
pub mod orderbook;
pub mod prices;
