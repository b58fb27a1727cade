//! The order-flow generator: synthetic traders that place, update and cancel orders.

pub mod generator;
pub mod order;
pub mod random;
