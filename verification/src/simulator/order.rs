//! Order events as the generator emits them.

use crate::simulator::random::{fresh_id, now_micros};
use vstd::prelude::*;

verus! {

/// What an event does to an order.
#[derive(Debug, Default, Clone, Copy, PartialEq, Eq, Structural)]
pub enum EventType {
    Cancel,
    #[default]
    New,
    Update,
}

/// Whether an order takes at any price or names its price.
#[derive(Debug, Default, Clone, Copy, PartialEq, Eq, Structural)]
pub enum OrderKind {
    Market,
    #[default]
    Limit,
}

/// The direction of an order.
#[derive(Debug, Default, Clone, Copy, PartialEq, Eq, Structural)]
pub enum OrderSide {
    #[default]
    Buy,
    Sell,
}

/// A request to cancel an order.
#[derive(Debug, Clone, Copy, PartialEq, Eq, Structural)]
pub struct CancelOrder {
    pub id: u128,
    pub order_id: u128,
    pub time: i64,
}

/// A request to change the price or the quantity of an order.
#[derive(Debug, Clone, Copy, PartialEq, Eq, Structural)]
pub struct UpdateOrder {
    pub id: u128,
    pub order_id: u128,
    pub price: Option<u64>,
    pub qty: Option<u64>,
    pub time: i64,
}

/// A single order event. Prices and quantities are whole numbers of the
/// smallest unit that the configured decimals allow; `time` is in
/// microseconds since the Unix epoch.
#[derive(Debug, Default, Clone, PartialEq, Eq)]
pub struct Order {
    /// Identifies the event.
    pub id: u128,
    /// Identifies the order that the event is about.
    pub order_id: u128,
    pub trader: u64,
    pub event: EventType,
    pub kind: OrderKind,
    pub side: OrderSide,
    pub price: u64,
    pub qty: u64,
    pub instrument: String,
    pub sequence: u64,
    pub time: i64,
}

impl Order {
    /// A new order with identifiers and a time of its own.
    pub fn new(
        trader: u64,
        kind: OrderKind,
        side: OrderSide,
        price: u64,
        qty: u64,
        instrument: String,
        sequence: u64,
    ) -> (order: Self)
        ensures
            order == (Order {
                id: order.id,
                order_id: order.order_id,
                trader,
                event: EventType::New,
                kind,
                side,
                price,
                qty,
                instrument,
                sequence,
                time: order.time,
            }),
    {
        Self {
            id: fresh_id(),
            order_id: fresh_id(),
            trader,
            kind,
            event: EventType::New,
            side,
            price,
            qty,
            instrument,
            sequence,
            time: now_micros(),
        }
    }

    /// A copy of the order.
    pub fn duplicate(&self) -> (copy: Self)
        ensures
            copy == *self,
    {
        Self {
            id: self.id,
            order_id: self.order_id,
            trader: self.trader,
            event: self.event,
            kind: self.kind,
            side: self.side,
            price: self.price,
            qty: self.qty,
            instrument: self.instrument.clone(),
            sequence: self.sequence,
            time: self.time,
        }
    }
}

} // verus!
