//! A price-time priority limit order book for one instrument, with the
//! order-flow generator that drives it.

pub mod matching_engine;
pub mod simulator;

pub use matching_engine::arena::OrderArena;
pub use matching_engine::models::{
    BookDepth, BookLevel, FillMetadata, LimitOrder, OrderEvent, OrderType, Side, Trade,
};
pub use matching_engine::orderbook::OrderBook;
pub use simulator::generator::{OrderGenerator, OrderSimulation, Trader};
pub use simulator::order::{CancelOrder, EventType, Order, OrderKind, OrderSide, UpdateOrder};
use vstd::prelude::*;

verus! {

/// An order event together with what the book made of it.
#[derive(Debug, Clone, PartialEq, Eq)]
pub struct OrderExecution {
    pub id: u128,
    pub order_id: u128,
    pub trader: u64,
    pub event: EventType,
    pub kind: OrderKind,
    pub side: OrderSide,
    pub price: u64,
    pub qty: u64,
    pub instrument: String,
    pub sequence: u64,
    pub time: i64,
    /// How long the book took, in nanoseconds.
    pub execution_time: u128,
    /// The name of the event that the book answered with.
    pub status: String,
}

impl From<(u128, Order, String)> for OrderExecution {
    fn from(parts: (u128, Order, String)) -> (execution: Self) {
        let (execution_time, order, status) = parts;
        Self {
            id: order.id,
            order_id: order.order_id,
            trader: order.trader,
            event: order.event,
            kind: order.kind,
            side: order.side,
            price: order.price,
            qty: order.qty,
            instrument: order.instrument,
            sequence: order.sequence,
            time: order.time,
            execution_time,
            status,
        }
    }
}

impl vstd::std_specs::convert::FromSpecImpl<(u128, Order, String)> for OrderExecution {
    open spec fn obeys_from_spec() -> bool {
        true
    }

    open spec fn from_spec(parts: (u128, Order, String)) -> Self {
        OrderExecution {
            id: parts.1.id,
            order_id: parts.1.order_id,
            trader: parts.1.trader,
            event: parts.1.event,
            kind: parts.1.kind,
            side: parts.1.side,
            price: parts.1.price,
            qty: parts.1.qty,
            instrument: parts.1.instrument,
            sequence: parts.1.sequence,
            time: parts.1.time,
            execution_time: parts.0,
            status: parts.2,
        }
    }
}

/// The side of the book that a direction stands for.
pub open spec fn book_side(side: OrderSide) -> Side {
    match side {
        OrderSide::Buy => Side::Bid,
        OrderSide::Sell => Side::Ask,
    }
}

/// The instruction that an order event is to the book: a cancellation
/// withdraws, a new market order takes, and a new limit order or a change
/// of one is submitted as a limit order.
pub open spec fn instruction_of(order: Order) -> OrderType {
    match order.event {
        EventType::Cancel => OrderType::Cancel { id: order.order_id },
        EventType::New => match order.kind {
            OrderKind::Market => OrderType::Market {
                id: order.order_id,
                side: book_side(order.side),
                qty: order.qty,
            },
            OrderKind::Limit => OrderType::Limit {
                id: order.order_id,
                side: book_side(order.side),
                qty: order.qty,
                price: order.price,
            },
        },
        EventType::Update => OrderType::Limit {
            id: order.order_id,
            side: book_side(order.side),
            qty: order.qty,
            price: order.price,
        },
    }
}

/// The instruction that `order` is to the book.
pub fn convert_to_order(order: &Order) -> (instruction: OrderType)
    ensures
        instruction == instruction_of(*order),
{
    let side = match order.side {
        OrderSide::Buy => Side::Bid,
        OrderSide::Sell => Side::Ask,
    };
    let qty = order.qty;
    let price = order.price;
    let id = order.order_id;
    match order.event {
        EventType::Cancel => OrderType::Cancel { id },
        EventType::New => match order.kind {
            OrderKind::Market => OrderType::Market { id, side, qty },
            OrderKind::Limit => OrderType::Limit { id, side, qty, price },
        },
        EventType::Update => OrderType::Limit { id, side, qty, price },
    }
}

} // verus!
