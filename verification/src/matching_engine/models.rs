//! Domain types of the matching engine.

use vstd::prelude::*;

verus! {

/// The side of the book an order belongs to.
#[derive(Debug, Copy, Clone, PartialEq, Eq, Structural)]
pub enum Side {
    Bid,
    Ask,
}

impl Side {
    /// The other side of the book.
    pub open spec fn opposite(self) -> Side {
        match self {
            Side::Bid => Side::Ask,
            Side::Ask => Side::Bid,
        }
    }
}

impl std::ops::Not for Side {
    type Output = Side;

    fn not(self) -> (other: Side) {
        match self {
            Side::Bid => Side::Ask,
            Side::Ask => Side::Bid,
        }
    }
}

impl vstd::std_specs::ops::NotSpecImpl for Side {
    open spec fn obeys_not_spec() -> bool {
        true
    }

    open spec fn not_req(self) -> bool {
        true
    }

    open spec fn not_spec(self) -> Side {
        self.opposite()
    }
}

/// A limit order resting in the book: what is left of it, and at which price.
#[derive(Debug, Copy, Clone, PartialEq, Eq, Structural, Default)]
pub struct LimitOrder {
    pub id: u128,
    pub qty: u64,
    pub price: u64,
}

/// An instruction to the book.
#[derive(Debug, Copy, Clone, PartialEq, Eq, Structural)]
pub enum OrderType {
    /// Take whatever the opposite side offers, up to `qty`. Nothing rests.
    Market { id: u128, side: Side, qty: u64 },
    /// Take what the opposite side offers at `price` or better, and rest what is left.
    Limit { id: u128, side: Side, qty: u64, price: u64 },
    /// Withdraw the resting order `id`.
    Cancel { id: u128 },
}

/// One match between an incoming order and a resting one.
#[derive(Debug, Copy, Clone, PartialEq, Eq, Structural)]
pub struct FillMetadata {
    /// The incoming order.
    pub order_1: u128,
    /// The resting order.
    pub order_2: u128,
    pub qty: u64,
    pub price: u64,
    pub taker_side: Side,
    /// Whether the resting order was used up by this fill.
    pub total_fill: bool,
}

/// What the book answers to an instruction.
#[derive(Debug, Clone, PartialEq, Eq)]
pub enum OrderEvent {
    Unfilled { id: u128 },
    Placed { id: u128 },
    Canceled { id: u128 },
    PartiallyFilled { id: u128, filled_qty: u64, fills: Vec<FillMetadata> },
    Filled { id: u128, filled_qty: u64, fills: Vec<FillMetadata> },
}

/// An [`OrderEvent`] as a mathematical value.
pub enum EventView {
    Unfilled { id: u128 },
    Placed { id: u128 },
    Canceled { id: u128 },
    PartiallyFilled { id: u128, filled_qty: u64, fills: Seq<FillMetadata> },
    Filled { id: u128, filled_qty: u64, fills: Seq<FillMetadata> },
}

impl View for OrderEvent {
    type V = EventView;

    open spec fn view(&self) -> EventView {
        match *self {
            OrderEvent::Unfilled { id } => EventView::Unfilled { id },
            OrderEvent::Placed { id } => EventView::Placed { id },
            OrderEvent::Canceled { id } => EventView::Canceled { id },
            OrderEvent::PartiallyFilled { id, filled_qty, fills } => EventView::PartiallyFilled {
                id,
                filled_qty,
                fills: fills@,
            },
            OrderEvent::Filled { id, filled_qty, fills } => EventView::Filled {
                id,
                filled_qty,
                fills: fills@,
            },
        }
    }
}

impl OrderEvent {
    /// The name of the event's kind, as execution logs record it.
    pub fn status(&self) -> (name: String)
        ensures
            name@ == match self@ {
                EventView::Unfilled { .. } => "Unfilled"@,
                EventView::Placed { .. } => "Placed"@,
                EventView::Canceled { .. } => "Canceled"@,
                EventView::PartiallyFilled { .. } => "PartiallyFilled"@,
                EventView::Filled { .. } => "Filled"@,
            },
    {
        match self {
            OrderEvent::Unfilled { .. } => "Unfilled".to_owned(),
            OrderEvent::Placed { .. } => "Placed".to_owned(),
            OrderEvent::Canceled { .. } => "Canceled".to_owned(),
            OrderEvent::PartiallyFilled { .. } => "PartiallyFilled".to_owned(),
            OrderEvent::Filled { .. } => "Filled".to_owned(),
        }
    }
}

impl EventView {
    /// The fills the event reports; none for an event without fills.
    pub open spec fn fills(self) -> Seq<FillMetadata> {
        match self {
            EventView::PartiallyFilled { fills, .. } => fills,
            EventView::Filled { fills, .. } => fills,
            _ => Seq::empty(),
        }
    }
}

/// Figures of the last instruction that traded.
#[derive(Debug, Copy, Clone, PartialEq, Eq, Structural)]
pub struct Trade {
    pub total_qty: u64,
    /// Quantity-weighted mean price of the fills, rounded down.
    pub avg_price: u64,
    pub last_price: u64,
    pub last_qty: u64,
}

/// The resting quantity at one price.
#[derive(Debug, Copy, Clone, PartialEq, Eq, Structural)]
pub struct BookLevel {
    pub price: u64,
    pub qty: u128,
}

/// The best levels of both sides, best first.
#[derive(Debug, Clone, PartialEq, Eq)]
pub struct BookDepth {
    pub levels: usize,
    pub asks: Vec<BookLevel>,
    pub bids: Vec<BookLevel>,
}

} // verus!
