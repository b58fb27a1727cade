//! The matching rules, stated over a mathematical model of the book.
//!
//! A side of the book is a map from price to the queue of orders resting at
//! that price, oldest first. An incoming order crosses the opposite side best
//! price first, and each level from its head.

use crate::matching_engine::models::{
    BookLevel, EventView, FillMetadata, LimitOrder, OrderType, Side, Trade,
};
use vstd::prelude::*;

verus! {

/// The orders resting at one price, oldest first.
pub type Queue = Seq<LimitOrder>;

/// One side of the book: the queue at each price that has resting orders.
pub type Levels = Map<u64, Seq<LimitOrder>>;

/// The book as a mathematical value.
pub struct BookView {
    pub asks: Levels,
    pub bids: Levels,
    pub last_trade: Option<Trade>,
    pub traded_volume: u128,
}

/// The incoming order of a crossing.
#[derive(Debug, Copy, Clone, PartialEq, Eq, Structural)]
pub struct Taker {
    pub id: u128,
    pub side: Side,
    /// The worst price the taker accepts; `None` for a market order.
    pub limit: Option<u64>,
}

/// What crossing one level leaves behind.
pub struct LevelOutcome {
    pub queue: Queue,
    pub fills: Seq<FillMetadata>,
    pub remaining: u64,
}

/// What crossing one side leaves behind.
pub struct Outcome {
    pub levels: Levels,
    pub fills: Seq<FillMetadata>,
    pub remaining: u64,
}

/// For orders resting on `maker_side`, price `p` is matched no later than price `q`.
pub open spec fn has_priority(maker_side: Side, p: u64, q: u64) -> bool {
    match maker_side {
        Side::Ask => p <= q,
        Side::Bid => q <= p,
    }
}

/// `p` is the price among `prices` that is matched first.
pub open spec fn is_best(prices: Set<u64>, maker_side: Side, p: u64) -> bool {
    prices.contains(p) && forall|q: u64| #[trigger]
        prices.contains(q) ==> has_priority(maker_side, p, q)
}

/// The price among `prices` that is matched first: the lowest for asks, the
/// highest for bids.
pub open spec fn best_of(prices: Set<u64>, maker_side: Side) -> Option<u64> {
    if exists|p: u64| is_best(prices, maker_side, p) {
        Some(choose|p: u64| is_best(prices, maker_side, p))
    } else {
        None
    }
}

/// The best quote of a side: its lowest ask or its highest bid.
pub open spec fn best_price(levels: Levels, maker_side: Side) -> Option<u64> {
    best_of(levels.dom(), maker_side)
}

/// Only one price is matched first.
pub proof fn lemma_best_unique(prices: Set<u64>, maker_side: Side, p: u64)
    requires
        is_best(prices, maker_side, p),
    ensures
        best_of(prices, maker_side) == Some(p),
{
    let q = choose|q: u64| is_best(prices, maker_side, q);
    assert(prices.contains(q));
    assert(prices.contains(p));
}

/// The price that is matched first is one of the prices.
pub proof fn lemma_best_is_member(prices: Set<u64>, maker_side: Side)
    ensures
        best_of(prices, maker_side) matches Some(p) ==> is_best(prices, maker_side, p),
{
}

/// Without prices no price is matched first.
pub proof fn lemma_best_of_none(maker_side: Side)
    ensures
        best_of(Set::<u64>::empty(), maker_side) is None,
{
}

/// A taker that refuses the best price refuses every price.
pub proof fn lemma_best_refused(prices: Set<u64>, taker: Taker, p: u64)
    requires
        is_best(prices, taker.side.opposite(), p),
        !acceptable(taker, p),
    ensures
        forall|q: u64| prices.contains(q) ==> !acceptable(taker, q),
{
}

/// The taker is willing to trade at `p`.
pub open spec fn acceptable(taker: Taker, p: u64) -> bool {
    match taker.limit {
        None => true,
        Some(limit) => has_priority(taker.side.opposite(), p, limit),
    }
}

/// The record of `qty` traded between `taker` and the resting order `maker`.
pub open spec fn fill_of(taker: Taker, maker: LimitOrder, qty: u64) -> FillMetadata {
    FillMetadata {
        order_1: taker.id,
        order_2: maker.id,
        qty,
        price: maker.price,
        taker_side: taker.side,
        total_fill: qty == maker.qty,
    }
}

/// Crossing one level: the head of the queue is matched until the taker or
/// the queue is used up. A head of which nothing is left is discarded
/// without a fill.
pub open spec fn fill_level(queue: Queue, taker: Taker, remaining: u64) -> LevelOutcome
    decreases queue.len(),
{
    if queue.len() == 0 || remaining == 0 {
        LevelOutcome { queue, fills: Seq::empty(), remaining }
    } else if queue[0].qty == 0 {
        fill_level(queue.drop_first(), taker, remaining)
    } else if remaining >= queue[0].qty {
        let rest = fill_level(queue.drop_first(), taker, (remaining - queue[0].qty) as u64);
        LevelOutcome {
            queue: rest.queue,
            fills: seq![fill_of(taker, queue[0], queue[0].qty)] + rest.fills,
            remaining: rest.remaining,
        }
    } else {
        LevelOutcome {
            queue: queue.update(
                0,
                LimitOrder { qty: (queue[0].qty - remaining) as u64, ..queue[0] },
            ),
            fills: seq![fill_of(taker, queue[0], remaining)],
            remaining: 0,
        }
    }
}

/// Crossing one side: levels are crossed best price first, as long as the
/// taker has quantity left and accepts the price. A level that is used up
/// leaves the side.
pub open spec fn cross(levels: Levels, taker: Taker, remaining: u64) -> Outcome
    decreases levels.dom().len(),
    when levels.dom().finite()
{
    match best_price(levels, taker.side.opposite()) {
        None => Outcome { levels, fills: Seq::empty(), remaining },
        Some(p) => if remaining == 0 || !acceptable(taker, p) {
            Outcome { levels, fills: Seq::empty(), remaining }
        } else {
            let level = fill_level(levels[p], taker, remaining);
            if level.queue.len() > 0 {
                Outcome {
                    levels: levels.insert(p, level.queue),
                    fills: level.fills,
                    remaining: level.remaining,
                }
            } else {
                let rest = cross(levels.remove(p), taker, level.remaining);
                Outcome {
                    levels: rest.levels,
                    fills: level.fills + rest.fills,
                    remaining: rest.remaining,
                }
            }
        },
    }
}

/// A level that is left with orders has used the taker up.
pub proof fn lemma_fill_level_stops(queue: Queue, taker: Taker, remaining: u64)
    ensures
        fill_level(queue, taker, remaining).queue.len() > 0 ==> fill_level(
            queue,
            taker,
            remaining,
        ).remaining == 0 || remaining == 0,
        remaining == 0 ==> fill_level(queue, taker, remaining) == (LevelOutcome {
            queue,
            fills: Seq::empty(),
            remaining,
        }),
    decreases queue.len(),
{
    if queue.len() == 0 || remaining == 0 {
    } else if queue[0].qty == 0 {
        lemma_fill_level_stops(queue.drop_first(), taker, remaining);
    } else if remaining >= queue[0].qty {
        lemma_fill_level_stops(queue.drop_first(), taker, (remaining - queue[0].qty) as u64);
    } else {
    }
}

/// The order `id` is the `i`-th of the queue at price `p`.
pub open spec fn rests_at(levels: Levels, id: u128, p: u64, i: int) -> bool {
    levels.contains_key(p) && 0 <= i < levels[p].len() && levels[p][i].id == id
}

/// The order `id` rests somewhere in `levels`.
pub open spec fn rests_in(levels: Levels, id: u128) -> bool {
    exists|p: u64, i: int| rests_at(levels, id, p, i)
}

/// `levels` without the order `id`. A level that loses its only order leaves the side.
pub open spec fn without(levels: Levels, id: u128) -> Levels {
    if rests_in(levels, id) {
        let (p, i) = choose|p: u64, i: int| rests_at(levels, id, p, i);
        if levels[p].len() == 1 {
            levels.remove(p)
        } else {
            levels.insert(p, levels[p].remove(i))
        }
    } else {
        levels
    }
}

/// `levels` with `order` added behind the orders already resting at its price.
pub open spec fn with_order(levels: Levels, order: LimitOrder) -> Levels {
    if levels.contains_key(order.price) {
        levels.insert(order.price, levels[order.price].push(order))
    } else {
        levels.insert(order.price, seq![order])
    }
}

/// The quantity that `fills` traded in all.
pub open spec fn fills_qty(fills: Seq<FillMetadata>) -> int
    decreases fills.len(),
{
    if fills.len() == 0 {
        0
    } else {
        fills_qty(fills.drop_last()) + fills.last().qty
    }
}

/// The value that `fills` traded in all: the sum of price times quantity.
pub open spec fn notional(fills: Seq<FillMetadata>) -> int
    decreases fills.len(),
{
    if fills.len() == 0 {
        0
    } else {
        notional(fills.drop_last()) + fills.last().price * fills.last().qty
    }
}

/// The quantity of two runs of fills is the sum of their quantities.
pub proof fn lemma_fills_qty_concat(a: Seq<FillMetadata>, b: Seq<FillMetadata>)
    ensures
        fills_qty(a + b) == fills_qty(a) + fills_qty(b),
        fills_qty(a) >= 0,
    decreases b.len(),
{
    if b.len() == 0 {
        assert(a + b =~= a);
    } else {
        assert((a + b).drop_last() =~= a + b.drop_last());
        lemma_fills_qty_concat(a, b.drop_last());
    }
    lemma_fills_qty_nonnegative(a);
}

/// No run of fills has a negative quantity.
pub proof fn lemma_fills_qty_nonnegative(a: Seq<FillMetadata>)
    ensures
        fills_qty(a) >= 0,
    decreases a.len(),
{
    if a.len() > 0 {
        lemma_fills_qty_nonnegative(a.drop_last());
    }
}

/// The quantity of a single fill.
pub proof fn lemma_fills_qty_one(fill: FillMetadata)
    ensures
        fills_qty(seq![fill]) == fill.qty,
{
    assert(seq![fill].drop_last() =~= Seq::<FillMetadata>::empty());
    assert(fills_qty(seq![fill].drop_last()) == 0);
    assert(seq![fill].last() == fill);
}

/// Crossing a level neither makes nor loses quantity on the taker's side:
/// what was filled and what is left add up to what came in.
pub proof fn lemma_fill_level_conserves(queue: Queue, taker: Taker, remaining: u64)
    ensures
        fills_qty(fill_level(queue, taker, remaining).fills) + fill_level(
            queue,
            taker,
            remaining,
        ).remaining == remaining,
    decreases queue.len(),
{
    if queue.len() == 0 || remaining == 0 {
    } else if queue[0].qty == 0 {
        lemma_fill_level_conserves(queue.drop_first(), taker, remaining);
    } else if remaining >= queue[0].qty {
        let rest = fill_level(queue.drop_first(), taker, (remaining - queue[0].qty) as u64);
        lemma_fill_level_conserves(queue.drop_first(), taker, (remaining - queue[0].qty) as u64);
        let first = seq![fill_of(taker, queue[0], queue[0].qty)];
        lemma_fills_qty_concat(first, rest.fills);
        lemma_fills_qty_one(fill_of(taker, queue[0], queue[0].qty));
    } else {
        lemma_fills_qty_one(fill_of(taker, queue[0], remaining));
    }
}

/// Crossing a side neither makes nor loses quantity on the taker's side:
/// what was filled and what is left add up to what came in.
pub proof fn lemma_cross_conserves(levels: Levels, taker: Taker, qty: u64)
    requires
        levels.dom().finite(),
    ensures
        fills_qty(cross(levels, taker, qty).fills) + cross(levels, taker, qty).remaining == qty,
    decreases levels.dom().len(),
{
    match best_price(levels, taker.side.opposite()) {
        None => {},
        Some(p) => {
            if qty == 0 || !acceptable(taker, p) {
            } else {
                let level = fill_level(levels[p], taker, qty);
                lemma_fill_level_conserves(levels[p], taker, qty);
                if level.queue.len() > 0 {
                } else {
                    let rest = cross(levels.remove(p), taker, level.remaining);
                    lemma_cross_conserves(levels.remove(p), taker, level.remaining);
                    lemma_fills_qty_concat(level.fills, rest.fills);
                }
            }
        },
    }
}

/// The quantity resting in `queue`.
pub open spec fn queue_qty(queue: Queue) -> int
    decreases queue.len(),
{
    if queue.len() == 0 {
        0
    } else {
        queue_qty(queue.drop_last()) + queue.last().qty
    }
}

/// The quantity of a queue is not negative.
pub proof fn lemma_queue_qty_nonnegative(queue: Queue)
    ensures
        queue_qty(queue) >= 0,
    decreases queue.len(),
{
    if queue.len() > 0 {
        lemma_queue_qty_nonnegative(queue.drop_last());
    }
}

/// The quantity of a queue is that of its head and that of the orders behind it.
pub proof fn lemma_queue_qty_head(queue: Queue)
    requires
        queue.len() > 0,
    ensures
        queue_qty(queue) == queue[0].qty + queue_qty(queue.drop_first()),
    decreases queue.len(),
{
    if queue.len() == 1 {
        assert(queue.drop_last() =~= Seq::<LimitOrder>::empty());
        assert(queue.drop_first() =~= Seq::<LimitOrder>::empty());
    } else {
        lemma_queue_qty_head(queue.drop_last());
        assert(queue.drop_last().drop_first() =~= queue.drop_first().drop_last());
        assert(queue.drop_first().last() == queue.last());
    }
}

/// A queue of live orders, one at least, holds a positive quantity.
pub proof fn lemma_queue_qty_positive(queue: Queue)
    requires
        queue.len() > 0,
        forall|k: int| 0 <= k < queue.len() ==> (#[trigger] queue[k]).qty > 0,
    ensures
        queue_qty(queue) > 0,
{
    lemma_queue_qty_nonnegative(queue.drop_last());
}

/// The first `count` levels of a side, best price first, each with the
/// quantity that rests at it.
pub open spec fn top_levels(levels: Levels, maker_side: Side, count: nat) -> Seq<BookLevel>
    decreases count,
{
    if count == 0 {
        Seq::empty()
    } else {
        match best_price(levels, maker_side) {
            None => Seq::empty(),
            Some(p) => seq![BookLevel { price: p, qty: queue_qty(levels[p]) as u128 }] + top_levels(
                levels.remove(p),
                maker_side,
                (count - 1) as nat,
            ),
        }
    }
}

/// The trade figures of an instruction that produced `fills`, at least one.
pub open spec fn trade_of(fills: Seq<FillMetadata>) -> Trade {
    Trade {
        total_qty: fills_qty(fills) as u64,
        avg_price: if fills_qty(fills) > 0 {
            (notional(fills) / fills_qty(fills)) as u64
        } else {
            0
        },
        last_price: fills.last().price,
        last_qty: fills.last().qty,
    }
}

/// The running volume after `filled` more was traded. The counter stops at
/// the largest value it can hold.
pub open spec fn volume_after(volume: u128, filled: int) -> u128 {
    if volume + filled <= u128::MAX {
        (volume + filled) as u128
    } else {
        u128::MAX
    }
}

impl BookView {
    /// The side on which orders of `side` rest.
    pub open spec fn side(self, side: Side) -> Levels {
        match side {
            Side::Ask => self.asks,
            Side::Bid => self.bids,
        }
    }

    /// The book with `levels` as the side on which orders of `side` rest.
    pub open spec fn with_side(self, side: Side, levels: Levels) -> BookView {
        match side {
            Side::Ask => BookView { asks: levels, ..self },
            Side::Bid => BookView { bids: levels, ..self },
        }
    }

    /// The lowest ask, if any order is offered.
    pub open spec fn best_ask(self) -> Option<u64> {
        best_price(self.asks, Side::Ask)
    }

    /// The highest bid, if any order is bid.
    pub open spec fn best_bid(self) -> Option<u64> {
        best_price(self.bids, Side::Bid)
    }

    /// The book after an instruction traded `fills`: the volume and the last
    /// trade follow the fills, and stay as they are when there are none.
    pub open spec fn traded(self, fills: Seq<FillMetadata>) -> BookView {
        if fills.len() == 0 {
            self
        } else {
            BookView {
                last_trade: Some(trade_of(fills)),
                traded_volume: volume_after(self.traded_volume, fills_qty(fills)),
                ..self
            }
        }
    }

    /// The book without the resting order `id`.
    pub open spec fn withdrawn(self, id: u128) -> BookView {
        BookView { asks: without(self.asks, id), bids: without(self.bids, id), ..self }
    }

    /// The book after `order` came to rest on `side`. An order that rested
    /// under the same id before gives way to it.
    pub open spec fn rested(self, side: Side, order: LimitOrder) -> BookView {
        let book = self.withdrawn(order.id);
        book.with_side(side, with_order(book.side(side), order))
    }

    /// The book and the event after the instruction `order`, before the
    /// trade figures follow.
    pub open spec fn matched(self, order: OrderType) -> (BookView, EventView) {
        match order {
            OrderType::Market { id, side, qty } => {
                let taker = Taker { id, side, limit: None };
                let crossing = cross(self.side(side.opposite()), taker, qty);
                (
                    self.with_side(side.opposite(), crossing.levels),
                    outcome_event(id, qty, crossing, EventView::Unfilled { id }),
                )
            },
            OrderType::Limit { id, side, qty, price } => {
                let taker = Taker { id, side, limit: Some(price) };
                let crossing = cross(self.side(side.opposite()), taker, qty);
                let crossed = self.with_side(side.opposite(), crossing.levels);
                let book = if crossing.remaining > 0 {
                    crossed.rested(side, LimitOrder { id, qty: crossing.remaining, price })
                } else {
                    crossed
                };
                (book, outcome_event(id, qty, crossing, EventView::Placed { id }))
            },
            OrderType::Cancel { id } => (self.withdrawn(id), EventView::Canceled { id }),
        }
    }

    /// The book and the event after the instruction `order`.
    pub open spec fn step(self, order: OrderType) -> (BookView, EventView) {
        let (book, event) = self.matched(order);
        (book.traded(event.fills()), event)
    }

    /// The book and the events after the instructions `orders`, in order.
    pub open spec fn run(self, orders: Seq<OrderType>) -> (BookView, Seq<EventView>)
        decreases orders.len(),
    {
        if orders.len() == 0 {
            (self, Seq::empty())
        } else {
            let (book, events) = self.run(orders.drop_last());
            let (next, event) = book.step(orders.last());
            (next, events.push(event))
        }
    }

    /// Every level has orders, each of them live and at the level's price;
    /// no id rests twice; every bid is below every ask.
    pub open spec fn wf(self) -> bool {
        &&& levels_wf(self.asks)
        &&& levels_wf(self.bids)
        &&& forall|b: u64, a: u64|
            self.bids.contains_key(b) && self.asks.contains_key(a) ==> b < a
        &&& unique_in(self.asks)
        &&& unique_in(self.bids)
        &&& forall|id: u128| !(rests_in(self.asks, id) && rests_in(self.bids, id))
    }
}

/// No id rests twice in `levels`.
pub open spec fn unique_in(levels: Levels) -> bool {
    forall|id: u128, p: u64, i: int, q: u64, j: int|
        #![trigger rests_at(levels, id, p, i), rests_at(levels, id, q, j)]
        rests_at(levels, id, p, i) && rests_at(levels, id, q, j) ==> p == q && i == j
}

/// Every level of `levels` has orders, each of them live and at the level's price.
pub open spec fn levels_wf(levels: Levels) -> bool {
    &&& levels.dom().finite()
    &&& forall|p: u64| #[trigger] levels.contains_key(p) ==> levels[p].len() > 0
    &&& forall|p: u64, i: int|
        levels.contains_key(p) && 0 <= i < levels[p].len() ==> (#[trigger] levels[p][i]).price
            == p && levels[p][i].qty > 0
}

/// The event for an order of `qty` whose crossing ended in `crossing`:
/// `untouched` when nothing traded, else the fills, partial when quantity is left.
pub open spec fn outcome_event(
    id: u128,
    qty: u64,
    crossing: Outcome,
    untouched: EventView,
) -> EventView {
    if crossing.fills.len() == 0 {
        untouched
    } else if crossing.remaining > 0 {
        EventView::PartiallyFilled {
            id,
            filled_qty: (qty - crossing.remaining) as u64,
            fills: crossing.fills,
        }
    } else {
        EventView::Filled { id, filled_qty: qty, fills: crossing.fills }
    }
}

} // verus!
