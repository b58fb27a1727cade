//! The order book: two sides of price levels over one arena of resting orders.

use crate::matching_engine::arena::{has_slot, is_live, retired, OrderArena};
use crate::matching_engine::depth::top_of_side;
use crate::matching_engine::levels::{
    best_level, cross_side, enqueue, lemma_levels_view_frame, lemma_rests_where_listed,
    levels_view, listed, side_inv, withdraw,
};
use crate::matching_engine::matching::{
    acceptable, best_of, cross, fills_qty, lemma_best_is_member, lemma_cross_conserves,
    lemma_fills_qty_concat, lemma_fills_qty_nonnegative, notional, queue_qty, rests_at, rests_in,
    top_levels,
    BookView, Taker,
};
use crate::matching_engine::models::{
    BookDepth, EventView, FillMetadata, LimitOrder, OrderEvent, OrderType, Side, Trade,
};
use std::collections::BTreeMap;
use vstd::prelude::*;

verus! {

/// The arena capacity of a book made by `default`.
pub const DEFAULT_ARENA_CAPACITY: usize = 1_000_000;

/// The queue capacity of a book made by `default`.
pub const DEFAULT_QUEUE_CAPACITY: usize = 100_000;

/// A price-time priority limit order book for one instrument.
#[derive(Debug)]
pub struct OrderBook {
    last_trade: Option<Trade>,
    traded_volume: u128,
    best_ask: Option<u64>,
    best_bid: Option<u64>,
    asks: BTreeMap<u64, Vec<usize>>,
    bids: BTreeMap<u64, Vec<usize>>,
    arena: OrderArena,
    default_queue_capacity: usize,
}

/// No price has a queue on both sides.
spec fn apart(one: Map<u64, Vec<usize>>, other: Map<u64, Vec<usize>>) -> bool {
    forall|p: u64| !(#[trigger] one.contains_key(p) && other.contains_key(p))
}

/// Every live slot is queued on one of the two sides.
spec fn covered(
    one: Map<u64, Vec<usize>>,
    other: Map<u64, Vec<usize>>,
    slots: Seq<LimitOrder>,
) -> bool {
    forall|j: int|
        0 <= j < slots.len() && (#[trigger] slots[j]).qty > 0 ==> listed(one, slots, j) || listed(
            other,
            slots,
            j,
        )
}

impl View for OrderBook {
    type V = BookView;

    closed spec fn view(&self) -> BookView {
        BookView {
            asks: levels_view(self.asks@, self.arena@),
            bids: levels_view(self.bids@, self.arena@),
            last_trade: self.last_trade,
            traded_volume: self.traded_volume,
        }
    }
}

impl OrderBook {
    /// The queues list exactly the live slots of the arena, each at its
    /// price, and every bid is below every ask.
    spec fn inv(&self) -> bool {
        &&& self.arena.wf()
        &&& side_inv(self.asks@, self.arena@)
        &&& side_inv(self.bids@, self.arena@)
        &&& covered(self.asks@, self.bids@, self.arena@)
        &&& forall|b: u64, a: u64|
            self.bids@.contains_key(b) && self.asks@.contains_key(a) ==> b < a
    }

    /// The book is consistent and its best quotes are up to date.
    pub closed spec fn wf(&self) -> bool {
        &&& self.inv()
        &&& self.best_ask == best_of(self.asks@.dom(), Side::Ask)
        &&& self.best_bid == best_of(self.bids@.dom(), Side::Bid)
    }

    /// The model of a consistent book is well formed.
    pub proof fn lemma_view_wf(&self)
        requires
            self.wf(),
        ensures
            self@.wf(),
    {
        let slots = self.arena@;
        self.arena.lemma_distinct_ids();
        assert(self@.asks.dom() =~= self.asks@.dom());
        assert(self@.bids.dom() =~= self.bids@.dom());
        assert forall|p: u64, i: int|
            self@.asks.contains_key(p) && 0 <= i < self@.asks[p].len() implies (
        #[trigger] self@.asks[p][i]).price == p && self@.asks[p][i].qty > 0 by {
            assert(self.asks@.contains_key(p));
        }
        assert forall|p: u64, i: int|
            self@.bids.contains_key(p) && 0 <= i < self@.bids[p].len() implies (
        #[trigger] self@.bids[p][i]).price == p && self@.bids[p][i].qty > 0 by {
            assert(self.bids@.contains_key(p));
        }
        assert forall|id: u128, p: u64, i: int, q: u64, j: int|
            rests_at(self@.asks, id, p, i) && rests_at(self@.asks, id, q, j) implies p == q && i
            == j by {
            assert(self.asks@.contains_key(p) && self.asks@.contains_key(q));
            assert(slots[self.asks@[p]@[i] as int].id == slots[self.asks@[q]@[j] as int].id);
        }
        assert forall|id: u128, p: u64, i: int, q: u64, j: int|
            rests_at(self@.bids, id, p, i) && rests_at(self@.bids, id, q, j) implies p == q && i
            == j by {
            assert(self.bids@.contains_key(p) && self.bids@.contains_key(q));
            assert(slots[self.bids@[p]@[i] as int].id == slots[self.bids@[q]@[j] as int].id);
        }
        assert forall|id: u128| !(rests_in(self@.asks, id) && rests_in(self@.bids, id)) by {
            if rests_in(self@.asks, id) && rests_in(self@.bids, id) {
                let (p, i) = choose|p: u64, i: int| rests_at(self@.asks, id, p, i);
                let (q, j) = choose|q: u64, j: int| rests_at(self@.bids, id, q, j);
                assert(rests_at(self@.asks, id, p, i) && rests_at(self@.bids, id, q, j));
                assert(self.asks@.contains_key(p) && self.bids@.contains_key(q));
                assert(slots[self.asks@[p]@[i] as int].id == slots[self.bids@[q]@[j] as int].id);
            }
        }
    }

    /// An empty book. Both capacities are hints for allocations.
    pub fn new(arena_capacity: usize, queue_capacity: usize) -> (book: Self)
        ensures
            book.wf(),
            book@ == (BookView {
                asks: Map::empty(),
                bids: Map::empty(),
                last_trade: None,
                traded_volume: 0,
            }),
    {
        let book = Self {
            last_trade: None,
            traded_volume: 0,
            best_ask: None,
            best_bid: None,
            asks: BTreeMap::new(),
            bids: BTreeMap::new(),
            arena: OrderArena::new(arena_capacity),
            default_queue_capacity: queue_capacity,
        };
        proof {
            assert(book@.asks =~= Map::empty());
            assert(book@.bids =~= Map::empty());
            assert(book.asks@.dom() =~= Set::empty());
            assert(book.bids@.dom() =~= Set::empty());
        }
        book
    }

    /// The lowest ask, if any order is offered.
    pub fn best_ask(&self) -> (best: Option<u64>)
        requires
            self.wf(),
        ensures
            best == self@.best_ask(),
    {
        proof {
            assert(self@.asks.dom() =~= self.asks@.dom());
        }
        self.best_ask
    }

    /// The highest bid, if any order is bid.
    pub fn best_bid(&self) -> (best: Option<u64>)
        requires
            self.wf(),
        ensures
            best == self@.best_bid(),
    {
        proof {
            assert(self@.bids.dom() =~= self.bids@.dom());
        }
        self.best_bid
    }

    /// The figures of the last instruction that traded.
    pub fn last_trade(&self) -> (trade: Option<Trade>)
        ensures
            trade == self@.last_trade,
    {
        self.last_trade
    }

    /// The quantity traded since the book was made.
    pub fn traded_volume(&self) -> (volume: u128)
        ensures
            volume == self@.traded_volume,
    {
        self.traded_volume
    }

    fn update_best_ask(&mut self)
        ensures
            final(self).best_ask == best_of(old(self).asks@.dom(), Side::Ask),
            *final(self) == (OrderBook { best_ask: final(self).best_ask, ..*old(self) }),
    {
        self.best_ask = best_level(&self.asks, Side::Ask);
    }

    fn update_best_bid(&mut self)
        ensures
            final(self).best_bid == best_of(old(self).bids@.dom(), Side::Bid),
            *final(self) == (OrderBook { best_bid: final(self).best_bid, ..*old(self) }),
    {
        self.best_bid = best_level(&self.bids, Side::Bid);
    }

    /// Crossing one side leaves the other side, and the place of every live
    /// slot, as they were.
    proof fn lemma_crossed(
        maker0: Map<u64, Vec<usize>>,
        maker1: Map<u64, Vec<usize>>,
        other: Map<u64, Vec<usize>>,
        slots0: Seq<LimitOrder>,
        slots1: Seq<LimitOrder>,
    )
        requires
            side_inv(maker0, slots0),
            side_inv(other, slots0),
            apart(maker0, other),
            covered(maker0, other, slots0),
            slots1.len() == slots0.len(),
            forall|j: int|
                0 <= j < slots0.len() ==> (#[trigger] slots1[j]).id == slots0[j].id
                    && slots1[j].price == slots0[j].price && slots1[j].qty <= slots0[j].qty,
            forall|j: int|
                0 <= j < slots0.len() && !listed(maker0, slots0, j) ==> #[trigger] slots1[j]
                    == slots0[j],
            forall|j: int|
                listed(maker0, slots0, j) && (#[trigger] slots1[j]).qty > 0 ==> listed(
                    maker1,
                    slots1,
                    j,
                ),
        ensures
            side_inv(other, slots1),
            levels_view(other, slots1) == levels_view(other, slots0),
            covered(maker1, other, slots1),
            covered(other, maker1, slots1),
    {
        assert forall|j: int| listed(other, slots0, j) implies #[trigger] slots1[j]
            == slots0[j] by {
            assert(other.contains_key(slots0[j].price));
            assert(!listed(maker0, slots0, j));
        }
        lemma_levels_view_frame(other, slots0, slots1);
        assert forall|j: int| 0 <= j < slots1.len() && (#[trigger] slots1[j]).qty > 0 implies (
        listed(maker1, slots1, j) || listed(other, slots1, j)) by {
            if !listed(maker0, slots0, j) {
                assert(slots1[j] == slots0[j]);
                assert(listed(other, slots0, j));
            }
        }
    }

    fn match_with_asks(
        &mut self,
        id: u128,
        qty: u64,
        fills: &mut Vec<FillMetadata>,
        limit_price: Option<u64>,
    ) -> (remaining: u64)
        requires
            old(self).wf(),
        ensures
            final(self).wf(),
            ({
                let taker = Taker { id, side: Side::Bid, limit: limit_price };
                let out = cross(old(self)@.asks, taker, qty);
                &&& final(self)@ == old(self)@.with_side(Side::Ask, out.levels)
                &&& final(fills)@ == old(fills)@ + out.fills
                &&& remaining == out.remaining
                &&& remaining > 0 ==> forall|p: u64| #[trigger]
                    final(self).asks@.contains_key(p) ==> !acceptable(taker, p)
            }),
            final(self).bids@ == old(self).bids@,
            final(self).default_queue_capacity == old(self).default_queue_capacity,
    {
        let taker = Taker { id, side: Side::Bid, limit: limit_price };
        let remaining = cross_side(&mut self.asks, &mut self.arena, taker, qty, fills);
        proof {
            Self::lemma_crossed(
                old(self).asks@,
                self.asks@,
                self.bids@,
                old(self).arena@,
                self.arena@,
            );
        }
        self.update_best_ask();
        remaining
    }

    fn match_with_bids(
        &mut self,
        id: u128,
        qty: u64,
        fills: &mut Vec<FillMetadata>,
        limit_price: Option<u64>,
    ) -> (remaining: u64)
        requires
            old(self).wf(),
        ensures
            final(self).wf(),
            ({
                let taker = Taker { id, side: Side::Ask, limit: limit_price };
                let out = cross(old(self)@.bids, taker, qty);
                &&& final(self)@ == old(self)@.with_side(Side::Bid, out.levels)
                &&& final(fills)@ == old(fills)@ + out.fills
                &&& remaining == out.remaining
                &&& remaining > 0 ==> forall|p: u64| #[trigger]
                    final(self).bids@.contains_key(p) ==> !acceptable(taker, p)
            }),
            final(self).asks@ == old(self).asks@,
            final(self).default_queue_capacity == old(self).default_queue_capacity,
    {
        let taker = Taker { id, side: Side::Ask, limit: limit_price };
        let remaining = cross_side(&mut self.bids, &mut self.arena, taker, qty, fills);
        proof {
            Self::lemma_crossed(
                old(self).bids@,
                self.bids@,
                self.asks@,
                old(self).arena@,
                self.arena@,
            );
        }
        self.update_best_bid();
        remaining
    }

    /// Withdraws the order `id` from the book and from the arena's register.
    /// Returns whether the id was registered.
    fn cancel(&mut self, id: u128) -> (removed: bool)
        requires
            old(self).wf(),
        ensures
            final(self).wf(),
            final(self)@ == old(self)@.withdrawn(id),
            removed == is_live(old(self).arena@, old(self).arena.registered(), id),
            rests_in(old(self)@.asks, id) || rests_in(old(self)@.bids, id) ==> removed,
            forall|j: int|
                0 <= j < final(self).arena@.len() && (#[trigger] final(self).arena@[j]).id == id
                    ==> final(self).arena@[j].qty == 0,
            forall|p: u64| #[trigger]
                final(self).asks@.contains_key(p) ==> old(self).asks@.contains_key(p),
            forall|p: u64| #[trigger]
                final(self).bids@.contains_key(p) ==> old(self).bids@.contains_key(p),
            final(self).default_queue_capacity == old(self).default_queue_capacity,
    {
        let ghost slots0 = self.arena@;
        let ghost marks0 = self.arena.registered();
        let ghost asks0 = self.asks@;
        let ghost bids0 = self.bids@;
        proof {
            self.arena.lemma_distinct_ids();
        }
        let found = self.arena.get(id);
        let ghost at: int = match found {
            Some((_, index)) => index as int,
            None => -1,
        };
        match found {
            Some((_, index)) => {
                proof {
                    lemma_rests_where_listed(asks0, slots0, index as int);
                    lemma_rests_where_listed(bids0, slots0, index as int);
                }
                let in_asks = withdraw(&mut self.asks, &self.arena, index);
                if !in_asks {
                    withdraw(&mut self.bids, &self.arena, index);
                } else {
                    proof {
                        assert(asks0.contains_key(slots0[index as int].price));
                        assert(!listed(bids0, slots0, index as int));
                        assert(!rests_in(levels_view(bids0, slots0), id));
                    }
                }
            },
            None => {
                proof {
                    let asks_view = levels_view(asks0, slots0);
                    let bids_view = levels_view(bids0, slots0);
                    if rests_in(asks_view, id) {
                        let (p, i) = choose|p: u64, i: int| rests_at(asks_view, id, p, i);
                        assert(rests_at(asks_view, id, p, i));
                        assert(asks0.contains_key(p));
                        let j = asks0[p]@[i];
                        assert(slots0[j as int].id == id && slots0[j as int].qty > 0);
                        assert(marks0[j as int]);
                    }
                    if rests_in(bids_view, id) {
                        let (p, i) = choose|p: u64, i: int| rests_at(bids_view, id, p, i);
                        assert(rests_at(bids_view, id, p, i));
                        assert(bids0.contains_key(p));
                        let j = bids0[p]@[i];
                        assert(slots0[j as int].id == id && slots0[j as int].qty > 0);
                        assert(marks0[j as int]);
                    }
                }
            },
        }
        let ghost asks1 = self.asks@;
        let ghost bids1 = self.bids@;
        let removed = self.arena.delete(&id);
        proof {
            let slots1 = self.arena@;
            assert forall|j: int| listed(asks1, slots0, j) implies #[trigger] slots1[j]
                == slots0[j] by {
                if slots0[j].id == id {
                    if found is Some {
                        assert(j == at);
                    }
                }
            }
            assert forall|j: int| listed(bids1, slots0, j) implies #[trigger] slots1[j]
                == slots0[j] by {
                if slots0[j].id == id {
                    if found is Some {
                        assert(j == at);
                    }
                }
            }
            lemma_levels_view_frame(asks1, slots0, slots1);
            lemma_levels_view_frame(bids1, slots0, slots1);
            assert forall|j: int| 0 <= j < slots1.len() && (#[trigger] slots1[j]).qty > 0 implies (
            listed(asks1, slots1, j) || listed(bids1, slots1, j)) by {
                assert(slots0[j].id != id);
                assert(slots1[j] == slots0[j]);
                assert(slots0[j].qty > 0);
                assert(listed(asks0, slots0, j) || listed(bids0, slots0, j));
                if found is Some {
                    assert(slots0[at].id == id);
                    assert(j != at);
                    assert(listed(asks1, slots0, j) <==> listed(asks0, slots0, j));
                    assert(listed(bids1, slots0, j) <==> listed(bids0, slots0, j));
                }
                assert(listed(asks1, slots0, j) || listed(bids1, slots0, j));
            }
            assert forall|j: int|
                0 <= j < slots1.len() && (#[trigger] slots1[j]).id == id implies slots1[j].qty
                == 0 by {
                assert(slots1[j] == retired(slots0[j]));
            }
        }
        self.update_best_ask();
        self.update_best_bid();
        removed
    }

    /// Rests `qty` at `price` on `side` for `id`, behind the orders already
    /// at that price. An order resting under the same id gives way.
    fn rest(&mut self, id: u128, side: Side, price: u64, qty: u64)
        requires
            old(self).wf(),
            qty > 0,
            side == Side::Bid ==> forall|p: u64| #[trigger]
                old(self).asks@.contains_key(p) ==> price < p,
            side == Side::Ask ==> forall|p: u64| #[trigger]
                old(self).bids@.contains_key(p) ==> p < price,
        ensures
            final(self).wf(),
            final(self)@ == old(self)@.rested(side, LimitOrder { id, qty, price }),
    {
        self.cancel(id);
        let ghost slots0 = self.arena@;
        let ghost asks0 = self.asks@;
        let ghost bids0 = self.bids@;
        let index = self.arena.insert(id, price, qty);
        proof {
            let slots1 = self.arena@;
            let order = LimitOrder { id, qty, price };
            assert(index < slots0.len() ==> slots0[index as int].qty == 0) by {
                if index < slots0.len() {
                    assert(has_slot(slots0, id) ==> slots0[index as int].id == id);
                    if !has_slot(slots0, id) {
                        assert(index == slots0.len());
                    }
                }
            }
            assert forall|j: int| listed(asks0, slots0, j) implies #[trigger] slots1[j]
                == slots0[j] by {
                let k = choose|k: int|
                    0 <= k < asks0[slots0[j].price]@.len() && (
                    #[trigger] asks0[slots0[j].price]@[k])
                        == j;
                assert(slots0[asks0[slots0[j].price]@[k] as int].qty > 0);
            }
            assert forall|j: int| listed(bids0, slots0, j) implies #[trigger] slots1[j]
                == slots0[j] by {
                let k = choose|k: int|
                    0 <= k < bids0[slots0[j].price]@.len() && (
                    #[trigger] bids0[slots0[j].price]@[k])
                        == j;
                assert(slots0[bids0[slots0[j].price]@[k] as int].qty > 0);
            }
            lemma_levels_view_frame(asks0, slots0, slots1);
            lemma_levels_view_frame(bids0, slots0, slots1);
            assert(!listed(asks0, slots1, index as int)) by {
                if listed(asks0, slots1, index as int) {
                    let k = choose|k: int|
                        0 <= k < asks0[price]@.len() && (#[trigger] asks0[price]@[k]) == index;
                    assert(slots0[asks0[price]@[k] as int].qty > 0);
                }
            }
            assert(!listed(bids0, slots1, index as int)) by {
                if listed(bids0, slots1, index as int) {
                    let k = choose|k: int|
                        0 <= k < bids0[price]@.len() && (#[trigger] bids0[price]@[k]) == index;
                    assert(slots0[bids0[price]@[k] as int].qty > 0);
                }
            }
            assert forall|j: int| j != index implies (listed(asks0, slots1, j) <==> listed(
                asks0,
                slots0,
                j,
            )) && (listed(bids0, slots1, j) <==> listed(bids0, slots0, j)) by {
                if 0 <= j < slots0.len() {
                    assert(slots1[j] == slots0[j]);
                } else if 0 <= j < slots1.len() {
                    assert(j == index);
                }
            }
        }
        match side {
            Side::Bid => {
                enqueue(&mut self.bids, &self.arena, index, self.default_queue_capacity);
                self.update_best_bid();
            },
            Side::Ask => {
                enqueue(&mut self.asks, &self.arena, index, self.default_queue_capacity);
                self.update_best_ask();
            },
        }
        proof {
            let slots1 = self.arena@;
            assert forall|j: int| 0 <= j < slots1.len() && (#[trigger] slots1[j]).qty > 0 implies (
            listed(self.asks@, slots1, j) || listed(self.bids@, slots1, j)) by {
                if j != index {
                    assert(slots1[j] == slots0[j]);
                    assert(listed(asks0, slots0, j) || listed(bids0, slots0, j));
                    assert(listed(asks0, slots1, j) || listed(bids0, slots1, j));
                }
            }
        }
    }

    fn market(&mut self, id: u128, side: Side, qty: u64) -> (result: (Vec<FillMetadata>, bool, u64))
        requires
            old(self).wf(),
        ensures
            final(self).wf(),
            ({
                let taker = Taker { id, side, limit: None };
                let crossing = cross(old(self)@.side(side.opposite()), taker, qty);
                &&& result.0@ == crossing.fills
                &&& result.1 == (crossing.remaining > 0)
                &&& result.2 == qty - crossing.remaining
                &&& final(self)@ == old(self)@.with_side(side.opposite(), crossing.levels)
            }),
    {
        let mut fills = Vec::new();
        let remaining_qty = match side {
            Side::Bid => self.match_with_asks(id, qty, &mut fills, None),
            Side::Ask => self.match_with_bids(id, qty, &mut fills, None),
        };
        proof {
            self.lemma_view_wf();
            old(self).lemma_view_wf();
            lemma_cross_conserves(
                old(self)@.side(side.opposite()),
                Taker { id, side, limit: None },
                qty,
            );
            lemma_fills_qty_nonnegative(fills@);
            assert(Seq::<FillMetadata>::empty() + fills@ =~= fills@);
        }
        let partial = remaining_qty > 0;
        (fills, partial, qty - remaining_qty)
    }

    fn limit(&mut self, id: u128, side: Side, qty: u64, price: u64) -> (result: (
        Vec<FillMetadata>,
        bool,
        u64,
    ))
        requires
            old(self).wf(),
        ensures
            final(self).wf(),
            ({
                let taker = Taker { id, side, limit: Some(price) };
                let crossing = cross(old(self)@.side(side.opposite()), taker, qty);
                let crossed = old(self)@.with_side(side.opposite(), crossing.levels);
                &&& result.0@ == crossing.fills
                &&& result.1 == (crossing.remaining > 0)
                &&& result.2 == qty - crossing.remaining
                &&& final(self)@ == if crossing.remaining > 0 {
                    crossed.rested(side, LimitOrder { id, qty: crossing.remaining, price })
                } else {
                    crossed
                }
            }),
    {
        let mut fills: Vec<FillMetadata> = Vec::new();
        let remaining_qty = match side {
            Side::Bid => self.match_with_asks(id, qty, &mut fills, Some(price)),
            Side::Ask => self.match_with_bids(id, qty, &mut fills, Some(price)),
        };
        proof {
            old(self).lemma_view_wf();
            lemma_cross_conserves(
                old(self)@.side(side.opposite()),
                Taker { id, side, limit: Some(price) },
                qty,
            );
            lemma_fills_qty_nonnegative(fills@);
            assert(Seq::<FillMetadata>::empty() + fills@ =~= fills@);
        }
        let partial = remaining_qty > 0;
        if partial {
            self.rest(id, side, price, remaining_qty);
        }
        (fills, partial, qty - remaining_qty)
    }

    /// The difference between the lowest ask and the highest bid, when both exist.
    pub fn spread(&self) -> (spread: Option<u64>)
        requires
            self.wf(),
        ensures
            spread == match (self@.best_bid(), self@.best_ask()) {
                (Some(bid), Some(ask)) => Some((ask - bid) as u64),
                _ => None,
            },
            spread matches Some(s) ==> s > 0,
    {
        proof {
            assert(self@.asks.dom() =~= self.asks@.dom());
            assert(self@.bids.dom() =~= self.bids@.dom());
        }
        match (self.best_bid, self.best_ask) {
            (Some(bid), Some(ask)) => {
                proof {
                    lemma_best_is_member(self.asks@.dom(), Side::Ask);
                    lemma_best_is_member(self.bids@.dom(), Side::Bid);
                }
                Some(ask - bid)
            },
            _ => None,
        }
    }

    /// Carries out `event`; the only way to change the book.
    pub fn execute(&mut self, event: OrderType) -> (outcome: OrderEvent)
        requires
            old(self).wf(),
        ensures
            final(self).wf(),
            final(self)@.wf(),
            (final(self)@, outcome@) == old(self)@.step(event),
    {
        let outcome = self._execute(event);
        match &outcome {
            OrderEvent::Filled { id: _, filled_qty, fills } => {
                self.record_trade(*filled_qty, fills);
            },
            OrderEvent::PartiallyFilled { id: _, filled_qty, fills } => {
                self.record_trade(*filled_qty, fills);
            },
            _ => {},
        }
        proof {
            self.lemma_view_wf();
        }
        outcome
    }

    fn _execute(&mut self, event: OrderType) -> (outcome: OrderEvent)
        requires
            old(self).wf(),
        ensures
            final(self).wf(),
            (final(self)@, outcome@) == old(self)@.matched(event),
            outcome@.fills().len() > 0 ==> match outcome@ {
                EventView::PartiallyFilled { filled_qty, fills, .. } => filled_qty == fills_qty(
                    fills,
                ),
                EventView::Filled { filled_qty, fills, .. } => filled_qty == fills_qty(fills),
                _ => true,
            },
    {
        proof {
            old(self).lemma_view_wf();
        }
        match event {
            OrderType::Market { id, side, qty } => {
                proof {
                    lemma_cross_conserves(
                        old(self)@.side(side.opposite()),
                        Taker { id, side, limit: None },
                        qty,
                    );
                }
                let (fills, partial, filled_qty) = self.market(id, side, qty);
                if fills.len() == 0 {
                    OrderEvent::Unfilled { id }
                } else if partial {
                    OrderEvent::PartiallyFilled { id, filled_qty, fills }
                } else {
                    OrderEvent::Filled { id, filled_qty, fills }
                }
            },
            OrderType::Limit { id, side, qty, price } => {
                proof {
                    lemma_cross_conserves(
                        old(self)@.side(side.opposite()),
                        Taker { id, side, limit: Some(price) },
                        qty,
                    );
                }
                let (fills, partial, filled_qty) = self.limit(id, side, qty, price);
                if fills.len() == 0 {
                    OrderEvent::Placed { id }
                } else if partial {
                    OrderEvent::PartiallyFilled { id, filled_qty, fills }
                } else {
                    OrderEvent::Filled { id, filled_qty, fills }
                }
            },
            OrderType::Cancel { id } => {
                self.cancel(id);
                OrderEvent::Canceled { id }
            },
        }
    }

    /// Brings the volume and the last trade up to date after `fills`.
    fn record_trade(&mut self, filled_qty: u64, fills: &Vec<FillMetadata>)
        requires
            old(self).wf(),
            fills@.len() > 0,
            filled_qty == fills_qty(fills@),
        ensures
            final(self).wf(),
            final(self)@ == old(self)@.traded(fills@),
    {
        let mut value: u128 = 0;
        let mut counted: u64 = 0;
        let mut i: usize = 0;
        proof {
            assert(fills@.take(0) =~= Seq::<FillMetadata>::empty());
        }
        while i < fills.len()
            invariant
                i <= fills@.len(),
                filled_qty == fills_qty(fills@),
                counted == fills_qty(fills@.take(i as int)),
                value == notional(fills@.take(i as int)),
                value <= u64::MAX * counted,
            decreases fills@.len() - i,
        {
            let fill = fills[i];
            proof {
                assert(fills@.take(i + 1).drop_last() =~= fills@.take(i as int));
                assert(fills@.take(i + 1).last() == fill);
                assert(fills@ =~= fills@.take(i + 1) + fills@.skip(i + 1));
                lemma_fills_qty_concat(fills@.take(i + 1), fills@.skip(i + 1));
                lemma_fills_qty_nonnegative(fills@.skip(i + 1));
                assert(fill.price * fill.qty <= u64::MAX * fill.qty) by (nonlinear_arith)
                    requires
                        fill.price <= u64::MAX,
                        0 <= fill.qty,
                ;
                assert(u64::MAX * counted + u64::MAX * fill.qty == u64::MAX * (counted + fill.qty))
                    by (nonlinear_arith);
                assert(u64::MAX * (counted + fill.qty) <= u64::MAX * u64::MAX) by (nonlinear_arith)
                    requires
                        counted + fill.qty <= u64::MAX,
                ;
                assert(0 <= fill.price * fill.qty) by (nonlinear_arith)
                    requires
                        fill.price >= 0,
                        fill.qty >= 0,
                ;
            }
            value = value + (fill.price as u128) * (fill.qty as u128);
            counted = counted + fill.qty;
            i = i + 1;
        }
        proof {
            assert(fills@.take(fills@.len() as int) =~= fills@);
        }
        let avg_price: u64 = if filled_qty > 0 {
            proof {
                assert(value / (filled_qty as u128) <= u64::MAX) by (nonlinear_arith)
                    requires
                        value <= u64::MAX * filled_qty,
                        filled_qty > 0,
                ;
            }
            (value / (filled_qty as u128)) as u64
        } else {
            0
        };
        let last = fills[fills.len() - 1];
        self.last_trade = Some(
            Trade {
                total_qty: filled_qty,
                avg_price,
                last_price: last.price,
                last_qty: last.qty,
            },
        );
        self.traded_volume = if u128::MAX - self.traded_volume >= filled_qty as u128 {
            self.traded_volume + filled_qty as u128
        } else {
            u128::MAX
        };
    }

    /// The price-level queues of the ask side, as slot indices.
    pub closed spec fn ask_queues(&self) -> Map<u64, Vec<usize>> {
        self.asks@
    }

    /// A copy of the ask side's queues: for each price the slot indices of
    /// the orders resting there, oldest first.
    pub fn get_asks(&self) -> (asks: BTreeMap<u64, Vec<usize>>)
        ensures
            asks@ == self.ask_queues(),
            asks@.dom() == self@.asks.dom(),
            forall|p: u64| #[trigger]
                asks@.contains_key(p) ==> asks@[p]@.len() == self@.asks[p].len(),
    {
        proof {
            assert(self@.asks.dom() =~= self.asks@.dom());
        }
        self.asks.clone()
    }

    /// The best `levels` price levels of each side, best price first, with
    /// the quantity resting at each.
    pub fn depth(&self, levels: usize) -> (depth: BookDepth)
        requires
            self.wf(),
        ensures
            depth.levels == levels,
            depth.asks@ == top_levels(self@.asks, Side::Ask, levels as nat),
            depth.bids@ == top_levels(self@.bids, Side::Bid, levels as nat),
            forall|k: int|
                0 <= k < depth.asks@.len() ==> {
                    let level = #[trigger] depth.asks@[k];
                    &&& self@.asks.contains_key(level.price)
                    &&& level.qty == queue_qty(self@.asks[level.price])
                    &&& level.qty > 0
                },
            forall|k: int|
                0 <= k < depth.bids@.len() ==> {
                    let level = #[trigger] depth.bids@[k];
                    &&& self@.bids.contains_key(level.price)
                    &&& level.qty == queue_qty(self@.bids[level.price])
                    &&& level.qty > 0
                },
    {
        let asks = top_of_side(&self.asks, &self.arena, Side::Ask, levels);
        let bids = top_of_side(&self.bids, &self.arena, Side::Bid, levels);
        BookDepth { levels, asks, bids }
    }
}

impl Default for OrderBook {
    fn default() -> (book: Self)
        ensures
            book.wf(),
            book@ == (BookView {
                asks: Map::empty(),
                bids: Map::empty(),
                last_trade: None,
                traded_volume: 0,
            }),
    {
        Self::new(DEFAULT_ARENA_CAPACITY, DEFAULT_QUEUE_CAPACITY)
    }
}

} // verus!
