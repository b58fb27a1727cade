//! Price levels of one side of the book.

use crate::matching_engine::arena::{distinct_ids, retired, OrderArena, MAX_CAPACITY_HINT};
use crate::matching_engine::matching::{
    acceptable, best_of, cross, fill_level, fill_of, is_best, lemma_best_of_none,
    lemma_best_refused, lemma_best_unique, lemma_fill_level_stops, rests_at, rests_in, with_order,
    without, Levels, Outcome, Queue, Taker,
};
use crate::matching_engine::models::{FillMetadata, LimitOrder, Side};
use std::collections::BTreeMap;
use std::ops::Not;
use vstd::prelude::*;

verus! {

/// `BTreeMap::first_key_value`: the smallest key of the map, or `None` when
/// the map is empty.
#[verifier::external_body]
fn lowest_key(levels: &BTreeMap<u64, Vec<usize>>) -> (key: Option<u64>)
    ensures
        match key {
            Some(p) => levels@.contains_key(p) && forall|q: u64|
                levels@.contains_key(q) ==> p <= q,
            None => levels@.dom().is_empty(),
        },
{
    levels.first_key_value().map(|(price, _)| *price)
}

/// `BTreeMap::last_key_value`: the largest key of the map, or `None` when the
/// map is empty.
#[verifier::external_body]
fn highest_key(levels: &BTreeMap<u64, Vec<usize>>) -> (key: Option<u64>)
    ensures
        match key {
            Some(p) => levels@.contains_key(p) && forall|q: u64|
                levels@.contains_key(q) ==> q <= p,
            None => levels@.dom().is_empty(),
        },
{
    levels.last_key_value().map(|(price, _)| *price)
}

/// The orders that the slot indices of `queue` stand for, in queue order.
pub open spec fn level_view(queue: Seq<usize>, slots: Seq<LimitOrder>) -> Queue {
    Seq::new(queue.len(), |i: int| slots[queue[i] as int])
}

/// The side that the price-level queues `queues` stand for.
pub open spec fn levels_view(queues: Map<u64, Vec<usize>>, slots: Seq<LimitOrder>) -> Levels {
    Map::new(|p: u64| queues.contains_key(p), |p: u64| level_view(queues[p]@, slots))
}

/// `queue` lists slots of the arena, none of them twice.
pub open spec fn queue_valid(queue: Seq<usize>, slots: Seq<LimitOrder>) -> bool {
    &&& queue.no_duplicates()
    &&& forall|i: int| 0 <= i < queue.len() ==> (#[trigger] queue[i]) < slots.len()
}

/// `queue` lists slots of live orders at price `p`, none of them twice.
pub open spec fn queue_inv(queue: Seq<usize>, slots: Seq<LimitOrder>, p: u64) -> bool {
    &&& queue.no_duplicates()
    &&& forall|i: int|
        0 <= i < queue.len() ==> (#[trigger] queue[i]) < slots.len() && slots[queue[i] as int].price
            == p && slots[queue[i] as int].qty > 0
}

/// Every level of `queues` has orders, all of them live and at the level's price.
pub open spec fn side_inv(queues: Map<u64, Vec<usize>>, slots: Seq<LimitOrder>) -> bool {
    forall|p: u64| #[trigger]
        queues.contains_key(p) ==> queues[p]@.len() > 0 && queue_inv(queues[p]@, slots, p)
}

/// Slot `j` is among the first `k` entries of `queue`.
pub open spec fn in_prefix(queue: Seq<usize>, k: int, j: int) -> bool {
    exists|i: int| 0 <= i < k && (#[trigger] queue[i]) == j
}

/// Slot `j` is an entry of `queue`.
pub open spec fn holds_slot(queue: Seq<usize>, j: int) -> bool {
    in_prefix(queue, queue.len() as int, j)
}

/// Slot `j` is in the queue at its price.
pub open spec fn listed(queues: Map<u64, Vec<usize>>, slots: Seq<LimitOrder>, j: int) -> bool {
    &&& 0 <= j < slots.len()
    &&& queues.contains_key(slots[j].price)
    &&& holds_slot(queues[slots[j].price]@, j)
}

/// A slot at or behind position `k` of a queue without repeats is not among
/// the first `k`.
proof fn lemma_not_in_prefix(queue: Seq<usize>, k: int, i: int)
    requires
        queue.no_duplicates(),
        0 <= k <= i < queue.len(),
    ensures
        !in_prefix(queue, k, queue[i] as int),
{
    if in_prefix(queue, k, queue[i] as int) {
        let m = choose|m: int| 0 <= m < k && (#[trigger] queue[m]) == queue[i] as int;
        assert(queue[m] == queue[i]);
    }
}

/// The first `k + 1` entries of a queue are the first `k` and the one at `k`.
proof fn lemma_prefix_grows(queue: Seq<usize>, k: int, j: int)
    requires
        0 <= k < queue.len(),
    ensures
        in_prefix(queue, k + 1, j) <==> in_prefix(queue, k, j) || queue[k] == j,
{
    if in_prefix(queue, k + 1, j) {
        let m = choose|m: int| 0 <= m < k + 1 && (#[trigger] queue[m]) == j;
        if m < k {
            assert(in_prefix(queue, k, j));
        }
    }
    if in_prefix(queue, k, j) {
        let m = choose|m: int| 0 <= m < k && (#[trigger] queue[m]) == j;
        assert(queue[m] == j);
    }
}

/// Matches `taker` against the orders of one level, oldest first. A head of
/// which nothing is left is discarded without a fill; an order that is used
/// up leaves `queue`; each match is recorded in `fills`. Returns the
/// quantity that traded.
pub(crate) fn process_queue(
    arena: &mut OrderArena,
    queue: &mut Vec<usize>,
    remaining_qty: u64,
    taker: Taker,
    fills: &mut Vec<FillMetadata>,
) -> (filled_qty: u64)
    requires
        old(arena).wf(),
        queue_valid(old(queue)@, old(arena)@),
    ensures
        final(arena).wf(),
        final(arena)@.len() == old(arena)@.len(),
        final(arena).registered() == old(arena).registered(),
        ({
            let level = fill_level(level_view(old(queue)@, old(arena)@), taker, remaining_qty);
            &&& level_view(final(queue)@, final(arena)@) == level.queue
            &&& final(fills)@ == old(fills)@ + level.fills
            &&& filled_qty == remaining_qty - level.remaining
        }),
        final(queue)@.len() <= old(queue)@.len(),
        final(queue)@ == old(queue)@.subrange(
            old(queue)@.len() - final(queue)@.len(),
            old(queue)@.len() as int,
        ),
        forall|j: int|
            0 <= j < old(arena)@.len() ==> (#[trigger] final(arena)@[j]).id == old(arena)@[j].id
                && final(arena)@[j].price == old(arena)@[j].price
                && final(arena)@[j].qty <= old(arena)@[j].qty,
        forall|j: int|
            0 <= j < old(arena)@.len() && !holds_slot(old(queue)@, j)
                ==> #[trigger] final(arena)@[j] == old(arena)@[j],
        forall|i: int|
            0 <= i < old(queue)@.len() - final(queue)@.len()
                ==> final(arena)@[(#[trigger] old(queue)@[i]) as int].qty == 0,
        forall|i: int|
            0 <= i < final(queue)@.len() && old(arena)@[(#[trigger] final(queue)@[i]) as int].qty
                > 0 ==> final(arena)@[final(queue)@[i] as int].qty > 0,
{
    let ghost slots0 = arena@;
    let ghost queue0 = queue@;
    let ghost fills0 = fills@;
    let ghost level0 = level_view(queue0, slots0);
    let n = queue.len();
    let mut qty_to_fill = remaining_qty;
    let mut done: usize = 0;
    proof {
        assert(level0.subrange(0, n as int) =~= level0);
        let all = fill_level(level0, taker, remaining_qty);
        assert(fills@.subrange(fills0.len() as int, fills@.len() as int) + all.fills
            =~= all.fills);
        assert(fills@.subrange(0, fills0.len() as int) =~= fills0);
    }
    loop
        invariant
            n == queue0.len(),
            queue@ == queue0,
            done <= n,
            qty_to_fill <= remaining_qty,
            queue_valid(queue0, slots0),
            level0 == level_view(queue0, slots0),
            arena.wf(),
            arena@.len() == slots0.len(),
            arena.registered() == old(arena).registered(),
            forall|j: int|
                0 <= j < slots0.len() ==> #[trigger] arena@[j] == if in_prefix(
                    queue0,
                    done as int,
                    j,
                ) {
                    retired(slots0[j])
                } else {
                    slots0[j]
                },
            fills@.len() >= fills0.len(),
            fills@.subrange(0, fills0.len() as int) == fills0,
            ({
                let all = fill_level(level0, taker, remaining_qty);
                let rest = fill_level(level0.subrange(done as int, n as int), taker, qty_to_fill);
                &&& all.queue == rest.queue
                &&& all.remaining == rest.remaining
                &&& all.fills == fills@.subrange(fills0.len() as int, fills@.len() as int)
                    + rest.fills
            }),
        ensures
            done < n && qty_to_fill > 0 ==> qty_to_fill < level0[done as int].qty,
        decreases n - done,
    {
        if done >= n || qty_to_fill == 0 {
            break ;
        }
        let index = queue[done];
        let head = arena.order(index);
        let ghost sub = level0.subrange(done as int, n as int);
        proof {
            lemma_not_in_prefix(queue0, done as int, done as int);
            assert(head == slots0[index as int]);
            assert(sub[0] == head);
            assert(sub.drop_first() =~= level0.subrange(done + 1, n as int));
        }
        if head.qty == 0 {
            proof {
                assert forall|j: int| 0 <= j < slots0.len() implies #[trigger] arena@[j]
                    == if in_prefix(queue0, done + 1, j) {
                    retired(slots0[j])
                } else {
                    slots0[j]
                } by {
                    lemma_prefix_grows(queue0, done as int, j);
                }
            }
            done = done + 1;
        } else if qty_to_fill < head.qty {
            break ;
        } else {
            let ghost fills_before = fills@;
            let ghost arena_before = arena@;
            arena.take(index, head.qty);
            fills.push(
                FillMetadata {
                    order_1: taker.id,
                    order_2: head.id,
                    qty: head.qty,
                    price: head.price,
                    taker_side: taker.side,
                    total_fill: true,
                },
            );
            proof {
                let new_fill = fill_of(taker, head, head.qty);
                let so_far = fills_before.subrange(fills0.len() as int, fills_before.len() as int);
                let rest = fill_level(sub.drop_first(), taker, (qty_to_fill - head.qty) as u64);
                assert(fills@ == fills_before.push(new_fill));
                assert(fills@.subrange(fills0.len() as int, fills@.len() as int) =~= so_far.push(
                    new_fill,
                ));
                assert(so_far + (seq![new_fill] + rest.fills) =~= so_far.push(new_fill)
                    + rest.fills);
                assert(fills@.subrange(0, fills0.len() as int) =~= fills_before.subrange(
                    0,
                    fills0.len() as int,
                ));
                assert forall|j: int| 0 <= j < slots0.len() implies #[trigger] arena@[j]
                    == if in_prefix(queue0, done + 1, j) {
                    retired(slots0[j])
                } else {
                    slots0[j]
                } by {
                    lemma_prefix_grows(queue0, done as int, j);
                    if j != index {
                        assert(arena@[j] == arena_before[j]);
                    }
                }
            }
            qty_to_fill = qty_to_fill - head.qty;
            done = done + 1;
        }
    }
    let ghost arena_mid = arena@;
    let ghost fills_mid = fills@;
    let ghost sub = level0.subrange(done as int, n as int);
    if done < n && qty_to_fill > 0 {
        let index = queue[done];
        let head = arena.order(index);
        proof {
            lemma_not_in_prefix(queue0, done as int, done as int);
            assert(head == slots0[index as int]);
            assert(sub[0] == head);
        }
        arena.take(index, qty_to_fill);
        fills.push(
            FillMetadata {
                order_1: taker.id,
                order_2: head.id,
                qty: qty_to_fill,
                price: head.price,
                taker_side: taker.side,
                total_fill: false,
            },
        );
        proof {
            let new_fill = fill_of(taker, head, qty_to_fill);
            assert(fills@ == fills_mid.push(new_fill));
            assert(fills@.subrange(fills0.len() as int, fills@.len() as int)
                =~= fills_mid.subrange(fills0.len() as int, fills_mid.len() as int) + seq![
                new_fill,
            ]);
            assert(fills@ =~= fills0 + fills@.subrange(fills0.len() as int, fills@.len() as int));
        }
        qty_to_fill = 0;
    } else {
        proof {
            lemma_fill_level_stops(sub, taker, qty_to_fill);
            assert(fills@ =~= fills0 + fills@.subrange(fills0.len() as int, fills@.len() as int));
        }
    }
    let tail = queue.split_off(done);
    *queue = tail;
    proof {
        assert(queue@ =~= queue0.subrange(done as int, n as int));
        let level = fill_level(level0, taker, remaining_qty);
        assert forall|i: int|
            0 <= i < queue@.len() && (i > 0 || arena@ == arena_mid) implies arena@[(
        #[trigger] queue@[i]) as int] == slots0[queue@[i] as int] by {
            assert(queue@[i] == queue0[done + i]);
            lemma_not_in_prefix(queue0, done as int, done + i);
            if i > 0 {
                assert(queue0[done as int] != queue0[done + i]);
            }
        }
        assert(level_view(queue@, arena@) =~= level.queue);
        assert forall|i: int| 0 <= i < done implies arena@[(#[trigger] queue0[i]) as int].qty
            == 0 by {
            assert(in_prefix(queue0, done as int, queue0[i] as int));
            if done < n {
                assert(queue0[i] != queue0[done as int]);
            }
        }
        assert forall|j: int|
            0 <= j < slots0.len() && !holds_slot(queue0, j) implies #[trigger] arena@[j]
            == slots0[j] by {
            if in_prefix(queue0, done as int, j) {
                let k = choose|k: int| 0 <= k < done && (#[trigger] queue0[k]) == j;
                assert(queue0[k] == j as usize);
            }
        }
    }
    remaining_qty - qty_to_fill
}

/// The price of `levels` that is matched first, if there is a level.
pub(crate) fn best_level(levels: &BTreeMap<u64, Vec<usize>>, maker_side: Side) -> (best: Option<
    u64,
>)
    ensures
        best == best_of(levels@.dom(), maker_side),
        best matches Some(p) ==> is_best(levels@.dom(), maker_side, p),
        best is None ==> levels@.dom().is_empty(),
{
    let best = match maker_side {
        Side::Ask => lowest_key(levels),
        Side::Bid => highest_key(levels),
    };
    proof {
        match best {
            Some(p) => {
                lemma_best_unique(levels@.dom(), maker_side, p);
            },
            None => {
                assert(levels@.dom() =~= Set::<u64>::empty());
                lemma_best_of_none(maker_side);
            },
        }
    }
    best
}

/// Whether `taker` trades at price `p`.
pub(crate) fn accepts(taker: &Taker, p: u64) -> (yes: bool)
    ensures
        yes == acceptable(*taker, p),
{
    match taker.limit {
        None => true,
        Some(limit) => match taker.side {
            Side::Bid => p <= limit,
            Side::Ask => limit <= p,
        },
    }
}

/// A change of slots that no queue of `queues` lists leaves the side as it is.
pub proof fn lemma_levels_view_frame(
    queues: Map<u64, Vec<usize>>,
    before: Seq<LimitOrder>,
    after: Seq<LimitOrder>,
)
    requires
        side_inv(queues, before),
        after.len() >= before.len(),
        forall|j: int| listed(queues, before, j) ==> #[trigger] after[j] == before[j],
    ensures
        levels_view(queues, after) == levels_view(queues, before),
        side_inv(queues, after),
{
    assert forall|p: u64| #[trigger] queues.contains_key(p) implies level_view(queues[p]@, after)
        == level_view(queues[p]@, before) && queue_inv(queues[p]@, after, p) by {
        assert(queue_inv(queues[p]@, before, p));
        assert forall|i: int| 0 <= i < queues[p]@.len() implies after[(
        #[trigger] queues[p]@[i]) as int] == before[queues[p]@[i] as int] by {
            let j = queues[p]@[i] as int;
            assert(before[j].price == p);
            assert(holds_slot(queues[p]@, j));
            assert(listed(queues, before, j));
        }
        assert(level_view(queues[p]@, after) =~= level_view(queues[p]@, before));
    }
    assert(levels_view(queues, after) =~= levels_view(queues, before));
}

/// With nothing left to trade a crossing changes nothing.
pub proof fn lemma_cross_nothing(levels: Levels, taker: Taker)
    requires
        levels.dom().finite(),
    ensures
        cross(levels, taker, 0) == (Outcome { levels, fills: Seq::empty(), remaining: 0 }),
{
}

/// Matches `taker` against one side of the book, best price first and each
/// level from its head, until the taker is used up, the side is, or the next
/// price is one the taker refuses. Returns what is left of `qty`.
pub(crate) fn cross_side(
    levels: &mut BTreeMap<u64, Vec<usize>>,
    arena: &mut OrderArena,
    taker: Taker,
    qty: u64,
    fills: &mut Vec<FillMetadata>,
) -> (remaining: u64)
    requires
        old(arena).wf(),
        side_inv(old(levels)@, old(arena)@),
    ensures
        final(arena).wf(),
        final(arena)@.len() == old(arena)@.len(),
        side_inv(final(levels)@, final(arena)@),
        ({
            let out = cross(levels_view(old(levels)@, old(arena)@), taker, qty);
            &&& levels_view(final(levels)@, final(arena)@) == out.levels
            &&& final(fills)@ == old(fills)@ + out.fills
            &&& remaining == out.remaining
        }),
        remaining > 0 ==> forall|p: u64| #[trigger]
            final(levels)@.contains_key(p) ==> !acceptable(taker, p),
        forall|p: u64| #[trigger] final(levels)@.contains_key(p) ==> old(levels)@.contains_key(p),
        forall|j: int|
            0 <= j < old(arena)@.len() ==> (#[trigger] final(arena)@[j]).id == old(arena)@[j].id
                && final(arena)@[j].price == old(arena)@[j].price
                && final(arena)@[j].qty <= old(arena)@[j].qty,
        forall|j: int|
            0 <= j < old(arena)@.len() && !listed(old(levels)@, old(arena)@, j)
                ==> #[trigger] final(arena)@[j] == old(arena)@[j],
        forall|j: int|
            listed(old(levels)@, old(arena)@, j) && (#[trigger] final(arena)@[j]).qty > 0
                ==> listed(final(levels)@, final(arena)@, j),
{
    let ghost levels0 = levels@;
    let ghost slots0 = arena@;
    let ghost fills0 = fills@;
    let ghost view0 = levels_view(levels0, slots0);
    let maker_side = taker.side.not();
    let mut remaining = qty;
    proof {
        let all = cross(view0, taker, qty);
        assert(fills@.subrange(fills0.len() as int, fills@.len() as int) + all.fills
            =~= all.fills);
        assert(fills@.subrange(0, fills0.len() as int) =~= fills0);
    }
    loop
        invariant
            maker_side == taker.side.opposite(),
            view0 == levels_view(levels0, slots0),
            arena.wf(),
            arena@.len() == slots0.len(),
            side_inv(levels@, arena@),
            fills@.len() >= fills0.len(),
            fills@.subrange(0, fills0.len() as int) == fills0,
            ({
                let all = cross(view0, taker, qty);
                let rest = cross(levels_view(levels@, arena@), taker, remaining);
                &&& all.levels == rest.levels
                &&& all.remaining == rest.remaining
                &&& all.fills == fills@.subrange(fills0.len() as int, fills@.len() as int)
                    + rest.fills
            }),
            forall|p: u64| #[trigger] levels@.contains_key(p) ==> levels0.contains_key(p),
            forall|j: int|
                0 <= j < slots0.len() ==> (#[trigger] arena@[j]).id == slots0[j].id
                    && arena@[j].price == slots0[j].price && arena@[j].qty <= slots0[j].qty,
            forall|j: int|
                0 <= j < slots0.len() && !listed(levels0, slots0, j) ==> #[trigger] arena@[j]
                    == slots0[j],
            forall|j: int|
                listed(levels0, slots0, j) && (#[trigger] arena@[j]).qty > 0 ==> listed(
                    levels@,
                    arena@,
                    j,
                ),
            forall|j: int| #[trigger] listed(levels@, arena@, j) ==> listed(levels0, slots0, j),
        ensures
            cross(levels_view(levels@, arena@), taker, remaining) == (Outcome {
                levels: levels_view(levels@, arena@),
                fills: Seq::empty(),
                remaining,
            }),
            remaining > 0 ==> forall|p: u64| #[trigger]
                levels@.contains_key(p) ==> !acceptable(taker, p),
        decreases levels@.dom().len(),
    {
        let ghost view_before = levels_view(levels@, arena@);
        let ghost levels_before = levels@;
        let ghost slots_before = arena@;
        let ghost fills_before = fills@;
        proof {
            assert(view_before.dom() =~= levels@.dom());
        }
        let best = match best_level(levels, maker_side) {
            Some(p) => p,
            None => {
                break ;
            },
        };
        if remaining == 0 || !accepts(&taker, best) {
            proof {
                if remaining > 0 {
                    lemma_best_refused(levels@.dom(), taker, best);
                }
            }
            break ;
        }
        let mut queue = match levels.remove(&best) {
            Some(queue) => queue,
            None => Vec::new(),
        };
        let ghost queue_before = queue@;
        proof {
            assert(queue_before == levels_before[best]@);
            assert(queue_inv(queue_before, slots_before, best));
            assert(level_view(queue_before, slots_before) == view_before[best]);
        }
        let filled = process_queue(arena, &mut queue, remaining, taker, fills);
        let ghost level = fill_level(view_before[best], taker, remaining);
        let ghost levels_mid = levels@;
        proof {
            lemma_fill_level_stops(view_before[best], taker, remaining);
            assert forall|j: int| listed(levels_mid, slots_before, j) implies #[trigger] arena@[j]
                == slots_before[j] by {
                if holds_slot(queue_before, j) {
                    let k = choose|k: int|
                        0 <= k < queue_before.len() && (#[trigger] queue_before[k]) == j;
                    assert(slots_before[queue_before[k] as int].price == best);
                }
            }
            assert(side_inv(levels_mid, slots_before));
            lemma_levels_view_frame(levels_mid, slots_before, arena@);
            assert(levels_view(levels_mid, slots_before) =~= view_before.remove(best));
            assert(fills@.subrange(fills0.len() as int, fills@.len() as int)
                =~= fills_before.subrange(fills0.len() as int, fills_before.len() as int)
                + level.fills);
            assert(fills@.subrange(0, fills0.len() as int) =~= fills_before.subrange(
                0,
                fills0.len() as int,
            ));
            assert forall|j: int|
                0 <= j < slots0.len() && !listed(levels0, slots0, j) implies #[trigger] arena@[j]
                == slots0[j] by {
                if holds_slot(queue_before, j) {
                    let k = choose|k: int|
                        0 <= k < queue_before.len() && (#[trigger] queue_before[k]) == j;
                    assert(slots_before[queue_before[k] as int].price == best);
                    assert(listed(levels_before, slots_before, j));
                }
            }
            assert(levels_view(levels_mid, arena@) == view_before.remove(best));
        }
        remaining = remaining - filled;
        if queue.len() > 0 {
            levels.insert(best, queue);
            proof {
                assert(remaining == 0);
                assert(queue_inv(queue@, arena@, best)) by {
                    assert forall|i: int| 0 <= i < queue@.len() implies (#[trigger] queue@[i])
                        < arena@.len() && arena@[queue@[i] as int].price == best
                        && arena@[queue@[i] as int].qty
                        > 0 by {
                        let k = queue_before.len() - queue@.len() + i;
                        assert(queue@[i] == queue_before[k]);
                    }
                    assert forall|i: int, k: int|
                        0 <= i < queue@.len() && 0 <= k < queue@.len() && i != k implies queue@[i]
                        != queue@[k] by {
                        let d = queue_before.len() - queue@.len();
                        assert(queue@[i] == queue_before[d + i]);
                        assert(queue@[k] == queue_before[d + k]);
                    }
                }
                assert(levels_view(levels@, arena@) =~= view_before.insert(best, level.queue)) by {
                    assert forall|p: u64| levels@.contains_key(p) && p != best implies levels_view(
                        levels@,
                        arena@,
                    )[p] == view_before[p] by {
                        assert(levels_mid.contains_key(p));
                        assert(levels_view(levels_mid, arena@)[p] == view_before.remove(best)[p]);
                    }
                }
                lemma_cross_nothing(levels_view(levels@, arena@), taker);
                assert(fills_before.subrange(fills0.len() as int, fills_before.len() as int)
                    + level.fills =~= fills_before.subrange(
                    fills0.len() as int,
                    fills_before.len() as int,
                ) + level.fills + Seq::<FillMetadata>::empty());
                assert forall|j: int|
                    listed(levels0, slots0, j) && (#[trigger] arena@[j]).qty > 0 implies listed(
                    levels@,
                    arena@,
                    j,
                ) by {
                    assert(listed(levels_before, slots_before, j));
                    if slots_before[j].price == best {
                        let k = choose|k: int|
                            0 <= k < queue_before.len() && (#[trigger] queue_before[k]) == j;
                        let d = queue_before.len() - queue@.len();
                        if k < d {
                            assert(arena@[queue_before[k] as int].qty == 0);
                        } else {
                            assert(queue@[k - d] == j);
                        }
                    }
                }
                assert forall|j: int| #[trigger] listed(levels@, arena@, j) implies listed(
                    levels0,
                    slots0,
                    j,
                ) by {
                    if slots_before[j].price == best {
                        let k = choose|k: int| 0 <= k < queue@.len() && (#[trigger] queue@[k]) == j;
                        let d = queue_before.len() - queue@.len();
                        assert(queue_before[d + k] == j);
                    }
                    assert(listed(levels_before, slots_before, j));
                }
            }
            break ;
        }
        proof {
            assert(levels_view(levels@, arena@) =~= view_before.remove(best));
            let rest = cross(view_before.remove(best), taker, level.remaining);
            assert(fills_before.subrange(fills0.len() as int, fills_before.len() as int) + (
            level.fills + rest.fills) =~= fills_before.subrange(
                fills0.len() as int,
                fills_before.len() as int,
            ) + level.fills + rest.fills);
            assert forall|j: int|
                listed(levels0, slots0, j) && (#[trigger] arena@[j]).qty > 0 implies listed(
                levels@,
                arena@,
                j,
            ) by {
                assert(listed(levels_before, slots_before, j));
                if slots_before[j].price == best {
                    let k = choose|k: int|
                        0 <= k < queue_before.len() && (#[trigger] queue_before[k]) == j;
                    assert(arena@[queue_before[k] as int].qty == 0);
                }
            }
            assert forall|j: int| #[trigger] listed(levels@, arena@, j) implies listed(
                levels0,
                slots0,
                j,
            ) by {
                assert(listed(levels_before, slots_before, j));
            }
        }
    }
    proof {
        assert(fills@ =~= fills0 + fills@.subrange(fills0.len() as int, fills@.len() as int));
    }
    remaining
}

/// The position of slot `index` in `queue`.
pub(crate) fn position(queue: &Vec<usize>, index: usize) -> (found: Option<usize>)
    ensures
        match found {
            Some(i) => i < queue@.len() && queue@[i as int] == index,
            None => !holds_slot(queue@, index as int),
        },
{
    let mut i: usize = 0;
    while i < queue.len()
        invariant
            i <= queue@.len(),
            !in_prefix(queue@, i as int, index as int),
        decreases queue@.len() - i,
    {
        if queue[i] == index {
            return Some(i);
        }
        i = i + 1;
    }
    None
}

/// An order rests on a side exactly when its slot is listed there, and then
/// only at the place where the slot is listed.
pub proof fn lemma_rests_where_listed(
    queues: Map<u64, Vec<usize>>,
    slots: Seq<LimitOrder>,
    index: int,
)
    requires
        side_inv(queues, slots),
        distinct_ids(slots),
        0 <= index < slots.len(),
    ensures
        rests_in(levels_view(queues, slots), slots[index].id) <==> listed(queues, slots, index),
        forall|p: u64, i: int| #[trigger]
            rests_at(levels_view(queues, slots), slots[index].id, p, i) ==> p == slots[index].price
                && queues[p]@[i] == index,
{
    let view = levels_view(queues, slots);
    let id = slots[index].id;
    assert forall|p: u64, i: int| #[trigger] rests_at(view, id, p, i) implies p
        == slots[index].price && queues[p]@[i] == index by {
        assert(queues.contains_key(p));
        assert(queue_inv(queues[p]@, slots, p));
        let j = queues[p]@[i];
        assert(view[p][i] == slots[j as int]);
    }
    if listed(queues, slots, index) {
        let p = slots[index].price;
        let i = choose|i: int| 0 <= i < queues[p]@.len() && (#[trigger] queues[p]@[i]) == index;
        assert(rests_at(view, id, p, i));
    }
    if rests_in(view, id) {
        let (p, i) = choose|p: u64, i: int| rests_at(view, id, p, i);
        assert(rests_at(view, id, p, i));
        assert(queues[p]@[i] == index);
    }
}

/// Takes slot `index` out of the queue at its price; a queue that is left
/// empty leaves the side. Returns whether the slot was listed.
pub(crate) fn withdraw(
    levels: &mut BTreeMap<u64, Vec<usize>>,
    arena: &OrderArena,
    index: usize,
) -> (removed: bool)
    requires
        arena.wf(),
        side_inv(old(levels)@, arena@),
        index < arena@.len(),
    ensures
        removed == listed(old(levels)@, arena@, index as int),
        side_inv(final(levels)@, arena@),
        levels_view(final(levels)@, arena@) == without(
            levels_view(old(levels)@, arena@),
            arena@[index as int].id,
        ),
        !removed ==> final(levels)@ == old(levels)@,
        !listed(final(levels)@, arena@, index as int),
        forall|p: u64| #[trigger] final(levels)@.contains_key(p) ==> old(levels)@.contains_key(p),
        forall|j: int|
            j != index ==> (#[trigger] listed(final(levels)@, arena@, j) <==> listed(
                old(levels)@,
                arena@,
                j,
            )),
{
    let ghost levels0 = levels@;
    let ghost slots = arena@;
    let ghost view0 = levels_view(levels0, slots);
    let price = arena.order(index).price;
    let ghost id = slots[index as int].id;
    proof {
        arena.lemma_distinct_ids();
        lemma_rests_where_listed(levels0, slots, index as int);
    }
    let found = match levels.get(&price) {
        Some(queue) => position(queue, index),
        None => None,
    };
    match found {
        None => {
            proof {
                assert(!listed(levels0, slots, index as int));
            }
            false
        },
        Some(at) => {
            let mut queue = match levels.remove(&price) {
                Some(queue) => queue,
                None => Vec::new(),
            };
            let ghost queue0 = queue@;
            let ghost levels_mid = levels@;
            queue.remove(at);
            proof {
                assert(queue0 == levels0[price]@);
                assert(queue_inv(queue0, slots, price));
                assert(queue0[at as int] == index);
                assert(holds_slot(queue0, index as int));
                assert(rests_at(view0, id, price, at as int));
                let (p, i) = choose|p: u64, i: int| rests_at(view0, id, p, i);
                assert(rests_at(view0, id, p, i));
                assert(p == price && i == at);
                assert(queue@ == queue0.remove(at as int));
                assert(level_view(queue@, slots) =~= view0[price].remove(at as int));
                assert(queue_inv(queue@, slots, price)) by {
                    assert forall|k: int| 0 <= k < queue@.len() implies (#[trigger] queue@[k])
                        < slots.len() && slots[queue@[k] as int].price == price
                        && slots[queue@[k] as int].qty
                        > 0 by {
                        if k < at {
                            assert(queue@[k] == queue0[k]);
                        } else {
                            assert(queue@[k] == queue0[k + 1]);
                        }
                    }
                    assert forall|k: int, m: int|
                        0 <= k < queue@.len() && 0 <= m < queue@.len() && k != m implies queue@[k]
                        != queue@[m] by {
                        let k0 = if k < at { k } else { k + 1 };
                        let m0 = if m < at { m } else { m + 1 };
                        assert(queue@[k] == queue0[k0]);
                        assert(queue@[m] == queue0[m0]);
                    }
                }
                assert(!holds_slot(queue@, index as int)) by {
                    if holds_slot(queue@, index as int) {
                        let k = choose|k: int|
                            0 <= k < queue@.len() && (#[trigger] queue@[k]) == index;
                        let k0 = if k < at { k } else { k + 1 };
                        assert(queue@[k] == queue0[k0]);
                        assert(queue0[k0] == queue0[at as int]);
                    }
                }
                assert forall|j: int| j != index implies (holds_slot(queue@, j) <==> holds_slot(
                    queue0,
                    j,
                )) by {
                    if holds_slot(queue@, j) {
                        let k = choose|k: int| 0 <= k < queue@.len() && (#[trigger] queue@[k]) == j;
                        let k0 = if k < at { k } else { k + 1 };
                        assert(queue@[k] == queue0[k0]);
                    }
                    if holds_slot(queue0, j) {
                        let k0 = choose|k: int|
                            0 <= k < queue0.len() && (#[trigger] queue0[k]) == j;
                        let k = if k0 < at { k0 } else { k0 - 1 };
                        assert(queue@[k] == queue0[k0]);
                    }
                }
            }
            if queue.len() > 0 {
                levels.insert(price, queue);
                proof {
                    assert(levels_view(levels@, slots) =~= view0.insert(
                        price,
                        view0[price].remove(at as int),
                    ));
                }
            } else {
                proof {
                    assert(levels_view(levels@, slots) =~= view0.remove(price));
                }
            }
            proof {
                assert forall|j: int| j != index implies (#[trigger] listed(levels@, slots, j)
                    <==> listed(levels0, slots, j)) by {
                    if 0 <= j < slots.len() && slots[j].price != price {
                        assert(levels@.contains_key(slots[j].price) ==> levels@[slots[j].price]
                            == levels0[slots[j].price]);
                    }
                }
            }
            true
        },
    }
}

/// Puts slot `index` behind the slots already queued at its price.
pub(crate) fn enqueue(
    levels: &mut BTreeMap<u64, Vec<usize>>,
    arena: &OrderArena,
    index: usize,
    capacity: usize,
)
    requires
        arena.wf(),
        side_inv(old(levels)@, arena@),
        index < arena@.len(),
        arena@[index as int].qty > 0,
        !listed(old(levels)@, arena@, index as int),
    ensures
        side_inv(final(levels)@, arena@),
        levels_view(final(levels)@, arena@) == with_order(
            levels_view(old(levels)@, arena@),
            arena@[index as int],
        ),
        listed(final(levels)@, arena@, index as int),
        forall|p: u64| #[trigger]
            final(levels)@.contains_key(p) <==> old(levels)@.contains_key(p) || p
                == arena@[index as int].price,
        forall|j: int|
            j != index ==> (#[trigger] listed(final(levels)@, arena@, j) <==> listed(
                old(levels)@,
                arena@,
                j,
            )),
{
    let ghost levels0 = levels@;
    let ghost slots = arena@;
    let ghost view0 = levels_view(levels0, slots);
    let price = arena.order(index).price;
    let mut queue = match levels.remove(&price) {
        Some(queue) => queue,
        None => Vec::with_capacity(
            if capacity > MAX_CAPACITY_HINT {
                MAX_CAPACITY_HINT
            } else {
                capacity
            },
        ),
    };
    let ghost queue0 = queue@;
    queue.push(index);
    levels.insert(price, queue);
    proof {
        if levels0.contains_key(price) {
            assert(queue0 == levels0[price]@);
            assert(queue_inv(queue0, slots, price));
            assert(!holds_slot(queue0, index as int));
        } else {
            assert(queue0.len() == 0);
        }
        assert(queue@ == queue0.push(index));
        assert(queue_inv(queue@, slots, price)) by {
            assert forall|k: int, m: int|
                0 <= k < queue@.len() && 0 <= m < queue@.len() && k != m implies queue@[k]
                != queue@[m] by {
                if k < queue0.len() && m < queue0.len() {
                    assert(queue0[k] != queue0[m]);
                } else if k < queue0.len() {
                    assert(queue0[k] != index);
                } else {
                    assert(queue0[m] != index);
                }
            }
        }
        assert(level_view(queue@, slots) =~= level_view(queue0, slots).push(slots[index as int]));
        if levels0.contains_key(price) {
            assert(levels_view(levels@, slots) =~= view0.insert(
                price,
                view0[price].push(slots[index as int]),
            ));
        } else {
            assert(level_view(queue@, slots) =~= seq![slots[index as int]]);
            assert(levels_view(levels@, slots) =~= view0.insert(price, seq![slots[index as int]]));
        }
        assert(queue@[queue0.len() as int] == index);
        assert(holds_slot(queue@, index as int));
        assert forall|j: int| j != index implies (#[trigger] listed(levels@, slots, j) <==> listed(
            levels0,
            slots,
            j,
        )) by {
            if 0 <= j < slots.len() {
                if slots[j].price != price {
                    assert(levels@.contains_key(slots[j].price) ==> levels@[slots[j].price]
                        == levels0[slots[j].price]);
                } else {
                    if holds_slot(queue@, j) {
                        let k = choose|k: int| 0 <= k < queue@.len() && (#[trigger] queue@[k]) == j;
                        assert(k < queue0.len());
                        assert(queue0[k] == j);
                    }
                    if levels0.contains_key(price) && holds_slot(queue0, j) {
                        let k = choose|k: int| 0 <= k < queue0.len() && (#[trigger] queue0[k]) == j;
                        assert(queue@[k] == j);
                    }
                }
            }
        }
    }
}

} // verus!
