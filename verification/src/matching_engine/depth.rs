//! The top of the book: the best levels of a side with the quantity at each.

use crate::matching_engine::arena::OrderArena;
use crate::matching_engine::levels::{level_view, levels_view, queue_inv, side_inv};
use crate::matching_engine::matching::{
    has_priority, is_best, lemma_best_of_none, lemma_best_unique, lemma_queue_qty_positive,
    queue_qty, top_levels,
    Levels,
};
use crate::matching_engine::models::{BookLevel, LimitOrder, Side};
use crate::matching_engine::prices::{by_priority, prices_by_priority};
use std::collections::BTreeMap;
use vstd::prelude::*;

verus! {

/// The quantity resting in the slots of `queue`.
pub(crate) fn level_qty(queue: &Vec<usize>, arena: &OrderArena) -> (total: u128)
    requires
        forall|i: int| 0 <= i < queue@.len() ==> (#[trigger] queue@[i]) < arena@.len(),
    ensures
        total == queue_qty(level_view(queue@, arena@)),
{
    let ghost level = level_view(queue@, arena@);
    let mut total: u128 = 0;
    let mut i: usize = 0;
    proof {
        assert(level.take(0) =~= Seq::<LimitOrder>::empty());
    }
    while i < queue.len()
        invariant
            i <= queue@.len(),
            level == level_view(queue@, arena@),
            forall|k: int| 0 <= k < queue@.len() ==> (#[trigger] queue@[k]) < arena@.len(),
            total == queue_qty(level.take(i as int)),
            total <= i * u64::MAX,
        decreases queue@.len() - i,
    {
        let order = arena.order(queue[i]);
        proof {
            assert(level.take(i + 1).drop_last() =~= level.take(i as int));
            assert(level.take(i + 1).last() == order);
            assert((i + 1) * u64::MAX == i * u64::MAX + u64::MAX) by (nonlinear_arith);
            assert((i + 1) * u64::MAX <= usize::MAX * u64::MAX) by (nonlinear_arith)
                requires
                    i + 1 <= usize::MAX,
            ;
        }
        total = total + order.qty as u128;
        i = i + 1;
    }
    proof {
        assert(level.take(queue@.len() as int) =~= level);
    }
    total
}

/// The levels of `levels` whose prices are not among the first `skipped` of `prices`.
pub open spec fn beyond(levels: Levels, prices: Seq<u64>, skipped: int) -> Levels {
    levels.remove_keys(prices.take(skipped).to_set())
}

/// The first `count` levels of a side, best price first, each with the
/// quantity that rests at it.
pub(crate) fn top_of_side(
    levels: &BTreeMap<u64, Vec<usize>>,
    arena: &OrderArena,
    maker_side: Side,
    count: usize,
) -> (top: Vec<BookLevel>)
    requires
        side_inv(levels@, arena@),
    ensures
        top@ == top_levels(levels_view(levels@, arena@), maker_side, count as nat),
        forall|k: int|
            0 <= k < top@.len() ==> {
                let level = #[trigger] top@[k];
                &&& levels_view(levels@, arena@).contains_key(level.price)
                &&& level.qty == queue_qty(levels_view(levels@, arena@)[level.price])
                &&& level.qty > 0
            },
{
    let ghost view = levels_view(levels@, arena@);
    let prices = prices_by_priority(levels, maker_side);
    let mut top: Vec<BookLevel> = Vec::new();
    let mut i: usize = 0;
    proof {
        assert(prices@.take(0).to_set() =~= Set::<u64>::empty());
        assert(beyond(view, prices@, 0) =~= view);
        assert(view.dom() =~= levels@.dom());
    }
    while i < count && i < prices.len()
        invariant
            i <= count,
            i <= prices@.len(),
            view == levels_view(levels@, arena@),
            view.dom() == levels@.dom(),
            side_inv(levels@, arena@),
            by_priority(prices@, levels@.dom(), maker_side),
            forall|k: int|
                0 <= k < top@.len() ==> {
                    let level = #[trigger] top@[k];
                    &&& view.contains_key(level.price)
                    &&& level.qty == queue_qty(view[level.price])
                    &&& level.qty > 0
                },
            top_levels(view, maker_side, count as nat) == top@ + top_levels(
                beyond(view, prices@, i as int),
                maker_side,
                (count - i) as nat,
            ),
        decreases prices@.len() - i,
    {
        let price = prices[i];
        let ghost rest = beyond(view, prices@, i as int);
        proof {
            assert(prices@.contains(price));
            assert(levels@.contains_key(price));
            assert(!prices@.take(i as int).to_set().contains(price)) by {
                let seen = prices@.take(i as int);
                if seen.to_set().contains(price) {
                    let k = choose|k: int| 0 <= k < seen.len() && seen[k] == price;
                    assert(prices@[k] == prices@[i as int]);
                }
            }
            assert(is_best(rest.dom(), maker_side, price)) by {
                assert forall|q: u64| #[trigger] rest.dom().contains(q) implies has_priority(
                    maker_side,
                    price,
                    q,
                ) by {
                    assert(prices@.contains(q));
                    let k = choose|k: int| 0 <= k < prices@.len() && prices@[k] == q;
                    if k < i {
                        assert(prices@.take(i as int)[k] == q);
                        assert(prices@.take(i as int).to_set().contains(q));
                    }
                }
            }
            lemma_best_unique(rest.dom(), maker_side, price);
            assert(rest.remove(price) =~= beyond(view, prices@, i + 1)) by {
                let seen = prices@.take(i as int);
                let next = prices@.take(i + 1);
                assert(next =~= seen.push(price));
                assert forall|q: u64| next.to_set().contains(q) <==> seen.to_set().insert(
                    price,
                ).contains(q) by {
                    if next.to_set().contains(q) {
                        let k = choose|k: int| 0 <= k < next.len() && next[k] == q;
                        if k < i {
                            assert(seen[k] == q);
                        }
                    }
                    if seen.to_set().contains(q) {
                        let k = choose|k: int| 0 <= k < seen.len() && seen[k] == q;
                        assert(next[k] == q);
                    }
                    if q == price {
                        assert(next[i as int] == q);
                    }
                }
                assert(next.to_set() =~= seen.to_set().insert(price));
            }
            assert(rest[price] == view[price]);
        }
        let qty = match levels.get(&price) {
            Some(queue) => {
                proof {
                    assert(queue_inv(queue@, arena@, price));
                    lemma_queue_qty_positive(level_view(queue@, arena@));
                }
                level_qty(queue, arena)
            },
            None => 0,
        };
        let ghost before = top@;
        top.push(BookLevel { price, qty });
        proof {
            let entry = BookLevel { price, qty };
            let tail = top_levels(beyond(view, prices@, i + 1), maker_side, (count - i - 1) as nat);
            assert(before + (seq![entry] + tail) =~= before.push(entry) + tail);
        }
        i = i + 1;
    }
    proof {
        let rest = beyond(view, prices@, i as int);
        if i < count {
            assert(prices@.take(i as int) =~= prices@);
            assert(rest.dom() =~= Set::<u64>::empty()) by {
                assert forall|q: u64| !rest.dom().contains(q) by {
                    if view.dom().contains(q) {
                        assert(prices@.contains(q));
                        assert(prices@.to_set().contains(q));
                    }
                }
            }
            lemma_best_of_none(maker_side);
        }
        assert(top@ + Seq::<BookLevel>::empty() =~= top@);
    }
    top
}

} // verus!
