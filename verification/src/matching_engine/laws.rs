//! What holds of the matching rules for every book and every instruction.

use crate::matching_engine::matching::{
    acceptable, best_of, best_price, cross, fill_level, fills_qty, has_priority, is_best,
    lemma_best_is_member, lemma_best_refused, lemma_cross_conserves, lemma_fill_level_stops,
    lemma_fills_qty_nonnegative, lemma_queue_qty_head, lemma_queue_qty_nonnegative, levels_wf,
    queue_qty, rests_at, rests_in, top_levels,
    unique_in, volume_after, with_order, without, BookView, Levels, Queue, Taker,
};
use crate::matching_engine::models::{EventView, FillMetadata, LimitOrder, OrderType, Side};
use vstd::prelude::*;

verus! {

/// The quantity that the fills of `events` traded in all.
pub open spec fn events_qty(events: Seq<EventView>) -> int
    decreases events.len(),
{
    if events.len() == 0 {
        0
    } else {
        events_qty(events.drop_last()) + fills_qty(events.last().fills())
    }
}

/// Volume is conserved by one instruction: the traded volume grows by the
/// quantity of the fills that the event reports, up to the counter's limit.
pub proof fn lemma_volume_follows_fills(book: BookView, order: OrderType)
    ensures
        book.step(order).0.traded_volume == volume_after(
            book.traded_volume,
            fills_qty(book.step(order).1.fills()),
        ),
{
    let (matched, event) = book.matched(order);
    assert(matched.traded_volume == book.traded_volume);
    lemma_fills_qty_nonnegative(event.fills());
    if event.fills().len() == 0 {
        assert(fills_qty(event.fills()) == 0);
    }
}

/// Volume is conserved by every sequence of instructions: the traded volume
/// at the end is the volume at the start plus the quantity of all fills of
/// all events, up to the counter's limit.
pub proof fn lemma_volume_conserved(book: BookView, orders: Seq<OrderType>)
    ensures
        book.run(orders).0.traded_volume == volume_after(
            book.traded_volume,
            events_qty(book.run(orders).1),
        ),
        events_qty(book.run(orders).1) >= 0,
    decreases orders.len(),
{
    if orders.len() == 0 {
    } else {
        let (before, events) = book.run(orders.drop_last());
        lemma_volume_conserved(book, orders.drop_last());
        lemma_volume_follows_fills(before, orders.last());
        let event = before.step(orders.last()).1;
        lemma_fills_qty_nonnegative(event.fills());
        assert(events.push(event).drop_last() =~= events);
    }
}

/// A well-formed book is not crossed: its best bid is below its best ask.
pub proof fn lemma_not_crossed(book: BookView)
    requires
        book.wf(),
    ensures
        book.best_bid() matches Some(bid) ==> (book.best_ask() matches Some(ask) ==> bid < ask),
{
    lemma_best_is_member(book.asks.dom(), Side::Ask);
    lemma_best_is_member(book.bids.dom(), Side::Bid);
}

/// Every fill of a level names the taker and its side.
pub proof fn lemma_fill_level_taker(queue: Queue, taker: Taker, remaining: u64)
    ensures
        forall|k: int|
            0 <= k < fill_level(queue, taker, remaining).fills.len() ==> (#[trigger] fill_level(
                queue,
                taker,
                remaining,
            ).fills[k]).taker_side == taker.side && fill_level(
                queue,
                taker,
                remaining,
            ).fills[k].order_1 == taker.id,
    decreases queue.len(),
{
    if queue.len() == 0 || remaining == 0 {
    } else if queue[0].qty == 0 {
        lemma_fill_level_taker(queue.drop_first(), taker, remaining);
    } else if remaining >= queue[0].qty {
        lemma_fill_level_taker(queue.drop_first(), taker, (remaining - queue[0].qty) as u64);
    } else {
    }
}

/// Every fill of a crossing names the taker and its side.
pub proof fn lemma_cross_taker(levels: Levels, taker: Taker, qty: u64)
    requires
        levels.dom().finite(),
    ensures
        forall|k: int|
            0 <= k < cross(levels, taker, qty).fills.len() ==> (#[trigger] cross(
                levels,
                taker,
                qty,
            ).fills[k]).taker_side == taker.side && cross(levels, taker, qty).fills[k].order_1
                == taker.id,
    decreases levels.dom().len(),
{
    match best_price(levels, taker.side.opposite()) {
        None => {},
        Some(p) => {
            if qty == 0 || !acceptable(taker, p) {
            } else {
                let level = fill_level(levels[p], taker, qty);
                lemma_fill_level_taker(levels[p], taker, qty);
                if level.queue.len() > 0 {
                } else {
                    lemma_cross_taker(levels.remove(p), taker, level.remaining);
                }
            }
        },
    }
}

/// Taker semantics: every fill of the event of a market or limit order
/// names that order as the taker, with the order's side.
pub proof fn lemma_taker_semantics(book: BookView, order: OrderType)
    requires
        book.wf(),
    ensures
        order matches OrderType::Market { id, side, .. } ==> forall|k: int|
            0 <= k < book.step(order).1.fills().len() ==> (#[trigger] book.step(
                order,
            ).1.fills()[k]).taker_side == side && book.step(order).1.fills()[k].order_1 == id,
        order matches OrderType::Limit { id, side, .. } ==> forall|k: int|
            0 <= k < book.step(order).1.fills().len() ==> (#[trigger] book.step(
                order,
            ).1.fills()[k]).taker_side == side && book.step(order).1.fills()[k].order_1 == id,
{
    match order {
        OrderType::Market { id, side, qty } => {
            lemma_cross_taker(book.side(side.opposite()), Taker { id, side, limit: None }, qty);
        },
        OrderType::Limit { id, side, qty, price } => {
            lemma_cross_taker(
                book.side(side.opposite()),
                Taker { id, side, limit: Some(price) },
                qty,
            );
        },
        OrderType::Cancel { id } => {},
    }
}

/// First in, first out at a price: the fills of a level go through the
/// queue from its head, one fill for each order, and every order before the
/// last one filled is used up. The orders behind them stay in their order.
pub proof fn lemma_fifo_at_level(queue: Queue, taker: Taker, remaining: u64)
    requires
        forall|k: int| 0 <= k < queue.len() ==> (#[trigger] queue[k]).qty > 0,
    ensures
        ({
            let out = fill_level(queue, taker, remaining);
            &&& out.fills.len() <= queue.len()
            &&& forall|k: int|
                0 <= k < out.fills.len() ==> (#[trigger] out.fills[k]).order_2 == queue[k].id
                    && out.fills[k].price == queue[k].price && out.fills[k].qty > 0
            &&& forall|k: int| 0 <= k < out.fills.len() - 1 ==> (#[trigger] out.fills[k]).total_fill
            &&& queue.len() - out.queue.len() <= out.fills.len() <= queue.len() - out.queue.len()
                + 1
            &&& forall|k: int|
                0 <= k < out.queue.len() ==> (#[trigger] out.queue[k]).id == queue[queue.len()
                    - out.queue.len() + k].id
        }),
    decreases queue.len(),
{
    if queue.len() == 0 || remaining == 0 {
    } else if remaining >= queue[0].qty {
        let rest = fill_level(queue.drop_first(), taker, (remaining - queue[0].qty) as u64);
        lemma_fifo_at_level(queue.drop_first(), taker, (remaining - queue[0].qty) as u64);
        let out = fill_level(queue, taker, remaining);
        assert forall|k: int| 0 <= k < out.fills.len() implies (#[trigger] out.fills[k]).order_2
            == queue[k].id && out.fills[k].price == queue[k].price && out.fills[k].qty > 0 by {
            if k > 0 {
                assert(out.fills[k] == rest.fills[k - 1]);
                assert(queue.drop_first()[k - 1] == queue[k]);
            }
        }
        assert forall|k: int| 0 <= k < out.fills.len() - 1 implies (
        #[trigger] out.fills[k]).total_fill by {
            if k > 0 {
                assert(out.fills[k] == rest.fills[k - 1]);
            }
        }
        assert forall|k: int| 0 <= k < out.queue.len() implies (#[trigger] out.queue[k]).id
            == queue[queue.len() - out.queue.len() + k].id by {
            assert(rest.queue[k].id == queue.drop_first()[queue.drop_first().len()
                - rest.queue.len() + k].id);
        }
    } else {
    }
}

/// An order that comes to rest joins the back of the queue at its price.
pub proof fn lemma_rests_last(levels: Levels, order: LimitOrder)
    ensures
        with_order(levels, order).contains_key(order.price),
        with_order(levels, order)[order.price].last() == order,
        levels.contains_key(order.price) ==> with_order(levels, order)[order.price].drop_last()
            == levels[order.price],
{
    if levels.contains_key(order.price) {
        assert(levels[order.price].push(order).drop_last() =~= levels[order.price]);
    }
}

/// Intent is conserved: the fills of an order never exceed its quantity, the
/// event reports their sum, a market order leaves nothing resting, and what
/// is left of a limit order rests at its price, last in the queue.
pub proof fn lemma_intent_conserved(book: BookView, order: OrderType)
    requires
        book.wf(),
    ensures
        order matches OrderType::Market { side, qty, .. } ==> {
            &&& fills_qty(book.step(order).1.fills()) <= qty
            &&& book.step(order).0.side(side) == book.side(side)
        },
        order matches OrderType::Limit { id, side, qty, price } ==> {
            &&& fills_qty(book.step(order).1.fills()) <= qty
            &&& fills_qty(book.step(order).1.fills()) < qty ==> {
                &&& book.step(order).0.side(side).contains_key(price)
                &&& book.step(order).0.side(side)[price].last() == (LimitOrder {
                    id,
                    qty: (qty - fills_qty(book.step(order).1.fills())) as u64,
                    price,
                })
            }
        },
        book.step(order).1 matches EventView::PartiallyFilled { filled_qty, fills, .. }
            ==> filled_qty == fills_qty(fills),
        book.step(order).1 matches EventView::Filled { filled_qty, fills, .. } ==> filled_qty
            == fills_qty(fills),
{
    match order {
        OrderType::Market { id, side, qty } => {
            let taker = Taker { id, side, limit: None };
            lemma_cross_conserves(book.side(side.opposite()), taker, qty);
            lemma_fills_qty_nonnegative(cross(book.side(side.opposite()), taker, qty).fills);
        },
        OrderType::Limit { id, side, qty, price } => {
            let taker = Taker { id, side, limit: Some(price) };
            let crossing = cross(book.side(side.opposite()), taker, qty);
            lemma_cross_conserves(book.side(side.opposite()), taker, qty);
            lemma_fills_qty_nonnegative(crossing.fills);
            if crossing.remaining > 0 {
                let crossed = book.with_side(side.opposite(), crossing.levels);
                let resting = LimitOrder { id, qty: crossing.remaining, price };
                lemma_rests_last(crossed.withdrawn(id).side(side), resting);
            }
        },
        OrderType::Cancel { id } => {},
    }
}

/// Once an order is withdrawn from a side it rests there no more.
pub proof fn lemma_without_gone(levels: Levels, id: u128)
    requires
        unique_in(levels),
    ensures
        !rests_in(without(levels, id), id),
        without(without(levels, id), id) == without(levels, id),
{
    let after = without(levels, id);
    if rests_in(levels, id) {
        let (p, i) = choose|p: u64, i: int| rests_at(levels, id, p, i);
        assert(rests_at(levels, id, p, i));
        if rests_in(after, id) {
            let (q, j) = choose|q: u64, j: int| rests_at(after, id, q, j);
            assert(rests_at(after, id, q, j));
            if q != p {
                assert(rests_at(levels, id, q, j));
            } else {
                let j0 = if j < i {
                    j
                } else {
                    j + 1
                };
                assert(after[p][j] == levels[p][j0]);
                assert(rests_at(levels, id, p, j0));
            }
        }
    }
}

/// Among finitely many prices, one at least, one is matched first.
pub proof fn lemma_best_exists(prices: Set<u64>, maker_side: Side)
    requires
        prices.finite(),
        !prices.is_empty(),
    ensures
        best_of(prices, maker_side) is Some,
    decreases prices.len(),
{
    let x = prices.choose();
    let rest = prices.remove(x);
    if rest.is_empty() {
        assert forall|q: u64| #[trigger] prices.contains(q) implies has_priority(
            maker_side,
            x,
            q,
        ) by {
            if q != x {
                assert(rest.contains(q));
            }
        }
        assert(is_best(prices, maker_side, x));
    } else {
        lemma_best_exists(rest, maker_side);
        lemma_best_is_member(rest, maker_side);
        let m = best_of(rest, maker_side)->0;
        let b = if has_priority(maker_side, x, m) {
            x
        } else {
            m
        };
        assert forall|q: u64| #[trigger] prices.contains(q) implies has_priority(
            maker_side,
            b,
            q,
        ) by {
            if q != x {
                assert(rest.contains(q));
            }
        }
        assert(is_best(prices, maker_side, b));
    }
}

/// A side has a best quote exactly when it has a level.
pub proof fn lemma_best_quote(levels: Levels, maker_side: Side)
    requires
        levels.dom().finite(),
    ensures
        best_price(levels, maker_side) is None <==> levels.dom().is_empty(),
        best_price(levels, maker_side) matches Some(p) ==> is_best(levels.dom(), maker_side, p),
{
    lemma_best_is_member(levels.dom(), maker_side);
    if !levels.dom().is_empty() {
        lemma_best_exists(levels.dom(), maker_side);
    }
}

/// Every queue of `after` is the tail of the queue at the same price in
/// `before`, order by order.
pub open spec fn trimmed(after: Levels, before: Levels) -> bool {
    forall|p: u64| #[trigger]
        after.contains_key(p) ==> before.contains_key(p) && after[p].len() <= before[p].len()
            && forall|k: int|
            0 <= k < after[p].len() ==> (#[trigger] after[p][k]).id == before[p][before[p].len()
                - after[p].len() + k].id
}

/// What is left of a level after a crossing is the tail of the queue, with
/// every order still live and at its price.
pub proof fn lemma_fill_level_tail(queue: Queue, taker: Taker, remaining: u64)
    requires
        forall|k: int| 0 <= k < queue.len() ==> (#[trigger] queue[k]).qty > 0,
    ensures
        ({
            let out = fill_level(queue, taker, remaining);
            &&& out.queue.len() <= queue.len()
            &&& forall|k: int|
                0 <= k < out.queue.len() ==> {
                    let from = queue[queue.len() - out.queue.len() + k];
                    (#[trigger] out.queue[k]).id == from.id && out.queue[k].price == from.price
                        && out.queue[k].qty > 0
                }
        }),
    decreases queue.len(),
{
    if queue.len() == 0 || remaining == 0 {
    } else if remaining >= queue[0].qty {
        let rest = fill_level(queue.drop_first(), taker, (remaining - queue[0].qty) as u64);
        lemma_fill_level_tail(queue.drop_first(), taker, (remaining - queue[0].qty) as u64);
        let out = fill_level(queue, taker, remaining);
        assert forall|k: int| 0 <= k < out.queue.len() implies {
            let from = queue[queue.len() - out.queue.len() + k];
            (#[trigger] out.queue[k]).id == from.id && out.queue[k].price == from.price
                && out.queue[k].qty > 0
        } by {
            let tail = queue.drop_first();
            assert(tail[tail.len() - rest.queue.len() + k] == queue[queue.len() - out.queue.len()
                + k]);
        }
    } else {
    }
}

/// Tails of tails are tails.
pub proof fn lemma_trimmed_twice(last: Levels, middle: Levels, first: Levels)
    requires
        trimmed(last, middle),
        trimmed(middle, first),
    ensures
        trimmed(last, first),
{
    assert forall|p: u64| #[trigger] last.contains_key(p) implies first.contains_key(p)
        && last[p].len() <= first[p].len() && forall|k: int|
        0 <= k < last[p].len() ==> (#[trigger] last[p][k]).id == first[p][first[p].len()
            - last[p].len() + k].id by {
        assert(middle.contains_key(p));
        assert forall|k: int| 0 <= k < last[p].len() implies (#[trigger] last[p][k]).id
            == first[p][first[p].len() - last[p].len() + k].id by {
            let m = middle[p].len() - last[p].len() + k;
            assert(last[p][k].id == middle[p][m].id);
            assert(middle[p][m].id == first[p][first[p].len() - middle[p].len() + m].id);
        }
    }
}

/// Where queues are tails of what they were, no id rests that did not rest
/// before, and none rests twice.
pub proof fn lemma_trimmed_unique(after: Levels, before: Levels)
    requires
        trimmed(after, before),
        unique_in(before),
    ensures
        unique_in(after),
        forall|id: u128| rests_in(after, id) ==> rests_in(before, id),
{
    assert forall|id: u128, p: u64, i: int| rests_at(after, id, p, i) implies rests_at(
        before,
        id,
        p,
        before[p].len() - after[p].len() + i,
    ) by {
        assert(after[p][i].id == before[p][before[p].len() - after[p].len() + i].id);
    }
    assert forall|id: u128, p: u64, i: int, q: u64, j: int|
        rests_at(after, id, p, i) && rests_at(after, id, q, j) implies p == q && i == j by {
        assert(rests_at(before, id, p, before[p].len() - after[p].len() + i));
        assert(rests_at(before, id, q, before[q].len() - after[q].len() + j));
    }
    assert forall|id: u128| rests_in(after, id) implies rests_in(before, id) by {
        let (p, i) = choose|p: u64, i: int| rests_at(after, id, p, i);
        assert(rests_at(after, id, p, i));
        assert(rests_at(before, id, p, before[p].len() - after[p].len() + i));
    }
}

/// A crossing leaves a well-formed side well formed: its queues are tails
/// of what they were, and when the taker has quantity left it refuses
/// every price that is left.
pub proof fn lemma_cross_trims(levels: Levels, taker: Taker, qty: u64)
    requires
        levels_wf(levels),
    ensures
        levels_wf(cross(levels, taker, qty).levels),
        trimmed(cross(levels, taker, qty).levels, levels),
        cross(levels, taker, qty).remaining > 0 ==> forall|p: u64| #[trigger]
            cross(levels, taker, qty).levels.contains_key(p) ==> !acceptable(taker, p),
    decreases levels.dom().len(),
{
    let maker_side = taker.side.opposite();
    lemma_best_quote(levels, maker_side);
    match best_price(levels, maker_side) {
        None => {},
        Some(p) => {
            if qty == 0 || !acceptable(taker, p) {
                if qty > 0 {
                    lemma_best_refused(levels.dom(), taker, p);
                }
            } else {
                let level = fill_level(levels[p], taker, qty);
                lemma_fill_level_tail(levels[p], taker, qty);
                lemma_fill_level_stops(levels[p], taker, qty);
                if level.queue.len() > 0 {
                    let after = levels.insert(p, level.queue);
                    assert(after.dom() =~= levels.dom());
                    assert forall|q: u64, i: int|
                        after.contains_key(q) && 0 <= i < after[q].len() implies (
                    #[trigger] after[q][i]).price == q && after[q][i].qty > 0 by {
                        if q == p {
                            let from = levels[p][levels[p].len() - level.queue.len() + i];
                            assert(after[q][i].price == from.price);
                        }
                    }
                } else {
                    let smaller = levels.remove(p);
                    let rest = cross(smaller, taker, level.remaining);
                    lemma_cross_trims(smaller, taker, level.remaining);
                    assert(trimmed(smaller, levels));
                    lemma_trimmed_twice(rest.levels, smaller, levels);
                }
            }
        },
    }
}

/// Withdrawing an order leaves a well-formed side well formed, without
/// that order and with no order that was not there.
pub proof fn lemma_without_wf(levels: Levels, id: u128)
    requires
        levels_wf(levels),
        unique_in(levels),
    ensures
        levels_wf(without(levels, id)),
        unique_in(without(levels, id)),
        !rests_in(without(levels, id), id),
        forall|x: u128| rests_in(without(levels, id), x) ==> rests_in(levels, x),
        forall|p: u64| #[trigger] without(levels, id).contains_key(p) ==> levels.contains_key(p),
{
    let after = without(levels, id);
    lemma_without_gone(levels, id);
    if rests_in(levels, id) {
        let (p, i) = choose|p: u64, i: int| rests_at(levels, id, p, i);
        assert(rests_at(levels, id, p, i));
        assert forall|x: u128, q: u64, j: int| rests_at(after, x, q, j) implies rests_at(
            levels,
            x,
            q,
            if q == p && j >= i {
                j + 1
            } else {
                j
            },
        ) by {}
        assert forall|x: u128, q: u64, j: int, r: u64, k: int|
            rests_at(after, x, q, j) && rests_at(after, x, r, k) implies q == r && j == k by {
            let j0 = if q == p && j >= i {
                j + 1
            } else {
                j
            };
            let k0 = if r == p && k >= i {
                k + 1
            } else {
                k
            };
            assert(rests_at(levels, x, q, j0));
            assert(rests_at(levels, x, r, k0));
        }
        assert forall|x: u128| rests_in(after, x) implies rests_in(levels, x) by {
            let (q, j) = choose|q: u64, j: int| rests_at(after, x, q, j);
            assert(rests_at(after, x, q, j));
            let j0 = if q == p && j >= i {
                j + 1
            } else {
                j
            };
            assert(rests_at(levels, x, q, j0));
        }
        assert forall|q: u64, j: int|
            after.contains_key(q) && 0 <= j < after[q].len() implies (#[trigger] after[q][j]).price
            == q && after[q][j].qty > 0 by {
            let j0 = if q == p && j >= i {
                j + 1
            } else {
                j
            };
            assert(after[q][j] == levels[q][j0]);
        }
    }
}

/// An order that comes to rest under an id that rests nowhere leaves a
/// well-formed side well formed.
pub proof fn lemma_with_order_wf(levels: Levels, order: LimitOrder)
    requires
        levels_wf(levels),
        unique_in(levels),
        !rests_in(levels, order.id),
        order.qty > 0,
    ensures
        levels_wf(with_order(levels, order)),
        unique_in(with_order(levels, order)),
        forall|x: u128|
            rests_in(with_order(levels, order), x) ==> x == order.id || rests_in(levels, x),
        forall|p: u64| #[trigger]
            with_order(levels, order).contains_key(p) ==> p == order.price || levels.contains_key(
                p,
            ),
{
    let after = with_order(levels, order);
    assert(after.dom() =~= levels.dom().insert(order.price));
    assert forall|x: u128, q: u64, j: int|
        rests_at(after, x, q, j) && x != order.id implies rests_at(levels, x, q, j) by {
        if q == order.price && !levels.contains_key(q) {
            assert(after[q] =~= seq![order]);
        }
    }
    assert forall|x: u128, q: u64, j: int|
        rests_at(after, x, q, j) && x == order.id implies q == order.price && j == after[q].len()
        - 1 by {
        if q != order.price {
            assert(rests_at(levels, x, q, j));
        } else if j < after[q].len() - 1 {
            assert(levels.contains_key(q));
            assert(rests_at(levels, x, q, j));
        }
    }
    assert forall|x: u128, q: u64, j: int, r: u64, k: int|
        rests_at(after, x, q, j) && rests_at(after, x, r, k) implies q == r && j == k by {
        if x != order.id {
            assert(rests_at(levels, x, q, j));
            assert(rests_at(levels, x, r, k));
        }
    }
    assert forall|x: u128| rests_in(after, x) implies x == order.id || rests_in(levels, x) by {
        let (q, j) = choose|q: u64, j: int| rests_at(after, x, q, j);
        assert(rests_at(after, x, q, j));
        if x != order.id {
            assert(rests_at(levels, x, q, j));
        }
    }
}

/// The book stays well formed when one of its sides is crossed.
pub proof fn lemma_crossed_wf(book: BookView, taker: Taker, qty: u64)
    requires
        book.wf(),
    ensures
        book.with_side(
            taker.side.opposite(),
            cross(book.side(taker.side.opposite()), taker, qty).levels,
        ).wf(),
{
    let maker_side = taker.side.opposite();
    let before = book.side(maker_side);
    let after = cross(before, taker, qty).levels;
    let crossed = book.with_side(maker_side, after);
    lemma_cross_trims(before, taker, qty);
    lemma_trimmed_unique(after, before);
}

/// The book stays well formed when an order is withdrawn.
pub proof fn lemma_withdrawn_wf(book: BookView, id: u128)
    requires
        book.wf(),
    ensures
        book.withdrawn(id).wf(),
        !rests_in(book.withdrawn(id).asks, id),
        !rests_in(book.withdrawn(id).bids, id),
        forall|p: u64| #[trigger]
            book.withdrawn(id).asks.contains_key(p) ==> book.asks.contains_key(p),
        forall|p: u64| #[trigger]
            book.withdrawn(id).bids.contains_key(p) ==> book.bids.contains_key(p),
{
    lemma_without_wf(book.asks, id);
    lemma_without_wf(book.bids, id);
}

/// Well-formedness is kept: the book after an instruction to a well-formed
/// book is well formed, and so not crossed.
pub proof fn lemma_step_keeps_wf(book: BookView, order: OrderType)
    requires
        book.wf(),
    ensures
        book.step(order).0.wf(),
{
    let (matched, event) = book.matched(order);
    match order {
        OrderType::Market { id, side, qty } => {
            lemma_crossed_wf(book, Taker { id, side, limit: None }, qty);
        },
        OrderType::Limit { id, side, qty, price } => {
            let taker = Taker { id, side, limit: Some(price) };
            let crossing = cross(book.side(side.opposite()), taker, qty);
            let crossed = book.with_side(side.opposite(), crossing.levels);
            lemma_crossed_wf(book, taker, qty);
                    lemma_cross_trims(book.side(side.opposite()), taker, qty);
            if crossing.remaining > 0 {
                let resting = LimitOrder { id, qty: crossing.remaining, price };
                let cleared = crossed.withdrawn(id);
                lemma_withdrawn_wf(crossed, id);
                lemma_with_order_wf(cleared.side(side), resting);
            }
        },
        OrderType::Cancel { id } => {
            lemma_withdrawn_wf(book, id);
        },
    }
    assert(book.step(order).0.asks == matched.asks);
    assert(book.step(order).0.bids == matched.bids);
}

/// Well-formedness is kept by every sequence of instructions: a book that
/// starts out well formed is never crossed.
pub proof fn lemma_run_keeps_wf(book: BookView, orders: Seq<OrderType>)
    requires
        book.wf(),
    ensures
        book.run(orders).0.wf(),
    decreases orders.len(),
{
    if orders.len() > 0 {
        lemma_run_keeps_wf(book, orders.drop_last());
        lemma_step_keeps_wf(book.run(orders.drop_last()).0, orders.last());
    }
}

/// A crossing takes of a level what it can: the taker's quantity or all
/// that rests there, whichever is less. No fill is empty.
pub proof fn lemma_fill_level_takes(queue: Queue, taker: Taker, remaining: u64)
    ensures
        fill_level(queue, taker, remaining).remaining == if remaining >= queue_qty(queue) {
            remaining - queue_qty(queue)
        } else {
            0
        },
        forall|k: int|
            0 <= k < fill_level(queue, taker, remaining).fills.len() ==> (#[trigger] fill_level(
                queue,
                taker,
                remaining,
            ).fills[k]).qty > 0,
    decreases queue.len(),
{
    lemma_queue_qty_nonnegative(queue);
    if queue.len() == 0 {
    } else {
        lemma_queue_qty_head(queue);
        lemma_queue_qty_nonnegative(queue.drop_first());
        if remaining == 0 {
        } else if queue[0].qty == 0 {
            lemma_fill_level_takes(queue.drop_first(), taker, remaining);
        } else if remaining >= queue[0].qty {
            lemma_fill_level_takes(queue.drop_first(), taker, (remaining - queue[0].qty) as u64);
        } else {
        }
    }
}

/// Every fill of a crossing names an order that rested on the side crossed.
pub proof fn lemma_cross_makers(levels: Levels, taker: Taker, qty: u64)
    requires
        levels_wf(levels),
    ensures
        forall|k: int|
            0 <= k < cross(levels, taker, qty).fills.len() ==> rests_in(
                levels,
                (#[trigger] cross(levels, taker, qty).fills[k]).order_2,
            ),
    decreases levels.dom().len(),
{
    match best_price(levels, taker.side.opposite()) {
        None => {},
        Some(p) => {
            lemma_best_is_member(levels.dom(), taker.side.opposite());
            if qty == 0 || !acceptable(taker, p) {
            } else {
                let level = fill_level(levels[p], taker, qty);
                lemma_fifo_at_level(levels[p], taker, qty);
                assert forall|k: int| 0 <= k < level.fills.len() implies rests_in(
                    levels,
                    (#[trigger] level.fills[k]).order_2,
                ) by {
                    assert(rests_at(levels, level.fills[k].order_2, p, k));
                }
                if level.queue.len() > 0 {
                } else {
                    let smaller = levels.remove(p);
                    let rest = cross(smaller, taker, level.remaining);
                    lemma_cross_makers(smaller, taker, level.remaining);
                    let out = cross(levels, taker, qty);
                    assert forall|k: int| 0 <= k < out.fills.len() implies rests_in(
                        levels,
                        (#[trigger] out.fills[k]).order_2,
                    ) by {
                        if k >= level.fills.len() {
                            let id = rest.fills[k - level.fills.len()].order_2;
                            assert(out.fills[k] == rest.fills[k - level.fills.len()]);
                            assert(rests_in(smaller, id));
                            let (q, t) = choose|q: u64, t: int| rests_at(smaller, id, q, t);
                            assert(rests_at(levels, id, q, t));
                        } else {
                            assert(out.fills[k] == level.fills[k]);
                        }
                    }
                }
            }
        },
    }
}

/// A side without one of its levels is well formed, with no id twice, if the
/// side was.
pub proof fn lemma_level_removed(levels: Levels, q: u64)
    requires
        levels_wf(levels),
        unique_in(levels),
    ensures
        levels_wf(levels.remove(q)),
        unique_in(levels.remove(q)),
        forall|id: u128| rests_in(levels.remove(q), id) ==> rests_in(levels, id),
{
    let smaller = levels.remove(q);
    assert forall|id: u128, a: u64, b: int| rests_at(smaller, id, a, b) implies rests_at(
        levels,
        id,
        a,
        b,
    ) by {}
    assert forall|id: u128, a: u64, b: int, c: u64, d: int|
        rests_at(smaller, id, a, b) && rests_at(smaller, id, c, d) implies a == c && b == d by {
        assert(rests_at(levels, id, a, b) && rests_at(levels, id, c, d));
    }
    assert forall|id: u128| rests_in(smaller, id) implies rests_in(levels, id) by {
        let (a, b) = choose|a: u64, b: int| rests_at(smaller, id, a, b);
        assert(rests_at(levels, id, a, b));
    }
}

/// Of two orders at one price, a fill of the later one comes `j - i` fills
/// after a fill that used up the earlier one.
pub open spec fn fifo_in(fills: Seq<FillMetadata>, first: u128, second: u128, gap: int) -> bool {
    forall|k: int|
        0 <= k < fills.len() && (#[trigger] fills[k]).order_2 == second ==> k - gap >= 0 && fills[k
            - gap].order_2 == first && fills[k - gap].total_fill
}

/// First in, first out within the level that holds both orders.
proof fn lemma_level_fifo(queue: Queue, taker: Taker, qty: u64, i: int, j: int)
    requires
        forall|k: int| 0 <= k < queue.len() ==> (#[trigger] queue[k]).qty > 0,
        forall|a: int, b: int|
            0 <= a < queue.len() && 0 <= b < queue.len() && a != b ==> (#[trigger] queue[a]).id != (
            #[trigger] queue[b]).id,
        0 <= i < j < queue.len(),
    ensures
        fifo_in(fill_level(queue, taker, qty).fills, queue[i].id, queue[j].id, j - i),
{
    lemma_fifo_at_level(queue, taker, qty);
    let fills = fill_level(queue, taker, qty).fills;
    assert forall|k: int| 0 <= k < fills.len() && (#[trigger] fills[k]).order_2
        == queue[j].id implies k - (j - i) >= 0 && fills[k - (j - i)].order_2 == queue[i].id
        && fills[k - (j - i)].total_fill by {
        assert(fills[k].order_2 == queue[k].id);
        assert(k == j);
        assert(fills[i].total_fill);
    }
}

/// A run of fills that does not name the later order keeps the order of the two.
proof fn lemma_fifo_joined(
    head: Seq<FillMetadata>,
    tail: Seq<FillMetadata>,
    first: u128,
    second: u128,
    gap: int,
)
    requires
        gap > 0,
        (forall|k: int| 0 <= k < head.len() ==> (#[trigger] head[k]).order_2 != second) && fifo_in(
            tail,
            first,
            second,
            gap,
        ) || (forall|k: int| 0 <= k < tail.len() ==> (#[trigger] tail[k]).order_2 != second)
            && fifo_in(head, first, second, gap),
    ensures
        fifo_in(head + tail, first, second, gap),
{
    let all = head + tail;
    assert forall|k: int| 0 <= k < all.len() && (#[trigger] all[k]).order_2 == second implies k
        - gap >= 0 && all[k - gap].order_2 == first && all[k - gap].total_fill by {
        if k < head.len() {
            assert(all[k] == head[k]);
            assert(all[k - gap] == head[k - gap]);
        } else {
            assert(all[k] == tail[k - head.len()]);
            assert(tail[k - head.len() - gap].order_2 == first);
            assert(all[k - gap] == tail[k - head.len() - gap]);
        }
    }
}

/// First in, first out across a crossing: of two orders at one price, a fill
/// of the later one comes only after a fill that used up the earlier one.
pub proof fn lemma_cross_fifo(levels: Levels, taker: Taker, qty: u64, p: u64, i: int, j: int)
    requires
        levels_wf(levels),
        unique_in(levels),
        levels.contains_key(p),
        0 <= i < j < levels[p].len(),
    ensures
        fifo_in(cross(levels, taker, qty).fills, levels[p][i].id, levels[p][j].id, j - i),
    decreases levels.dom().len(),
{
    let first = levels[p][i].id;
    let second = levels[p][j].id;
    assert(rests_at(levels, second, p, j));
    match best_price(levels, taker.side.opposite()) {
        None => {},
        Some(q) => {
            lemma_best_is_member(levels.dom(), taker.side.opposite());
            if qty == 0 || !acceptable(taker, q) {
            } else {
                let level = fill_level(levels[q], taker, qty);
                let smaller = levels.remove(q);
                let rest = cross(smaller, taker, level.remaining);
                let none = Seq::<FillMetadata>::empty();
                lemma_level_removed(levels, q);
                if q == p {
                    assert forall|a: int, b: int|
                        0 <= a < levels[p].len() && 0 <= b < levels[p].len() && a
                            != b implies (#[trigger] levels[p][a]).id != (
                    #[trigger] levels[p][b]).id by {
                        assert(rests_at(levels, levels[p][a].id, p, a));
                        assert(rests_at(levels, levels[p][a].id, p, b) ==> a == b);
                    }
                    lemma_level_fifo(levels[p], taker, qty, i, j);
                    if level.queue.len() == 0 {
                        lemma_cross_makers(smaller, taker, level.remaining);
                        assert forall|k: int| 0 <= k < rest.fills.len() implies (
                        #[trigger] rest.fills[k]).order_2 != second by {
                            if rest.fills[k].order_2 == second {
                                let (r, t) = choose|r: u64, t: int|
                                    rests_at(smaller, second, r, t);
                                assert(rests_at(smaller, second, r, t));
                                assert(rests_at(levels, second, r, t));
                            }
                        }
                        lemma_fifo_joined(level.fills, rest.fills, first, second, j - i);
                    }
                } else {
                    lemma_fifo_at_level(levels[q], taker, qty);
                    assert forall|k: int| 0 <= k < level.fills.len() implies (
                    #[trigger] level.fills[k]).order_2 != second by {
                        if level.fills[k].order_2 == second {
                            assert(rests_at(levels, second, q, k));
                        }
                    }
                    if level.queue.len() == 0 {
                        lemma_cross_fifo(smaller, taker, level.remaining, p, i, j);
                        lemma_fifo_joined(level.fills, rest.fills, first, second, j - i);
                    } else {
                        assert(fifo_in(none, first, second, j - i));
                        lemma_fifo_joined(level.fills, none, first, second, j - i);
                        assert(level.fills + none =~= level.fills);
                    }
                }
            }
        },
    }
}

/// Every queue of `after` is the tail of the queue at the same price in
/// `before`, and behind its head no order has changed.
pub open spec fn same_behind_head(after: Levels, before: Levels) -> bool {
    forall|p: u64| #[trigger]
        after.contains_key(p) ==> before.contains_key(p) && after[p].len() <= before[p].len()
            && forall|k: int|
            1 <= k < after[p].len() ==> #[trigger] after[p][k] == before[p][before[p].len()
                - after[p].len() + k]
}

/// What is left of a level after a crossing is the tail of the queue, and
/// behind its head no order has changed.
pub proof fn lemma_fill_level_behind(queue: Queue, taker: Taker, remaining: u64)
    ensures
        ({
            let out = fill_level(queue, taker, remaining);
            &&& out.queue.len() <= queue.len()
            &&& forall|k: int|
                1 <= k < out.queue.len() ==> #[trigger] out.queue[k] == queue[queue.len()
                    - out.queue.len() + k]
        }),
    decreases queue.len(),
{
    if queue.len() == 0 || remaining == 0 {
    } else if queue[0].qty == 0 || remaining >= queue[0].qty {
        let left = if queue[0].qty == 0 {
            remaining
        } else {
            (remaining - queue[0].qty) as u64
        };
        let tail = queue.drop_first();
        let rest = fill_level(tail, taker, left);
        lemma_fill_level_behind(tail, taker, left);
        let out = fill_level(queue, taker, remaining);
        assert(out.queue == rest.queue);
        assert forall|k: int| 1 <= k < out.queue.len() implies #[trigger] out.queue[k]
            == queue[queue.len() - out.queue.len() + k] by {
            assert(tail[tail.len() - rest.queue.len() + k] == queue[queue.len() - out.queue.len()
                + k]);
        }
    } else {
    }
}

/// A crossing changes no order that rests behind the head of its level.
pub proof fn lemma_cross_behind(levels: Levels, taker: Taker, qty: u64)
    requires
        levels.dom().finite(),
    ensures
        same_behind_head(cross(levels, taker, qty).levels, levels),
    decreases levels.dom().len(),
{
    match best_price(levels, taker.side.opposite()) {
        None => {},
        Some(q) => {
            lemma_best_is_member(levels.dom(), taker.side.opposite());
            if qty == 0 || !acceptable(taker, q) {
            } else {
                let level = fill_level(levels[q], taker, qty);
                lemma_fill_level_behind(levels[q], taker, qty);
                if level.queue.len() > 0 {
                } else {
                    let smaller = levels.remove(q);
                    let rest = cross(smaller, taker, level.remaining);
                    lemma_cross_behind(smaller, taker, level.remaining);
                    assert forall|p: u64| #[trigger]
                        rest.levels.contains_key(p) implies levels.contains_key(p)
                        && rest.levels[p].len() <= levels[p].len() && forall|k: int|
                        1 <= k < rest.levels[p].len() ==> #[trigger] rest.levels[p][k]
                            == levels[p][levels[p].len() - rest.levels[p].len() + k] by {
                        assert(smaller.contains_key(p));
                    }
                }
            }
        },
    }
}

/// Of two orders at one price, the later one is as it was for as long as
/// anything is left of the earlier one.
pub proof fn lemma_later_order_kept(
    levels: Levels,
    taker: Taker,
    qty: u64,
    p: u64,
    i: int,
    j: int,
)
    requires
        levels_wf(levels),
        unique_in(levels),
        levels.contains_key(p),
        0 <= i < j < levels[p].len(),
    ensures
        rests_in(cross(levels, taker, qty).levels, levels[p][i].id) ==> cross(
            levels,
            taker,
            qty,
        ).levels.contains_key(p) && cross(levels, taker, qty).levels[p].contains(levels[p][j]),
{
    let after = cross(levels, taker, qty).levels;
    let first = levels[p][i].id;
    lemma_cross_trims(levels, taker, qty);
    lemma_cross_behind(levels, taker, qty);
    if rests_in(after, first) {
        let (q, t) = choose|q: u64, t: int| rests_at(after, first, q, t);
        assert(rests_at(after, first, q, t));
        let d = levels[q].len() - after[q].len();
        assert(after[q][t].id == levels[q][d + t].id);
        assert(rests_at(levels, first, q, d + t));
        assert(rests_at(levels, first, p, i));
        assert(q == p && d + t == i);
        assert(after[p][j - d] == levels[p][j]);
    }
}

/// First in, first out at a price: where two orders rest at one price, the
/// fills of an incoming order reach the later one only after a fill that
/// used up the earlier one.
pub proof fn lemma_fifo_at_price(book: BookView, order: OrderType, p: u64, i: int, j: int)
    requires
        book.wf(),
        order matches OrderType::Market { side, .. } ==> book.side(side.opposite()).contains_key(p)
            && 0 <= i < j < book.side(side.opposite())[p].len(),
        order matches OrderType::Limit { side, .. } ==> book.side(side.opposite()).contains_key(p)
            && 0 <= i < j < book.side(side.opposite())[p].len(),
        !(order is Cancel),
    ensures
        ({
            let makers = match order {
                OrderType::Market { side, .. } => book.side(side.opposite()),
                OrderType::Limit { side, .. } => book.side(side.opposite()),
                OrderType::Cancel { .. } => book.asks,
            };
            fifo_in(book.step(order).1.fills(), makers[p][i].id, makers[p][j].id, j - i)
        }),
        order matches OrderType::Market { side, .. } ==> (rests_in(
            book.step(order).0.side(side.opposite()),
            book.side(side.opposite())[p][i].id,
        ) ==> book.step(order).0.side(side.opposite()).contains_key(p) && book.step(order).0.side(
            side.opposite(),
        )[p].contains(book.side(side.opposite())[p][j])),
{
    match order {
        OrderType::Market { id, side, qty } => {
            lemma_cross_fifo(
                book.side(side.opposite()),
                Taker { id, side, limit: None },
                qty,
                p,
                i,
                j,
            );
            lemma_later_order_kept(
                book.side(side.opposite()),
                Taker { id, side, limit: None },
                qty,
                p,
                i,
                j,
            );
        },
        OrderType::Limit { id, side, qty, price } => {
            lemma_cross_fifo(
                book.side(side.opposite()),
                Taker { id, side, limit: Some(price) },
                qty,
                p,
                i,
                j,
            );
        },
        OrderType::Cancel { id } => {},
    }
}

/// An order that comes to rest adds its quantity to the level at its price
/// and leaves every other level as it is.
pub proof fn lemma_rest_adds_quantity(levels: Levels, order: LimitOrder)
    ensures
        queue_qty(with_order(levels, order)[order.price]) == order.qty + if levels.contains_key(
            order.price,
        ) {
            queue_qty(levels[order.price])
        } else {
            0
        },
        forall|p: u64|
            p != order.price ==> with_order(levels, order).contains_key(p) == levels.contains_key(
                p,
            ) && with_order(levels, order)[p] == levels[p],
{
    let level = with_order(levels, order)[order.price];
    assert(level.last() == order);
    if levels.contains_key(order.price) {
        assert(level.drop_last() =~= levels[order.price]);
    } else {
        assert(level.drop_last() =~= Seq::<LimitOrder>::empty());
        assert(queue_qty(level.drop_last()) == 0);
    }
}

/// What is left of a limit order with a new id shows in the depth of its
/// side: the level at its price grows by the quantity that was not filled,
/// and every other level of that side stays as it is.
pub proof fn lemma_limit_rests_in_depth(book: BookView, order: OrderType)
    requires
        book.wf(),
        order matches OrderType::Limit { id, .. } && !rests_in(book.asks, id) && !rests_in(
            book.bids,
            id,
        ),
    ensures
        ({
            let side = order->Limit_side;
            let price = order->Limit_price;
            let own = book.side(side);
            let after = book.step(order).0.side(side);
            let left = order->Limit_qty - fills_qty(book.step(order).1.fills());
            &&& left >= 0
            &&& left == 0 ==> after == own
            &&& left > 0 ==> after.contains_key(price) && queue_qty(after[price]) == left
                + if own.contains_key(price) {
                queue_qty(own[price])
            } else {
                0
            }
            &&& forall|p: u64|
                p != price ==> after.contains_key(p) == own.contains_key(p) && after[p] == own[p]
        }),
{
    let id = order->Limit_id;
    let side = order->Limit_side;
    let qty = order->Limit_qty;
    let price = order->Limit_price;
    let taker = Taker { id, side, limit: Some(price) };
    let makers = book.side(side.opposite());
    let crossing = cross(makers, taker, qty);
    let crossed = book.with_side(side.opposite(), crossing.levels);
    lemma_cross_conserves(makers, taker, qty);
    lemma_fills_qty_nonnegative(crossing.fills);
    lemma_cross_trims(makers, taker, qty);
    lemma_trimmed_unique(crossing.levels, makers);
    if crossing.remaining > 0 {
        let resting = LimitOrder { id, qty: crossing.remaining, price };
        assert(!rests_in(crossed.asks, id) && !rests_in(crossed.bids, id));
        assert(crossed.withdrawn(id) == crossed);
        lemma_rest_adds_quantity(book.side(side), resting);
    }
}

/// Cancelling is idempotent: a second cancellation of the same order yields
/// the same event and leaves the book as the first one left it.
pub proof fn lemma_cancel_idempotent(book: BookView, id: u128)
    requires
        book.wf(),
    ensures
        book.step(OrderType::Cancel { id }).1 == (EventView::Canceled { id }),
        book.step(OrderType::Cancel { id }).0.step(OrderType::Cancel { id }) == (
            book.step(OrderType::Cancel { id }).0,
            EventView::Canceled { id },
        ),
{
    lemma_without_gone(book.asks, id);
    lemma_without_gone(book.bids, id);
}

/// Depth is ordered: the levels that a depth reports are levels of the
/// side, each with the quantity resting at its price, at most `count` of
/// them, and their prices improve strictly from one to the next: ascending
/// for asks, descending for bids.
pub proof fn lemma_depth_ordered(levels: Levels, maker_side: Side, count: nat)
    ensures
        top_levels(levels, maker_side, count).len() <= count,
        forall|k: int|
            0 <= k < top_levels(levels, maker_side, count).len() ==> {
                let level = #[trigger] top_levels(levels, maker_side, count)[k];
                levels.contains_key(level.price) && level.qty == queue_qty(
                    levels[level.price],
                ) as u128
            },
        forall|i: int, j: int|
            0 <= i < j < top_levels(levels, maker_side, count).len() ==> {
                let first = #[trigger] top_levels(levels, maker_side, count)[i];
                let second = #[trigger] top_levels(levels, maker_side, count)[j];
                first.price != second.price && has_priority(maker_side, first.price, second.price)
            },
    decreases count,
{
    if count == 0 {
    } else {
        match best_price(levels, maker_side) {
            None => {},
            Some(p) => {
                lemma_best_is_member(levels.dom(), maker_side);
                let rest = top_levels(levels.remove(p), maker_side, (count - 1) as nat);
                lemma_depth_ordered(levels.remove(p), maker_side, (count - 1) as nat);
                let top = top_levels(levels, maker_side, count);
                assert forall|k: int| 0 <= k < top.len() implies {
                    let level = #[trigger] top[k];
                    levels.contains_key(level.price) && level.qty == queue_qty(
                        levels[level.price],
                    ) as u128
                } by {
                    if k > 0 {
                        assert(top[k] == rest[k - 1]);
                        assert(levels.remove(p).contains_key(rest[k - 1].price));
                    }
                }
                assert forall|i: int, j: int| 0 <= i < j < top.len() implies {
                    let first = #[trigger] top[i];
                    let second = #[trigger] top[j];
                    first.price != second.price && has_priority(
                        maker_side,
                        first.price,
                        second.price,
                    )
                } by {
                    assert(top[j] == rest[j - 1]);
                    assert(levels.remove(p).contains_key(rest[j - 1].price));
                    if i > 0 {
                        assert(top[i] == rest[i - 1]);
                    } else {
                        assert(levels.dom().contains(rest[j - 1].price));
                    }
                }
            },
        }
    }
}

} // verus!
