//! The prices of one side in the order in which they are matched.

use crate::matching_engine::matching::has_priority;
use crate::matching_engine::models::Side;
use std::collections::BTreeMap;
use vstd::prelude::*;
use vstd::std_specs::btree::increasing_seq;
use vstd::std_specs::cmp::OrdSpec;
use vstd::std_specs::iter::IteratorSpec;

verus! {

/// `a` is ordered before `b`.
pub open spec fn precedes<K: Ord>(a: K, b: K) -> bool {
    a.cmp_spec(&b) is Less
}

/// In an increasing sequence every element precedes the later ones.
proof fn lemma_increasing<K: Ord>(s: Seq<K>)
    requires
        vstd::laws_cmp::obeys_cmp::<K>(),
        increasing_seq(s),
    ensures
        forall|i: int, j: int| 0 <= i < j < s.len() ==> precedes(#[trigger] s[i], #[trigger] s[j]),
{
    vstd::std_specs::btree::axiom_increasing_seq_meaning::<K>(s);
}

/// The keys that a map hands out in increasing order grow strictly.
proof fn lemma_increasing_refs(s: Seq<&u64>)
    requires
        increasing_seq(s),
    ensures
        forall|i: int, j: int| 0 <= i < j < s.len() ==> *s[i] < *s[j],
{
    broadcast use vstd::laws_cmp::group_laws_cmp;

    assert(vstd::laws_cmp::obeys_cmp::<u64>());
    assert(vstd::laws_cmp::obeys_cmp::<&u64>());
    lemma_increasing::<&u64>(s);
    assert forall|i: int, j: int| 0 <= i < j < s.len() implies *s[i] < *s[j] by {
        assert(precedes::<&u64>(s[i], s[j]));
    }
}

/// `prices` lists the prices of `levels` once each, best first.
pub open spec fn by_priority(prices: Seq<u64>, levels: Set<u64>, maker_side: Side) -> bool {
    &&& forall|i: int, j: int|
        #![trigger prices[i], prices[j]]
        0 <= i < j < prices.len() ==> prices[i] != prices[j] && has_priority(
            maker_side,
            prices[i],
            prices[j],
        )
    &&& forall|p: u64| prices.contains(p) <==> levels.contains(p)
}

/// The prices of `levels`, lowest first.
pub(crate) fn ascending_prices(levels: &BTreeMap<u64, Vec<usize>>) -> (prices: Vec<u64>)
    ensures
        by_priority(prices@, levels@.dom(), Side::Ask),
{
    let mut prices: Vec<u64> = Vec::new();
    let ghost all = levels.keys().remaining();
    for price in it: levels.keys()
        invariant
            it.seq() == all,
            prices@.len() == it.index(),
            forall|i: int| 0 <= i < prices@.len() ==> prices@[i] == *all[i],
    {
        prices.push(*price);
    }
    proof {
        lemma_increasing_refs(all);
        assert forall|i: int, j: int| 0 <= i < j < prices@.len() implies prices@[i]
            < prices@[j] by {
            assert(*all[i] < *all[j]);
        }
        assert forall|p: u64| prices@.contains(p) <==> levels@.contains_key(p) by {
            if prices@.contains(p) {
                let i = choose|i: int| 0 <= i < prices@.len() && prices@[i] == p;
                assert(all.unref()[i] == p);
                assert(all.unref().to_set().contains(p));
            }
            if levels@.contains_key(p) {
                assert(all.unref().to_set().contains(p));
                let i = choose|i: int| 0 <= i < all.unref().len() && all.unref()[i] == p;
                assert(prices@[i] == p);
            }
        }
    }
    prices
}

/// The prices of `levels` in the order in which orders resting on
/// `maker_side` are matched: asks lowest first, bids highest first.
pub(crate) fn prices_by_priority(
    levels: &BTreeMap<u64, Vec<usize>>,
    maker_side: Side,
) -> (prices: Vec<u64>)
    ensures
        by_priority(prices@, levels@.dom(), maker_side),
{
    let ascending = ascending_prices(levels);
    match maker_side {
        Side::Ask => ascending,
        Side::Bid => {
            let n = ascending.len();
            let mut descending: Vec<u64> = Vec::new();
            let mut taken: usize = 0;
            while taken < n
                invariant
                    n == ascending@.len(),
                    taken <= n,
                    descending@.len() == taken,
                    forall|i: int|
                        0 <= i < taken ==> descending@[i] == ascending@[n - 1 - i],
                decreases n - taken,
            {
                descending.push(ascending[n - 1 - taken]);
                taken = taken + 1;
            }
            proof {
                assert forall|i: int, j: int| 0 <= i < j < descending@.len() implies descending@[i]
                    != descending@[j] && has_priority(
                    Side::Bid,
                    descending@[i],
                    descending@[j],
                ) by {
                    assert(ascending@[n - 1 - j] != ascending@[n - 1 - i] && has_priority(
                        Side::Ask,
                        ascending@[n - 1 - j],
                        ascending@[n - 1 - i],
                    ));
                }
                assert forall|p: u64| descending@.contains(p) <==> levels@.dom().contains(p) by {
                    if descending@.contains(p) {
                        let i = choose|i: int| 0 <= i < descending@.len() && descending@[i] == p;
                        assert(ascending@[n - 1 - i] == p);
                        assert(ascending@.contains(p));
                    }
                    if levels@.dom().contains(p) {
                        assert(ascending@.contains(p));
                        let i = choose|i: int| 0 <= i < ascending@.len() && ascending@[i] == p;
                        assert(descending@[n - 1 - i] == p);
                    }
                }
            }
            descending
        },
    }
}

} // verus!
