//! Index-addressed storage of resting limit orders.
//!
//! Every order lives in a slot whose index never changes. Price-level queues
//! refer to orders only by slot index. An id is registered from the moment
//! it is inserted until it is deleted, whatever quantity its slot holds; the
//! slot of a deleted id holds nothing and is taken up again when the same id
//! is inserted once more.

use crate::matching_engine::models::LimitOrder;
use indexmap::IndexMap;
use vstd::prelude::*;

verus! {

/// `indexmap::IndexMap`, a hash map that keeps its entries in the order in
/// which their keys were first inserted. Nothing of its inside is known here.
#[verifier::external_type_specification]
#[verifier::external_body]
#[verifier::reject_recursive_types(K)]
#[verifier::reject_recursive_types(V)]
#[verifier::reject_recursive_types(S)]
pub struct ExIndexMap<K, V, S>(IndexMap<K, V, S>);

/// The key-value pairs of an `indexmap::IndexMap`, in the map's own order.
pub uninterp spec fn entries_of(map: IndexMap<u128, LimitOrder>) -> Seq<(u128, LimitOrder)>;

/// The largest capacity hint handed on to an allocation.
pub const MAX_CAPACITY_HINT: usize = 1_048_576;

/// `IndexMap::with_capacity`: a map without entries. The capacity is bounded
/// so that the allocation size cannot overflow.
#[verifier::external_body]
fn map_with_capacity(n: usize) -> (map: IndexMap<u128, LimitOrder>)
    requires
        n <= MAX_CAPACITY_HINT,
    ensures
        entries_of(map) == Seq::<(u128, LimitOrder)>::empty(),
{
    IndexMap::with_capacity(n)
}

/// `IndexMap::len`: the number of entries.
#[verifier::external_body]
fn map_len(map: &IndexMap<u128, LimitOrder>) -> (n: usize)
    ensures
        n == entries_of(*map).len(),
{
    map.len()
}

/// Some entry of `entries` has `key`.
pub open spec fn has_key(entries: Seq<(u128, LimitOrder)>, key: u128) -> bool {
    exists|i: int| 0 <= i < entries.len() && (#[trigger] entries[i]).0 == key
}

/// `IndexMap::get_full`: the index and value stored under `key`, or `None`
/// when no entry has that key.
#[verifier::external_body]
fn map_get_full(map: &IndexMap<u128, LimitOrder>, key: u128) -> (found: Option<(usize, LimitOrder)>)
    ensures
        found is Some <==> has_key(entries_of(*map), key),
        found matches Some((index, value)) ==> index < entries_of(*map).len() && entries_of(
            *map,
        )[index as int] == (key, value),
{
    map.get_full(&key).map(|(index, _, value)| (index, *value))
}

/// `IndexMap::insert_full`: where an entry has `key`, its value is replaced
/// in place and its index returned; otherwise the pair is appended and the
/// index is the one of the new last entry.
#[verifier::external_body]
fn map_insert_full(map: &mut IndexMap<u128, LimitOrder>, key: u128, value: LimitOrder) -> (index:
    usize)
    ensures
        has_key(entries_of(*old(map)), key) ==> index < entries_of(*old(map)).len() && entries_of(
            *old(map),
        )[index as int].0 == key && entries_of(*final(map)) == entries_of(*old(map)).update(
            index as int,
            (key, value),
        ),
        !has_key(entries_of(*old(map)), key) ==> index == entries_of(*old(map)).len()
            && entries_of(*final(map)) == entries_of(*old(map)).push((key, value)),
{
    map.insert_full(key, value).0
}

/// `IndexMap::get_index`: the value at `index`, or `None` past the end.
#[verifier::external_body]
fn map_get_index(map: &IndexMap<u128, LimitOrder>, index: usize) -> (found: Option<&LimitOrder>)
    ensures
        match found {
            Some(value) => index < entries_of(*map).len() && *value == entries_of(
                *map,
            )[index as int].1,
            None => index >= entries_of(*map).len(),
        },
{
    map.get_index(index).map(|(_, value)| value)
}

/// `IndexMap::get_index_mut`: mutable access to the value at `index`, or
/// `None` past the end. The key and every other entry stay as they are.
#[verifier::external_body]
fn map_get_index_mut(map: &mut IndexMap<u128, LimitOrder>, index: usize) -> (found: Option<
    &mut LimitOrder,
>)
    ensures
        index >= entries_of(*old(map)).len() ==> found is None && entries_of(*final(map))
            == entries_of(*old(map)),
        index < entries_of(*old(map)).len() ==> found is Some && *found.unwrap() == entries_of(
            *old(map),
        )[index as int].1 && entries_of(*final(map)) == entries_of(*old(map)).update(
            index as int,
            (entries_of(*old(map))[index as int].0, *final(found.unwrap())),
        ),
{
    map.get_index_mut(index).map(|(_, value)| value)
}

/// Stable, index-addressed storage of resting limit orders.
#[derive(Debug)]
pub struct OrderArena {
    order_map: IndexMap<u128, LimitOrder>,
    /// For each slot, whether its id is registered.
    marks: Vec<bool>,
}

impl View for OrderArena {
    type V = Seq<LimitOrder>;

    /// The slots in index order.
    closed spec fn view(&self) -> Seq<LimitOrder> {
        Seq::new(entries_of(self.order_map).len(), |i: int| entries_of(self.order_map)[i].1)
    }
}

/// No two slots hold the same id.
pub open spec fn distinct_ids(slots: Seq<LimitOrder>) -> bool {
    forall|i: int, j: int|
        0 <= i < slots.len() && 0 <= j < slots.len() && i != j ==> (#[trigger] slots[i]).id != (
        #[trigger] slots[j]).id
}

/// Some slot, registered or not, belongs to `id`.
pub open spec fn has_slot(slots: Seq<LimitOrder>, id: u128) -> bool {
    exists|i: int| 0 <= i < slots.len() && (#[trigger] slots[i]).id == id
}

/// The id `id` is registered: it was inserted and not deleted since,
/// whatever quantity its slot holds.
pub open spec fn is_live(slots: Seq<LimitOrder>, registered: Seq<bool>, id: u128) -> bool {
    exists|i: int| 0 <= i < slots.len() && (#[trigger] slots[i]).id == id && registered[i]
}

/// There is a mark for every slot, and a slot whose id is not registered
/// holds nothing.
pub open spec fn marks_fit(slots: Seq<LimitOrder>, registered: Seq<bool>) -> bool {
    &&& registered.len() == slots.len()
    &&& forall|i: int| 0 <= i < slots.len() && !registered[i] ==> (#[trigger] slots[i]).qty == 0
}

/// `order` with nothing left of it.
pub open spec fn retired(order: LimitOrder) -> LimitOrder {
    LimitOrder { qty: 0, ..order }
}

impl OrderArena {
    /// For each slot, whether its id is registered: inserted and not deleted since.
    pub closed spec fn registered(&self) -> Seq<bool> {
        self.marks@
    }

    /// Every slot is filed under the id of the order it holds, so no id has
    /// two slots; every slot has its mark, and a slot whose id is not
    /// registered holds nothing.
    pub closed spec fn wf(&self) -> bool {
        let entries = entries_of(self.order_map);
        &&& forall|i: int| 0 <= i < entries.len() ==> (#[trigger] entries[i]).0 == entries[i].1.id
        &&& forall|i: int, j: int|
            0 <= i < entries.len() && 0 <= j < entries.len() && i != j ==> (#[trigger] entries[i]).0
                != (#[trigger] entries[j]).0
        &&& marks_fit(self@, self.marks@)
    }

    /// In a well-formed arena no id has two slots, and only registered ids
    /// hold a quantity.
    pub proof fn lemma_distinct_ids(&self)
        requires
            self.wf(),
        ensures
            distinct_ids(self@),
            marks_fit(self@, self.registered()),
    {
        let entries = entries_of(self.order_map);
        assert forall|i: int, j: int|
            0 <= i < self@.len() && 0 <= j < self@.len() && i != j implies (#[trigger] self@[i]).id
            != (#[trigger] self@[j]).id by {
            assert(entries[i].0 == entries[i].1.id);
            assert(entries[j].0 == entries[j].1.id);
        }
    }

    /// An arena without slots. `capacity` is a hint for the first allocation.
    pub fn new(capacity: usize) -> (arena: Self)
        ensures
            arena.wf(),
            arena@.len() == 0,
            arena.registered().len() == 0,
    {
        let hint = if capacity > MAX_CAPACITY_HINT {
            MAX_CAPACITY_HINT
        } else {
            capacity
        };
        Self { order_map: map_with_capacity(hint), marks: Vec::new() }
    }

    /// The number of slots, registered or not.
    pub fn len(&self) -> (n: usize)
        ensures
            n == self@.len(),
    {
        map_len(&self.order_map)
    }

    /// The price and slot index of the order registered under `id`,
    /// whatever quantity is left of it; `None` when `id` is not registered.
    pub fn get(&self, id: u128) -> (found: Option<(u64, usize)>)
        requires
            self.wf(),
        ensures
            found is Some <==> is_live(self@, self.registered(), id),
            found matches Some((price, index)) ==> index < self@.len() && self@[index as int].id
                == id && self@[index as int].price == price && self.registered()[index as int],
            distinct_ids(self@),
    {
        proof {
            self.lemma_distinct_ids();
        }
        match map_get_full(&self.order_map, id) {
            Some((index, order)) => {
                assert(self@[index as int] == order);
                assert(entries_of(self.order_map)[index as int].0 == order.id);
                if self.marks[index] {
                    Some((order.price, index))
                } else {
                    None
                }
            },
            None => {
                proof {
                    let entries = entries_of(self.order_map);
                    assert forall|i: int| 0 <= i < self@.len() implies (#[trigger] self@[i]).id
                        != id by {
                        assert(entries[i].0 == entries[i].1.id);
                    }
                }
                None
            },
        }
    }

    /// Registers `id` and stores `qty` at `price` for it; returns the slot
    /// index. The slot that `id` already has is taken again; otherwise a new
    /// last slot is added. Every other slot stays as it is.
    pub fn insert(&mut self, id: u128, price: u64, qty: u64) -> (index: usize)
        requires
            old(self).wf(),
        ensures
            final(self).wf(),
            has_slot(old(self)@, id) ==> index < old(self)@.len() && old(self)@[index as int].id
                == id && final(self)@ == old(self)@.update(
                index as int,
                LimitOrder { id, qty, price },
            ) && final(self).registered() == old(self).registered().update(index as int, true),
            !has_slot(old(self)@, id) ==> index == old(self)@.len() && final(self)@
                == old(self)@.push(LimitOrder { id, qty, price }) && final(self).registered()
                == old(self).registered().push(true),
            index < final(self)@.len(),
            final(self)@[index as int] == (LimitOrder { id, qty, price }),
            final(self).registered()[index as int],
            is_live(final(self)@, final(self).registered(), id),
            forall|other: u128|
                other != id ==> (is_live(final(self)@, final(self).registered(), other)
                    <==> is_live(old(self)@, old(self).registered(), other)),
    {
        let ghost before = entries_of(self.order_map);
        let ghost slots = self@;
        let order = LimitOrder { id, qty, price };
        let index = map_insert_full(&mut self.order_map, id, order);
        proof {
            if has_key(before, id) {
                assert(before[index as int].0 == before[index as int].1.id);
                assert(slots[index as int].id == id);
                assert(has_slot(slots, id));
                assert(self@ =~= slots.update(index as int, order));
            } else {
                if has_slot(slots, id) {
                    let i = choose|i: int| 0 <= i < slots.len() && (#[trigger] slots[i]).id == id;
                    assert(before[i].0 == before[i].1.id);
                }
                assert(self@ =~= slots.push(order));
            }
        }
        if index < self.marks.len() {
            self.marks.set(index, true);
        } else {
            self.marks.push(true);
        }
        proof {
            let marks0 = old(self).marks@;
            assert(self@[index as int] == order);
            assert forall|other: u128| other != id implies (is_live(self@, self.marks@, other)
                <==> is_live(slots, marks0, other)) by {
                if is_live(self@, self.marks@, other) {
                    let k = choose|k: int|
                        0 <= k < self@.len() && (#[trigger] self@[k]).id == other && self.marks@[k];
                    assert(slots[k].id == other && marks0[k]);
                }
                if is_live(slots, marks0, other) {
                    let k = choose|k: int|
                        0 <= k < slots.len() && (#[trigger] slots[k]).id == other && marks0[k];
                    assert(self@[k].id == other && self.marks@[k]);
                }
            }
        }
        index
    }

    /// Takes `id` off the register: its slot keeps its index and holds
    /// nothing afterwards. Returns whether `id` was registered.
    pub fn delete(&mut self, id: &u128) -> (was_live: bool)
        requires
            old(self).wf(),
        ensures
            final(self).wf(),
            was_live == is_live(old(self)@, old(self).registered(), *id),
            !is_live(final(self)@, final(self).registered(), *id),
            final(self)@.len() == old(self)@.len(),
            forall|i: int|
                0 <= i < old(self)@.len() ==> #[trigger] final(self)@[i] == if old(self)@[i].id
                    == *id {
                    retired(old(self)@[i])
                } else {
                    old(self)@[i]
                },
            final(self).registered().len() == old(self).registered().len(),
            forall|i: int|
                0 <= i < old(self)@.len() ==> #[trigger] final(self).registered()[i]
                    == (old(self)@[i].id != *id && old(self).registered()[i]),
    {
        let ghost before = self@;
        let ghost marks = self.marks@;
        proof {
            self.lemma_distinct_ids();
        }
        match self.get(*id) {
            Some((_, index)) => {
                self.take(index, self.order(index).qty);
                self.marks.set(index, false);
                proof {
                    assert forall|i: int| 0 <= i < before.len() implies #[trigger] self.marks@[i]
                        == (before[i].id != *id && marks[i]) by {
                        if i != index {
                            assert(before[i].id != before[index as int].id);
                        }
                    }
                }
                true
            },
            None => {
                proof {
                    assert forall|i: int| 0 <= i < before.len() implies #[trigger] self@[i]
                        == if before[i].id == *id {
                        retired(before[i])
                    } else {
                        before[i]
                    } by {
                        if before[i].id == *id {
                            assert(!marks[i]);
                            assert(before[i].qty == 0);
                        }
                    }
                }
                false
            },
        }
    }

    /// The order in slot `index`.
    pub fn order(&self, index: usize) -> (order: LimitOrder)
        requires
            index < self@.len(),
        ensures
            order == self@[index as int],
    {
        match map_get_index(&self.order_map, index) {
            Some(order) => *order,
            None => LimitOrder { id: 0, qty: 0, price: 0 },
        }
    }

    /// Takes `qty` out of the order in slot `index`.
    pub fn take(&mut self, index: usize, qty: u64)
        requires
            old(self).wf(),
            index < old(self)@.len(),
            qty <= old(self)@[index as int].qty,
        ensures
            final(self).wf(),
            final(self)@ == old(self)@.update(
                index as int,
                LimitOrder {
                    qty: (old(self)@[index as int].qty - qty) as u64,
                    ..old(self)@[index as int]
                },
            ),
            final(self)@[index as int].qty == old(self)@[index as int].qty - qty,
            final(self).registered() == old(self).registered(),
            forall|id: u128|
                is_live(final(self)@, final(self).registered(), id) <==> is_live(
                    old(self)@,
                    old(self).registered(),
                    id,
                ),
    {
        let ghost before = entries_of(self.order_map);
        match map_get_index_mut(&mut self.order_map, index) {
            Some(order) => {
                order.qty = order.qty - qty;
            },
            None => {},
        }
        proof {
            let after = entries_of(self.order_map);
            assert(after == before.update(
                index as int,
                (
                    before[index as int].0,
                    LimitOrder {
                        qty: (before[index as int].1.qty - qty) as u64,
                        ..before[index as int].1
                    },
                ),
            ));
            assert(final(self)@ =~= old(self)@.update(
                index as int,
                LimitOrder {
                    qty: (old(self)@[index as int].qty - qty) as u64,
                    ..old(self)@[index as int]
                },
            ));
            let slots = old(self)@;
            let marks = self.marks@;
            assert forall|id: u128| is_live(self@, marks, id) <==> is_live(slots, marks, id) by {
                if is_live(self@, marks, id) {
                    let k = choose|k: int|
                        0 <= k < self@.len() && (#[trigger] self@[k]).id == id && marks[k];
                    assert(slots[k].id == id);
                }
                if is_live(slots, marks, id) {
                    let k = choose|k: int|
                        0 <= k < slots.len() && (#[trigger] slots[k]).id == id && marks[k];
                    assert(self@[k].id == id);
                }
            }
        }
    }
}

} // verus!
