//! Laws of the table: what holds of every table, key and value, and of
//! operations taken together.

use vstd::prelude::*;
use crate::error::MapError;
use crate::hash::HashIt;
use crate::layout::{has_key, home, lemma_entry_at, lemma_home_in_range, lemma_occupancy, saturated};
use crate::model::{last_written, Model};
use crate::table::MyHashMap;

verus! {

/// Round trip: after `value` is inserted under `key`, a lookup of `key`
/// answers `value`.
pub proof fn law_round_trip<K: HashIt + Default, V: Default>(table: MyHashMap<K, V>, key: K, value: V)
    requires
        table.wf(),
    ensures
        table@.insert(key@, value).lookup(key@) == Some(value),
{
}

/// Update: a second insertion under the same key hands back the value of
/// the first, a lookup then answers the value of the second, and the table
/// has neither more entries nor more slots than after the first.
pub proof fn law_update<K: HashIt + Default, V: Default>(table: MyHashMap<K, V>, key: K, first: V, second: V)
    requires
        table.wf(),
    ensures
        table@.insert(key@, first).lookup(key@) == Some(first),
        table@.insert(key@, first).insert(key@, second).lookup(key@) == Some(second),
        table@.insert(key@, first).insert(key@, second).entries.len() == table@.insert(
            key@,
            first,
        ).entries.len(),
        table@.insert(key@, first).insert(key@, second).capacity == table@.insert(
            key@,
            first,
        ).capacity,
{
    table.lemma_valid_model();
    let once = table@.insert(key@, first);
    assert(once.entries.insert(key@, second).dom() =~= once.entries.dom());
}

/// Removal: after `value` is inserted under `key`, a removal of `key`
/// hands back `value`, and a lookup of `key` then answers nothing.
pub proof fn law_removal<K: HashIt + Default, V: Default>(table: MyHashMap<K, V>, key: K, value: V)
    requires
        table.wf(),
    ensures
        table@.insert(key@, value).removed(key@) == Ok::<V, MapError>(value),
        table@.insert(key@, value).remove(key@).lookup(key@).is_none(),
{
}

/// Removal keeps the others: after a removal, a lookup of any other key
/// answers what it answered before.
pub proof fn law_removal_keeps_others<K: HashIt + Default, V: Default>(
    table: MyHashMap<K, V>,
    key: K,
    other: K,
)
    requires
        table.wf(),
        other@ != key@,
    ensures
        table@.remove(key@).lookup(other@) == table@.lookup(other@),
{
}

/// Missing removal: the removal of a key that the table does not hold
/// answers `KeyNotFound` and leaves the table as it was.
pub proof fn law_missing_removal<K: HashIt + Default, V: Default>(table: MyHashMap<K, V>, key: K)
    requires
        table.wf(),
        table@.lookup(key@).is_none(),
    ensures
        table@.removed(key@) == Err::<V, MapError>(MapError::KeyNotFound),
        table@.remove(key@) == table@,
{
    assert(table@.entries.remove(key@) =~= table@.entries);
}

/// Missing removal, from the start: whatever was inserted into an empty
/// table, the removal of a key that was never inserted answers `KeyNotFound`.
pub proof fn law_never_inserted<I, V>(capacity: nat, writes: Seq<(I, V)>, id: I)
    requires
        forall|w: int| 0 <= w < writes.len() ==> (#[trigger] writes[w]).0 != id,
    ensures
        Model::<I, V>::empty(capacity).insert_all(writes).removed(id) == Err::<V, MapError>(
            MapError::KeyNotFound,
        ),
    decreases writes.len(),
{
    if writes.len() > 0 {
        let earlier = writes.drop_last();
        assert forall|w: int| 0 <= w < earlier.len() implies (#[trigger] earlier[w]).0 != id by {
            assert(earlier[w] == writes[w]);
        }
        law_never_inserted(capacity, earlier, id);
        assert(writes.last() == writes[writes.len() - 1]);
    }
}

/// Growth preserves entries: after any run of insertions, with however
/// many doublings, a lookup answers the value last written under the key,
/// or what it answered before where none was written.
pub proof fn law_insertions_kept<I, V>(model: Model<I, V>, writes: Seq<(I, V)>, id: I)
    ensures
        model.insert_all(writes).lookup(id) == match last_written(writes, id) {
            Some(value) => Some(value),
            None => model.lookup(id),
        },
    decreases writes.len(),
{
    if writes.len() > 0 {
        law_insertions_kept(model, writes.drop_last(), id);
    }
}

/// Growth preserves entries, step by step: an insertion, with or without a
/// doubling, and a doubling by itself leave what stands under every other
/// key as it was.
pub proof fn law_growth_keeps_entries<K: HashIt + Default, V: Default>(
    table: MyHashMap<K, V>,
    key: K,
    value: V,
    other: K,
)
    requires
        table.wf(),
        other@ != key@,
    ensures
        table@.insert(key@, value).lookup(other@) == table@.lookup(other@),
        table@.grow().lookup(other@) == table@.lookup(other@),
        table@.grow().lookup(key@) == table@.lookup(key@),
{
}

/// Key uniqueness: no two slots in use hold the same key.
pub proof fn law_key_uniqueness<K: HashIt + Default, V: Default>(table: MyHashMap<K, V>, x: int, y: int)
    requires
        table.wf(),
        0 <= x < table@.capacity,
        0 <= y < table@.capacity,
        x != y,
        table.slots()[x].is_occupied,
        table.slots()[y].is_occupied,
    ensures
        table.slots()[x].key@ != table.slots()[y].key@,
{
}

/// Capacity monotonicity of one insertion: the slots stay as many or
/// double, and they double just when the table is full of other keys, which
/// is when the probe for the key goes round the whole ring.
pub proof fn law_capacity_step<K: HashIt + Default, V: Default>(table: MyHashMap<K, V>, key: K, value: V)
    requires
        table.wf(),
    ensures
        table@.insert(key@, value).capacity == if table@.must_grow(key@) {
            2 * table@.capacity
        } else {
            table@.capacity
        },
        table@.must_grow(key@) <==> saturated(table.slots()) && !has_key(table.slots(), key@),
        table@.remove(key@).capacity == table@.capacity,
        table@.insert(key@, value).valid(),
{
    lemma_occupancy(table.slots());
}

/// Capacity monotonicity of a run of insertions: the slots never become
/// fewer, and the model stays valid.
pub proof fn law_capacity_monotone<I, V>(model: Model<I, V>, writes: Seq<(I, V)>)
    requires
        model.valid(),
    ensures
        model.insert_all(writes).valid(),
        model.insert_all(writes).capacity >= model.capacity,
        exists|doublings: nat| #[trigger]
            vstd::arithmetic::power2::pow2(doublings) * model.capacity == model.insert_all(
                writes,
            ).capacity,
    decreases writes.len(),
{
    if writes.len() == 0 {
        vstd::arithmetic::power2::lemma2_to64();
        assert(vstd::arithmetic::power2::pow2(0) * model.capacity == model.capacity);
    } else {
        let earlier = model.insert_all(writes.drop_last());
        law_capacity_monotone(model, writes.drop_last());
        let doublings = choose|doublings: nat| #[trigger]
            vstd::arithmetic::power2::pow2(doublings) * model.capacity == earlier.capacity;
        let id = writes.last().0;
        if earlier.must_grow(id) {
            vstd::arithmetic::power2::lemma_pow2_unfold(doublings + 1);
            assert(vstd::arithmetic::power2::pow2(doublings + 1) * model.capacity == 2 * (
            vstd::arithmetic::power2::pow2(doublings) * model.capacity)) by (nonlinear_arith)
                requires
                    vstd::arithmetic::power2::pow2(doublings + 1) == 2
                        * vstd::arithmetic::power2::pow2(doublings),
            ;
        }
    }
}

/// A key's home is a slot of the table, whatever the number of slots.
pub proof fn law_home_in_range<K: HashIt>(key: K, capacity: nat)
    requires
        capacity > 0,
    ensures
        0 <= home::<K>(key@, capacity as int) < capacity,
{
    lemma_home_in_range::<K>(key@, capacity as int);
}

/// A lookup answers what the slots hold: the value beside the key in the
/// one slot that holds it.
pub proof fn law_lookup_reads_slot<K: HashIt + Default, V: Default>(table: MyHashMap<K, V>, x: int)
    requires
        table.wf(),
        0 <= x < table@.capacity,
        table.slots()[x].is_occupied,
    ensures
        table@.lookup(table.slots()[x].key@) == Some(table.slots()[x].value),
{
    lemma_entry_at(table.slots(), x);
}

} // verus!
