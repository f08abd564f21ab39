//! The table: a ring of slots, probed linearly, that doubles when a probe
//! finds it full.

use vstd::prelude::*;
use crate::error::MapError;
use crate::hash::HashIt;
use crate::closing::{
    lemma_slide_end, lemma_slide_move, lemma_slide_start, lemma_slide_stay, sliding,
};
use crate::layout::{
    Pair, blank, entries, first_free, free_slots_blank, has_key, holds, home, lemma_entries_put,
    lemma_entry_at, lemma_home_in_range, lemma_layout_fill, lemma_layout_same_keys,
    lemma_occupancy, lemma_vacant_layout, occupied_upto, probe_path, saturated, taken_from,
    unique_keys, well_laid_out, written,
};
use crate::ring::{gap, next_slot, ring_gap, ring_next};
use crate::model::Model;
use std::collections::TryReserveError;

verus! {

/// The number of slots of a table made by [`MyHashMap::new`].
pub const INITIAL_CAPACITY: usize = 15;

/// A map from keys to values, stored in a ring of slots.
#[derive(Debug)]
pub struct MyHashMap<K, V> {
    bucket: Vec<Pair<K, V>>,
}

/// Where a probe for a key ended.
enum Probe {
    /// At the slot that holds the key.
    Found(usize),
    /// At the first free slot on the way from the home of the key.
    Vacant(usize),
}

/// What a probe for a key with view `id` may answer on the slots `s`.
/// It answers nothing when it has gone round the whole ring.
spec fn probed<K: HashIt, V>(s: Seq<Pair<K, V>>, id: K::V, answer: Option<Probe>) -> bool {
    match answer {
        Some(Probe::Found(i)) => holds(s, i as int, id),
        Some(Probe::Vacant(i)) => first_free(s, id, i as int) && !has_key(s, id),
        None => saturated(s) && !has_key(s, id),
    }
}

/// Whether two keys stand for the same thing.
fn same_key<K: HashIt>(a: &K, b: &K) -> (same: bool)
    ensures
        same == (a@ == b@),
{
    let same = a.eq(b);
    proof {
        K::eq_decides_view(a, b, same);
    }
    same
}

/// Asks the allocator for room for `additional` more items behind those that
/// `items` holds. This is `Vec::try_reserve_exact`, and what is claimed of it
/// is not proved here: that it changes only what the vector has allocated and
/// leaves its items as they are, whether or not the room was had.
#[verifier::external_body]
fn reserve_room<T>(items: &mut Vec<T>, additional: usize) -> (outcome: Result<
    (),
    TryReserveError,
>)
    ensures
        final(items)@ == old(items)@,
{
    items.try_reserve_exact(additional)
}

/// An array of `n` free slots.
fn vacant_slots<K: HashIt + Default, V: Default>(n: usize) -> (slots: Vec<Pair<K, V>>)
    ensures
        slots@.len() == n,
        forall|x: int| 0 <= x < n ==> !(#[trigger] slots@[x]).is_occupied && blank(slots@[x]),
{
    let mut slots: Vec<Pair<K, V>> = Vec::with_capacity(n);
    while slots.len() < n
        invariant
            slots@.len() <= n,
            forall|x: int|
                0 <= x < slots@.len() ==> !(#[trigger] slots@[x]).is_occupied && blank(slots@[x]),
        decreases n - slots@.len(),
    {
        slots.push(Pair { key: K::default(), value: V::default(), is_occupied: false });
    }
    slots
}

impl<K: HashIt, V> View for MyHashMap<K, V> {
    type V = Model<K::V, V>;

    /// What the table stands for: the entries that its slots hold, and the
    /// number of its slots.
    open spec fn view(&self) -> Model<K::V, V> {
        Model { entries: entries(self.slots()), capacity: self.slots().len() }
    }
}

impl<K: HashIt, V> MyHashMap<K, V> {
    /// The slots of the table, in their order on the ring.
    pub closed spec fn slots(&self) -> Seq<Pair<K, V>> {
        self.bucket@
    }
}

impl<K: HashIt + Default, V: Default> MyHashMap<K, V> {
    /// The table is valid: its slots are well laid out, and each free slot
    /// holds a key and a value as `Default` makes them.
    pub open spec fn wf(&self) -> bool {
        well_laid_out(self.slots()) && free_slots_blank(self.slots())
    }

    /// A valid table stands for a valid model, and has every slot in use
    /// just when it has as many entries as slots.
    pub proof fn lemma_valid_model(&self)
        requires
            self.wf(),
        ensures
            self@.valid(),
            self@.entries.len() == self@.capacity <==> saturated(self.slots()),
    {
        lemma_occupancy(self.slots());
    }

    /// An empty table with [`INITIAL_CAPACITY`] slots.
    pub fn new() -> (table: Self)
        ensures
            table.wf(),
            table@ == Model::<K::V, V>::empty(INITIAL_CAPACITY as nat),
    {
        let bucket = vacant_slots(INITIAL_CAPACITY);
        proof {
            lemma_vacant_layout(bucket@);
        }
        Self { bucket }
    }

    /// An empty table with `capacity` slots; a table cannot have none.
    pub fn with_capacity(capacity: usize) -> (made: Result<Self, MapError>)
        ensures
            match made {
                Ok(table) => {
                    &&& capacity > 0
                    &&& table.wf()
                    &&& table@ == Model::<K::V, V>::empty(capacity as nat)
                },
                Err(error) => capacity == 0 && error == MapError::InvalidConfiguration,
            },
    {
        if capacity == 0 {
            return Err(MapError::InvalidConfiguration);
        }
        let bucket = vacant_slots(capacity);
        proof {
            lemma_vacant_layout(bucket@);
        }
        Ok(Self { bucket })
    }

    /// The number of slots.
    pub fn capacity(&self) -> (n: usize)
        ensures
            n == self@.capacity,
    {
        self.bucket.len()
    }

    /// Walks the ring from the home of `key` until it meets the key, a free
    /// slot, or its own start.
    fn probe(&self, key: &K) -> (answer: Option<Probe>)
        requires
            self.wf(),
        ensures
            probed(self.slots(), key@, answer),
    {
        let n = self.bucket.len();
        let start = key.hash() % n;
        proof {
            lemma_home_in_range::<K>(key@, n as int);
        }
        let mut index = start;
        let mut steps: usize = 0;
        while steps < n
            invariant
                n == self.bucket@.len(),
                well_laid_out(self.bucket@),
                start == home::<K>(key@, n as int),
                start < n,
                index < n,
                steps <= n,
                steps < n ==> gap(start as int, index as int, n as int) == steps,
                forall|x: int|
                    0 <= x < n && gap(start as int, x, n as int) < steps ==> (
                    #[trigger] self.bucket@[x]).is_occupied && self.bucket@[x].key@ != key@,
            decreases n - steps,
        {
            if !self.bucket[index].is_occupied {
                proof {
                    let s = self.bucket@;
                    assert forall|x: int| !holds(s, x, key@) by {
                        if holds(s, x, key@) && gap(start as int, x, n as int) > steps {
                            assert(probe_path(s, x, index as int));
                        }
                    }
                }
                return Some(Probe::Vacant(index));
            }
            if same_key(&self.bucket[index].key, key) {
                return Some(Probe::Found(index));
            }
            index = ring_next(index, n);
            steps += 1;
        }
        proof {
            let s = self.bucket@;
            assert forall|x: int| 0 <= x < s.len() implies (#[trigger] s[x]).is_occupied by {
                assert(gap(start as int, x, n as int) < steps);
            }
            assert forall|x: int| !holds(s, x, key@) by {
                if holds(s, x, key@) {
                    assert(gap(start as int, x, n as int) < steps);
                }
            }
        }
        None
    }

    /// The value stored under `key`, if there is one.
    pub fn get(&self, key: &K) -> (found: Option<&V>)
        requires
            self.wf(),
        ensures
            match found {
                Some(value) => self@.lookup(key@) == Some(*value),
                None => self@.lookup(key@).is_none(),
            },
    {
        match self.probe(key) {
            Some(Probe::Found(i)) => {
                proof {
                    lemma_entry_at(self.bucket@, i as int);
                }
                Some(&self.bucket[i].value)
            },
            _ => None,
        }
    }

    /// Writes the entry where a probe for its key ended.
    fn settle(&mut self, at: Probe, key: K, value: V) -> (previous: Option<V>)
        requires
            old(self).wf(),
            probed(old(self).slots(), key@, Some(at)),
        ensures
            final(self).wf(),
            final(self)@.entries == old(self)@.entries.insert(key@, value),
            final(self)@.capacity == old(self)@.capacity,
            previous == old(self)@.lookup(key@),
            written(
                old(self).slots(),
                final(self).slots(),
                match at {
                    Probe::Found(i) => i as int,
                    Probe::Vacant(i) => i as int,
                },
                key,
                value,
            ),
    {
        let ghost s = self.bucket@;
        match at {
            Probe::Found(i) => {
                let mut value = value;
                core::mem::swap(&mut self.bucket[i].value, &mut value);
                proof {
                    let t = self.bucket@;
                    lemma_entry_at(s, i as int);
                    lemma_layout_same_keys(s, t);
                    assert forall|x: int| holds(s, x, key@) implies x == i by {
                        assert(s[x].key@ == s[i as int].key@);
                    }
                    lemma_entries_put(s, i as int, t[i as int]);
                    assert(t =~= s.update(
                        i as int,
                        Pair { key: s[i as int].key, value: t[i as int].value, is_occupied: true },
                    ));
                }
                Some(value)
            },
            Probe::Vacant(i) => {
                self.bucket[i] = Pair { key, value, is_occupied: true };
                proof {
                    lemma_layout_fill(s, i as int, self.bucket@[i as int]);
                    assert(self.bucket@ =~= s.update(i as int, self.bucket@[i as int]));
                    assert(!holds(s, i as int, key@));
                }
                None
            },
        }
    }

    /// Stores `value` under `key` and hands back the value that was stored
    /// under it before, if there was one. A new key goes into the first free
    /// slot on the way from its home; a key that the table holds keeps its
    /// slot. When the probe for a new key finds every slot in use, the table
    /// first doubles, for which the doubled number of slots has to fit in
    /// `usize`.
    pub fn insert(&mut self, key: K, value: V) -> (previous: Option<V>)
        requires
            old(self).wf(),
            old(self)@.insert(key@, value).capacity <= usize::MAX,
        ensures
            final(self).wf(),
            final(self)@ == old(self)@.insert(key@, value),
            previous == old(self)@.lookup(key@),
            !old(self)@.must_grow(key@) ==> exists|i: int|
                written(old(self).slots(), final(self).slots(), i, key, value),
        decreases
            (if old(self)@.must_grow(key@) { 1int } else { 0int }),
            1int,
    {
        let ghost before = self@;
        let ghost mut grown = false;
        loop
            invariant
                self.wf(),
                before == old(self)@,
                before.insert(key@, value).capacity <= usize::MAX,
                !grown ==> self.slots() == old(self).slots(),
                grown ==> before.must_grow(key@) && self@ == before.grow(),
            decreases
                (if grown { 0int } else { 1int }),
        {
            proof {
                lemma_occupancy(self.bucket@);
            }
            match self.probe(&key) {
                Some(at) => {
                    return self.settle(at, key, value);
                },
                None => {
                    self.increase_capacity();
                    proof {
                        grown = true;
                    }
                },
            }
        }
    }

    /// Doubles the number of slots, which has to fit in `usize`, and stores
    /// every entry anew. The new slots are there before an entry moves.
    pub fn increase_capacity(&mut self)
        requires
            old(self).wf(),
            old(self)@.grow().capacity <= usize::MAX,
        ensures
            final(self).wf(),
            final(self)@ == old(self)@.grow(),
            taken_from(final(self).slots(), old(self).slots()),
        decreases 1int, 0int,
    {
        let n = self.bucket.len();
        let mut rest: Vec<Pair<K, V>> = vacant_slots(2 * n);
        proof {
            lemma_vacant_layout(rest@);
            lemma_occupancy(self.bucket@);
        }
        core::mem::swap(&mut self.bucket, &mut rest);
        let ghost s = rest@;
        while rest.len() > 0
            invariant
                self.wf(),
                self@.capacity == 2 * n,
                n == s.len(),
                n > 0,
                2 * n <= usize::MAX,
                unique_keys(s),
                rest@ == s.take(rest@.len() as int),
                rest@.len() <= n,
                self@.entries.dom().finite(),
                self@.entries.len() <= n - rest@.len(),
                forall|x: int|
                    0 <= x < 2 * n && (#[trigger] self.bucket@[x]).is_occupied ==> exists|y: int|
                        rest@.len() <= y < n && (#[trigger] s[y]) == self.bucket@[x],
                forall|id: K::V|
                    self@.entries.contains_key(id) <==> exists|x: int|
                        rest@.len() <= x && #[trigger] holds(s, x, id),
                forall|x: int, id: K::V|
                    rest@.len() <= x && #[trigger] holds(s, x, id) ==> self@.entries[id]
                        == s[x].value,
            decreases rest@.len(),
        {
            let ghost m = rest@.len() as int;
            let ghost table = self@.entries;
            let ghost slots = self.bucket@;
            let pair = rest.pop().unwrap();
            assert(pair == s[m - 1]);
            if pair.is_occupied {
                let ghost id = pair.key@;
                proof {
                    assert(holds(s, m - 1, id));
                    assert(!table.contains_key(id)) by {
                        if table.contains_key(id) {
                            let x = choose|x: int| m <= x && #[trigger] holds(s, x, id);
                            assert(s[x].key@ == s[m - 1].key@);
                        }
                    }
                }
                self.insert(pair.key, pair.value);
                proof {
                    let last = s[m - 1];
                    let after = self.bucket@;
                    let i = choose|i: int| written(slots, after, i, last.key, last.value);
                    assert(!holds(slots, i, id)) by {
                        if holds(slots, i, id) {
                            assert(has_key(slots, id));
                        }
                    }
                    assert forall|x: int|
                        0 <= x < 2 * n && (#[trigger] self.bucket@[x]).is_occupied implies exists|
                        y: int,
                    | m - 1 <= y < n && (#[trigger] s[y]) == self.bucket@[x] by {
                        if x == i {
                            assert(s[m - 1] == self.bucket@[x]);
                        } else {
                            assert(slots[x].is_occupied);
                            let y = choose|y: int| m <= y < n && (#[trigger] s[y]) == slots[x];
                            assert(m - 1 <= y < n && s[y] == self.bucket@[x]);
                        }
                    }
                    assert forall|k: K::V| self@.entries.contains_key(k) <==> exists|x: int|
                        m - 1 <= x && #[trigger] holds(s, x, k) by {
                        if table.contains_key(k) {
                            let x = choose|x: int| m <= x && #[trigger] holds(s, x, k);
                            assert(m - 1 <= x && holds(s, x, k));
                        }
                        if exists|x: int| m - 1 <= x && #[trigger] holds(s, x, k) {
                            let x = choose|x: int| m - 1 <= x && #[trigger] holds(s, x, k);
                            if x != m - 1 {
                                assert(m <= x && holds(s, x, k));
                            }
                        }
                    }
                    assert forall|x: int, k: K::V|
                        m - 1 <= x && #[trigger] holds(s, x, k) implies self@.entries[k]
                        == s[x].value by {
                        if x != m - 1 {
                            assert(m <= x && holds(s, x, k));
                            assert(s[x].key@ != s[m - 1].key@);
                        }
                    }
                }
            } else {
                proof {
                    assert forall|x: int|
                        0 <= x < 2 * n && (#[trigger] self.bucket@[x]).is_occupied implies exists|
                        y: int,
                    | m - 1 <= y < n && (#[trigger] s[y]) == self.bucket@[x] by {
                        let y = choose|y: int| m <= y < n && (#[trigger] s[y]) == slots[x];
                        assert(m - 1 <= y < n && s[y] == self.bucket@[x]);
                    }
                    assert forall|k: K::V| self@.entries.contains_key(k) <==> exists|x: int|
                        m - 1 <= x && #[trigger] holds(s, x, k) by {
                        if table.contains_key(k) {
                            let x = choose|x: int| m <= x && #[trigger] holds(s, x, k);
                            assert(m - 1 <= x && holds(s, x, k));
                        }
                        if exists|x: int| m - 1 <= x && #[trigger] holds(s, x, k) {
                            let x = choose|x: int| m - 1 <= x && #[trigger] holds(s, x, k);
                            assert(m <= x && holds(s, x, k));
                        }
                    }
                }
            }
        }
        proof {
            assert forall|k: K::V| self@.entries.contains_key(k) <==> has_key(s, k) by {
                if has_key(s, k) {
                    let x = choose|x: int| holds(s, x, k);
                    assert(0 <= x && holds(s, x, k));
                }
            }
            assert forall|k: K::V| has_key(s, k) implies #[trigger] self@.entries[k] == entries(
                s,
            )[k] by {
                let x = choose|x: int| holds(s, x, k);
                assert(0 <= x && holds(s, x, k));
                lemma_entry_at(s, x);
            }
            assert(self@.entries =~= entries(s));
        }
    }

    /// Reserves room for `how_much` more slots. The table keeps its slots and
    /// its entries as they are: only what it has allocated may change.
    pub fn extend(&mut self, how_much: usize)
        requires
            old(self).wf(),
        ensures
            final(self).wf(),
            final(self).slots() == old(self).slots(),
    {
        let _outcome = reserve_room(&mut self.bucket, how_much);
    }

    /// Closes the free slot `hole` that the removal of an entry has left:
    /// walks on from it and moves back each entry whose probe path the hole
    /// has cut, until it meets a free slot or has gone round the ring.
    fn close_gap(&mut self, hole: usize)
        requires
            exists|e: int| sliding(old(self).slots(), hole as int, e, hole as int, 0),
            free_slots_blank(old(self).slots()),
        ensures
            final(self).wf(),
            final(self)@ == old(self)@,
            taken_from(final(self).slots(), old(self).slots()),
    {
        let n = self.bucket.len();
        let ghost start = hole as int;
        let ghost gapped = self.bucket@;
        let ghost e = choose|e: int| sliding(self.bucket@, hole as int, e, hole as int, 0);
        let ghost before = entries(self.bucket@);
        let mut hole = hole;
        let mut cursor = hole;
        let mut seen: usize = 0;
        let mut carrier = Pair { key: K::default(), value: V::default(), is_occupied: false };
        while seen + 1 < n && self.bucket[ring_next(cursor, n)].is_occupied
            invariant
                n == self.bucket@.len(),
                cursor < n,
                hole < n,
                !carrier.is_occupied,
                blank(carrier),
                free_slots_blank(self.bucket@),
                taken_from(self.bucket@, gapped),
                gap(start, cursor as int, n as int) == seen,
                sliding(self.bucket@, start, e, hole as int, seen as int),
                entries(self.bucket@) == before,
            decreases n - seen,
        {
            let ghost s = self.bucket@;
            let next = ring_next(cursor, n);
            let from = self.bucket[next].key.hash() % n;
            proof {
                lemma_home_in_range::<K>(s[next as int].key@, n as int);
            }
            if ring_gap(from, hole, n) < ring_gap(from, next, n) {
                proof {
                    lemma_slide_move(s, start, e, hole as int, seen as int, next as int, carrier);
                }
                core::mem::swap(&mut self.bucket[next], &mut carrier);
                core::mem::swap(&mut self.bucket[hole], &mut carrier);
                assert(self.bucket@ =~= s.update(next as int, self.bucket@[next as int]).update(
                    hole as int,
                    s[next as int],
                ));
                hole = next;
            } else {
                proof {
                    lemma_slide_stay(s, start, e, hole as int, seen as int, next as int);
                }
            }
            cursor = next;
            seen += 1;
        }
        proof {
            lemma_slide_end(
                self.bucket@,
                start,
                e,
                hole as int,
                seen as int,
                next_slot(cursor as int, n as int),
            );
        }
    }

    /// Takes the entry with `key` out of the table and hands it back, and
    /// closes the free slot that it leaves, so that every other entry stays
    /// within reach of a probe. Without such an entry the table stays as it
    /// is, and the answer is `KeyNotFound`.
    pub fn remove(&mut self, key: K) -> (removed: Result<Pair<K, V>, MapError>)
        requires
            old(self).wf(),
        ensures
            final(self).wf(),
            final(self)@ == old(self)@.remove(key@),
            taken_from(final(self).slots(), old(self).slots()),
            match removed {
                Ok(pair) => {
                    &&& old(self)@.removed(key@) == Ok::<V, MapError>(pair.value)
                    &&& pair.key@ == key@
                    &&& pair.is_occupied
                    &&& exists|i: int|
                        0 <= i < old(self).slots().len() && old(self).slots()[i] == pair
                },
                Err(error) => {
                    &&& old(self)@.removed(key@) == Err::<V, MapError>(error)
                    &&& final(self).slots() == old(self).slots()
                },
            },
    {
        match self.probe(&key) {
            Some(Probe::Found(i)) => {
                let ghost s = self.bucket@;
                let mut pair = Pair { key: K::default(), value: V::default(), is_occupied: false };
                let ghost vacant = pair;
                proof {
                    lemma_entry_at(s, i as int);
                    lemma_slide_start(s, i as int, vacant);
                }
                let ghost e = choose|e: int|
                    sliding(s.update(i as int, vacant), i as int, e, i as int, 0);
                core::mem::swap(&mut self.bucket[i], &mut pair);
                assert(self.bucket@ == s.update(i as int, vacant));
                assert(sliding(self.slots(), i as int, e, i as int, 0));
                let ghost gapped = self.bucket@;
                self.close_gap(i);
                proof {
                    assert forall|x: int|
                        0 <= x < self.bucket@.len() && (
                        #[trigger] self.bucket@[x]).is_occupied implies exists|y: int|
                        0 <= y < s.len() && (#[trigger] s[y]) == self.bucket@[x] by {
                        let y = choose|y: int|
                            0 <= y < gapped.len() && (#[trigger] gapped[y]) == self.bucket@[x];
                        assert(s[y] == gapped[y]);
                    }
                }
                Ok(pair)
            },
            _ => {
                assert(self@.entries.remove(key@) =~= self@.entries);
                Err(MapError::KeyNotFound)
            },
        }
    }

    /// The number of entries.
    pub fn len(&self) -> (count: usize)
        requires
            self.wf(),
        ensures
            count == self@.entries.len(),
    {
        let n = self.bucket.len();
        let mut count: usize = 0;
        let mut i: usize = 0;
        while i < n
            invariant
                n == self.bucket@.len(),
                i <= n,
                count <= i,
                count == occupied_upto(self.bucket@, i as int),
            decreases n - i,
        {
            if self.bucket[i].is_occupied {
                count += 1;
            }
            i += 1;
        }
        proof {
            lemma_occupancy(self.bucket@);
        }
        count
    }

    /// The key and the value in slot `index`, if that slot is in use.
    pub fn entry_at(&self, index: usize) -> (entry: Option<(&K, &V)>)
        ensures
            match entry {
                Some((key, value)) => {
                    &&& index < self@.capacity
                    &&& self.slots()[index as int].is_occupied
                    &&& *key == self.slots()[index as int].key
                    &&& *value == self.slots()[index as int].value
                },
                None => index < self@.capacity ==> !self.slots()[index as int].is_occupied,
            },
    {
        if index < self.bucket.len() && self.bucket[index].is_occupied {
            Some((&self.bucket[index].key, &self.bucket[index].value))
        } else {
            None
        }
    }
}

} // verus!
