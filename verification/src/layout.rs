//! The slot array: what it holds, how probing reads it, and when it is well
//! laid out.

use vstd::prelude::*;
use crate::hash::HashIt;
use crate::ring::on_the_way;

verus! {

/// One slot of the table: a key, a value, and whether the slot is in use.
/// A slot that is not in use stands for nothing, whatever key and value it holds.
#[derive(Default, Copy, Debug, PartialEq)]
pub struct Pair<K, V> {
    pub key: K,
    pub value: V,
    pub is_occupied: bool,
}

impl<K: Clone, V: Clone> Clone for Pair<K, V> {
    fn clone(&self) -> (copy: Self)
        ensures
            cloned(self.key, copy.key),
            cloned(self.value, copy.value),
            copy.is_occupied == self.is_occupied,
    {
        Pair { key: self.key.clone(), value: self.value.clone(), is_occupied: self.is_occupied }
    }
}

/// The slot at which probing for a key with view `id` starts.
pub open spec fn home<K: HashIt>(id: K::V, n: int) -> int {
    (K::hash_of(id) as int) % n
}

/// Slot `x` is in use and holds a key with view `id`.
pub open spec fn holds<K: HashIt, V>(s: Seq<Pair<K, V>>, x: int, id: K::V) -> bool {
    0 <= x < s.len() && s[x].is_occupied && s[x].key@ == id
}

/// Some slot in use holds a key with view `id`.
pub open spec fn has_key<K: HashIt, V>(s: Seq<Pair<K, V>>, id: K::V) -> bool {
    exists|x: int| holds(s, x, id)
}

/// A slot that holds a key with view `id`, if there is one.
pub open spec fn slot_of<K: HashIt, V>(s: Seq<Pair<K, V>>, id: K::V) -> int {
    choose|x: int| holds(s, x, id)
}

/// The map that the slots stand for: every key in use, with the value beside it.
pub open spec fn entries<K: HashIt, V>(s: Seq<Pair<K, V>>) -> Map<K::V, V> {
    Map::new(|id: K::V| has_key(s, id), |id: K::V| s[slot_of(s, id)].value)
}

/// No two slots in use hold the same key.
pub open spec fn unique_keys<K: HashIt, V>(s: Seq<Pair<K, V>>) -> bool {
    forall|x: int, y: int|
        #![trigger s[x], s[y]]
        0 <= x < s.len() && 0 <= y < s.len() && s[x].is_occupied && s[y].is_occupied && s[x].key@
            == s[y].key@ ==> x == y
}

/// Slot `x` lies on the probe path of the entry in slot `p`: on the walk from
/// the home of its key up to, not including, `p`.
pub open spec fn probe_path<K: HashIt, V>(s: Seq<Pair<K, V>>, p: int, x: int) -> bool {
    on_the_way(home::<K>(s[p].key@, s.len() as int), x, p, s.len() as int)
}

/// Every slot on the probe path of an entry is in use, but for slot `hole`.
pub open spec fn paths_filled_but<K: HashIt, V>(s: Seq<Pair<K, V>>, hole: int) -> bool {
    forall|p: int, x: int|
        0 <= p < s.len() && 0 <= x < s.len() && s[p].is_occupied && #[trigger] probe_path(s, p, x)
            ==> x == hole || s[x].is_occupied
}

/// Every slot on the probe path of an entry is in use, so that probing from
/// the home of its key reaches the entry before it reaches a free slot.
pub open spec fn paths_filled<K: HashIt, V>(s: Seq<Pair<K, V>>) -> bool {
    forall|p: int, x: int|
        0 <= p < s.len() && 0 <= x < s.len() && s[p].is_occupied && #[trigger] probe_path(s, p, x)
            ==> s[x].is_occupied
}

/// No probe path passes through slot `e`.
pub open spec fn is_seam<K: HashIt, V>(s: Seq<Pair<K, V>>, e: int) -> bool {
    &&& 0 <= e < s.len()
    &&& forall|p: int| 0 <= p < s.len() && s[p].is_occupied ==> !#[trigger] probe_path(s, p, e)
}

/// The layout that every operation of the table keeps: there is a slot, no
/// key occurs twice, every entry is reached by probing, and the probe paths
/// do not run all the way round the ring.
pub open spec fn well_laid_out<K: HashIt, V>(s: Seq<Pair<K, V>>) -> bool {
    &&& s.len() > 0
    &&& unique_keys(s)
    &&& paths_filled(s)
    &&& exists|e: int| is_seam(s, e)
}

/// Slot `i` is the first free slot on the way from the home of a key with
/// view `id`.
pub open spec fn first_free<K: HashIt, V>(s: Seq<Pair<K, V>>, id: K::V, i: int) -> bool {
    &&& 0 <= i < s.len()
    &&& !s[i].is_occupied
    &&& forall|x: int|
        0 <= x < s.len() && on_the_way(home::<K>(id, s.len() as int), x, i, s.len() as int) ==> (
        #[trigger] s[x]).is_occupied
}

/// The slots `after` are the slots `before` with `value` written under
/// `key` at slot `i`: over the value of the entry with that key, if slot `i`
/// holds it, and else into slot `i` as the first free slot on the way from
/// the home of the key.
pub open spec fn written<K: HashIt, V>(
    before: Seq<Pair<K, V>>,
    after: Seq<Pair<K, V>>,
    i: int,
    key: K,
    value: V,
) -> bool {
    if holds(before, i, key@) {
        after == before.update(i, Pair { key: before[i].key, value, is_occupied: true })
    } else {
        first_free(before, key@, i) && after == before.update(
            i,
            Pair { key, value, is_occupied: true },
        )
    }
}

/// The key and the value of the slot are such as `Default` makes them.
pub open spec fn blank<K: Default, V: Default>(p: Pair<K, V>) -> bool {
    call_ensures(K::default, (), p.key) && call_ensures(V::default, (), p.value)
}

/// Every free slot holds a key and a value as `Default` makes them.
pub open spec fn free_slots_blank<K: Default, V: Default>(s: Seq<Pair<K, V>>) -> bool {
    forall|x: int| 0 <= x < s.len() && !(#[trigger] s[x]).is_occupied ==> blank(s[x])
}

/// Every entry of `after` is an entry of `before`, key and value as they
/// were, in whatever slot.
pub open spec fn taken_from<K, V>(after: Seq<Pair<K, V>>, before: Seq<Pair<K, V>>) -> bool {
    forall|x: int|
        0 <= x < after.len() && (#[trigger] after[x]).is_occupied ==> exists|y: int|
            0 <= y < before.len() && (#[trigger] before[y]) == after[x]
}

/// Every slot is in use.
pub open spec fn saturated<K, V>(s: Seq<Pair<K, V>>) -> bool {
    forall|x: int| 0 <= x < s.len() ==> (#[trigger] s[x]).is_occupied
}

/// The number of slots in use among the first `m`.
pub open spec fn occupied_upto<K, V>(s: Seq<Pair<K, V>>, m: int) -> int
    decreases m,
{
    if m <= 0 {
        0
    } else {
        occupied_upto(s, m - 1) + if s[m - 1].is_occupied {
            1int
        } else {
            0int
        }
    }
}

/// The views of the keys in use among the first `m` slots.
pub open spec fn keys_upto<K: HashIt, V>(s: Seq<Pair<K, V>>, m: int) -> Set<K::V> {
    Set::new(|id: K::V| exists|x: int| x < m && #[trigger] holds(s, x, id))
}

/// The home of a key is a slot of the ring.
pub proof fn lemma_home_in_range<K: HashIt>(id: K::V, n: int)
    requires
        n > 0,
    ensures
        0 <= home::<K>(id, n) < n,
{
    vstd::arithmetic::div_mod::lemma_mod_bound(K::hash_of(id) as int, n);
}

/// A slot in use shows in the map with its value.
pub proof fn lemma_entry_at<K: HashIt, V>(s: Seq<Pair<K, V>>, x: int)
    requires
        unique_keys(s),
        0 <= x < s.len(),
        s[x].is_occupied,
    ensures
        entries(s).contains_key(s[x].key@),
        entries(s)[s[x].key@] == s[x].value,
{
    let id = s[x].key@;
    assert(holds(s, x, id));
    let y = slot_of(s, id);
    assert(holds(s, y, id));
}

/// Writing an entry into a free slot, or over the entry with the same key,
/// inserts it into the map.
pub proof fn lemma_entries_put<K: HashIt, V>(s: Seq<Pair<K, V>>, i: int, p: Pair<K, V>)
    requires
        unique_keys(s),
        0 <= i < s.len(),
        p.is_occupied,
        s[i].is_occupied ==> s[i].key@ == p.key@,
        forall|x: int| holds(s, x, p.key@) ==> x == i,
    ensures
        unique_keys(s.update(i, p)),
        entries(s.update(i, p)) == entries(s).insert(p.key@, p.value),
{
    let t = s.update(i, p);
    assert(unique_keys(t)) by {
        assert forall|x: int, y: int|
            0 <= x < t.len() && 0 <= y < t.len() && t[x].is_occupied && t[y].is_occupied
                && t[x].key@ == t[y].key@ implies x == y by {
            if x != i && y != i {
                assert(s[x].is_occupied && s[y].is_occupied);
            } else if x == i && y != i {
                assert(holds(s, y, p.key@));
            } else if y == i && x != i {
                assert(holds(s, x, p.key@));
            }
        }
    }
    assert forall|id: K::V| has_key(t, id) <==> (id == p.key@ || has_key(s, id)) by {
        if has_key(t, id) {
            let x = slot_of(t, id);
            assert(holds(t, x, id));
            if x != i {
                assert(holds(s, x, id));
            }
        }
        if id == p.key@ {
            assert(holds(t, i, id));
        }
        if has_key(s, id) {
            let x = slot_of(s, id);
            assert(holds(s, x, id));
            if x == i {
                assert(holds(t, i, id));
            } else {
                assert(holds(t, x, id));
            }
        }
    }
    assert forall|id: K::V| has_key(t, id) implies #[trigger] entries(t)[id] == entries(s).insert(
        p.key@,
        p.value,
    )[id] by {
        let x = slot_of(t, id);
        assert(holds(t, x, id));
        lemma_entry_at(t, x);
        if id == p.key@ {
            assert(holds(t, i, id));
            assert(t[x].key@ == t[i].key@);
        } else {
            assert(holds(s, x, id));
            lemma_entry_at(s, x);
        }
    }
    assert(entries(t) =~= entries(s).insert(p.key@, p.value));
}

/// Freeing a slot in use removes its key from the map.
pub proof fn lemma_entries_clear<K: HashIt, V>(s: Seq<Pair<K, V>>, i: int, p: Pair<K, V>)
    requires
        unique_keys(s),
        0 <= i < s.len(),
        s[i].is_occupied,
        !p.is_occupied,
    ensures
        unique_keys(s.update(i, p)),
        entries(s.update(i, p)) == entries(s).remove(s[i].key@),
        !has_key(s.update(i, p), s[i].key@),
{
    let t = s.update(i, p);
    let gone = s[i].key@;
    assert(unique_keys(t)) by {
        assert forall|x: int, y: int|
            0 <= x < t.len() && 0 <= y < t.len() && t[x].is_occupied && t[y].is_occupied
                && t[x].key@ == t[y].key@ implies x == y by {
            assert(s[x].key@ == s[y].key@);
        }
    }
    assert forall|id: K::V| has_key(t, id) <==> (id != gone && has_key(s, id)) by {
        if has_key(t, id) {
            let x = slot_of(t, id);
            assert(holds(t, x, id));
            assert(holds(s, x, id));
            if id == gone {
                assert(s[x].key@ == s[i].key@);
            }
        }
        if id != gone && has_key(s, id) {
            let x = slot_of(s, id);
            assert(holds(s, x, id));
            assert(holds(t, x, id));
        }
    }
    assert forall|id: K::V| has_key(t, id) implies #[trigger] entries(t)[id] == entries(s)[id] by {
        let x = slot_of(t, id);
        assert(holds(t, x, id));
        lemma_entry_at(t, x);
        assert(holds(s, x, id));
        lemma_entry_at(s, x);
    }
    assert(entries(t) =~= entries(s).remove(gone));
}

/// Moving an entry into a free slot, and freeing the slot it came from,
/// leaves the map as it was.
pub proof fn lemma_entries_move<K: HashIt, V>(
    s: Seq<Pair<K, V>>,
    i: int,
    j: int,
    vacant: Pair<K, V>,
)
    requires
        unique_keys(s),
        0 <= i < s.len(),
        0 <= j < s.len(),
        !s[i].is_occupied,
        s[j].is_occupied,
        !vacant.is_occupied,
    ensures
        unique_keys(s.update(j, vacant).update(i, s[j])),
        entries(s.update(j, vacant).update(i, s[j])) == entries(s),
{
    let cleared = s.update(j, vacant);
    lemma_entry_at(s, j);
    lemma_entries_clear(s, j, vacant);
    assert forall|x: int| holds(cleared, x, s[j].key@) implies x == i by {
        assert(has_key(cleared, s[j].key@));
    }
    lemma_entries_put(cleared, i, s[j]);
    assert(entries(s).remove(s[j].key@).insert(s[j].key@, s[j].value) =~= entries(s));
}

/// No more slots are in use than there are, and all of them are in use only
/// if each one is.
pub proof fn lemma_occupied_bounds<K, V>(s: Seq<Pair<K, V>>, m: int)
    requires
        0 <= m <= s.len(),
    ensures
        0 <= occupied_upto(s, m) <= m,
        occupied_upto(s, m) == m <==> forall|x: int| 0 <= x < m ==> (#[trigger] s[x]).is_occupied,
    decreases m,
{
    if m > 0 {
        lemma_occupied_bounds(s, m - 1);
        if occupied_upto(s, m) == m {
            assert(s[m - 1].is_occupied);
        }
    }
}

/// With no key twice, the keys in use are as many as the slots in use.
pub proof fn lemma_keys_counted<K: HashIt, V>(s: Seq<Pair<K, V>>, m: int)
    requires
        unique_keys(s),
        0 <= m <= s.len(),
    ensures
        keys_upto(s, m).finite(),
        keys_upto(s, m).len() == occupied_upto(s, m),
    decreases m,
{
    if m == 0 {
        assert(keys_upto(s, m) =~= Set::<K::V>::empty());
    } else {
        lemma_keys_counted(s, m - 1);
        let before = keys_upto(s, m - 1);
        if s[m - 1].is_occupied {
            let id = s[m - 1].key@;
            assert(holds(s, m - 1, id));
            assert(!before.contains(id)) by {
                if before.contains(id) {
                    let x = choose|x: int| x < m - 1 && #[trigger] holds(s, x, id);
                    assert(s[x].key@ == s[m - 1].key@);
                }
            }
            assert(keys_upto(s, m) =~= before.insert(id)) by {
                assert forall|k: K::V| keys_upto(s, m).contains(k) <==> before.insert(id).contains(
                    k,
                ) by {
                    if keys_upto(s, m).contains(k) {
                        let x = choose|x: int| x < m && #[trigger] holds(s, x, k);
                        if x < m - 1 {
                            assert(before.contains(k));
                        }
                    }
                    if before.contains(k) {
                        let x = choose|x: int| x < m - 1 && #[trigger] holds(s, x, k);
                        assert(x < m && holds(s, x, k));
                    }
                }
            }
        } else {
            assert(keys_upto(s, m) =~= before) by {
                assert forall|k: K::V| keys_upto(s, m).contains(k) <==> before.contains(k) by {
                    if keys_upto(s, m).contains(k) {
                        let x = choose|x: int| x < m && #[trigger] holds(s, x, k);
                        assert(x < m - 1);
                    }
                    if before.contains(k) {
                        let x = choose|x: int| x < m - 1 && #[trigger] holds(s, x, k);
                        assert(x < m && holds(s, x, k));
                    }
                }
            }
        }
    }
}

/// With no key twice, the map has one entry for each slot in use: it is
/// finite, no larger than the array, and as large only if every slot is in use.
pub proof fn lemma_occupancy<K: HashIt, V>(s: Seq<Pair<K, V>>)
    requires
        unique_keys(s),
    ensures
        entries(s).dom().finite(),
        entries(s).len() == occupied_upto(s, s.len() as int),
        entries(s).len() <= s.len(),
        entries(s).len() == s.len() <==> saturated(s),
{
    let n = s.len() as int;
    lemma_keys_counted(s, n);
    lemma_occupied_bounds(s, n);
    assert(entries(s).dom() =~= keys_upto(s, n)) by {
        assert forall|k: K::V| entries(s).dom().contains(k) <==> keys_upto(s, n).contains(k) by {
            if has_key(s, k) {
                let x = slot_of(s, k);
                assert(x < n && holds(s, x, k));
            }
            if keys_upto(s, n).contains(k) {
                let x = choose|x: int| x < n && #[trigger] holds(s, x, k);
                assert(holds(s, x, k));
            }
        }
    }
}

/// A ring of free slots is well laid out and stands for the empty map.
pub proof fn lemma_vacant_layout<K: HashIt, V>(s: Seq<Pair<K, V>>)
    requires
        s.len() > 0,
        forall|x: int| 0 <= x < s.len() ==> !(#[trigger] s[x]).is_occupied,
    ensures
        well_laid_out(s),
        entries(s) == Map::<K::V, V>::empty(),
{
    assert(is_seam(s, 0));
    assert forall|id: K::V| !has_key(s, id) by {
        if has_key(s, id) {
            let x = choose|x: int| holds(s, x, id);
            assert(s[x].is_occupied);
        }
    }
    assert(entries(s) =~= Map::<K::V, V>::empty());
}

/// A layout stays well laid out when values change and keys and occupancy
/// stay as they are.
pub proof fn lemma_layout_same_keys<K: HashIt, V>(s: Seq<Pair<K, V>>, t: Seq<Pair<K, V>>)
    requires
        well_laid_out(s),
        t.len() == s.len(),
        forall|x: int|
            0 <= x < s.len() ==> (#[trigger] t[x]).key@ == s[x].key@ && t[x].is_occupied
                == s[x].is_occupied,
    ensures
        well_laid_out(t),
{
    assert forall|x: int, y: int|
        0 <= x < t.len() && 0 <= y < t.len() && t[x].is_occupied && t[y].is_occupied && t[x].key@
            == t[y].key@ implies x == y by {
        assert(s[x].is_occupied && s[y].is_occupied && s[x].key@ == s[y].key@);
    }
    assert forall|p: int, x: int|
        0 <= p < t.len() && 0 <= x < t.len() && t[p].is_occupied && #[trigger] probe_path(
            t,
            p,
            x,
        ) implies t[x].is_occupied by {
        assert(probe_path(s, p, x));
    }
    let e = choose|e: int| is_seam(s, e);
    assert(is_seam(t, e)) by {
        assert forall|p: int| 0 <= p < t.len() && t[p].is_occupied implies !#[trigger] probe_path(
            t,
            p,
            e,
        ) by {
            assert(!probe_path(s, p, e));
        }
    }
}

/// A layout stays well laid out when a new key goes into the first free slot
/// on the way from its home.
pub proof fn lemma_layout_fill<K: HashIt, V>(s: Seq<Pair<K, V>>, i: int, p: Pair<K, V>)
    requires
        well_laid_out(s),
        p.is_occupied,
        first_free(s, p.key@, i),
        !has_key(s, p.key@),
    ensures
        well_laid_out(s.update(i, p)),
        entries(s.update(i, p)) == entries(s).insert(p.key@, p.value),
{
    let t = s.update(i, p);
    assert forall|x: int| holds(s, x, p.key@) implies x == i by {
        assert(has_key(s, p.key@));
    }
    lemma_entries_put(s, i, p);
    assert forall|q: int, x: int|
        0 <= q < t.len() && 0 <= x < t.len() && t[q].is_occupied && #[trigger] probe_path(
            t,
            q,
            x,
        ) implies t[x].is_occupied by {
        if q == i {
            assert(s[x].is_occupied);
        } else {
            assert(probe_path(s, q, x));
        }
    }
    assert(is_seam(t, i)) by {
        assert forall|q: int| 0 <= q < t.len() && t[q].is_occupied implies !#[trigger] probe_path(
            t,
            q,
            i,
        ) by {
            if q != i && probe_path(t, q, i) {
                assert(probe_path(s, q, i));
            }
        }
    }
}

} // verus!
