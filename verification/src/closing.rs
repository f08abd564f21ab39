//! Closing the free slot that a removal leaves: the states that the walk
//! goes through, and why it ends in a well laid out ring.

use vstd::prelude::*;
use crate::hash::HashIt;
use crate::layout::{
    Pair, entries, home, is_seam, lemma_entries_clear, lemma_entries_move, lemma_home_in_range,
    paths_filled_but, probe_path, unique_keys, well_laid_out,
};
use crate::ring::{gap, lemma_ring_passed_stay_clear, lemma_ring_path_runs_on};

verus! {

/// The state of the slots while a freed slot is being closed: slot `hole` is
/// free, the walk forward from `start` has looked at `seen` slots, no probe
/// path passes through the seam `e`, every path is filled but for the hole,
/// and no entry that the walk has passed has the hole on its path.
pub open spec fn sliding<K: HashIt, V>(
    s: Seq<Pair<K, V>>,
    start: int,
    e: int,
    hole: int,
    seen: int,
) -> bool {
    let n = s.len() as int;
    &&& 0 <= start < n
    &&& 0 <= hole < n
    &&& 0 <= seen < n
    &&& !s[hole].is_occupied
    &&& gap(start, hole, n) <= seen
    &&& gap(start, hole, n) <= gap(start, e, n)
    &&& unique_keys(s)
    &&& is_seam(s, e)
    &&& paths_filled_but(s, hole)
    &&& forall|p: int|
        0 <= p < n && s[p].is_occupied && gap(start, p, n) <= seen ==> !#[trigger] probe_path(
            s,
            p,
            hole,
        )
}

/// Freeing the slot of an entry of a well laid out ring starts the closing.
pub proof fn lemma_slide_start<K: HashIt, V>(s: Seq<Pair<K, V>>, i: int, vacant: Pair<K, V>)
    requires
        well_laid_out(s),
        0 <= i < s.len(),
        s[i].is_occupied,
        !vacant.is_occupied,
    ensures
        exists|e: int| sliding(s.update(i, vacant), i, e, i, 0),
        entries(s.update(i, vacant)) == entries(s).remove(s[i].key@),
{
    let t = s.update(i, vacant);
    let e = choose|e: int| is_seam(s, e);
    lemma_entries_clear(s, i, vacant);
    assert(is_seam(t, e)) by {
        assert forall|p: int| 0 <= p < t.len() && t[p].is_occupied implies !#[trigger] probe_path(
            t,
            p,
            e,
        ) by {
            assert(!probe_path(s, p, e));
        }
    }
    assert(paths_filled_but(t, i)) by {
        assert forall|p: int, x: int|
            0 <= p < t.len() && 0 <= x < t.len() && t[p].is_occupied && #[trigger] probe_path(
                t,
                p,
                x,
            ) implies x == i || t[x].is_occupied by {
            assert(probe_path(s, p, x));
        }
    }
    assert(sliding(t, i, e, i, 0));
}

/// The walk passes an entry that does not have the hole on its path.
pub proof fn lemma_slide_stay<K: HashIt, V>(
    s: Seq<Pair<K, V>>,
    start: int,
    e: int,
    hole: int,
    seen: int,
    next: int,
)
    requires
        sliding(s, start, e, hole, seen),
        seen + 1 < s.len(),
        0 <= next < s.len(),
        gap(start, next, s.len() as int) == seen + 1,
        s[next].is_occupied,
        !probe_path(s, next, hole),
    ensures
        sliding(s, start, e, hole, seen + 1),
{
    let n = s.len() as int;
    assert forall|p: int|
        0 <= p < n && s[p].is_occupied && gap(start, p, n) <= seen + 1 implies !#[trigger] probe_path(
        s,
        p,
        hole,
    ) by {
        if gap(start, p, n) == seen + 1 {
            assert(p == next);
        }
    }
}

/// The walk meets an entry that has the hole on its path: the entry moves
/// into the hole, and the slot it leaves is the hole from then on.
pub proof fn lemma_slide_move<K: HashIt, V>(
    s: Seq<Pair<K, V>>,
    start: int,
    e: int,
    hole: int,
    seen: int,
    next: int,
    vacant: Pair<K, V>,
)
    requires
        sliding(s, start, e, hole, seen),
        seen + 1 < s.len(),
        0 <= next < s.len(),
        gap(start, next, s.len() as int) == seen + 1,
        s[next].is_occupied,
        probe_path(s, next, hole),
        !vacant.is_occupied,
    ensures
        sliding(s.update(next, vacant).update(hole, s[next]), start, e, next, seen + 1),
        entries(s.update(next, vacant).update(hole, s[next])) == entries(s),
{
    let n = s.len() as int;
    let t = s.update(next, vacant).update(hole, s[next]);
    let from = home::<K>(s[next].key@, n);
    lemma_home_in_range::<K>(s[next].key@, n);
    lemma_entries_move(s, hole, next, vacant);
    assert(!probe_path(s, next, e));
    lemma_ring_passed_stay_clear(n, start, e, hole, next, from, hole, from);
    assert(is_seam(t, e)) by {
        assert forall|q: int| 0 <= q < n && t[q].is_occupied implies !#[trigger] probe_path(
            t,
            q,
            e,
        ) by {
            if q != hole {
                assert(!probe_path(s, q, e));
            }
        }
    }
    assert(paths_filled_but(t, next)) by {
        assert forall|q: int, x: int|
            0 <= q < n && 0 <= x < n && t[q].is_occupied && #[trigger] probe_path(
                t,
                q,
                x,
            ) implies x == next || t[x].is_occupied by {
            if q == hole {
                assert(probe_path(s, next, x));
            } else {
                assert(probe_path(s, q, x));
            }
        }
    }
    assert forall|q: int|
        0 <= q < n && t[q].is_occupied && gap(start, q, n) <= seen + 1 implies !#[trigger] probe_path(
        t,
        q,
        next,
    ) by {
        if q != hole {
            let from_q = home::<K>(s[q].key@, n);
            lemma_home_in_range::<K>(s[q].key@, n);
            assert(!probe_path(s, q, e));
            lemma_ring_passed_stay_clear(n, start, e, hole, next, from, q, from_q);
        }
    }
}

/// The walk has come to a free slot or has gone round the ring: no path
/// passes through the hole any more, and the ring is well laid out.
pub proof fn lemma_slide_end<K: HashIt, V>(
    s: Seq<Pair<K, V>>,
    start: int,
    e: int,
    hole: int,
    seen: int,
    next: int,
)
    requires
        sliding(s, start, e, hole, seen),
        0 <= next < s.len(),
        seen + 1 < s.len() ==> gap(start, next, s.len() as int) == seen + 1 && !s[next].is_occupied,
    ensures
        well_laid_out(s),
{
    let n = s.len() as int;
    assert(is_seam(s, hole)) by {
        assert forall|p: int| 0 <= p < n && s[p].is_occupied implies !#[trigger] probe_path(
            s,
            p,
            hole,
        ) by {
            if gap(start, p, n) > seen && probe_path(s, p, hole) {
                let from_p = home::<K>(s[p].key@, n);
                lemma_home_in_range::<K>(s[p].key@, n);
                assert(!probe_path(s, p, e));
                lemma_ring_path_runs_on(n, start, e, hole, next, p, from_p);
                assert(probe_path(s, p, next));
            }
        }
    }
    assert forall|p: int, x: int|
        0 <= p < n && 0 <= x < n && s[p].is_occupied && #[trigger] probe_path(
            s,
            p,
            x,
        ) implies s[x].is_occupied by {
        if x == hole {
            assert(!probe_path(s, p, hole));
        }
    }
}

} // verus!
