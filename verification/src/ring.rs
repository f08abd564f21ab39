//! Arithmetic on a ring of slots: slot `n - 1` is followed by slot `0`.

use vstd::prelude::*;

verus! {

/// The number of steps forward from slot `from` to slot `to` on a ring of `n` slots.
pub open spec fn gap(from: int, to: int, n: int) -> int {
    if from <= to {
        to - from
    } else {
        to - from + n
    }
}

/// The slot one step forward of slot `i` on a ring of `n` slots.
pub open spec fn next_slot(i: int, n: int) -> int {
    if i + 1 == n {
        0
    } else {
        i + 1
    }
}

/// Slot `x` is met on the walk forward from `from` before `to` is reached.
pub open spec fn on_the_way(from: int, x: int, to: int, n: int) -> bool {
    gap(from, x, n) < gap(from, to, n)
}

/// Computes [`gap`].
pub(crate) fn ring_gap(from: usize, to: usize, n: usize) -> (steps: usize)
    requires
        from < n,
        to < n,
    ensures
        steps == gap(from as int, to as int, n as int),
{
    if from <= to {
        to - from
    } else {
        n - from + to
    }
}

/// Computes [`next_slot`].
pub(crate) fn ring_next(i: usize, n: usize) -> (next: usize)
    requires
        i < n,
    ensures
        next < n,
        next == next_slot(i as int, n as int),
{
    if i + 1 == n {
        0
    } else {
        i + 1
    }
}

/// Where the walk forward from `start` has a hole behind it that has not
/// passed the seam, and `next` lies further on, an entry that lies before
/// `next` and was not on the way to the seam has `next` not on its path.
pub proof fn lemma_ring_passed_stay_clear(
    n: int,
    start: int,
    e: int,
    hole: int,
    next: int,
    from: int,
    q: int,
    from_q: int,
)
    requires
        0 <= start < n,
        0 <= e < n,
        0 <= hole < n,
        0 <= next < n,
        0 <= from < n,
        0 <= q < n,
        0 <= from_q < n,
        gap(start, hole, n) <= gap(start, e, n),
        gap(start, hole, n) < gap(start, next, n),
        gap(start, q, n) < gap(start, next, n),
        on_the_way(from, hole, next, n),
        !on_the_way(from, e, next, n),
        !on_the_way(from_q, e, q, n),
    ensures
        !on_the_way(from_q, next, q, n),
        gap(start, next, n) <= gap(start, e, n),
{
}

/// Where the hole has not passed the seam and lies on the path of an entry
/// further on, every slot between the hole and that entry lies on its path too.
pub proof fn lemma_ring_path_runs_on(
    n: int,
    start: int,
    e: int,
    hole: int,
    next: int,
    p: int,
    from_p: int,
)
    requires
        0 <= start < n,
        0 <= e < n,
        0 <= hole < n,
        0 <= next < n,
        0 <= p < n,
        0 <= from_p < n,
        gap(start, hole, n) <= gap(start, e, n),
        gap(start, hole, n) < gap(start, next, n),
        gap(start, next, n) < gap(start, p, n),
        on_the_way(from_p, hole, p, n),
        !on_the_way(from_p, e, p, n),
    ensures
        on_the_way(from_p, next, p, n),
{
}

} // verus!
