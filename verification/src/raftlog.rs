//! Lookups in a replicated log of which only the marks of the entries are
//! known: the index and the term of each, in the order of the log.

use vstd::prelude::*;

verus! {

/// Whether the entry at `p` has an index in `[low, high)`.
pub open spec fn in_range(marks: Seq<(u64, u64)>, p: int, low: u64, high: u64) -> bool {
    0 <= p < marks.len() && low <= marks[p].0 < high
}

/// The positions of the entries whose index lies in `[low, high)`, in the
/// order of the log.
pub fn positions_between(marks: &Vec<(u64, u64)>, low: u64, high: u64) -> (found: Vec<usize>)
    ensures
        forall|t: int| 0 <= t < found@.len() ==> in_range(marks@, #[trigger] found@[t] as int, low, high),
        forall|s: int, t: int| 0 <= s < t < found@.len() ==> found@[s] < found@[t],
        forall|p: int|
            in_range(marks@, p, low, high) ==> exists|t: int|
                0 <= t < found@.len() && #[trigger] found@[t] == p,
{
    let n: usize = marks.len();
    let mut found: Vec<usize> = Vec::new();
    let mut i: usize = 0;
    while i < n
        invariant
            i <= n,
            n == marks@.len(),
            forall|t: int|
                0 <= t < found@.len() ==> in_range(marks@, #[trigger] found@[t] as int, low, high)
                    && found@[t] < i,
            forall|s: int, t: int| 0 <= s < t < found@.len() ==> found@[s] < found@[t],
            forall|p: int|
                in_range(marks@, p, low, high) && p < i ==> exists|t: int|
                    0 <= t < found@.len() && #[trigger] found@[t] == p,
        decreases n - i,
    {
        let ghost before = found@;
        if low <= marks[i].0 && marks[i].0 < high {
            found.push(i);
        }
        proof {
            assert forall|p: int| in_range(marks@, p, low, high) && p < i + 1 implies exists|t: int|
                0 <= t < found@.len() && #[trigger] found@[t] == p by {
                if p < i {
                    let t = choose|t: int| 0 <= t < before.len() && #[trigger] before[t] == p;
                    assert(found@[t] == p);
                } else {
                    assert(found@[before.len() as int] == p);
                }
            }
        }
        i = i + 1;
    }
    found
}

/// The term of the first entry with the index `idx`, if there is one.
pub fn term_of(marks: &Vec<(u64, u64)>, idx: u64) -> (term: Option<u64>)
    ensures
        match term {
            Some(t) => exists|p: int|
                0 <= p < marks@.len() && (#[trigger] marks@[p]).0 == idx && marks@[p].1 == t
                    && forall|q: int| 0 <= q < p ==> (#[trigger] marks@[q]).0 != idx,
            None => forall|p: int| 0 <= p < marks@.len() ==> (#[trigger] marks@[p]).0 != idx,
        },
{
    let n: usize = marks.len();
    let mut i: usize = 0;
    while i < n
        invariant
            i <= n,
            n == marks@.len(),
            forall|q: int| 0 <= q < i ==> (#[trigger] marks@[q]).0 != idx,
        decreases n - i,
    {
        if marks[i].0 == idx {
            return Some(marks[i].1);
        }
        i = i + 1;
    }
    None
}

/// The index after that of the first entry: the first index that the log
/// can serve. None where the log is empty or no index follows.
pub fn first_index_after(marks: &Vec<(u64, u64)>) -> (first: Option<u64>)
    ensures
        first == (if marks@.len() > 0 && marks@[0].0 < u64::MAX {
            Some((marks@[0].0 + 1) as u64)
        } else {
            None
        }),
{
    if marks.len() == 0 || marks[0].0 == u64::MAX {
        None
    } else {
        Some(marks[0].0 + 1)
    }
}

/// The index of the last entry, and 0 for the empty log.
pub fn last_index_of(marks: &Vec<(u64, u64)>) -> (last: u64)
    ensures
        last == (if marks@.len() > 0 {
            marks@[marks@.len() - 1].0
        } else {
            0
        }),
{
    if marks.len() == 0 {
        0
    } else {
        marks[marks.len() - 1].0
    }
}

} // verus!
