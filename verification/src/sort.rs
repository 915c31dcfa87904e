//! A stable order by 64-bit keys: which item comes first, second and so on
//! when the items are arranged by ascending key and items of equal keys keep
//! the order in which they were given.

use vstd::prelude::*;

verus! {

/// Where the key `x` goes in the arrangement `order`: behind every item whose
/// key is not greater.
pub open spec fn place(keys: Seq<u64>, order: Seq<int>, x: u64) -> int
    decreases order.len(),
{
    if order.len() == 0 {
        0
    } else if keys[order.last()] > x {
        place(keys, order.drop_last(), x)
    } else {
        order.len() as int
    }
}

/// The positions of `keys`, arranged by ascending key; positions of equal
/// keys stand in ascending order.
pub open spec fn sorted_order(keys: Seq<u64>) -> Seq<int>
    decreases keys.len(),
{
    if keys.len() == 0 {
        Seq::empty()
    } else {
        let before = sorted_order(keys.drop_last());
        before.insert(place(keys, before, keys.last()), keys.len() - 1)
    }
}

/// Whether the keys never descend.
pub open spec fn non_descending(keys: Seq<u64>) -> bool {
    forall|i: int, j: int| 0 <= i < j < keys.len() ==> keys[i] <= keys[j]
}

/// The positions as mathematical integers.
pub open spec fn positions(order: Seq<usize>) -> Seq<int> {
    order.map_values(|i: usize| i as int)
}

/// The place lies within the arrangement.
pub proof fn lemma_place_bounds(keys: Seq<u64>, order: Seq<int>, x: u64)
    ensures
        0 <= place(keys, order, x) <= order.len(),
    decreases order.len(),
{
    if order.len() > 0 {
        lemma_place_bounds(keys, order.drop_last(), x);
    }
}

/// The arrangement has one entry for each key, and each entry is a position.
pub proof fn lemma_sorted_order_len(keys: Seq<u64>)
    ensures
        sorted_order(keys).len() == keys.len(),
        forall|t: int| 0 <= t < keys.len() ==> 0 <= #[trigger] sorted_order(keys)[t] < keys.len(),
    decreases keys.len(),
{
    if keys.len() > 0 {
        let before = sorted_order(keys.drop_last());
        lemma_sorted_order_len(keys.drop_last());
        lemma_place_bounds(keys, before, keys.last());
    }
}

/// Behind the place stand greater keys only, and directly before it none.
pub proof fn lemma_place_divides(keys: Seq<u64>, order: Seq<int>, x: u64)
    ensures
        forall|u: int| place(keys, order, x) <= u < order.len() ==> keys[#[trigger] order[u]] > x,
        place(keys, order, x) > 0 ==> keys[order[place(keys, order, x) - 1]] <= x,
    decreases order.len(),
{
    if order.len() > 0 && keys[order.last()] > x {
        lemma_place_divides(keys, order.drop_last(), x);
        lemma_place_bounds(keys, order.drop_last(), x);
        let p = place(keys, order, x);
        assert forall|u: int| p <= u < order.len() implies keys[#[trigger] order[u]] > x by {
            if u < order.len() - 1 {
                assert(order.drop_last()[u] == order[u]);
            }
        }
        if p > 0 {
            assert(order.drop_last()[p - 1] == order[p - 1]);
        }
    }
}

/// The arrangement is in order: along it the keys never descend.
pub proof fn law_sorted_order_ascends(keys: Seq<u64>, s: int, t: int)
    requires
        0 <= s < t < keys.len(),
    ensures
        keys[sorted_order(keys)[s]] <= keys[sorted_order(keys)[t]],
    decreases keys.len(),
{
    let shorter = keys.drop_last();
    let before = sorted_order(shorter);
    let x = keys.last();
    let p = place(keys, before, x);
    let n = keys.len() as int;
    lemma_sorted_order_len(shorter);
    lemma_sorted_order_len(keys);
    lemma_place_bounds(keys, before, x);
    lemma_place_divides(keys, before, x);
    let now = sorted_order(keys);
    assert(now == before.insert(p, n - 1));
    let bs = if s < p { s } else { s - 1 };
    let bt = if t < p { t } else { t - 1 };
    if s != p && t != p {
        law_sorted_order_ascends(shorter, bs, bt);
        assert(shorter[before[bs]] == keys[before[bs]]);
        assert(shorter[before[bt]] == keys[before[bt]]);
    } else if s == p {
        assert(now[t] == before[t - 1]);
    } else {
        assert(now[s] == before[s]);
        if s < p - 1 {
            law_sorted_order_ascends(shorter, s, p - 1);
            assert(shorter[before[s]] == keys[before[s]]);
            assert(shorter[before[p - 1]] == keys[before[p - 1]]);
        }
    }
}

/// The arrangement leaves no position out.
pub proof fn law_sorted_order_covers(keys: Seq<u64>, i: int)
    requires
        0 <= i < keys.len(),
    ensures
        exists|t: int| 0 <= t < keys.len() && #[trigger] sorted_order(keys)[t] == i,
    decreases keys.len(),
{
    let shorter = keys.drop_last();
    let before = sorted_order(shorter);
    let p = place(keys, before, keys.last());
    lemma_sorted_order_len(shorter);
    lemma_place_bounds(keys, before, keys.last());
    let now = sorted_order(keys);
    if i == keys.len() - 1 {
        assert(now[p] == i);
    } else {
        law_sorted_order_covers(shorter, i);
        let t = choose|t: int| 0 <= t < shorter.len() && #[trigger] before[t] == i;
        if t < p {
            assert(now[t] == i);
        } else {
            assert(now[t + 1] == i);
        }
    }
}

/// Keys that never descend are in order already: each stays where it is.
pub proof fn lemma_sorted_order_identity(keys: Seq<u64>)
    requires
        non_descending(keys),
    ensures
        sorted_order(keys) == Seq::new(keys.len(), |i: int| i),
    decreases keys.len(),
{
    if keys.len() > 0 {
        let shorter = keys.drop_last();
        lemma_sorted_order_identity(shorter);
        let before = sorted_order(shorter);
        if before.len() > 0 {
            assert(before.last() == keys.len() - 2);
            assert(keys[keys.len() - 2] <= keys[keys.len() - 1]);
        }
        assert(sorted_order(keys) =~= Seq::new(keys.len(), |i: int| i));
    } else {
        assert(sorted_order(keys) =~= Seq::new(keys.len(), |i: int| i));
    }
}

/// The positions of `keys` in stable ascending order of the keys.
pub fn sort_order(keys: &Vec<u64>) -> (order: Vec<usize>)
    ensures
        positions(order@) == sorted_order(keys@),
        order@.len() == keys@.len(),
        forall|t: int| 0 <= t < order@.len() ==> #[trigger] order@[t] < keys@.len(),
{
    let n: usize = keys.len();
    let mut order: Vec<usize> = Vec::new();
    let mut i: usize = 0;
    assert(keys@.take(0) =~= Seq::<u64>::empty());
    assert(positions(order@) =~= sorted_order(keys@.take(0)));
    while i < n
        invariant
            i <= n,
            n == keys@.len(),
            order@.len() == i,
            forall|t: int| 0 <= t < order@.len() ==> #[trigger] order@[t] < i,
            positions(order@) == sorted_order(keys@.take(i as int)),
        decreases n - i,
    {
        let x: u64 = keys[i];
        let ghost shorter = keys@.take(i as int);
        let ghost longer = keys@.take(i + 1);
        let ghost before = positions(order@);
        let mut p: usize = order.len();
        proof {
            assert(longer.drop_last() =~= shorter);
            assert(before.take(p as int) =~= before);
        }
        while p > 0 && keys[order[p - 1]] > x
            invariant
                p <= order@.len(),
                i < n,
                n == keys@.len(),
                x == keys@[i as int],
                before == positions(order@),
                longer == keys@.take(i + 1),
                forall|t: int| 0 <= t < order@.len() ==> #[trigger] order@[t] < i,
                place(longer, before, x) == place(longer, before.take(p as int), x),
            decreases p,
        {
            proof {
                let cut = before.take(p as int);
                assert(cut.last() == order@[p - 1] as int);
                assert(longer[cut.last()] == keys@[order@[p - 1] as int]);
                assert(cut.drop_last() =~= before.take(p - 1));
            }
            p = p - 1;
        }
        proof {
            let cut = before.take(p as int);
            if p > 0 {
                assert(cut.last() == order@[p - 1] as int);
                assert(longer[cut.last()] == keys@[order@[p - 1] as int]);
            }
            assert(place(longer, before, x) == p);
        }
        order.insert(p, i);
        proof {
            assert(positions(order@) =~= before.insert(p as int, i as int));
        }
        i = i + 1;
    }
    assert(keys@.take(n as int) =~= keys@);
    order
}

} // verus!
