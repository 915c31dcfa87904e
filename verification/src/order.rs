//! The bytewise order of keys: a key comes before every key that extends it,
//! and otherwise the first byte in which two keys differ decides.

use vstd::prelude::*;

verus! {

/// Whether `a` comes strictly before `b` in bytewise order.
pub open spec fn lex_lt(a: Seq<u8>, b: Seq<u8>) -> bool
    decreases a.len(),
{
    if b.len() == 0 {
        false
    } else if a.len() == 0 {
        true
    } else if a[0] != b[0] {
        a[0] < b[0]
    } else {
        lex_lt(a.skip(1), b.skip(1))
    }
}

/// Whether the keys of `s` ascend strictly.
pub open spec fn ascending(s: Seq<Seq<u8>>) -> bool {
    forall|i: int, j: int| 0 <= i < j < s.len() ==> lex_lt(#[trigger] s[i], #[trigger] s[j])
}

/// The contents of a vector of key–value pairs.
pub open spec fn entries_view(v: Seq<(Vec<u8>, Vec<u8>)>) -> Seq<(Seq<u8>, Seq<u8>)> {
    v.map_values(|e: (Vec<u8>, Vec<u8>)| (e.0@, e.1@))
}

/// Whether `s` lists `m`: its keys ascend strictly, each of its pairs is a
/// pair of `m`, and every key of `m` occurs in it. A map has one listing.
pub open spec fn is_listing(s: Seq<(Seq<u8>, Seq<u8>)>, m: Map<Seq<u8>, Seq<u8>>) -> bool {
    &&& forall|i: int, j: int| 0 <= i < j < s.len() ==> lex_lt(#[trigger] s[i].0, #[trigger] s[j].0)
    &&& forall|i: int| 0 <= i < s.len() ==> m.dom().contains(#[trigger] s[i].0) && m[s[i].0] == s[i].1
    &&& forall|k: Seq<u8>| #[trigger] m.dom().contains(k) ==> exists|i: int| 0 <= i < s.len() && #[trigger] s[i].0 == k
}

/// The listing of `m`.
pub open spec fn listing_of(m: Map<Seq<u8>, Seq<u8>>) -> Seq<(Seq<u8>, Seq<u8>)> {
    choose|s: Seq<(Seq<u8>, Seq<u8>)>| is_listing(s, m)
}

/// The bytes of the keys and values of the pairs, added up.
pub open spec fn pairs_size(s: Seq<(Seq<u8>, Seq<u8>)>) -> nat
    decreases s.len(),
{
    if s.len() == 0 {
        0
    } else {
        pairs_size(s.drop_last()) + s.last().0.len() + s.last().1.len()
    }
}

/// The bytes of the keys and values of a map, added up.
pub open spec fn map_size(m: Map<Seq<u8>, Seq<u8>>) -> nat {
    pairs_size(listing_of(m))
}

/// Two listings of one map agree on their first `n` pairs.
proof fn lemma_listing_agree(
    a: Seq<(Seq<u8>, Seq<u8>)>,
    b: Seq<(Seq<u8>, Seq<u8>)>,
    m: Map<Seq<u8>, Seq<u8>>,
    n: int,
)
    requires
        is_listing(a, m),
        is_listing(b, m),
        0 <= n <= a.len(),
    ensures
        n <= b.len(),
        forall|i: int| 0 <= i < n ==> a[i] == b[i],
    decreases n,
{
    if n > 0 {
        lemma_listing_agree(a, b, m, n - 1);
        let i = n - 1;
        let k = a[i].0;
        assert(m.dom().contains(k));
        let p = choose|p: int| 0 <= p < b.len() && #[trigger] b[p].0 == k;
        lemma_lex_irreflexive(k);
        if p < i {
            assert(a[p] == b[p]);
            assert(lex_lt(a[p].0, a[i].0));
        }
        let k2 = b[i].0;
        assert(m.dom().contains(k2));
        let q = choose|q: int| 0 <= q < a.len() && #[trigger] a[q].0 == k2;
        lemma_lex_irreflexive(k2);
        if q < i {
            assert(a[q] == b[q]);
            assert(lex_lt(b[q].0, b[i].0));
        }
        if p > i {
            assert(lex_lt(b[i].0, b[p].0));
            if q > i {
                assert(lex_lt(a[i].0, a[q].0));
                lemma_lex_asymmetric(k, k2);
            }
        }
        assert(a[i].1 == m[k]);
        assert(b[i].1 == m[k]);
        assert(a[i] == b[i]);
    }
}

/// A map has one listing only.
pub proof fn lemma_listing_unique(
    a: Seq<(Seq<u8>, Seq<u8>)>,
    b: Seq<(Seq<u8>, Seq<u8>)>,
    m: Map<Seq<u8>, Seq<u8>>,
)
    requires
        is_listing(a, m),
        is_listing(b, m),
    ensures
        a == b,
{
    lemma_listing_agree(a, b, m, a.len() as int);
    lemma_listing_agree(b, a, m, b.len() as int);
    assert(a =~= b);
}

/// Siblings in the trie stand in the order of their last bytes.
pub proof fn lemma_sibling_order(pre: Seq<u8>, a: u8, b: u8)
    requires
        a < b,
    ensures
        lex_lt(pre.push(a), pre.push(b)),
        !pre.push(a).is_prefix_of(pre.push(b)),
{
    lemma_lex_common_prefix(pre, seq![a], seq![b]);
    assert(pre + seq![a] =~= pre.push(a));
    assert(pre + seq![b] =~= pre.push(b));
    assert(lex_lt(seq![a], seq![b]));
    if pre.push(a).is_prefix_of(pre.push(b)) {
        assert(pre.push(b).subrange(0, (pre.len() + 1) as int)[pre.len() as int] == b);
        assert(pre.push(a)[pre.len() as int] == a);
    }
}

/// No key comes before itself.
pub proof fn lemma_lex_irreflexive(a: Seq<u8>)
    ensures
        !lex_lt(a, a),
    decreases a.len(),
{
    if a.len() > 0 {
        lemma_lex_irreflexive(a.skip(1));
    }
}

/// The order is transitive.
pub proof fn lemma_lex_transitive(a: Seq<u8>, b: Seq<u8>, c: Seq<u8>)
    requires
        lex_lt(a, b),
        lex_lt(b, c),
    ensures
        lex_lt(a, c),
    decreases a.len(),
{
    if a.len() > 0 && a[0] == b[0] && b[0] == c[0] {
        lemma_lex_transitive(a.skip(1), b.skip(1), c.skip(1));
    }
}

/// Of two different keys one comes before the other.
pub proof fn lemma_lex_total(a: Seq<u8>, b: Seq<u8>)
    requires
        a != b,
    ensures
        lex_lt(a, b) || lex_lt(b, a),
    decreases a.len(),
{
    if a.len() > 0 && b.len() > 0 && a[0] == b[0] {
        if a.skip(1) == b.skip(1) {
            assert(a =~= seq![a[0]] + a.skip(1));
            assert(b =~= seq![b[0]] + b.skip(1));
        }
        lemma_lex_total(a.skip(1), b.skip(1));
    } else if a.len() == 0 && b.len() == 0 {
        assert(a =~= b);
    }
}

/// A key never comes both before and after another.
pub proof fn lemma_lex_asymmetric(a: Seq<u8>, b: Seq<u8>)
    requires
        lex_lt(a, b),
    ensures
        !lex_lt(b, a),
{
    if lex_lt(b, a) {
        lemma_lex_transitive(a, b, a);
        lemma_lex_irreflexive(a);
    }
}

/// A key comes before each of its proper extensions.
pub proof fn lemma_lex_extension(p: Seq<u8>, s: Seq<u8>)
    requires
        s.len() > 0,
    ensures
        lex_lt(p, p + s),
    decreases p.len(),
{
    if p.len() > 0 {
        assert((p + s).skip(1) =~= p.skip(1) + s);
        lemma_lex_extension(p.skip(1), s);
    }
}

/// A common prefix does not change the order of two keys.
pub proof fn lemma_lex_common_prefix(p: Seq<u8>, a: Seq<u8>, b: Seq<u8>)
    ensures
        lex_lt(p + a, p + b) == lex_lt(a, b),
    decreases p.len(),
{
    if p.len() > 0 {
        assert((p + a).skip(1) =~= p.skip(1) + a);
        assert((p + b).skip(1) =~= p.skip(1) + b);
        lemma_lex_common_prefix(p.skip(1), a, b);
    } else {
        assert(p + a =~= a);
        assert(p + b =~= b);
    }
}

/// Where `p` comes before `q` without being a prefix of it, the two part at
/// some byte, so every extension of `p` comes before `q` too and is no
/// prefix of it.
pub proof fn lemma_lex_branch(p: Seq<u8>, e: Seq<u8>, q: Seq<u8>)
    requires
        lex_lt(p, q),
        !p.is_prefix_of(q),
    ensures
        lex_lt(p + e, q),
        !(p + e).is_prefix_of(q),
    decreases p.len(),
{
    if p.len() == 0 {
        assert(p =~= q.subrange(0, 0));
    } else if p[0] != q[0] {
        assert((p + e)[0] == p[0]);
        if (p + e).is_prefix_of(q) {
            assert(q.subrange(0, (p + e).len() as int)[0] == q[0]);
        }
    } else {
        assert((p + e).skip(1) =~= p.skip(1) + e);
        if p.skip(1).is_prefix_of(q.skip(1)) {
            assert(p =~= q.subrange(0, p.len() as int)) by {
                assert forall|i: int| 0 <= i < p.len() implies p[i] == q[i] by {
                    if i > 0 {
                        assert(p.skip(1)[i - 1] == q.skip(1).subrange(0, p.len() - 1)[i - 1]);
                    }
                }
            }
        }
        lemma_lex_branch(p.skip(1), e, q.skip(1));
        if (p + e).is_prefix_of(q) {
            let n = (p + e).len() as int;
            assert((p.skip(1) + e) =~= q.skip(1).subrange(0, n - 1)) by {
                assert forall|i: int| 0 <= i < n - 1 implies (p.skip(1) + e)[i] == q.skip(1)[i] by {
                    assert((p + e)[i + 1] == q.subrange(0, n)[i + 1]);
                }
            }
        }
    }
}

/// Whether `a` comes strictly before `b` in bytewise order.
pub fn bytes_lt(a: &[u8], b: &[u8]) -> (r: bool)
    ensures
        r == lex_lt(a@, b@),
{
    let n: usize = a.len();
    let m: usize = b.len();
    let mut i: usize = 0;
    assert(a@.skip(0) =~= a@);
    assert(b@.skip(0) =~= b@);
    while i < n && i < m
        invariant
            i <= n,
            i <= m,
            n == a@.len(),
            m == b@.len(),
            lex_lt(a@, b@) == lex_lt(a@.skip(i as int), b@.skip(i as int)),
        decreases n - i,
    {
        if a[i] != b[i] {
            return a[i] < b[i];
        }
        assert(a@.skip(i as int).skip(1) =~= a@.skip(i + 1));
        assert(b@.skip(i as int).skip(1) =~= b@.skip(i + 1));
        i = i + 1;
    }
    i < m
}

/// Whether `a` and `b` hold the same bytes.
pub fn bytes_eq(a: &[u8], b: &[u8]) -> (r: bool)
    ensures
        r == (a@ == b@),
{
    let n: usize = a.len();
    if n != b.len() {
        return false;
    }
    let mut i: usize = 0;
    while i < n
        invariant
            i <= n,
            n == a@.len(),
            n == b@.len(),
            a@.take(i as int) == b@.take(i as int),
        decreases n - i,
    {
        if a[i] != b[i] {
            return false;
        }
        i = i + 1;
        assert(a@.take(i as int) =~= a@.take(i - 1).push(a@[i - 1]));
        assert(b@.take(i as int) =~= b@.take(i - 1).push(b@[i - 1]));
    }
    assert(a@.take(n as int) =~= a@);
    assert(b@.take(n as int) =~= b@);
    true
}

} // verus!
