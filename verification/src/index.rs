//! An ordered map from keys to file offsets: the index that a table reader
//! keeps in memory. The entries stand in ascending order of their keys, so a
//! key is found by halving.

use vstd::prelude::*;
use crate::order::bytes_eq;
use crate::order::bytes_lt;
use crate::order::lemma_lex_irreflexive;
use crate::order::lemma_lex_total;
use crate::order::lemma_lex_transitive;
use crate::order::lex_lt;

verus! {

/// An index from keys to offsets.
pub struct KeyIndex {
    entries: Vec<(Vec<u8>, u64)>,
}

/// Whether some entry has the key `k`.
pub closed spec fn has_key(entries: Seq<(Vec<u8>, u64)>, k: Seq<u8>) -> bool {
    exists|i: int| 0 <= i < entries.len() && (#[trigger] entries[i]).0@ == k
}

/// The place of an entry with the key `k`.
pub closed spec fn place_of(entries: Seq<(Vec<u8>, u64)>, k: Seq<u8>) -> int {
    choose|i: int| 0 <= i < entries.len() && (#[trigger] entries[i]).0@ == k
}

/// Whether the keys of the entries ascend strictly.
pub closed spec fn sorted(entries: Seq<(Vec<u8>, u64)>) -> bool {
    forall|i: int, j: int|
        0 <= i < j < entries.len() ==> lex_lt((#[trigger] entries[i]).0@, (#[trigger] entries[j]).0@)
}

/// In sorted entries a key stands at one place only.
proof fn lemma_place(entries: Seq<(Vec<u8>, u64)>, i: int)
    requires
        sorted(entries),
        0 <= i < entries.len(),
    ensures
        has_key(entries, entries[i].0@),
        place_of(entries, entries[i].0@) == i,
{
    let k = entries[i].0@;
    let j = place_of(entries, k);
    lemma_lex_irreflexive(k);
    if j < i {
        assert(lex_lt(entries[j].0@, entries[i].0@));
    } else if i < j {
        assert(lex_lt(entries[i].0@, entries[j].0@));
    }
}

impl View for KeyIndex {
    type V = Map<Seq<u8>, u64>;

    closed spec fn view(&self) -> Map<Seq<u8>, u64> {
        Map::new(
            |k: Seq<u8>| has_key(self.entries@, k),
            |k: Seq<u8>| self.entries@[place_of(self.entries@, k)].1,
        )
    }
}

impl KeyIndex {
    /// The keys of the entries ascend strictly.
    pub closed spec fn wf(&self) -> bool {
        sorted(self.entries@)
    }

    /// The empty index.
    pub fn new() -> (index: KeyIndex)
        ensures
            index.wf(),
            index@ == Map::<Seq<u8>, u64>::empty(),
    {
        let index = KeyIndex { entries: Vec::new() };
        assert(index@ =~= Map::<Seq<u8>, u64>::empty());
        index
    }

    /// The first place whose key does not come before `key`, and whether the
    /// key at that place is `key`.
    fn search(&self, key: &[u8]) -> (r: (bool, usize))
        requires
            self.wf(),
        ensures
            r.1 <= self.entries@.len(),
            forall|i: int| 0 <= i < r.1 ==> lex_lt((#[trigger] self.entries@[i]).0@, key@),
            forall|i: int|
                r.1 <= i < self.entries@.len() ==> !lex_lt((#[trigger] self.entries@[i]).0@, key@),
            r.0 == (r.1 < self.entries@.len() && self.entries@[r.1 as int].0@ == key@),
            r.0 == has_key(self.entries@, key@),
    {
        let mut lo: usize = 0;
        let mut hi: usize = self.entries.len();
        while lo < hi
            invariant
                self.wf(),
                lo <= hi <= self.entries@.len(),
                forall|i: int| 0 <= i < lo ==> lex_lt((#[trigger] self.entries@[i]).0@, key@),
                forall|i: int|
                    hi <= i < self.entries@.len() ==> !lex_lt(
                        (#[trigger] self.entries@[i]).0@,
                        key@,
                    ),
            decreases hi - lo,
        {
            let mid: usize = lo + (hi - lo) / 2;
            if bytes_lt(self.entries[mid].0.as_slice(), key) {
                proof {
                    assert forall|i: int| 0 <= i < mid + 1 implies lex_lt(
                        (#[trigger] self.entries@[i]).0@,
                        key@,
                    ) by {
                        if i < mid {
                            assert(lex_lt(self.entries@[i].0@, self.entries@[mid as int].0@));
                            lemma_lex_transitive(
                                self.entries@[i].0@,
                                self.entries@[mid as int].0@,
                                key@,
                            );
                        }
                    }
                }
                lo = mid + 1;
            } else {
                proof {
                    assert forall|i: int| mid <= i < self.entries@.len() implies !lex_lt(
                        (#[trigger] self.entries@[i]).0@,
                        key@,
                    ) by {
                        if i > mid && lex_lt(self.entries@[i].0@, key@) {
                            assert(lex_lt(self.entries@[mid as int].0@, self.entries@[i].0@));
                            lemma_lex_transitive(
                                self.entries@[mid as int].0@,
                                self.entries@[i].0@,
                                key@,
                            );
                        }
                    }
                }
                hi = mid;
            }
        }
        let found: bool = lo < self.entries.len() && bytes_eq(self.entries[lo].0.as_slice(), key);
        proof {
            lemma_lex_irreflexive(key@);
            if has_key(self.entries@, key@) {
                let i = place_of(self.entries@, key@);
                if i > lo {
                    assert(lex_lt(self.entries@[lo as int].0@, self.entries@[i].0@));
                }
                assert(i == lo);
            }
        }
        (found, lo)
    }

    /// The offset under `key`, if the index has the key.
    pub fn get(&self, key: &[u8]) -> (r: Option<u64>)
        requires
            self.wf(),
        ensures
            r == (if self@.dom().contains(key@) {
                Some(self@[key@])
            } else {
                None
            }),
    {
        let (found, pos) = self.search(key);
        if found {
            proof {
                lemma_place(self.entries@, pos as int);
            }
            Some(self.entries[pos].1)
        } else {
            None
        }
    }

    /// Sets the offset under `key`, in place of the one that the key had.
    pub fn insert(&mut self, key: Vec<u8>, offset: u64)
        requires
            old(self).wf(),
        ensures
            final(self).wf(),
            final(self)@ == old(self)@.insert(key@, offset),
    {
        let (found, pos) = self.search(key.as_slice());
        let ghost before = self.entries@;
        if found {
            self.entries[pos].1 = offset;
            proof {
                let after = self.entries@;
                assert forall|i: int| 0 <= i < after.len() implies (#[trigger] after[i]).0@
                    == before[i].0@ by {}
                assert(sorted(after)) by {
                    assert forall|i: int, j: int| 0 <= i < j < after.len() implies lex_lt(
                        (#[trigger] after[i]).0@,
                        (#[trigger] after[j]).0@,
                    ) by {
                        assert(lex_lt(before[i].0@, before[j].0@));
                    }
                }
                assert forall|k: Seq<u8>| has_key(after, k) == has_key(before, k) by {
                    if has_key(after, k) {
                        let i = place_of(after, k);
                        assert(before[i].0@ == k);
                    }
                    if has_key(before, k) {
                        let i = place_of(before, k);
                        assert(after[i].0@ == k);
                    }
                }
                assert forall|k: Seq<u8>| has_key(after, k) implies after[place_of(after, k)].1 == (if k
                    == key@ {
                    offset
                } else {
                    before[place_of(before, k)].1
                }) by {
                    let i = place_of(after, k);
                    lemma_place(after, i);
                    assert(before[i].0@ == k);
                    lemma_place(before, i);
                    if k == key@ {
                        lemma_place(before, pos as int);
                    } else {
                        assert(i != pos);
                    }
                }
                assert(has_key(before, key@));
                assert(self@ =~= old(self)@.insert(key@, offset));
            }
        } else {
            self.entries.insert(pos, (key, offset));
            proof {
                let after = self.entries@;
                lemma_lex_irreflexive(key@);
                assert forall|i: int| pos <= i < before.len() implies lex_lt(
                    key@,
                    (#[trigger] before[i]).0@,
                ) by {
                    if before[i].0@ == key@ {
                        assert(has_key(before, key@));
                    }
                    lemma_lex_total(key@, before[i].0@);
                }
                assert(sorted(after)) by {
                    assert forall|i: int, j: int| 0 <= i < j < after.len() implies lex_lt(
                        (#[trigger] after[i]).0@,
                        (#[trigger] after[j]).0@,
                    ) by {
                        let bi = if i < pos { i } else { i - 1 };
                        let bj = if j < pos { j } else { j - 1 };
                        if i != pos && j != pos {
                            assert(after[i] == before[bi]);
                            assert(after[j] == before[bj]);
                            assert(lex_lt(before[bi].0@, before[bj].0@));
                        } else if i == pos {
                            assert(after[j] == before[bj]);
                        } else {
                            assert(after[i] == before[bi]);
                        }
                    }
                }
                assert(after[pos as int].0@ == key@);
                assert forall|k: Seq<u8>| has_key(after, k) == (k == key@ || has_key(before, k)) by {
                    if has_key(after, k) {
                        let i = place_of(after, k);
                        if i != pos {
                            let bi = if i < pos { i } else { i - 1 };
                            assert(after[i] == before[bi]);
                            assert(before[bi].0@ == k);
                        }
                    }
                    if has_key(before, k) {
                        let i = place_of(before, k);
                        let ai = if i < pos { i } else { i + 1 };
                        assert(after[ai] == before[i]);
                        assert(after[ai].0@ == k);
                    }
                }
                assert forall|k: Seq<u8>| has_key(after, k) implies after[place_of(after, k)].1 == (if k
                    == key@ {
                    offset
                } else {
                    before[place_of(before, k)].1
                }) by {
                    let i = place_of(after, k);
                    lemma_place(after, i);
                    if k == key@ {
                        lemma_place(after, pos as int);
                    } else {
                        let bi = if i < pos { i } else { i - 1 };
                        assert(i != pos);
                        assert(after[i] == before[bi]);
                        lemma_place(before, bi);
                    }
                }
                assert(self@ =~= old(self)@.insert(key@, offset));
            }
        }
    }
}

} // verus!
