//! The memtable: a radix-256 trie from keys to values. A key is stored by
//! descending one node for each of its bytes; the value sits at the node that
//! the last byte leads to.

use vstd::prelude::*;
use crate::node::Node;
use crate::node::BRANCH;
use crate::order::entries_view;
use crate::order::is_listing;
use crate::order::lemma_lex_branch;
use crate::order::lemma_lex_extension;
use crate::order::lemma_lex_irreflexive;
use crate::order::lemma_lex_transitive;
use crate::order::lemma_sibling_order;
use crate::order::lex_lt;
use vstd::set_lib::lemma_int_range;
use vstd::set_lib::lemma_len_subset;
use vstd::set_lib::set_int_range;

verus! {

/// What the trie refuses.
#[derive(Debug)]
pub enum RadixError {
    /// The key is empty.
    InvalidKey,
    /// `insert` found a value under the key; `old` is a copy of it.
    AlreadyWritten { old: Vec<u8> },
    /// A replacement lost to another writer. A trie with one owner has no
    /// other writer, so no operation of this crate returns it.
    Failed { failed_garbage_value: Vec<u8> },
}

/// The value under `k` in `m`, if there is one.
pub open spec fn lookup(m: Map<Seq<u8>, Seq<u8>>, k: Seq<u8>) -> Option<Seq<u8>> {
    if m.dom().contains(k) {
        Some(m[k])
    } else {
        None
    }
}

/// The bytes of an optional value.
pub open spec fn opt_bytes(o: Option<Vec<u8>>) -> Option<Seq<u8>> {
    match o {
        Some(v) => Some(v@),
        None => None,
    }
}

/// A trie of keys with their values. Besides the nodes it keeps, for the
/// proofs alone, the key that leads to each node.
pub struct RadixTree {
    nodes: Vec<Node>,
    paths: Ghost<Seq<Seq<u8>>>,
}

/// The node that the bytes of `key` lead to from the root.
pub closed spec fn walk(nodes: Seq<Node>, key: Seq<u8>) -> Option<int>
    decreases key.len(),
{
    if key.len() == 0 {
        Some(0)
    } else {
        match walk(nodes, key.drop_last()) {
            None => None,
            Some(p) => {
                let c = nodes[p].children@[key.last() as int];
                if c == 0 {
                    None
                } else {
                    Some(c as int)
                }
            },
        }
    }
}

/// The value at the node that `key` leads to.
pub closed spec fn stored(nodes: Seq<Node>, key: Seq<u8>) -> Option<Seq<u8>> {
    match walk(nodes, key) {
        None => None,
        Some(n) => nodes[n].spec_value(),
    }
}

/// Every link leads to a node of the arena, and `paths` gives for each node
/// the one key that leads to it.
pub closed spec fn links_ok(nodes: Seq<Node>, paths: Seq<Seq<u8>>) -> bool {
    &&& nodes.len() >= 1
    &&& paths.len() == nodes.len()
    &&& paths[0] == Seq::<u8>::empty()
    &&& nodes[0].value is None
    &&& forall|n: int| 0 <= n < nodes.len() ==> (#[trigger] nodes[n]).children@.len() == BRANCH
    &&& forall|n: int, b: int|
        0 <= n < nodes.len() && 0 <= b < BRANCH && #[trigger] nodes[n].children@[b] != 0
            ==> nodes[n].children@[b] < nodes.len() && paths[nodes[n].children@[b] as int]
            == paths[n].push(b as u8)
}

proof fn lemma_walk_path(nodes: Seq<Node>, paths: Seq<Seq<u8>>, key: Seq<u8>)
    requires
        links_ok(nodes, paths),
        walk(nodes, key) is Some,
    ensures
        0 <= walk(nodes, key).unwrap() < nodes.len(),
        paths[walk(nodes, key).unwrap()] == key,
    decreases key.len(),
{
    if key.len() > 0 {
        let k0 = key.drop_last();
        lemma_walk_path(nodes, paths, k0);
        let p = walk(nodes, k0).unwrap();
        let b = key.last() as int;
        assert(nodes[p].children@[b] != 0);
        assert(k0.push(key.last()) =~= key);
    }
}

proof fn lemma_walk_none(nodes: Seq<Node>, key: Seq<u8>, i: int)
    requires
        0 <= i <= key.len(),
        walk(nodes, key.take(i)) is None,
    ensures
        walk(nodes, key) is None,
    decreases key.len() - i,
{
    if i < key.len() {
        assert(key.take(i + 1).drop_last() =~= key.take(i));
        lemma_walk_none(nodes, key, i + 1);
    } else {
        assert(key.take(i) =~= key);
    }
}

/// A step of the walk: the child under the next byte.
proof fn lemma_walk_step(nodes: Seq<Node>, key: Seq<u8>, i: int)
    requires
        0 <= i < key.len(),
        walk(nodes, key.take(i)) is Some,
    ensures
        walk(nodes, key.take(i + 1)) == (if nodes[walk(nodes, key.take(i)).unwrap()].children@[key[i] as int]
            == 0 {
            None::<int>
        } else {
            Some(nodes[walk(nodes, key.take(i)).unwrap()].children@[key[i] as int] as int)
        }),
{
    assert(key.take(i + 1).drop_last() =~= key.take(i));
    assert(key.take(i + 1).last() == key[i]);
}

/// What a new node under the empty slot `b` of node `p` does to the walk:
/// the key of the new node now leads to it, nothing leads beyond it, and
/// every other key leads where it led before.
proof fn lemma_link(
    nodes: Seq<Node>,
    paths: Seq<Seq<u8>>,
    after: Seq<Node>,
    idx: usize,
    p: int,
    b: u8,
    k: Seq<u8>,
)
    requires
        links_ok(nodes, paths),
        0 <= p < nodes.len(),
        walk(nodes, paths[p]) == Some(p),
        nodes[p].children@[b as int] == 0,
        idx == nodes.len(),
        after.len() == nodes.len() + 1,
        forall|j: int| 0 <= j < nodes.len() && j != p ==> after[j] == nodes[j],
        after[p].value == nodes[p].value,
        after[p].children@ == nodes[p].children@.update(b as int, idx),
        after[nodes.len() as int].value is None,
        after[nodes.len() as int].children@.len() == BRANCH,
        forall|x: int| 0 <= x < BRANCH ==> after[nodes.len() as int].children@[x] == 0,
    ensures
        walk(after, k) == (if paths[p].push(b).is_prefix_of(k) {
            if k == paths[p].push(b) {
                Some(nodes.len() as int)
            } else {
                None
            }
        } else {
            walk(nodes, k)
        }),
    decreases k.len(),
{
    let q = paths[p].push(b);
    if k.len() == 0 {
    } else {
        let k0 = k.drop_last();
        let x = k.last();
        lemma_link(nodes, paths, after, idx, p, b, k0);
        assert(k0.push(x) =~= k);
        if q.is_prefix_of(k0) {
            assert(q.is_prefix_of(k)) by {
                assert(k.subrange(0, q.len() as int) =~= k0.subrange(0, q.len() as int));
            }
            if k0 == q {
                assert(k != q);
            } else {
                assert(k != q);
            }
        } else {
            if walk(nodes, k0) is Some {
                lemma_walk_path(nodes, paths, k0);
                let m = walk(nodes, k0).unwrap();
                if m == p && x == b {
                    assert(k =~= q);
                    assert(q.is_prefix_of(k)) by {
                        assert(k.subrange(0, q.len() as int) =~= q);
                    }
                } else {
                    assert(after[m].children@[x as int] == nodes[m].children@[x as int]);
                    if q.is_prefix_of(k) {
                        assert(q =~= k) by {
                            if q.len() < k.len() {
                                assert(k0.subrange(0, q.len() as int) =~= k.subrange(
                                    0,
                                    q.len() as int,
                                ));
                            }
                        }
                        assert(k0 =~= paths[p]);
                        assert(false);
                    }
                }
            } else {
                if q.is_prefix_of(k) {
                    assert(q =~= k) by {
                        if q.len() < k.len() {
                            assert(k0.subrange(0, q.len() as int) =~= k.subrange(
                                0,
                                q.len() as int,
                            ));
                        }
                    }
                    assert(k0 =~= paths[p]);
                    assert(false);
                }
            }
        }
    }
}

/// A change of values alone leaves every walk as it was.
proof fn lemma_same_links(nodes: Seq<Node>, paths: Seq<Seq<u8>>, after: Seq<Node>, k: Seq<u8>)
    requires
        links_ok(nodes, paths),
        after.len() == nodes.len(),
        forall|j: int| 0 <= j < nodes.len() ==> (#[trigger] after[j]).children@ == nodes[j].children@,
    ensures
        walk(after, k) == walk(nodes, k),
    decreases k.len(),
{
    if k.len() > 0 {
        let k0 = k.drop_last();
        lemma_same_links(nodes, paths, after, k0);
        if walk(nodes, k0) is Some {
            lemma_walk_path(nodes, paths, k0);
        }
    }
}

/// In a trie of the root alone no key but the empty one leads anywhere.
proof fn lemma_walk_root_only(nodes: Seq<Node>, k: Seq<u8>)
    requires
        nodes.len() == 1,
        nodes[0].children@.len() == BRANCH,
        forall|x: int| 0 <= x < BRANCH ==> nodes[0].children@[x] == 0,
    ensures
        walk(nodes, k) == (if k.len() == 0 {
            Some(0int)
        } else {
            None
        }),
    decreases k.len(),
{
    if k.len() > 0 {
        lemma_walk_root_only(nodes, k.drop_last());
    }
}

impl View for RadixTree {
    type V = Map<Seq<u8>, Seq<u8>>;

    closed spec fn view(&self) -> Map<Seq<u8>, Seq<u8>> {
        Map::new(
            |k: Seq<u8>| stored(self.nodes@, k) is Some,
            |k: Seq<u8>| stored(self.nodes@, k).unwrap(),
        )
    }
}

impl RadixTree {
    /// The links of the trie form a tree under the root, and the root, which
    /// the empty key would lead to, holds no value.
    pub closed spec fn wf(&self) -> bool {
        links_ok(self.nodes@, self.paths@)
    }

    /// A trie never holds the empty key.
    pub proof fn lemma_no_empty_key(&self)
        requires
            self.wf(),
        ensures
            !self@.dom().contains(Seq::<u8>::empty()),
    {
        assert(walk(self.nodes@, Seq::<u8>::empty()) == Some(0int));
    }

    /// The empty trie.
    pub fn new() -> (tree: RadixTree)
        ensures
            tree.wf(),
            tree@ == Map::<Seq<u8>, Seq<u8>>::empty(),
    {
        let mut nodes: Vec<Node> = Vec::new();
        nodes.push(Node::new());
        let paths: Ghost<Seq<Seq<u8>>> = Ghost(Seq::<Seq<u8>>::empty().push(Seq::<u8>::empty()));
        let tree = RadixTree { nodes, paths };
        proof {
            assert forall|k: Seq<u8>| stored(tree.nodes@, k) is None by {
                lemma_walk_root_only(tree.nodes@, k);
            }
            assert(tree@ =~= Map::<Seq<u8>, Seq<u8>>::empty());
        }
        tree
    }

    /// Follows `key` from the root as far as the links go.
    fn find(&self, key: &[u8]) -> (r: Option<usize>)
        requires
            self.wf(),
        ensures
            match r {
                Some(c) => c < self.nodes@.len() && walk(self.nodes@, key@) == Some(c as int),
                None => walk(self.nodes@, key@) is None,
            },
    {
        let n: usize = key.len();
        let mut cur: usize = 0;
        let mut i: usize = 0;
        assert(key@.take(0) =~= Seq::<u8>::empty());
        while i < n
            invariant
                self.wf(),
                i <= n,
                n == key@.len(),
                cur < self.nodes@.len(),
                walk(self.nodes@, key@.take(i as int)) == Some(cur as int),
            decreases n - i,
        {
            let next: usize = self.nodes[cur].children[key[i] as usize];
            proof {
                lemma_walk_step(self.nodes@, key@, i as int);
            }
            if next == 0 {
                proof {
                    lemma_walk_none(self.nodes@, key@, i + 1);
                }
                return None;
            }
            proof {
                lemma_walk_path(self.nodes@, self.paths@, key@.take(i + 1));
            }
            cur = next;
            i = i + 1;
        }
        assert(key@.take(n as int) =~= key@);
        Some(cur)
    }

    /// Follows `key` from the root and adds a node wherever a link is missing.
    fn descend(&mut self, key: &[u8]) -> (cur: usize)
        requires
            old(self).wf(),
        ensures
            final(self).wf(),
            cur < final(self).nodes@.len(),
            walk(final(self).nodes@, key@) == Some(cur as int),
            forall|k: Seq<u8>| stored(final(self).nodes@, k) == stored(old(self).nodes@, k),
    {
        let n: usize = key.len();
        let mut cur: usize = 0;
        let mut i: usize = 0;
        assert(key@.take(0) =~= Seq::<u8>::empty());
        while i < n
            invariant
                self.wf(),
                i <= n,
                n == key@.len(),
                cur < self.nodes@.len(),
                walk(self.nodes@, key@.take(i as int)) == Some(cur as int),
                forall|k: Seq<u8>| stored(self.nodes@, k) == stored(old(self).nodes@, k),
            decreases n - i,
        {
            let b: u8 = key[i];
            let next: usize = self.nodes[cur].children[b as usize];
            proof {
                lemma_walk_step(self.nodes@, key@, i as int);
                lemma_walk_path(self.nodes@, self.paths@, key@.take(i as int));
            }
            if next == 0 {
                let idx: usize = self.nodes.len();
                let ghost before = self.nodes@;
                let ghost before_paths = self.paths@;
                self.nodes.push(Node::new());
                self.nodes[cur].children[b as usize] = idx;
                self.paths = Ghost(before_paths.push(before_paths[cur as int].push(b)));
                proof {
                    let after = self.nodes@;
                    let q = before_paths[cur as int].push(b);
                    assert(q =~= key@.take(i + 1));
                    assert(q.is_prefix_of(q)) by {
                        assert(q.subrange(0, q.len() as int) =~= q);
                    }
                    lemma_link(before, before_paths, after, idx, cur as int, b, q);
                    assert forall|k: Seq<u8>| stored(after, k) == stored(before, k) by {
                        lemma_link(before, before_paths, after, idx, cur as int, b, k);
                        if q.is_prefix_of(k) {
                            lemma_walk_none_from(before, before_paths, cur as int, b, k);
                        } else if walk(before, k) is Some {
                            lemma_walk_path(before, before_paths, k);
                        }
                    }
                    assert(links_ok(after, self.paths@)) by {
                        assert forall|m: int, x: int|
                            0 <= m < after.len() && 0 <= x < BRANCH && #[trigger] after[m].children@[x]
                                != 0 implies after[m].children@[x] < after.len()
                            && self.paths@[after[m].children@[x] as int] == self.paths@[m].push(
                            x as u8,
                        ) by {
                            if m == cur && x == b {
                            } else if m < before.len() {
                                assert(after[m].children@[x] == before[m].children@[x]);
                            }
                        }
                    }
                }
                cur = idx;
            } else {
                proof {
                    lemma_walk_path(self.nodes@, self.paths@, key@.take(i + 1));
                }
                cur = next;
            }
            i = i + 1;
        }
        assert(key@.take(n as int) =~= key@);
        cur
    }

    /// Puts `value` into the node `cur`, which `key` leads to, or empties the
    /// node, and hands back what the node held.
    fn replace_value(&mut self, cur: usize, Ghost(key): Ghost<Seq<u8>>, value: Option<Vec<u8>>) -> (prev:
        Option<Vec<u8>>)
        requires
            old(self).wf(),
            key.len() > 0,
            walk(old(self).nodes@, key) == Some(cur as int),
        ensures
            final(self).wf(),
            opt_bytes(prev) == lookup(old(self)@, key),
            final(self)@ == (match value {
                Some(v) => old(self)@.insert(key, v@),
                None => old(self)@.remove(key),
            }),
    {
        let ghost before = self.nodes@;
        proof {
            lemma_walk_path(before, self.paths@, key);
        }
        let ghost given = value;
        let mut slot: Option<Vec<u8>> = value;
        std::mem::swap(&mut self.nodes[cur].value, &mut slot);
        proof {
            let after = self.nodes@;
            assert forall|k: Seq<u8>| stored(after, k) == (if k == key {
                opt_bytes(given)
            } else {
                stored(before, k)
            }) by {
                lemma_same_links(before, self.paths@, after, k);
                if walk(before, k) is Some {
                    lemma_walk_path(before, self.paths@, k);
                }
            }
            assert(links_ok(after, self.paths@)) by {
                assert forall|m: int, x: int|
                    0 <= m < after.len() && 0 <= x < BRANCH && #[trigger] after[m].children@[x]
                        != 0 implies after[m].children@[x] < after.len()
                    && self.paths@[after[m].children@[x] as int] == self.paths@[m].push(x as u8) by {
                    assert(after[m].children@[x] == before[m].children@[x]);
                }
            }
            match given {
                Some(v) => {
                    assert(self@ =~= old(self)@.insert(key, v@));
                },
                None => {
                    assert(self@ =~= old(self)@.remove(key));
                },
            }
        }
        slot
    }

    /// The value under `key`, copied. The empty key is refused.
    pub fn get(&self, key: &[u8]) -> (r: Result<Option<Vec<u8>>, RadixError>)
        requires
            self.wf(),
        ensures
            key@.len() == 0 ==> (r matches Err(RadixError::InvalidKey)),
            key@.len() > 0 ==> r is Ok && opt_bytes(r.unwrap()) == lookup(self@, key@),
    {
        if key.len() == 0 {
            return Err(RadixError::InvalidKey);
        }
        match self.find(key) {
            None => Ok(None),
            Some(cur) => {
                match &self.nodes[cur].value {
                    Some(v) => Ok(Some(v.clone())),
                    None => Ok(None),
                }
            },
        }
    }

    /// Stores `value` under `key` unless the key holds a value already; then
    /// nothing changes and a copy of the resident value comes back in the
    /// error. The empty key is refused.
    pub fn insert(&mut self, key: &[u8], value: Vec<u8>) -> (r: Result<Option<Vec<u8>>, RadixError>)
        requires
            old(self).wf(),
        ensures
            final(self).wf(),
            key@.len() == 0 ==> (r matches Err(RadixError::InvalidKey)) && final(self)@ == old(self)@,
            key@.len() > 0 && old(self)@.dom().contains(key@) ==> (r matches Err(
                RadixError::AlreadyWritten { old: o },
            ) && o@ == old(self)@[key@]) && final(self)@ == old(self)@,
            key@.len() > 0 && !old(self)@.dom().contains(key@) ==> (r matches Ok(None))
                && final(self)@ == old(self)@.insert(key@, value@),
    {
        if key.len() == 0 {
            return Err(RadixError::InvalidKey);
        }
        let cur: usize = self.descend(key);
        assert(self@ =~= old(self)@);
        match &self.nodes[cur].value {
            Some(v) => {
                return Err(RadixError::AlreadyWritten { old: v.clone() });
            },
            None => {},
        }
        let prev = self.replace_value(cur, Ghost(key@), Some(value));
        Ok(None)
    }

    /// Stores `value` under `key`, in place of what the key held, and hands
    /// back what it held. The empty key is refused.
    pub fn put(&mut self, key: &[u8], value: Vec<u8>) -> (r: Result<Option<Vec<u8>>, RadixError>)
        requires
            old(self).wf(),
        ensures
            final(self).wf(),
            key@.len() == 0 ==> (r matches Err(RadixError::InvalidKey)) && final(self)@ == old(self)@,
            key@.len() > 0 ==> r is Ok && opt_bytes(r.unwrap()) == lookup(old(self)@, key@)
                && final(self)@ == old(self)@.insert(key@, value@),
    {
        if key.len() == 0 {
            return Err(RadixError::InvalidKey);
        }
        let cur: usize = self.descend(key);
        assert(self@ =~= old(self)@);
        let prev = self.replace_value(cur, Ghost(key@), Some(value));
        Ok(prev)
    }

    /// Takes the value under `key` out of the trie and hands it back. The
    /// empty key is refused.
    pub fn remove(&mut self, key: &[u8]) -> (r: Result<Option<Vec<u8>>, RadixError>)
        requires
            old(self).wf(),
        ensures
            final(self).wf(),
            key@.len() == 0 ==> (r matches Err(RadixError::InvalidKey)) && final(self)@ == old(self)@,
            key@.len() > 0 ==> r is Ok && opt_bytes(r.unwrap()) == lookup(old(self)@, key@)
                && final(self)@ == old(self)@.remove(key@),
    {
        if key.len() == 0 {
            return Err(RadixError::InvalidKey);
        }
        match self.find(key) {
            None => {
                assert(self@ =~= old(self)@.remove(key@));
                Ok(None)
            },
            Some(cur) => {
                let prev = self.replace_value(cur, Ghost(key@), None);
                Ok(prev)
            },
        }
    }

    /// Puts the children of node `n` on the stack, the greatest byte first,
    /// so that they come off it in ascending order.
    fn push_children(&self, n: usize, pre: &Vec<u8>, stack: &mut Vec<(usize, Vec<u8>)>)
        requires
            self.wf(),
            n < self.nodes@.len(),
            walk(self.nodes@, pre@) == Some(n as int),
        ensures
            final(stack)@.len() >= old(stack)@.len(),
            forall|j: int| 0 <= j < old(stack)@.len() ==> final(stack)@[j] == old(stack)@[j],
            forall|j: int|
                old(stack)@.len() <= j < final(stack)@.len() ==> is_child_entry(
                    self.nodes@,
                    pre@,
                    #[trigger] final(stack)@[j],
                ),
            forall|i: int, j: int|
                old(stack)@.len() <= i < j < final(stack)@.len() ==> (#[trigger] final(stack)@[j]).1@.last()
                    < (#[trigger] final(stack)@[i]).1@.last(),
            forall|y: u8|
                #[trigger] self.nodes@[n as int].children@[y as int] != 0 ==> has_child_entry(
                    final(stack)@,
                    old(stack)@.len() as int,
                    pre@.push(y),
                ),
    {
        let mut x: usize = BRANCH;
        let ghost base = stack@.len();
        while x > 0
            invariant
                self.wf(),
                n < self.nodes@.len(),
                walk(self.nodes@, pre@) == Some(n as int),
                x <= BRANCH,
                base == old(stack)@.len(),
                stack@.len() >= base,
                forall|j: int| 0 <= j < base ==> stack@[j] == old(stack)@[j],
                forall|j: int|
                    base <= j < stack@.len() ==> is_child_entry(self.nodes@, pre@, #[trigger] stack@[j])
                        && stack@[j].1@.last() >= x,
                forall|i: int, j: int|
                    base <= i < j < stack@.len() ==> (#[trigger] stack@[j]).1@.last() < (
                    #[trigger] stack@[i]).1@.last(),
                forall|y: u8|
                    y >= x && #[trigger] self.nodes@[n as int].children@[y as int] != 0
                        ==> has_child_entry(stack@, base as int, pre@.push(y)),
            decreases x,
        {
            x = x - 1;
            let child: usize = self.nodes[n].children[x];
            let ghost before = stack@;
            if child != 0 {
                let mut path: Vec<u8> = pre.clone();
                path.push(x as u8);
                stack.push((child, path));
                proof {
                    assert(path@ =~= pre@.push(x as u8));
                    assert(path@.drop_last() =~= pre@);
                    assert(stack@[before.len() as int].1@ == pre@.push(x as u8));
                }
            }
            proof {
                assert forall|y: u8|
                    y >= x && #[trigger] self.nodes@[n as int].children@[y as int]
                        != 0 implies has_child_entry(stack@, base as int, pre@.push(y)) by {
                    if y == x {
                        assert(stack@[before.len() as int].1@ == pre@.push(y));
                    } else {
                        assert(has_child_entry(before, base as int, pre@.push(y)));
                        let j = choose|j: int|
                            base <= j < before.len() && (#[trigger] before[j]).1@ == pre@.push(y);
                        assert(stack@[j] == before[j]);
                    }
                }
            }
        }
    }

    /// Every stored pair, in ascending bytewise order of the keys. No key
    /// among them is empty.
    pub fn iter_all(&self) -> (out: Vec<(Vec<u8>, Vec<u8>)>)
        requires
            self.wf(),
        ensures
            is_listing(entries_view(out@), self@),
            forall|i: int| 0 <= i < out@.len() ==> (#[trigger] out@[i]).0@.len() > 0,
    {
        let mut out: Vec<(Vec<u8>, Vec<u8>)> = Vec::new();
        let mut stack: Vec<(usize, Vec<u8>)> = Vec::new();
        stack.push((0, Vec::new()));
        let ghost mut visited: Set<int> = Set::empty();
        proof {
            assert forall|k: Seq<u8>| #[trigger] stored(self.nodes@, k) is Some implies emitted(out@, k)
                || pending(stack@, k) by {
                assert(stack@[0].1@ =~= k.subrange(0, 0));
                assert(stack@[0].1@.is_prefix_of(k));
            }
        }
        while stack.len() > 0
            invariant
                self.wf(),
                stack_ok(self.nodes@, stack@),
                stack_sorted(stack@),
                out_before_stack(out@, stack@),
                out_ok(self.nodes@, out@),
                covered(self.nodes@, out@, stack@),
                visited.finite(),
                forall|v: int| visited.contains(v) ==> 0 <= v < self.nodes@.len(),
                visited_before_stack(self.paths@, visited, stack@),
                visited.len() <= self.nodes@.len(),
            decreases self.nodes@.len() - visited.len(),
        {
            let ghost old_stack = stack@;
            let ghost old_out = out@;
            let ghost top = stack@.len() - 1;
            let (n, pre) = stack.pop().unwrap();
            let ghost base = stack@;
            proof {
                assert(old_stack[top] == (n, pre));
                lemma_walk_path(self.nodes@, self.paths@, pre@);
                if visited.contains(n as int) {
                    assert(lex_lt(self.paths@[n as int], old_stack[top].1@));
                    lemma_lex_irreflexive(pre@);
                }
                visited = visited.insert(n as int);
                lemma_int_range(0, self.nodes@.len() as int);
                lemma_len_subset(visited, set_int_range(0, self.nodes@.len() as int));
            }
            match &self.nodes[n].value {
                Some(v) => {
                    out.push((pre.clone(), v.clone()));
                },
                None => {},
            }
            let ghost mid_out = out@;
            self.push_children(n, &pre, &mut stack);
            proof {
                let nodes = self.nodes@;
                let paths = self.paths@;
                // what was emitted stands before the node just taken, or is it
                assert forall|i: int| 0 <= i < mid_out.len() implies (#[trigger] mid_out[i]).0@
                    == pre@ || lex_lt(mid_out[i].0@, pre@) by {
                    if i < old_out.len() {
                        assert(mid_out[i] == old_out[i]);
                        assert(lex_lt(old_out[i].0@, old_stack[top].1@));
                    }
                }
                assert(out_ok(nodes, mid_out)) by {
                    assert forall|i: int, j: int| 0 <= i < j < mid_out.len() implies lex_lt(
                        (#[trigger] mid_out[i]).0@,
                        (#[trigger] mid_out[j]).0@,
                    ) by {
                        if j < old_out.len() {
                            assert(mid_out[i] == old_out[i]);
                            assert(mid_out[j] == old_out[j]);
                        } else {
                            assert(mid_out[i] == old_out[i]);
                            assert(lex_lt(old_out[i].0@, old_stack[top].1@));
                        }
                    }
                    assert forall|i: int| 0 <= i < mid_out.len() implies stored(
                        nodes,
                        (#[trigger] mid_out[i]).0@,
                    ) == Some(mid_out[i].1@) by {
                        if i < old_out.len() {
                            assert(mid_out[i] == old_out[i]);
                        }
                    }
                }
                assert(stack_ok(nodes, stack@)) by {
                    assert forall|j: int| 0 <= j < stack@.len() implies walk(
                        nodes,
                        (#[trigger] stack@[j]).1@,
                    ) == Some(stack@[j].0 as int) by {
                        if j < base.len() {
                            assert(stack@[j] == old_stack[j]);
                        } else {
                            assert(is_child_entry(nodes, pre@, stack@[j]));
                        }
                    }
                }
                // every new entry is an extension of the node just taken
                assert forall|j: int| base.len() <= j < stack@.len() implies (#[trigger] stack@[j]).1@
                    == pre@.push(stack@[j].1@.last()) by {
                    assert(is_child_entry(nodes, pre@, stack@[j]));
                    assert(stack@[j].1@ =~= stack@[j].1@.drop_last().push(stack@[j].1@.last()));
                }
                assert(stack_sorted(stack@)) by {
                    assert forall|i: int, j: int| 0 <= i < j < stack@.len() implies lex_lt(
                        (#[trigger] stack@[j]).1@,
                        (#[trigger] stack@[i]).1@,
                    ) && !stack@[j].1@.is_prefix_of(stack@[i].1@) by {
                        if j < base.len() {
                            assert(stack@[i] == old_stack[i]);
                            assert(stack@[j] == old_stack[j]);
                        } else if i < base.len() {
                            assert(stack@[i] == old_stack[i]);
                            assert(lex_lt(old_stack[top].1@, old_stack[i].1@));
                            let y = stack@[j].1@.last();
                            assert(pre@ + seq![y] =~= pre@.push(y));
                            lemma_lex_branch(pre@, seq![y], old_stack[i].1@);
                        } else {
                            lemma_sibling_order(pre@, stack@[j].1@.last(), stack@[i].1@.last());
                        }
                    }
                }
                assert(out_before_stack(out@, stack@)) by {
                    assert forall|i: int, j: int|
                        0 <= i < out@.len() && 0 <= j < stack@.len() implies lex_lt(
                        (#[trigger] out@[i]).0@,
                        (#[trigger] stack@[j]).1@,
                    ) by {
                        if j < base.len() {
                            assert(stack@[j] == old_stack[j]);
                            if i < old_out.len() {
                                assert(out@[i] == old_out[i]);
                            } else {
                                assert(lex_lt(old_stack[top].1@, old_stack[j].1@));
                            }
                        } else {
                            let y = stack@[j].1@.last();
                            assert(pre@ + seq![y] =~= pre@.push(y));
                            lemma_lex_extension(pre@, seq![y]);
                            if out@[i].0@ != pre@ {
                                lemma_lex_transitive(out@[i].0@, pre@, stack@[j].1@);
                            }
                        }
                    }
                }
                assert(visited_before_stack(paths, visited, stack@)) by {
                    assert forall|v: int, j: int|
                        visited.contains(v) && 0 <= j < stack@.len() implies lex_lt(
                        #[trigger] paths[v],
                        (#[trigger] stack@[j]).1@,
                    ) by {
                        if j < base.len() {
                            assert(stack@[j] == old_stack[j]);
                            if v == n {
                                assert(lex_lt(old_stack[top].1@, old_stack[j].1@));
                            }
                        } else {
                            let y = stack@[j].1@.last();
                            assert(pre@ + seq![y] =~= pre@.push(y));
                            lemma_lex_extension(pre@, seq![y]);
                            if v != n {
                                assert(lex_lt(paths[v], old_stack[top].1@));
                                lemma_lex_transitive(paths[v], pre@, stack@[j].1@);
                            }
                        }
                    }
                }
                assert(covered(nodes, out@, stack@)) by {
                    assert forall|k: Seq<u8>| #[trigger] stored(nodes, k) is Some implies emitted(
                        out@,
                        k,
                    ) || pending(stack@, k) by {
                        if emitted(old_out, k) {
                            let i = choose|i: int|
                                0 <= i < old_out.len() && (#[trigger] old_out[i]).0@ == k;
                            assert(out@[i] == old_out[i]);
                        } else {
                            assert(pending(old_stack, k));
                            let j = choose|j: int|
                                0 <= j < old_stack.len() && (#[trigger] old_stack[j]).1@.is_prefix_of(
                                    k,
                                );
                            if j < base.len() {
                                assert(stack@[j] == old_stack[j]);
                                assert(stack@[j].1@.is_prefix_of(k));
                            } else if k == pre@ {
                                assert(out@[old_out.len() as int].0@ == k);
                            } else {
                                let m = pre@.len() as int;
                                assert(k.take(m) =~= pre@);
                                assert(k.len() > m) by {
                                    if k.len() == m {
                                        assert(k.take(m) =~= k);
                                    }
                                }
                                let y = k[m];
                                lemma_walk_step(nodes, k, m);
                                if nodes[n as int].children@[y as int] == 0 {
                                    lemma_walk_none(nodes, k, m + 1);
                                }
                                assert(has_child_entry(stack@, base.len() as int, pre@.push(y)));
                                let c = choose|c: int|
                                    base.len() <= c < stack@.len() && (#[trigger] stack@[c]).1@
                                        == pre@.push(y);
                                assert(stack@[c].1@ =~= k.subrange(0, m + 1));
                                assert(stack@[c].1@.is_prefix_of(k));
                            }
                        }
                    }
                }
            }
        }
        proof {
            let s = entries_view(out@);
            self.lemma_no_empty_key();
            assert forall|i: int| 0 <= i < out@.len() implies (#[trigger] out@[i]).0@.len() > 0 by {
                assert(stored(self.nodes@, out@[i].0@) == Some(out@[i].1@));
                if out@[i].0@.len() == 0 {
                    assert(out@[i].0@ =~= Seq::<u8>::empty());
                }
            }
            assert forall|k: Seq<u8>| #[trigger] self@.dom().contains(k) implies exists|i: int|
                0 <= i < s.len() && #[trigger] s[i].0 == k by {
                assert(stored(self.nodes@, k) is Some);
                assert(emitted(out@, k));
                let i = choose|i: int| 0 <= i < out@.len() && (#[trigger] out@[i]).0@ == k;
                assert(s[i].0 == k);
            }
            assert forall|i: int, j: int| 0 <= i < j < s.len() implies lex_lt(
                #[trigger] s[i].0,
                #[trigger] s[j].0,
            ) by {
                assert(lex_lt(out@[i].0@, out@[j].0@));
            }
            assert forall|i: int| 0 <= i < s.len() implies self@.dom().contains(#[trigger] s[i].0)
                && self@[s[i].0] == s[i].1 by {
                assert(stored(self.nodes@, out@[i].0@) == Some(out@[i].1@));
            }
        }
        out
    }
}

/// Below an empty slot nothing is stored.
proof fn lemma_walk_none_from(nodes: Seq<Node>, paths: Seq<Seq<u8>>, p: int, b: u8, k: Seq<u8>)
    requires
        links_ok(nodes, paths),
        0 <= p < nodes.len(),
        walk(nodes, paths[p]) == Some(p),
        nodes[p].children@[b as int] == 0,
        paths[p].push(b).is_prefix_of(k),
    ensures
        walk(nodes, k) is None,
{
    let q = paths[p].push(b);
    assert(k.take(q.len() as int) =~= q);
    assert(q.drop_last() =~= paths[p]);
    lemma_walk_none(nodes, k, q.len() as int);
}

/// A stack entry for a child of the node that `pre` leads to.
spec fn is_child_entry(nodes: Seq<Node>, pre: Seq<u8>, e: (usize, Vec<u8>)) -> bool {
    &&& e.1@.len() == pre.len() + 1
    &&& e.1@.drop_last() == pre
    &&& walk(nodes, e.1@) == Some(e.0 as int)
}

/// Whether the stack holds, from `base` up, an entry for the key `path`.
spec fn has_child_entry(stack: Seq<(usize, Vec<u8>)>, base: int, path: Seq<u8>) -> bool {
    exists|j: int| base <= j < stack.len() && (#[trigger] stack[j]).1@ == path
}

/// Each stack entry names the node that its key leads to.
spec fn stack_ok(nodes: Seq<Node>, stack: Seq<(usize, Vec<u8>)>) -> bool {
    forall|j: int|
        0 <= j < stack.len() ==> walk(nodes, (#[trigger] stack[j]).1@) == Some(stack[j].0 as int)
}

/// The keys on the stack descend from the bottom to the top, and none is a
/// prefix of one below it.
spec fn stack_sorted(stack: Seq<(usize, Vec<u8>)>) -> bool {
    forall|i: int, j: int|
        0 <= i < j < stack.len() ==> lex_lt((#[trigger] stack[j]).1@, (#[trigger] stack[i]).1@)
            && !stack[j].1@.is_prefix_of(stack[i].1@)
}

/// What was emitted comes before everything on the stack.
spec fn out_before_stack(out: Seq<(Vec<u8>, Vec<u8>)>, stack: Seq<(usize, Vec<u8>)>) -> bool {
    forall|i: int, j: int|
        0 <= i < out.len() && 0 <= j < stack.len() ==> lex_lt(
            (#[trigger] out[i]).0@,
            (#[trigger] stack[j]).1@,
        )
}

/// What was emitted ascends, and each pair is stored in the trie.
spec fn out_ok(nodes: Seq<Node>, out: Seq<(Vec<u8>, Vec<u8>)>) -> bool {
    &&& forall|i: int, j: int|
        0 <= i < j < out.len() ==> lex_lt((#[trigger] out[i]).0@, (#[trigger] out[j]).0@)
    &&& forall|i: int|
        0 <= i < out.len() ==> stored(nodes, (#[trigger] out[i]).0@) == Some(out[i].1@)
}

/// Whether the key `k` was emitted.
spec fn emitted(out: Seq<(Vec<u8>, Vec<u8>)>, k: Seq<u8>) -> bool {
    exists|i: int| 0 <= i < out.len() && (#[trigger] out[i]).0@ == k
}

/// Whether the key `k` lies under an entry of the stack.
spec fn pending(stack: Seq<(usize, Vec<u8>)>, k: Seq<u8>) -> bool {
    exists|j: int| 0 <= j < stack.len() && (#[trigger] stack[j]).1@.is_prefix_of(k)
}

/// Every stored key was emitted or is still to come.
spec fn covered(nodes: Seq<Node>, out: Seq<(Vec<u8>, Vec<u8>)>, stack: Seq<(usize, Vec<u8>)>) -> bool {
    forall|k: Seq<u8>| #[trigger] stored(nodes, k) is Some ==> emitted(out, k) || pending(stack, k)
}

/// The nodes that were taken off the stack come before everything on it.
spec fn visited_before_stack(
    paths: Seq<Seq<u8>>,
    visited: Set<int>,
    stack: Seq<(usize, Vec<u8>)>,
) -> bool {
    forall|v: int, j: int|
        visited.contains(v) && 0 <= j < stack.len() ==> lex_lt(
            #[trigger] paths[v],
            (#[trigger] stack[j]).1@,
        )
}

} // verus!
