//! The nodes of the byte trie. Nodes live in one arena and name their
//! children by position in it; position 0 is the root, which is no node's
//! child, so a slot that holds 0 is empty.

use vstd::prelude::*;

verus! {

/// The number of child slots of a node: one for each value of the next key byte.
pub const BRANCH: usize = 256;

/// One node of the trie: a slot for each next byte, and the value of the
/// key that leads here.
pub struct Node {
    pub children: Vec<usize>,
    pub value: Option<Vec<u8>>,
}

impl Node {
    /// A node has one slot for every byte.
    pub open spec fn wf(&self) -> bool {
        self.children@.len() == BRANCH
    }

    /// The child that the slot of `idx` names.
    pub open spec fn spec_child(&self, idx: u8) -> Option<usize> {
        if self.children@[idx as int] == 0 {
            None
        } else {
            Some(self.children@[idx as int])
        }
    }

    /// The value that the node holds.
    pub open spec fn spec_value(&self) -> Option<Seq<u8>> {
        match self.value {
            Some(v) => Some(v@),
            None => None,
        }
    }

    /// A node without children and without a value.
    pub fn new() -> (node: Node)
        ensures
            node.wf(),
            node.value is None,
            forall|b: int| 0 <= b < BRANCH ==> node.children@[b] == 0,
    {
        let mut children: Vec<usize> = Vec::with_capacity(BRANCH);
        let mut i: usize = 0;
        while i < BRANCH
            invariant
                i <= BRANCH,
                children@.len() == i,
                forall|b: int| 0 <= b < i ==> children@[b] == 0,
            decreases BRANCH - i,
        {
            children.push(0);
            i = i + 1;
        }
        Node { children, value: None }
    }

    /// The child under the byte `idx`, if there is one.
    pub fn child(&self, idx: u8) -> (c: Option<usize>)
        requires
            self.wf(),
        ensures
            c == self.spec_child(idx),
    {
        let slot: usize = self.children[idx as usize];
        if slot == 0 {
            None
        } else {
            Some(slot)
        }
    }
}

} // verus!
