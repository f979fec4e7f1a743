//! Nodes of the arena trie.
use vstd::prelude::*;

verus! {

/// The index that stands for a missing child.
pub const NULL: u32 = 0xffff_ffff;

/// A trie node: one child index for each bit, and a value where a prefix ends.
pub struct ArenaNode<V> {
    pub children: [u32; 2],
    pub value: Option<V>,
}

impl<V> ArenaNode<V> {
    /// The child index for a bit.
    pub open spec fn child(self, bit: bool) -> u32 {
        self.children@[if bit {
            1int
        } else {
            0int
        }]
    }

    /// The node holds a value or has a child.
    pub open spec fn occupied(self) -> bool {
        self.value is Some || self.child(false) != NULL || self.child(true) != NULL
    }

    /// Creates a node without value and children.
    pub fn new() -> (node: Self)
        ensures
            node.value is None,
            node.child(false) == NULL,
            node.child(true) == NULL,
            node.children@ == seq![u32::MAX, u32::MAX],
    {
        ArenaNode { children: [NULL, NULL], value: None }
    }
}

} // verus!
