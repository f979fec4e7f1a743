//! Nodes of the pointer-based trie.
use vstd::prelude::*;
use crate::address;

verus! {

/// A trie node: one optional child for each bit, and a value where a prefix ends.
pub struct TrieNode<V> {
    pub children: [Option<Box<TrieNode<V>>>; 2],
    pub value: Option<V>,
}

impl<V> TrieNode<V> {
    /// The child for a bit.
    pub open spec fn child(self, bit: bool) -> Option<Box<TrieNode<V>>> {
        self.children@[if bit {
            1int
        } else {
            0int
        }]
    }

    /// The value stored for a bit string below this node.
    pub open spec fn find(self, key: Seq<bool>) -> Option<V>
        decreases key.len(),
    {
        if key.len() == 0 {
            self.value
        } else {
            match self.child(key[0]) {
                Some(child) => child.find(key.skip(1)),
                None => None,
            }
        }
    }

    /// There is a node behind a bit string below this node.
    pub open spec fn has_node(self, path: Seq<bool>) -> bool
        decreases path.len(),
    {
        if path.len() == 0 {
            true
        } else {
            match self.child(path[0]) {
                Some(child) => child.has_node(path.skip(1)),
                None => false,
            }
        }
    }

    /// A value is stored at a node, so the nodes on the way to it are there.
    pub proof fn law_entries_have_nodes(self, key: Seq<bool>, path: Seq<bool>)
        requires
            self@.contains_key(key),
            path.is_prefix_of(key),
        ensures
            self.has_node(path),
        decreases key.len(),
    {
        if path.len() > 0 {
            let child = self.child(key[0])->Some_0;
            assert(child@.contains_key(key.skip(1)));
            assert(path.skip(1) =~= key.skip(1).take(path.len() - 1));
            child.law_entries_have_nodes(key.skip(1), path.skip(1));
        }
    }

    /// Where the entries are: that of the empty string in the node itself, and those of
    /// longer strings behind the child for their first bit, the first child for a zero. The
    /// same goes for the nodes.
    pub proof fn law_entries_by_first_bit(self, key: Seq<bool>)
        ensures
            key.len() == 0 ==> self.has_node(key) && (self@.contains_key(key) <==> self.value
                is Some) && (self@.contains_key(key) ==> Some(self@[key]) == self.value),
            key.len() > 0 ==> {
                let link = self.children@[if key[0] {
                    1int
                } else {
                    0
                }];
                &&& self.has_node(key) <==> link is Some && link->Some_0.has_node(key.skip(1))
                &&& self@.contains_key(key) <==> link is Some && link->Some_0@.contains_key(
                    key.skip(1),
                )
                &&& self@.contains_key(key) ==> self@[key] == link->Some_0@[key.skip(1)]
            },
    {
    }

    /// Creates a node without value and children.
    pub fn new() -> (node: Self)
        ensures
            forall|path: Seq<bool>| #[trigger] node.has_node(path) == (path.len() == 0),
            node.value is None,
            node.child(false) is None,
            node.child(true) is None,
            node.children@[0] is None,
            node.children@[1] is None,
            node@ == Map::<Seq<bool>, V>::empty(),
    {
        let node = TrieNode { children: [None, None], value: None };
        assert(node@ =~= Map::<Seq<bool>, V>::empty());
        node
    }

    /// Stores a value for the prefix of `len` bits that reaches this node after `depth` bits.
    pub fn insert_below(&mut self, addr: u128, addr_bits: u32, depth: u32, len: u32, value: V)
        requires
            depth <= len <= addr_bits <= 128,
        ensures
            final(self)@ == old(self)@.insert(
                address::leading_bits(addr, addr_bits as nat, len as nat).skip(depth as int),
                value,
            ),
            forall|path: Seq<bool>| #[trigger]
                final(self).has_node(path) == (old(self).has_node(path) || path.is_prefix_of(
                    address::leading_bits(addr, addr_bits as nat, len as nat).skip(depth as int),
                )),
        decreases len - depth,
    {
        let ghost key = address::leading_bits(addr, addr_bits as nat, len as nat).skip(
            depth as int,
        );
        let ghost before = *self;
        if depth == len {
            self.value = Some(value);
            assert(key =~= Seq::<bool>::empty());
            assert forall|other: Seq<bool>| other.len() > 0 implies #[trigger] self.find(other)
                == before.find(other) by {
            }
            assert forall|other: Seq<bool>| other.len() == 0 implies other == key by {
                assert(other =~= key);
            }
            assert forall|path: Seq<bool>| #[trigger]
                self.has_node(path) == (before.has_node(path) || path.is_prefix_of(key)) by {
            }
            assert(self@ =~= before@.insert(key, value));
        } else {
            let side: bool = address::bit_at(addr, addr_bits, depth);
            let bit: usize = if side {
                1
            } else {
                0
            };
            if self.children[bit].is_none() {
                self.children[bit] = Some(Box::new(TrieNode::new()));
            }
            let ghost middle = *self;
            if let Some(child) = &mut self.children[bit] {
                child.insert_below(addr, addr_bits, depth + 1, len, value);
            }
            proof {
                let rest = key.skip(1);
                assert(rest =~= address::leading_bits(addr, addr_bits as nat, len as nat).skip(
                    depth + 1,
                ));
                assert(key[0] == side);
                let child_before = middle.child(side)->Some_0;
                let child_after = self.child(side)->Some_0;
                assert(child_after@ == child_before@.insert(rest, value));
                assert(self.child(!side) == before.child(!side));
                assert forall|other: Seq<bool>| #[trigger]
                    self.find(other) == if other == key {
                        Some(value)
                    } else {
                        before.find(other)
                    } by {
                    if other.len() > 0 {
                        let tail = other.skip(1);
                        if other[0] == side {
                            assert(child_after@.contains_key(tail) == (tail == rest
                                || child_before@.contains_key(tail)));
                            assert(child_after@.contains_key(tail) ==> child_after@[tail]
                                == child_after.find(tail)->Some_0);
                            assert(child_before@.contains_key(tail) ==> child_before@[tail]
                                == child_before.find(tail)->Some_0);
                            assert(child_after.find(tail) == if tail == rest {
                                Some(value)
                            } else {
                                child_before.find(tail)
                            });
                            assert(before.child(side) is None ==> !child_before@.contains_key(
                                tail,
                            ));
                            if tail == rest {
                                assert(other =~= seq![side] + rest);
                                assert(key =~= seq![side] + rest);
                            }
                        }
                    }
                }
                assert(self@ =~= before@.insert(key, value));
                assert forall|path: Seq<bool>| #[trigger]
                    self.has_node(path) == (before.has_node(path) || path.is_prefix_of(key)) by {
                    if path.len() == 0 {
                        assert(path =~= key.subrange(0, 0));
                    } else {
                        lemma_prefix_step(path, key);
                        if path[0] == side {
                            let tail = path.skip(1);
                            assert(child_after.has_node(tail) == (child_before.has_node(tail)
                                || tail.is_prefix_of(rest)));
                            if before.child(side) is None {
                                assert(child_before.has_node(tail) == (tail.len() == 0));
                                assert(tail.len() == 0 ==> tail =~= rest.subrange(0, 0));
                            }
                        }
                    }
                }
            }
        }
    }
}

/// A nonempty string begins another exactly if the first bits agree and the rest begins the
/// rest.
proof fn lemma_prefix_step(path: Seq<bool>, key: Seq<bool>)
    requires
        path.len() > 0,
        key.len() > 0,
    ensures
        path.is_prefix_of(key) == (path[0] == key[0] && path.skip(1).is_prefix_of(key.skip(1))),
{
    if path.is_prefix_of(key) {
        assert(path.skip(1) =~= key.skip(1).subrange(0, path.len() - 1));
    } else if path[0] == key[0] && path.skip(1).is_prefix_of(key.skip(1)) {
        assert forall|i: int| 0 <= i < path.len() implies path[i] == key[i] by {
            if i > 0 {
                assert(path.skip(1)[i - 1] == key.skip(1)[i - 1]);
            }
        }
        assert(path =~= key.subrange(0, path.len() as int));
    }
}

impl<V> View for TrieNode<V> {
    type V = Map<Seq<bool>, V>;

    /// The entries of the trie below this node, by the bits that lead to them.
    open spec fn view(&self) -> Map<Seq<bool>, V> {
        Map::new(|key: Seq<bool>| self.find(key) is Some, |key: Seq<bool>| self.find(key)->Some_0)
    }
}

} // verus!
