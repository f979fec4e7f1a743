//! A routing table backed by a pointer-based trie.
use std::marker::PhantomData;
use vstd::prelude::*;
use crate::address::IpAddress;
use crate::node::TrieNode;
use crate::prefix::IpPrefix;

verus! {

/// A routing table backed by a binary trie of separately allocated nodes.
pub struct IpTable<A: IpAddress, V> {
    root: TrieNode<V>,
    _marker: PhantomData<A>,
}

impl<A: IpAddress, V> View for IpTable<A, V> {
    type V = Map<Seq<bool>, V>;

    /// The entries of the table, by their network bits.
    closed spec fn view(&self) -> Map<Seq<bool>, V> {
        self.root@
    }
}

impl<A: IpAddress, V> IpTable<A, V> {
    /// The trie has a node behind a bit string.
    pub closed spec fn has_node(&self, path: Seq<bool>) -> bool {
        self.root.has_node(path)
    }

    /// There is a node behind every string of bits with which an entry begins.
    pub proof fn law_entries_have_nodes(&self, key: Seq<bool>, path: Seq<bool>)
        requires
            self@.contains_key(key),
            path.is_prefix_of(key),
        ensures
            self.has_node(path),
    {
        self.root.law_entries_have_nodes(key, path);
    }

    /// Creates a new, empty table.
    pub fn new() -> (table: Self)
        ensures
            table@ == Map::<Seq<bool>, V>::empty(),
            forall|path: Seq<bool>| #[trigger] table.has_node(path) == (path.len() == 0),
    {
        IpTable { root: TrieNode::new(), _marker: PhantomData }
    }

    /// Inserts a prefix and its associated value into the table.
    ///
    /// If an entry already exists for this prefix, its value is replaced. Host bits in the
    /// prefix address are ignored. The trie grows by the missing nodes on the way to the
    /// prefix and by no others.
    pub fn insert(&mut self, prefix: IpPrefix<A>, value: V)
        ensures
            final(self)@ == old(self)@.insert(prefix@, value),
            forall|path: Seq<bool>| #[trigger]
                final(self).has_node(path) == (old(self).has_node(path) || path.is_prefix_of(
                    prefix@,
                )),
    {
        let network = prefix.masked();
        let addr: u128 = network.ip().to_u128();
        let len: u32 = network.mask() as u32;
        proof {
            A::lemma_width();
            assert(prefix@.skip(0) =~= prefix@);
        }
        self.root.insert_below(addr, A::BITS as u32, 0, len, value);
    }
}

} // verus!
