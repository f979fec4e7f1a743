//! A routing table backed by a stride-4 tree bitmap.
use std::marker::PhantomData;
use vstd::prelude::*;
use crate::address;
use crate::address::IpAddress;
use crate::bits::STRIDE;
use crate::model;
use crate::prefix::IpPrefix;
use crate::treebitmap::iter::Iter;
use crate::treebitmap::node::TbNode;

pub mod entries;
pub mod iter;
pub mod laws;
pub mod node;
pub mod search;

verus! {

/// An in-memory longest-prefix-match routing table.
///
/// The table maps network prefixes to values of any type `V`. Looking up an address gives
/// the value of the most specific prefix that covers it. A table is dedicated to one
/// address family `A`.
pub struct RouteMap<A: IpAddress, V> {
    root: TbNode<V>,
    count: usize,
    _marker: PhantomData<A>,
}

impl<A: IpAddress, V> View for RouteMap<A, V> {
    type V = Map<Seq<bool>, V>;

    /// The entries of the table, by their network bits.
    closed spec fn view(&self) -> Map<Seq<bool>, V> {
        self.root@
    }
}

impl<A: IpAddress, V> RouteMap<A, V> {
    /// The tree is well formed for the address width, and the counter counts its entries.
    pub closed spec fn wf(&self) -> bool {
        &&& self.root.wf((A::width() / 4) as nat)
        &&& self.root@.dom().finite()
        &&& self.count == self.root@.len()
    }

    /// A table holds finitely many entries, none longer than an address.
    pub proof fn law_keys_fit(&self)
        requires
            self.wf(),
        ensures
            self@.dom().finite(),
            forall|key: Seq<bool>| #[trigger] self@.contains_key(key) ==> key.len() <= A::width(),
    {
        A::lemma_width();
        assert forall|key: Seq<bool>| #[trigger] self@.contains_key(key) implies key.len()
            <= A::width() by {
            laws::law_keys_fit(self.root, (A::width() / 4) as nat, key);
        }
    }

    /// The tree has a node behind the bits of `path`, four of them at a time.
    pub closed spec fn has_node(&self, path: Seq<bool>) -> bool {
        laws::has_node(self.root, path)
    }

    /// The nodes follow from the entries: apart from the root, a node is there exactly
    /// behind the whole nibbles with which the network bits of an entry begin, so that a
    /// removal leaves no dead branch. The way to a node takes at most one hop for each
    /// nibble of an address: 8 for IPv4, 32 for IPv6.
    pub proof fn law_nodes_follow_entries(&self, path: Seq<bool>)
        requires
            self.wf(),
        ensures
            self.has_node(path) <==> path.len() == 0 || path.len() % 4 == 0 && exists|
                key: Seq<bool>,
            | #[trigger]
                self@.contains_key(key) && path.is_prefix_of(key),
            self.has_node(path) ==> path.len() / 4 <= A::width() / 4,
    {
        assert(self@ == self.root@);
        laws::law_nodes_follow_entries(self.root, (A::width() / 4) as nat, path);
    }

    /// Creates a new, empty table.
    pub fn new() -> (table: Self)
        ensures
            table.wf(),
            table@ == Map::<Seq<bool>, V>::empty(),
    {
        RouteMap { root: TbNode::new(), count: 0, _marker: PhantomData }
    }

    /// Inserts a prefix and its associated value into the table.
    ///
    /// If an entry already exists for this prefix, its value is replaced. Host bits in the
    /// prefix address are ignored.
    pub fn insert(&mut self, prefix: IpPrefix<A>, value: V)
        requires
            old(self).wf(),
            old(self)@.len() < usize::MAX || old(self)@.contains_key(prefix@),
        ensures
            final(self).wf(),
            final(self)@ == old(self)@.insert(prefix@, value),
    {
        let prefix = prefix.masked();
        let addr: u128 = prefix.ip().to_u128();
        let len: u32 = prefix.mask() as u32;
        proof {
            A::lemma_width();
            assert(node::rest_of_key(addr, A::BITS as u32, 0, len / 4, len % 4) =~= prefix@);
        }
        let is_new: bool = node::insert_at(
            &mut self.root,
            addr,
            A::BITS as u32,
            0,
            len / STRIDE,
            len % STRIDE,
            value,
        );
        if is_new {
            self.count = self.count + 1;
        }
    }

    /// Returns a reference to the value for the most specific matching prefix, or `None` if
    /// no prefix in the table matches `addr`.
    pub fn longest_match(&self, addr: A) -> (value: Option<&V>)
        requires
            self.wf(),
        ensures
            match value {
                Some(v) => exists|key: Seq<bool>| #[trigger]
                    model::is_longest_match(self@, address::address_bits(addr), key) && *v
                        == self@[key],
                None => model::is_unmatched(self@, address::address_bits(addr)),
            },
    {
        match self.best_match(addr) {
            Some((_, value)) => Some(value),
            None => None,
        }
    }

    /// Finds the most specific entry that covers `addr`, as the number of its bits and its
    /// value.
    fn best_match(&self, addr: A) -> (best: Option<(u32, &V)>)
        requires
            self.wf(),
        ensures
            match best {
                Some((len, v)) => {
                    let key = address::address_bits(addr).take(len as int);
                    &&& len <= A::width()
                    &&& model::is_longest_match(self@, address::address_bits(addr), key)
                    &&& *v == self@[key]
                },
                None => model::is_unmatched(self@, address::address_bits(addr)),
            },
    {
        let number: u128 = addr.to_u128();
        proof {
            A::lemma_width();
        }
        let best = search::longest_match_at(&self.root, number, A::BITS as u32);
        proof {
            let bits = address::address_bits(addr);
            assert forall|key: Seq<bool>| #[trigger] key.is_prefix_of(bits) implies key
                == bits.take(key.len() as int) && 0 <= key.len() <= A::width() by {
            }
        }
        best
    }

    /// Returns the most specific matching prefix together with a reference to its value, or
    /// `None` if no prefix in the table matches `addr`.
    pub fn longest_match_entry(&self, addr: A) -> (entry: Option<(IpPrefix<A>, &V)>)
        requires
            self.wf(),
        ensures
            match entry {
                Some((prefix, v)) => {
                    &&& model::is_longest_match(self@, address::address_bits(addr), prefix@)
                    &&& *v == self@[prefix@]
                    &&& prefix.canonical()
                },
                None => model::is_unmatched(self@, address::address_bits(addr)),
            },
    {
        match self.best_match(addr) {
            Some((len, value)) => {
                proof {
                    A::lemma_width();
                }
                let covering: IpPrefix<A> = IpPrefix::new(addr, len as u8).unwrap();
                assert(covering@ =~= address::address_bits(addr).take(len as int));
                Some((covering.masked(), value))
            },
            None => None,
        }
    }

    /// Removes the entry for `prefix` and returns its value, or `None` if not found.
    ///
    /// Host bits in the prefix address are ignored.
    pub fn remove(&mut self, prefix: IpPrefix<A>) -> (value: Option<V>)
        requires
            old(self).wf(),
        ensures
            final(self).wf(),
            final(self)@ == old(self)@.remove(prefix@),
            value == if old(self)@.contains_key(prefix@) {
                Some(old(self)@[prefix@])
            } else {
                None
            },
    {
        let prefix = prefix.masked();
        let addr: u128 = prefix.ip().to_u128();
        let len: u32 = prefix.mask() as u32;
        proof {
            A::lemma_width();
            assert(node::rest_of_key(addr, A::BITS as u32, 0, len / 4, len % 4) =~= prefix@);
        }
        let (value, _) = node::remove_at(
            &mut self.root,
            addr,
            A::BITS as u32,
            0,
            len / STRIDE,
            len % STRIDE,
        );
        if value.is_some() {
            self.count = self.count - 1;
        } else {
            assert(self@ =~= old(self)@);
        }
        value
    }

    /// Returns a reference to the value for an exact prefix match, or `None` if this prefix
    /// is not in the table.
    ///
    /// Unlike [`longest_match`](Self::longest_match), this never falls back to a covering
    /// prefix. Host bits in the prefix address are ignored.
    pub fn get(&self, prefix: IpPrefix<A>) -> (value: Option<&V>)
        requires
            self.wf(),
        ensures
            match value {
                Some(v) => self@.contains_key(prefix@) && *v == self@[prefix@],
                None => !self@.contains_key(prefix@),
            },
    {
        let prefix = prefix.masked();
        let addr: u128 = prefix.ip().to_u128();
        let len: u32 = prefix.mask() as u32;
        proof {
            A::lemma_width();
            assert(node::rest_of_key(addr, A::BITS as u32, 0, len / 4, len % 4) =~= prefix@);
        }
        node::get_at(&self.root, addr, A::BITS as u32, 0, len / STRIDE, len % STRIDE)
    }

    /// Returns `true` if the table contains an exact entry for this prefix.
    ///
    /// This is an exact match, not a longest-prefix match. Host bits are ignored.
    pub fn contains(&self, prefix: IpPrefix<A>) -> (found: bool)
        requires
            self.wf(),
        ensures
            found == self@.contains_key(prefix@),
    {
        let prefix = prefix.masked();
        let addr: u128 = prefix.ip().to_u128();
        let len: u32 = prefix.mask() as u32;
        proof {
            A::lemma_width();
            assert(node::rest_of_key(addr, A::BITS as u32, 0, len / 4, len % 4) =~= prefix@);
        }
        node::contains_at(&self.root, addr, A::BITS as u32, 0, len / STRIDE, len % STRIDE)
    }

    /// Returns an iteration over all entries of the table.
    ///
    /// Entries are yielded in depth-first order: shorter prefixes at a given node before the
    /// longer prefixes stored in its children.
    pub fn iter(&self) -> (iter: Iter<'_, A, V>)
        requires
            self.wf(),
        ensures
            iter.wf(),
            model::is_listing(iter.remaining(), self@),
    {
        proof {
            entries::lemma_tree_listing(self.root, (A::width() / 4) as nat);
        }
        Iter::start(&self.root)
    }

    /// Returns an iteration over all entries of the table, as [`iter`](Self::iter) does.
    pub fn into_iter(&self) -> (iter: Iter<'_, A, V>)
        requires
            self.wf(),
        ensures
            iter.wf(),
            model::is_listing(iter.remaining(), self@),
    {
        self.iter()
    }

    /// Removes all entries.
    pub fn clear(&mut self)
        ensures
            final(self).wf(),
            final(self)@ == Map::<Seq<bool>, V>::empty(),
    {
        self.root = TbNode::new();
        self.count = 0;
    }

    /// Builds a table from prefixes and their values, inserted in the given order.
    pub fn from_iter(pairs: Vec<(IpPrefix<A>, V)>) -> (table: Self)
        ensures
            table.wf(),
            table@ == model::collected(
                pairs@.map_values(|pair: (IpPrefix<A>, V)| (pair.0@, pair.1)),
            ),
            forall|i: int|
                0 <= i < pairs@.len() && (forall|j: int|
                    i < j < pairs@.len() ==> (#[trigger] pairs@[j]).0@ != pairs@[i].0@)
                    ==> table@.contains_key((#[trigger] pairs@[i]).0@) && table@[pairs@[i].0@]
                    == pairs@[i].1,
            forall|key: Seq<bool>| #[trigger]
                table@.contains_key(key) ==> exists|i: int|
                    0 <= i < pairs@.len() && (#[trigger] pairs@[i]).0@ == key,
    {
        let ghost listed = pairs@.map_values(|pair: (IpPrefix<A>, V)| (pair.0@, pair.1));
        let ghost total: usize = pairs.len();
        let mut table: RouteMap<A, V> = RouteMap::new();
        assert(listed.take(0) =~= Seq::<(Seq<bool>, V)>::empty());
        for pair in it: pairs.into_iter()
            invariant
                listed == pairs@.map_values(|pair: (IpPrefix<A>, V)| (pair.0@, pair.1)),
                it.seq() == pairs@,
                pairs@.len() == total,
                table.wf(),
                table@ == model::collected(listed.take(it.index() as int)),
                table@.len() <= it.index(),
        {
            let (prefix, value) = pair;
            proof {
                let n = it.index() as int;
                assert(listed.take(n + 1).drop_last() =~= listed.take(n));
                assert(listed.take(n + 1).last() == (prefix@, value));
            }
            table.insert(prefix, value);
        }
        assert(listed.take(listed.len() as int) =~= listed);
        proof {
            assert forall|i: int|
                0 <= i < pairs@.len() && (forall|j: int|
                    i < j < pairs@.len() ==> (#[trigger] pairs@[j]).0@
                        != pairs@[i].0@) implies table@.contains_key((#[trigger] pairs@[i]).0@)
                && table@[pairs@[i].0@] == pairs@[i].1 by {
                assert forall|j: int| i < j < listed.len() implies (#[trigger] listed[j]).0
                    != listed[i].0 by {
                    assert(pairs@[j].0@ != pairs@[i].0@);
                }
                crate::laws::law_collected_last_wins(listed, i);
            }
            assert forall|key: Seq<bool>| #[trigger] table@.contains_key(key) implies exists|i: int|
                0 <= i < pairs@.len() && (#[trigger] pairs@[i]).0@ == key by {
                crate::laws::law_collected_keys(listed, key);
                let i = choose|i: int| 0 <= i < listed.len() && (#[trigger] listed[i]).0 == key;
                assert(pairs@[i].0@ == key);
            }
        }
        table
    }

    /// Returns the number of prefix entries in the table.
    pub fn len(&self) -> (count: usize)
        requires
            self.wf(),
        ensures
            count == self@.len(),
    {
        self.count
    }

    /// Returns `true` if the table contains no entries.
    pub fn is_empty(&self) -> (empty: bool)
        requires
            self.wf(),
        ensures
            empty == (self@.len() == 0),
            empty == (self@ == Map::<Seq<bool>, V>::empty()),
    {
        proof {
            if self.count == 0 {
                assert(self@.dom() =~= Set::empty());
                assert(self@ =~= Map::<Seq<bool>, V>::empty());
            }
        }
        self.count == 0
    }
}

impl<A: IpAddress, V: Clone> Clone for RouteMap<A, V> {
    fn clone(&self) -> (copy: Self)
        ensures
            self.wf() ==> copy.wf() && model::is_clone(self@, copy@),
            self.wf() ==> copy@.dom() == self@.dom(),
            self.wf() ==> forall|key: Seq<bool>| #[trigger]
                self@.contains_key(key) ==> cloned::<V>(self@[key], copy@[key]),
    {
        RouteMap { root: self.root.clone(), count: self.count, _marker: PhantomData }
    }
}

impl<A: IpAddress, V> Default for RouteMap<A, V> {
    fn default() -> (table: Self)
        ensures
            table.wf(),
            table@ == Map::<Seq<bool>, V>::empty(),
    {
        RouteMap::new()
    }
}

} // verus!
