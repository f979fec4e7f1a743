//! A routing table backed by an arena trie.
use std::marker::PhantomData;
use vstd::prelude::*;
use crate::address;
use crate::address::IpAddress;
use crate::arena::node::{ArenaNode, NULL};
use crate::model;
use crate::prefix::IpPrefix;

verus! {

/// The index of the node that a bit string leads to.
pub open spec fn walk<V>(nodes: Seq<ArenaNode<V>>, path: Seq<bool>) -> Option<int>
    decreases path.len(),
{
    if path.len() == 0 {
        Some(0)
    } else {
        match walk(nodes, path.drop_last()) {
            Some(parent) => {
                let child = nodes[parent].child(path.last());
                if child == NULL {
                    None
                } else {
                    Some(child as int)
                }
            },
            None => None,
        }
    }
}

/// The value stored for a bit string.
pub open spec fn find<V>(nodes: Seq<ArenaNode<V>>, path: Seq<bool>) -> Option<V> {
    match walk(nodes, path) {
        Some(i) => nodes[i].value,
        None => None,
    }
}

/// How many nodes on the way along a bit string are missing.
pub open spec fn missing<V>(nodes: Seq<ArenaNode<V>>, path: Seq<bool>) -> nat
    decreases path.len(),
{
    if path.len() == 0 || walk(nodes, path) is Some {
        0
    } else {
        1 + missing(nodes, path.drop_last())
    }
}

/// The nodes form a tree: children have larger indices than their parents, and no node is
/// the child of two.
pub open spec fn is_tree<V>(nodes: Seq<ArenaNode<V>>) -> bool {
    &&& 1 <= nodes.len() <= NULL
    &&& forall|i: int, bit: bool|
        0 <= i < nodes.len() && (#[trigger] nodes[i].child(bit)) != NULL ==> i < nodes[i].child(bit)
            < nodes.len()
    &&& forall|i: int, bit: bool, j: int, other: bool|
        0 <= i < nodes.len() && 0 <= j < nodes.len() && (#[trigger] nodes[i].child(bit)) != NULL
            && nodes[i].child(bit) == (#[trigger] nodes[j].child(other)) ==> i == j && bit == other
}

/// Every child except possibly the node `at` holds a value or has a child itself.
pub open spec fn is_pruned_except<V>(nodes: Seq<ArenaNode<V>>, at: int) -> bool {
    forall|i: int, bit: bool|
        0 <= i < nodes.len() && (#[trigger] nodes[i].child(bit)) != NULL && nodes[i].child(bit)
            != at ==> nodes[nodes[i].child(bit) as int].occupied()
}

/// A routing table backed by a binary trie whose nodes live in one vector.
pub struct ArenaTable<A: IpAddress, V> {
    nodes: Vec<ArenaNode<V>>,
    _marker: PhantomData<A>,
}

impl<A: IpAddress, V> View for ArenaTable<A, V> {
    type V = Map<Seq<bool>, V>;

    /// The entries of the table, by their network bits.
    closed spec fn view(&self) -> Map<Seq<bool>, V> {
        Map::new(
            |path: Seq<bool>| find(self.nodes@, path) is Some,
            |path: Seq<bool>| find(self.nodes@, path)->Some_0,
        )
    }
}

impl<A: IpAddress, V> ArenaTable<A, V> {
    /// The nodes form a tree without dead branches.
    pub closed spec fn wf(&self) -> bool {
        &&& is_tree(self.nodes@)
        &&& is_pruned_except(self.nodes@, 0)
    }

    /// The number of nodes that have been allocated; at most `u32::MAX`.
    pub closed spec fn allocated(&self) -> nat {
        self.nodes@.len()
    }

    /// The number of nodes that an entry for `path` needs and that are not there yet.
    pub closed spec fn missing(&self, path: Seq<bool>) -> nat {
        missing(self.nodes@, path)
    }

    /// The nodes follow from the entries: a node is there for exactly those bit strings,
    /// other than that of the root, with which the prefix of an entry begins. In particular
    /// a removal leaves no dead branch behind.
    pub proof fn law_nodes_follow_entries(&self, path: Seq<bool>)
        requires
            self.wf(),
        ensures
            path.len() == 0 ==> self.missing(path) == 0,
            path.len() > 0 ==> self.missing(path) == if exists|key: Seq<bool>| #[trigger]
                self@.contains_key(key) && path.is_prefix_of(key) {
                0
            } else {
                1 + self.missing(path.drop_last())
            },
    {
        if path.len() > 0 && walk(self.nodes@, path) is Some {
            let key = lemma_entry_beneath(self.nodes@, path);
            assert(self@.contains_key(key));
        } else if path.len() > 0 {
            assert forall|key: Seq<bool>| #[trigger]
                self@.contains_key(key) implies !path.is_prefix_of(key) by {
                if path.is_prefix_of(key) {
                    lemma_missing_grows(self.nodes@, key, path.len() as int);
                }
            }
        }
    }

    /// Creates a new, empty table.
    pub fn new() -> (table: Self)
        ensures
            table.wf(),
            table@ == Map::<Seq<bool>, V>::empty(),
            table.allocated() == 1,
    {
        let root = ArenaNode::new();
        let mut nodes: Vec<ArenaNode<V>> = Vec::new();
        nodes.push(root);
        let table = ArenaTable { nodes, _marker: PhantomData };
        proof {
            assert forall|path: Seq<bool>| find(table.nodes@, path) is None by {
                lemma_empty_walk(table.nodes@, path);
            }
            assert(table@ =~= Map::<Seq<bool>, V>::empty());
        }
        table
    }

    /// Inserts a prefix and its associated value into the table.
    ///
    /// If an entry already exists for this prefix, its value is replaced. Host bits in the
    /// prefix address are ignored.
    pub fn insert(&mut self, prefix: IpPrefix<A>, value: V)
        requires
            old(self).wf(),
            old(self).allocated() + prefix@.len() <= u32::MAX || old(self).allocated() + old(
                self,
            ).missing(prefix@) <= u32::MAX,
        ensures
            final(self).wf(),
            final(self)@ == old(self)@.insert(prefix@, value),
            final(self).allocated() == old(self).allocated() + old(self).missing(prefix@),
            old(self).missing(prefix@) <= prefix@.len(),
    {
        let ghost key = prefix@;
        proof {
            lemma_missing_bounded(self.nodes@, key);
        }
        let prefix = prefix.masked();
        let addr: u128 = prefix.ip().to_u128();
        let len: u32 = prefix.mask() as u32;
        let mut cur: usize = 0;
        let mut depth: u32 = 0;
        proof {
            A::lemma_width();
        }
        assert(key.take(0) =~= Seq::<bool>::empty());
        while depth < len
            invariant
                depth <= len <= A::width() <= 128,
                A::BITS == A::width(),
                key == address::leading_bits(addr, A::width(), len as nat),
                is_tree(old(self).nodes@),
                is_tree(self.nodes@),
                is_pruned_except(self.nodes@, cur as int),
                walk(self.nodes@, key.take(depth as int)) == Some(cur as int),
                cur < self.nodes@.len(),
                same_entries(self.nodes@, old(self).nodes@),
                old(self).nodes@.len() + missing(old(self).nodes@, key) <= u32::MAX,
                self.nodes@.len() == old(self).nodes@.len() + missing(
                    old(self).nodes@,
                    key.take(depth as int),
                ),
                walk(old(self).nodes@, key.take(depth as int)) is Some ==> self.nodes@ == old(
                    self,
                ).nodes@,
                walk(old(self).nodes@, key.take(depth as int)) is None ==> self.nodes@[cur as int].child(
                    false) == NULL && self.nodes@[cur as int].child(true) == NULL,
            decreases len - depth,
        {
            let side: bool = address::bit_at(addr, A::BITS as u32, depth);
            let bit: usize = if side {
                1
            } else {
                0
            };
            let ghost before = self.nodes@;
            let ghost at = key.take(depth as int);
            let child_idx: u32 = self.nodes[cur].children[bit];
            proof {
                assert(key.take(depth + 1) =~= at.push(side));
                assert(at.push(side).drop_last() =~= at);
                lemma_missing_grows(old(self).nodes@, key, depth + 1);
            }
            let next: usize = if child_idx == NULL {
                let new_idx: u32 = self.nodes.len() as u32;
                self.nodes.push(ArenaNode::new());
                self.nodes[cur].children[bit] = new_idx;
                proof {
                    let after = self.nodes@;
                    assert forall|i: int, b: bool|
                        0 <= i < after.len() implies #[trigger] after[i].child(b) == if i == cur
                        && b == side {
                        new_idx
                    } else if i == new_idx {
                        NULL
                    } else {
                        before[i].child(b)
                    } by {
                    }
                    lemma_allocate(before, after, cur as int, side);
                    lemma_link(before, after, at, side);
                }
                new_idx as usize
            } else {
                child_idx as usize
            };
            cur = next;
            depth = depth + 1;
        }
        assert(key.take(len as int) =~= key);
        let ghost before = self.nodes@;
        self.nodes[cur].value = Some(value);
        proof {
            let after = self.nodes@;
            assert forall|i: int, b: bool|
                0 <= i < after.len() implies #[trigger] after[i].child(b) == before[i].child(b) by {
            }
            assert forall|path: Seq<bool>| #[trigger]
                find(after, path) == if path == key {
                    Some(value)
                } else {
                    find(old(self).nodes@, path)
                } by {
                lemma_same_children_same_walk(before, after, path);
                if walk(before, path) == Some(cur as int) {
                    lemma_walk_unique(before, path, key);
                }
                lemma_walk_in_bounds(before, path);
                assert(find(before, path) == find(old(self).nodes@, path));
            }
            assert(self@ =~= old(self)@.insert(key, value));
        }
    }

    /// The number of nodes that have been allocated, pruned ones included.
    pub fn allocated_nodes(&self) -> (count: usize)
        ensures
            count == self.allocated(),
    {
        self.nodes.len()
    }

    /// Returns a reference to the value for the most specific matching prefix, or `None` if
    /// no prefix in the table matches `addr`.
    pub fn longest_match(&self, addr: A) -> (value: Option<&V>)
        requires
            self.wf(),
        ensures
            match value {
                Some(v) => exists|key: Seq<bool>| #[trigger]
                    model::is_longest_match(self@, address::address_bits(addr), key) && *v
                        == self@[key],
                None => model::is_unmatched(self@, address::address_bits(addr)),
            },
    {
        let ghost all = address::address_bits(addr);
        let number: u128 = addr.to_u128();
        let mut cur: usize = 0;
        let mut best: Option<&V> = self.nodes[0].value.as_ref();
        let mut depth: u32 = 0;
        let ghost mut best_len: int = 0;
        proof {
            A::lemma_width();
            assert(all.take(0) =~= Seq::<bool>::empty());
        }
        while depth < A::BITS as u32
            invariant_except_break
                cur < self.nodes@.len(),
                walk(self.nodes@, all.take(depth as int)) == Some(cur as int),
                is_best(self.nodes@, all, depth as int, best_len, best),
            invariant
                depth <= A::width() <= 128,
                A::BITS == A::width(),
                is_tree(self.nodes@),
                number == addr.number(),
                all == address::address_bits(addr),
            ensures
                is_best(self.nodes@, all, A::width() as int, best_len, best),
            decreases A::width() - depth,
        {
            let side: bool = address::bit_at(number, A::BITS as u32, depth);
            let bit: usize = if side {
                1
            } else {
                0
            };
            let child_idx: u32 = self.nodes[cur].children[bit];
            proof {
                assert(all.take(depth + 1) =~= all.take(depth as int).push(side));
                assert(all.take(depth + 1).drop_last() =~= all.take(depth as int));
            }
            if child_idx == NULL {
                proof {
                    assert forall|k: int| depth < k <= all.len() implies #[trigger] find(
                        self.nodes@,
                        all.take(k),
                    ) is None by {
                        lemma_missing_grows(self.nodes@, all.take(k), depth + 1);
                        assert(all.take(k).take(depth + 1) =~= all.take(depth + 1));
                    }
                }
                break;
            }
            cur = child_idx as usize;
            depth = depth + 1;
            if let Some(v) = self.nodes[cur].value.as_ref() {
                best = Some(v);
                proof {
                    best_len = depth as int;
                }
            }
        }
        proof {
            assert forall|key: Seq<bool>| #[trigger] key.is_prefix_of(all) implies key == all.take(
                key.len() as int,
            ) && 0 <= key.len() <= A::width() by {
            }
            if best is Some {
                assert(model::is_longest_match(self@, all, all.take(best_len)));
            }
        }
        best
    }

    /// Removes the entry for `prefix` and returns its value, or `None` if not found.
    ///
    /// Host bits in the prefix address are ignored.
    pub fn remove(&mut self, prefix: IpPrefix<A>) -> (value: Option<V>)
        requires
            old(self).wf(),
        ensures
            final(self).wf(),
            final(self)@ == old(self)@.remove(prefix@),
            value == if old(self)@.contains_key(prefix@) {
                Some(old(self)@[prefix@])
            } else {
                None
            },
            final(self).allocated() == old(self).allocated(),
    {
        let ghost key = prefix@;
        let prefix = prefix.masked();
        proof {
            A::lemma_width();
            assert(key.take(0) =~= Seq::<bool>::empty());
        }
        let (value, _) = Self::remove_recursive(
            &mut self.nodes,
            0,
            prefix.ip().to_u128(),
            0,
            prefix.mask() as u32,
        );
        assert(self@ =~= old(self)@.remove(key));
        value
    }

    /// Returns `true` if the table contains an exact entry for this prefix.
    ///
    /// This is an exact match, not a longest-prefix match. Host bits are ignored.
    pub fn contains(&self, prefix: IpPrefix<A>) -> (found: bool)
        requires
            self.wf(),
        ensures
            found == self@.contains_key(prefix@),
    {
        let ghost key = prefix@;
        let network = prefix.masked();
        let addr: u128 = network.ip().to_u128();
        let len: u32 = network.mask() as u32;
        let mut cur: usize = 0;
        let mut depth: u32 = 0;
        proof {
            A::lemma_width();
            assert(key.take(0) =~= Seq::<bool>::empty());
        }
        while depth < len
            invariant
                depth <= len <= A::width() <= 128,
                A::BITS == A::width(),
                key == prefix@,
                key == address::leading_bits(addr, A::width(), len as nat),
                is_tree(self.nodes@),
                cur < self.nodes@.len(),
                walk(self.nodes@, key.take(depth as int)) == Some(cur as int),
            decreases len - depth,
        {
            let side: bool = address::bit_at(addr, A::BITS as u32, depth);
            let bit: usize = if side {
                1
            } else {
                0
            };
            let child_idx: u32 = self.nodes[cur].children[bit];
            proof {
                assert(key.take(depth + 1) =~= key.take(depth as int).push(side));
                assert(key.take(depth + 1).drop_last() =~= key.take(depth as int));
            }
            if child_idx == NULL {
                proof {
                    lemma_missing_grows(self.nodes@, key, depth + 1);
                    assert(walk(self.nodes@, key.take(depth + 1)) is None);
                    assert(find(self.nodes@, key) is None);
                }
                return false;
            }
            cur = child_idx as usize;
            depth = depth + 1;
        }
        assert(key.take(len as int) =~= key);
        self.nodes[cur].value.is_some()
    }

    /// Removes the value of a prefix below the node `cur`, which the prefix reaches after
    /// `depth` bits. Returns the value, and whether `cur` is left without value and children
    /// and is to be unlinked. A node that had neither before, and from which the prefix goes
    /// on, is not reported.
    fn remove_recursive(
        nodes: &mut Vec<ArenaNode<V>>,
        cur: u32,
        addr: u128,
        depth: u32,
        target_depth: u32,
    ) -> (removed: (Option<V>, bool))
        requires
            is_tree(old(nodes)@),
            is_pruned_except(old(nodes)@, 0),
            depth <= target_depth <= A::width() <= 128,
            walk(
                old(nodes)@,
                address::leading_bits(addr, A::width(), target_depth as nat).take(depth as int),
            ) == Some(cur as int),
        ensures
            is_tree(final(nodes)@),
            is_pruned_except(final(nodes)@, cur as int),
            final(nodes)@.len() == old(nodes)@.len(),
            removed.1 == (!final(nodes)@[cur as int].occupied() && (old(
                nodes,
            )@[cur as int].occupied() || depth == target_depth)),
            ({
                let key = address::leading_bits(addr, A::width(), target_depth as nat);
                &&& removed.0 == find(old(nodes)@, key)
                &&& forall|path: Seq<bool>| #[trigger]
                    find(final(nodes)@, path) == if path == key {
                        None
                    } else {
                        find(old(nodes)@, path)
                    }
            }),
            forall|i: int| 0 <= i < cur ==> #[trigger] final(nodes)@[i] == old(nodes)@[i],
        decreases target_depth - depth,
    {
        let ghost key = address::leading_bits(addr, A::width(), target_depth as nat);
        let ghost before = nodes@;
        let ghost at = key.take(depth as int);
        proof {
            A::lemma_width();
            lemma_walk_in_bounds(before, at);
        }
        if depth == target_depth {
            assert(at =~= key);
            let value = nodes[cur as usize].value.take();
            let empty: bool = nodes[cur as usize].children[0] == NULL
                && nodes[cur as usize].children[1] == NULL;
            proof {
                let after = nodes@;
                assert forall|i: int, bit: bool|
                    0 <= i < after.len() implies #[trigger] after[i].child(bit)
                    == before[i].child(bit) by {
                }
                assert forall|path: Seq<bool>| #[trigger]
                    find(after, path) == if path == key {
                        None
                    } else {
                        find(before, path)
                    } by {
                    lemma_same_children_same_walk(before, after, path);
                    lemma_walk_in_bounds(before, path);
                    if walk(before, path) == Some(cur as int) {
                        lemma_walk_unique(before, path, key);
                    }
                }
            }
            return (value, empty);
        }
        let side: bool = address::bit_at(addr, A::BITS as u32, depth);
        let bit: usize = if side {
            1
        } else {
            0
        };
        let child_idx: u32 = nodes[cur as usize].children[bit];
        proof {
            assert(key.take(depth + 1) =~= at.push(side));
            assert(key.take(depth + 1).drop_last() =~= at);
        }
        if child_idx == NULL {
            proof {
                lemma_missing_grows(before, key, depth + 1);
                assert(walk(before, key.take(depth + 1)) is None);
                assert(find(before, key) is None);
                if depth > 0 {
                    let parent = walk(before, at.drop_last())->Some_0;
                    lemma_walk_in_bounds(before, at.drop_last());
                    assert(before[parent].child(at.last()) == cur);
                }
            }
            return (None, false);
        }
        let (value, prune_child) = Self::remove_recursive(
            nodes,
            child_idx,
            addr,
            depth + 1,
            target_depth,
        );
        let ghost middle = nodes@;
        proof {
            lemma_walk_kept(before, middle, at, child_idx as int);
        }
        if prune_child {
            nodes[cur as usize].children[bit] = NULL;
            proof {
                let after = nodes@;
                assert forall|i: int, b: bool|
                    0 <= i < after.len() implies #[trigger] after[i].child(b) == if i == cur && b
                    == side {
                    NULL
                } else {
                    middle[i].child(b)
                } by {
                }
                assert(middle[cur as int] == before[cur as int]);
                lemma_walk_kept(middle, after, at, cur as int);
                lemma_link(after, middle, at, side);
                assert forall|path: Seq<bool>| #[trigger]
                    find(after, path) == if path == key {
                        None
                    } else {
                        find(before, path)
                    } by {
                    assert(find(middle, path) == find(after, path));
                }
            }
        }
        let this_empty: bool = nodes[cur as usize].value.is_none() && nodes[cur as usize].children[0]
            == NULL && nodes[cur as usize].children[1] == NULL;
        (value, this_empty)
    }
}

/// Linking a fresh childless node at the end of the arena keeps the tree.
proof fn lemma_allocate<V>(
    before: Seq<ArenaNode<V>>,
    after: Seq<ArenaNode<V>>,
    cur: int,
    side: bool,
)
    requires
        is_tree(before),
        is_pruned_except(before, cur),
        0 <= cur < before.len() < NULL,
        before[cur].child(side) == NULL,
        after.len() == before.len() + 1,
        forall|i: int| 0 <= i < before.len() ==> (#[trigger] after[i]).value == before[i].value,
        forall|i: int, bit: bool|
            0 <= i < after.len() ==> #[trigger] after[i].child(bit) == if i == cur && bit == side {
                before.len() as u32
            } else if i == before.len() {
                NULL
            } else {
                before[i].child(bit)
            },
    ensures
        is_tree(after),
        is_pruned_except(after, before.len() as int),
{
    assert forall|i: int, bit: bool|
        0 <= i < after.len() && (#[trigger] after[i].child(bit)) != NULL && after[i].child(bit)
            != before.len() implies after[after[i].child(bit) as int].occupied() by {
        let child = before[i].child(bit) as int;
        assert(after[cur].child(side) == before.len());
        if child != cur {
            assert(before[child].occupied());
            assert(after[child].child(false) == before[child].child(false));
            assert(after[child].child(true) == before[child].child(true));
        }
    }
}

/// Of the first bits of an address, up to `end` of them, the longest that the trie stores a
/// value for are `len`, with the value `best`.
spec fn is_best<V>(
    nodes: Seq<ArenaNode<V>>,
    addr: Seq<bool>,
    end: int,
    len: int,
    best: Option<&V>,
) -> bool {
    match best {
        Some(value) => {
            &&& 0 <= len <= end
            &&& find(nodes, addr.take(len)) == Some(*value)
            &&& forall|k: int| len < k <= end ==> (#[trigger] find(nodes, addr.take(k))) is None
        },
        None => forall|k: int| 0 <= k <= end ==> (#[trigger] find(nodes, addr.take(k))) is None,
    }
}

/// Changing nodes from index `from` on leaves the paths to nodes up to that one as they are.
proof fn lemma_walk_kept<V>(
    a: Seq<ArenaNode<V>>,
    b: Seq<ArenaNode<V>>,
    path: Seq<bool>,
    from: int,
)
    requires
        is_tree(a),
        walk(a, path) is Some,
        walk(a, path)->Some_0 <= from,
        forall|i: int| 0 <= i < from ==> #[trigger] b[i] == a[i],
    ensures
        walk(b, path) == walk(a, path),
    decreases path.len(),
{
    if path.len() > 0 {
        let parent = walk(a, path.drop_last())->Some_0;
        lemma_walk_in_bounds(a, path.drop_last());
        assert(parent < a[parent].child(path.last()));
        lemma_walk_kept(a, b, path.drop_last(), from);
        assert(b[parent] == a[parent]);
    }
}

/// Two tries store the same values.
pub open spec fn same_entries<V>(a: Seq<ArenaNode<V>>, b: Seq<ArenaNode<V>>) -> bool {
    forall|path: Seq<bool>| #[trigger] find(a, path) == find(b, path)
}

/// A path leads to a node of the trie, and only the empty path to the root.
proof fn lemma_walk_in_bounds<V>(nodes: Seq<ArenaNode<V>>, path: Seq<bool>)
    requires
        is_tree(nodes),
    ensures
        walk(nodes, path) matches Some(i) ==> 0 <= i < nodes.len() && (i == 0 <==> path.len() == 0),
    decreases path.len(),
{
    if path.len() > 0 {
        lemma_walk_in_bounds(nodes, path.drop_last());
    }
}

/// Different paths lead to different nodes.
proof fn lemma_walk_unique<V>(nodes: Seq<ArenaNode<V>>, a: Seq<bool>, b: Seq<bool>)
    requires
        is_tree(nodes),
        walk(nodes, a) is Some,
        walk(nodes, a) == walk(nodes, b),
    ensures
        a == b,
    decreases a.len(),
{
    lemma_walk_in_bounds(nodes, a);
    lemma_walk_in_bounds(nodes, b);
    if a.len() > 0 {
        lemma_walk_in_bounds(nodes, a.drop_last());
        lemma_walk_in_bounds(nodes, b.drop_last());
        let parent_a = walk(nodes, a.drop_last())->Some_0;
        let parent_b = walk(nodes, b.drop_last())->Some_0;
        assert(nodes[parent_a].child(a.last()) == nodes[parent_b].child(b.last()));
        lemma_walk_unique(nodes, a.drop_last(), b.drop_last());
        assert(a =~= a.drop_last().push(a.last()));
        assert(b =~= b.drop_last().push(b.last()));
    } else {
        assert(a =~= b);
    }
}

/// Values do not matter for where paths lead.
proof fn lemma_same_children_same_walk<V>(
    a: Seq<ArenaNode<V>>,
    b: Seq<ArenaNode<V>>,
    path: Seq<bool>,
)
    requires
        is_tree(a),
        a.len() == b.len(),
        forall|i: int, bit: bool|
            0 <= i < a.len() ==> #[trigger] b[i].child(bit) == a[i].child(bit),
    ensures
        walk(a, path) == walk(b, path),
    decreases path.len(),
{
    if path.len() > 0 {
        lemma_same_children_same_walk(a, b, path.drop_last());
        lemma_walk_in_bounds(a, path.drop_last());
    }
}

/// An entry needs at most one new node for each of its bits.
proof fn lemma_missing_bounded<V>(nodes: Seq<ArenaNode<V>>, path: Seq<bool>)
    ensures
        missing(nodes, path) <= path.len(),
    decreases path.len(),
{
    if path.len() > 0 {
        lemma_missing_bounded(nodes, path.drop_last());
    }
}

/// More bits cannot need fewer nodes.
proof fn lemma_missing_grows<V>(nodes: Seq<ArenaNode<V>>, path: Seq<bool>, n: int)
    requires
        0 <= n <= path.len(),
    ensures
        missing(nodes, path.take(n)) <= missing(nodes, path),
        walk(nodes, path) is Some ==> walk(nodes, path.take(n)) is Some,
    decreases path.len() - n,
{
    if n < path.len() {
        lemma_missing_grows(nodes, path, n + 1);
        assert(path.take(n + 1).drop_last() =~= path.take(n));
    } else {
        assert(path.take(n) =~= path);
    }
}

/// Trie `b` is trie `a` with a childless node linked below the node that `at` leads to.
/// Only the path to the new node leads elsewhere; without a value in the new node, the two
/// store the same.
proof fn lemma_link<V>(a: Seq<ArenaNode<V>>, b: Seq<ArenaNode<V>>, at: Seq<bool>, side: bool)
    requires
        is_tree(a),
        is_tree(b),
        a.len() <= b.len(),
        walk(a, at) is Some,
        ({
            let cur = walk(a, at)->Some_0;
            let new = b[cur].child(side);
            &&& new != NULL
            &&& a[cur].child(side) == NULL
            &&& b[new as int].child(false) == NULL
            &&& b[new as int].child(true) == NULL
            &&& b[new as int].value is None
            &&& forall|i: int, bit: bool|
                0 <= i < a.len() && !(i == cur && bit == side) ==> #[trigger] b[i].child(bit)
                    == a[i].child(bit)
            &&& forall|i: int| 0 <= i < a.len() ==> (#[trigger] b[i]).value == a[i].value
        }),
    ensures
        walk(b, at) == walk(a, at),
        walk(b, at.push(side)) == Some(b[walk(a, at)->Some_0].child(side) as int),
        same_entries(b, a),
{
    let cur = walk(a, at)->Some_0;
    let new = b[cur].child(side);
    assert forall|path: Seq<bool>| #[trigger]
        walk(b, path) == if path == at.push(side) {
            Some(new as int)
        } else {
            walk(a, path)
        } by {
        lemma_link_path(a, b, at, side, path);
    }
    assert forall|path: Seq<bool>| #[trigger] find(b, path) == find(a, path) by {
        lemma_walk_in_bounds(a, path);
        assert(at.push(side).drop_last() =~= at);
        assert(walk(a, at.push(side)) is None);
        assert(walk(b, path) == if path == at.push(side) {
            Some(new as int)
        } else {
            walk(a, path)
        });
    }
}

proof fn lemma_link_path<V>(
    a: Seq<ArenaNode<V>>,
    b: Seq<ArenaNode<V>>,
    at: Seq<bool>,
    side: bool,
    path: Seq<bool>,
)
    requires
        is_tree(a),
        is_tree(b),
        a.len() <= b.len(),
        walk(a, at) is Some,
        ({
            let cur = walk(a, at)->Some_0;
            let new = b[cur].child(side);
            &&& new != NULL
            &&& a[cur].child(side) == NULL
            &&& b[new as int].child(false) == NULL
            &&& b[new as int].child(true) == NULL
            &&& forall|i: int, bit: bool|
                0 <= i < a.len() && !(i == cur && bit == side) ==> #[trigger] b[i].child(bit)
                    == a[i].child(bit)
        }),
    ensures
        walk(b, path) == if path == at.push(side) {
            Some(b[walk(a, at)->Some_0].child(side) as int)
        } else {
            walk(a, path)
        },
    decreases path.len(),
{
    let cur = walk(a, at)->Some_0;
    let linked = at.push(side);
    assert(linked.drop_last() =~= at);
    if path.len() > 0 {
        let parent = path.drop_last();
        lemma_link_path(a, b, at, side, parent);
        lemma_walk_in_bounds(a, parent);
        lemma_walk_in_bounds(a, at);
        if parent == linked {
            assert(walk(a, linked) is None);
            assert(path != linked);
        } else if walk(a, parent) is Some {
            if walk(a, parent) == Some(cur) {
                lemma_walk_unique(a, parent, at);
                if path.last() == side {
                    assert(path =~= linked);
                }
            }
            if path == linked {
                assert(parent == at);
            }
        } else {
            assert(parent != at);
        }
    }
}

/// Beneath every node but an empty root there is an entry.
proof fn lemma_entry_beneath<V>(nodes: Seq<ArenaNode<V>>, path: Seq<bool>) -> (key: Seq<bool>)
    requires
        is_tree(nodes),
        is_pruned_except(nodes, 0),
        path.len() > 0,
        walk(nodes, path) is Some,
    ensures
        path.is_prefix_of(key),
        find(nodes, key) is Some,
    decreases nodes.len() - walk(nodes, path)->Some_0,
{
    let at = walk(nodes, path)->Some_0;
    let parent = walk(nodes, path.drop_last())->Some_0;
    lemma_walk_in_bounds(nodes, path);
    lemma_walk_in_bounds(nodes, path.drop_last());
    assert(nodes[parent].child(path.last()) == at);
    if nodes[at].value is Some {
        path
    } else {
        let side = nodes[at].child(true) != NULL;
        let longer = path.push(side);
        assert(longer.drop_last() =~= path);
        assert(at < nodes[at].child(side));
        let key = lemma_entry_beneath(nodes, longer);
        assert(path =~= key.take(path.len() as int));
        key
    }
}

/// In a trie of a single childless node only the empty path leads anywhere.
proof fn lemma_empty_walk<V>(nodes: Seq<ArenaNode<V>>, path: Seq<bool>)
    requires
        nodes.len() == 1,
        !nodes[0].occupied(),
    ensures
        path.len() > 0 ==> walk(nodes, path) is None,
    decreases path.len(),
{
    if path.len() > 0 {
        lemma_empty_walk(nodes, path.drop_last());
        if path.len() == 1 {
            assert(path.drop_last() =~= Seq::<bool>::empty());
        }
    }
}

} // verus!
