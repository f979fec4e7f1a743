//! Tree bitmap nodes and the recursive operations on them.
use vstd::prelude::*;
use crate::address;
use crate::bits;
use crate::bits::STRIDE;
use crate::model;

verus! {

/// A node that resolves four address bits.
///
/// A prefix that ends within the node's four bits is an entry of the node itself, at the
/// heap position of the bits it adds. A longer prefix is found below the child for its next
/// four bits.
pub struct TbNode<V> {
    /// Bits 1 to 15: which internal prefix positions are occupied.
    pub internal: u32,
    /// Bits 0 to 15: which child nodes exist, one bit per nibble value.
    pub external: u32,
    /// The values of the occupied positions, in order and without gaps.
    pub values: Vec<V>,
    /// The children of the set external bits, in order and without gaps.
    pub children: Vec<TbNode<V>>,
}

impl<V> TbNode<V> {
    /// The value stored for a bit string below this node.
    pub open spec fn find(self, key: Seq<bool>) -> Option<V>
        decreases key.len(),
    {
        if key.len() < 4 {
            bits::slot(self.internal, self.values@, bits::heap_index(key))
        } else {
            match bits::slot(self.external, self.children@, bits::nibble_value(key.take(4))) {
                Some(child) => child.find(key.skip(4)),
                None => None,
            }
        }
    }

    /// The node holds at least one entry or child.
    pub open spec fn occupied(self) -> bool {
        self.internal != 0 || self.external != 0
    }

    /// The node is the root of a well-formed tree that resolves `depth` more nibbles: the
    /// bitmaps use only their own positions, the arrays are as long as the bitmaps say,
    /// no child is empty, and below the last nibble only the empty string can be stored.
    pub open spec fn wf(self, depth: nat) -> bool
        decreases depth,
    {
        &&& forall|i: int| #[trigger] bits::has_bit(self.internal, i) ==> 1 <= i < 16
        &&& forall|i: int| #[trigger] bits::has_bit(self.external, i) ==> i < 16
        &&& self.values@.len() == bits::count_below(self.internal, 32)
        &&& self.children@.len() == bits::count_below(self.external, 32)
        &&& if depth == 0 {
            &&& self.external == 0
            &&& forall|i: int| #[trigger] bits::has_bit(self.internal, i) ==> i == 1
        } else {
            forall|j: int|
                0 <= j < self.children@.len() ==> (#[trigger] self.children@[j]).wf(
                    (depth - 1) as nat,
                ) && self.children@[j].occupied()
        }
    }

    /// Creates a node without entries and children.
    pub fn new() -> (node: Self)
        ensures
            node@ == Map::<Seq<bool>, V>::empty(),
            !node.occupied(),
            node.internal == 0,
            node.external == 0,
            node.values@.len() == 0,
            node.children@.len() == 0,
            forall|depth: nat| node.wf(depth),
    {
        let node = TbNode { internal: 0, external: 0, values: Vec::new(), children: Vec::new() };
        proof {
            bits::lemma_zero_bitmap(0);
            bits::lemma_count_flat(0, 0, 32);
            assert forall|depth: nat| node.wf(depth) by {
            }
            assert forall|key: Seq<bool>| node.find(key) is None by {
            }
            assert(node@ =~= Map::<Seq<bool>, V>::empty());
        }
        node
    }
}

impl<V> View for TbNode<V> {
    type V = Map<Seq<bool>, V>;

    /// The entries of the tree below this node, by the bits that lead to them.
    open spec fn view(&self) -> Map<Seq<bool>, V> {
        Map::new(|key: Seq<bool>| self.find(key) is Some, |key: Seq<bool>| self.find(key)->Some_0)
    }
}

impl<V: Clone> Clone for TbNode<V> {
    fn clone(&self) -> (copy: Self)
        ensures
            copy.occupied() == self.occupied(),
            forall|depth: nat| #[trigger]
                self.wf(depth) ==> copy.wf(depth) && model::is_clone(self@, copy@),
        decreases self,
    {
        let values: Vec<V> = self.values.clone();
        let mut children: Vec<TbNode<V>> = Vec::new();
        let mut i: usize = 0;
        while i < self.children.len()
            invariant
                i <= self.children@.len(),
                children@.len() == i,
                forall|j: int|
                    0 <= j < i ==> is_cloned_child(self.children@[j], #[trigger] children@[j]),
            decreases self.children@.len() - i,
        {
            let child = self.children[i].clone();
            assert(is_cloned_child(self.children@[i as int], child));
            children.push(child);
            i = i + 1;
        }
        let copy = TbNode { internal: self.internal, external: self.external, values, children };
        proof {
            assert forall|depth: nat| #[trigger] self.wf(depth) implies copy.wf(depth)
                && model::is_clone(self@, copy@) by {
                lemma_clone(*self, copy, depth);
            }
        }
        copy
    }
}

/// What the clone of a child keeps.
spec fn is_cloned_child<V: Clone>(child: TbNode<V>, copy: TbNode<V>) -> bool {
    &&& copy.occupied() == child.occupied()
    &&& forall|depth: nat| #[trigger]
        child.wf(depth) ==> copy.wf(depth) && model::is_clone(child@, copy@)
}

/// A node with the same bitmaps, cloned values and cloned children is a clone.
proof fn lemma_clone<V: Clone>(node: TbNode<V>, copy: TbNode<V>, depth: nat)
    requires
        node.wf(depth),
        copy.internal == node.internal,
        copy.external == node.external,
        copy.values@.len() == node.values@.len(),
        forall|j: int|
            0 <= j < node.values@.len() ==> cloned::<V>(node.values@[j], #[trigger] copy.values@[j]),
        copy.children@.len() == node.children@.len(),
        forall|j: int|
            0 <= j < node.children@.len() ==> is_cloned_child(
                node.children@[j],
                #[trigger] copy.children@[j],
            ),
    ensures
        copy.wf(depth),
        model::is_clone(node@, copy@),
{
    bits::lemma_zero_bitmap(node.external);
    if depth > 0 {
        assert forall|j: int| 0 <= j < copy.children@.len() implies (
        #[trigger] copy.children@[j]).wf((depth - 1) as nat) && copy.children@[j].occupied() by {
            assert(is_cloned_child(node.children@[j], copy.children@[j]));
            assert(node.children@[j].wf((depth - 1) as nat));
        }
    }
    assert forall|key: Seq<bool>|
        (#[trigger] copy.find(key) is Some) == (node.find(key) is Some) && (copy.find(key) is Some
            ==> cloned::<V>(node.find(key)->Some_0, copy.find(key)->Some_0)) by {
        if key.len() < 4 {
            let position = bits::heap_index(key);
            if bits::has_bit(node.internal, position) {
                bits::lemma_slot_in_bounds(node.internal, position);
            }
        } else {
            let nib = bits::nibble_value(key.take(4));
            if bits::has_bit(node.external, nib) {
                bits::lemma_slot_in_bounds(node.external, nib);
                let j = bits::count_below(node.external, nib) as int;
                let child = node.children@[j];
                let child_copy = copy.children@[j];
                assert(is_cloned_child(child, child_copy));
                assert(child.wf((depth - 1) as nat));
                let rest = key.skip(4);
                assert(child_copy@.dom().contains(rest) == child@.dom().contains(rest));
                if child@.contains_key(rest) {
                    assert(child_copy@.contains_key(rest));
                    assert(cloned::<V>(child@[rest], child_copy@[rest]));
                }
            }
        }
    }
    assert(copy@.dom() =~= node@.dom());
    assert forall|key: Seq<bool>| #[trigger] copy@.contains_key(key) implies cloned::<V>(
        node@[key],
        copy@[key],
    ) by {
        assert(copy.find(key) is Some);
    }
}

/// A prefix of `full_hops` nibbles and `rel_len` more bits fits the address width, and the
/// walk towards it has passed `current_hop` of the nibbles.
pub open spec fn on_path(
    addr_bits: u32,
    current_hop: u32,
    full_hops: u32,
    rel_len: u32,
) -> bool {
    &&& addr_bits <= 128
    &&& addr_bits % 4 == 0
    &&& current_hop <= full_hops
    &&& rel_len < 4
    &&& 4 * full_hops + rel_len <= addr_bits
}

/// The bits of a prefix that are left after `current_hop` nibbles.
pub open spec fn rest_of_key(
    addr: u128,
    addr_bits: u32,
    current_hop: u32,
    full_hops: u32,
    rel_len: u32,
) -> Seq<bool> {
    address::leading_bits(addr, addr_bits as nat, (4 * full_hops + rel_len) as nat).skip(
        4 * current_hop,
    )
}

/// How many nibbles the tree below a node resolves.
pub open spec fn depth_below(addr_bits: u32, current_hop: u32) -> nat {
    (addr_bits / 4 - current_hop) as nat
}

/// One nibble splits off the bits that are left.
proof fn lemma_rest_of_key_step(
    addr: u128,
    addr_bits: u32,
    current_hop: u32,
    full_hops: u32,
    rel_len: u32,
)
    requires
        on_path(addr_bits, current_hop, full_hops, rel_len),
        current_hop < full_hops,
    ensures
        rest_of_key(addr, addr_bits, current_hop, full_hops, rel_len).len() >= 4,
        rest_of_key(addr, addr_bits, current_hop, full_hops, rel_len).take(4)
            == address::leading_bits(addr, addr_bits as nat, (4 * current_hop + 4) as nat).skip(
            4 * current_hop,
        ),
        rest_of_key(addr, addr_bits, current_hop, full_hops, rel_len).skip(4) == rest_of_key(
            addr,
            addr_bits,
            (current_hop + 1) as u32,
            full_hops,
            rel_len,
        ),
{
    let key = rest_of_key(addr, addr_bits, current_hop, full_hops, rel_len);
    assert(key.take(4) =~= address::leading_bits(
        addr,
        addr_bits as nat,
        (4 * current_hop + 4) as nat,
    ).skip(4 * current_hop));
    assert(key.skip(4) =~= rest_of_key(
        addr,
        addr_bits,
        (current_hop + 1) as u32,
        full_hops,
        rel_len,
    ));
}

/// The heap position, within the node after `hop` nibbles, of a prefix that ends there.
fn end_position(addr: u128, addr_bits: u32, hop: u32, rel_len: u32) -> (position: u32)
    requires
        on_path(addr_bits, hop, hop, rel_len),
    ensures
        1 <= position < 16,
        position == bits::heap_index(rest_of_key(addr, addr_bits, hop, hop, rel_len)),
{
    if rel_len > 0 {
        let nib: u32 = bits::nibble(addr, addr_bits, hop);
        let position: u32 = bits::stride_position(nib, rel_len);
        proof {
            let group = address::leading_bits(addr, addr_bits as nat, (4 * hop + 4) as nat).skip(
                4 * hop,
            );
            bits::lemma_nibble_value(group);
            assert(group.take(rel_len as int) =~= rest_of_key(
                addr,
                addr_bits,
                hop,
                hop,
                rel_len,
            ));
        }
        position
    } else {
        assert(rest_of_key(addr, addr_bits, hop, hop, rel_len) =~= Seq::<bool>::empty());
        1
    }
}

/// Returns a reference to the value stored for a prefix, or `None` if there is none.
pub fn get_at<V>(
    node: &TbNode<V>,
    addr: u128,
    addr_bits: u32,
    current_hop: u32,
    full_hops: u32,
    rel_len: u32,
) -> (value: Option<&V>)
    requires
        on_path(addr_bits, current_hop, full_hops, rel_len),
        node.wf(depth_below(addr_bits, current_hop)),
    ensures
        ({
            let key = rest_of_key(addr, addr_bits, current_hop, full_hops, rel_len);
            match value {
                Some(v) => node@.contains_key(key) && *v == node@[key],
                None => !node@.contains_key(key),
            }
        }),
    decreases full_hops - current_hop,
{
    if current_hop == full_hops {
        let bpos: u32 = end_position(addr, addr_bits, current_hop, rel_len);
        if bits::test_bit(node.internal, bpos) {
            proof {
                bits::lemma_slot_in_bounds(node.internal, bpos as int);
            }
            Some(&node.values[bits::rank(node.internal, bpos)])
        } else {
            None
        }
    } else {
        let nib: u32 = bits::nibble(addr, addr_bits, current_hop);
        proof {
            lemma_rest_of_key_step(addr, addr_bits, current_hop, full_hops, rel_len);
        }
        if !bits::test_bit(node.external, nib) {
            return None;
        }
        proof {
            bits::lemma_slot_in_bounds(node.external, nib as int);
        }
        let child_idx: usize = bits::rank(node.external, nib);
        get_at(
            &node.children[child_idx],
            addr,
            addr_bits,
            current_hop + 1,
            full_hops,
            rel_len,
        )
    }
}

/// Tells whether a value is stored for a prefix.
pub fn contains_at<V>(
    node: &TbNode<V>,
    addr: u128,
    addr_bits: u32,
    current_hop: u32,
    full_hops: u32,
    rel_len: u32,
) -> (found: bool)
    requires
        on_path(addr_bits, current_hop, full_hops, rel_len),
        node.wf(depth_below(addr_bits, current_hop)),
    ensures
        found == node@.contains_key(
            rest_of_key(addr, addr_bits, current_hop, full_hops, rel_len),
        ),
    decreases full_hops - current_hop,
{
    if current_hop == full_hops {
        let bpos: u32 = end_position(addr, addr_bits, current_hop, rel_len);
        bits::test_bit(node.internal, bpos)
    } else {
        let nib: u32 = bits::nibble(addr, addr_bits, current_hop);
        proof {
            lemma_rest_of_key_step(addr, addr_bits, current_hop, full_hops, rel_len);
        }
        if !bits::test_bit(node.external, nib) {
            return false;
        }
        proof {
            bits::lemma_slot_in_bounds(node.external, nib as int);
        }
        let child_idx: usize = bits::rank(node.external, nib);
        contains_at(
            &node.children[child_idx],
            addr,
            addr_bits,
            current_hop + 1,
            full_hops,
            rel_len,
        )
    }
}

/// Stores a value for a prefix. Returns true when a new entry was created, false when an
/// existing value was overwritten.
pub fn insert_at<V>(
    node: &mut TbNode<V>,
    addr: u128,
    addr_bits: u32,
    current_hop: u32,
    full_hops: u32,
    rel_len: u32,
    value: V,
) -> (is_new: bool)
    requires
        on_path(addr_bits, current_hop, full_hops, rel_len),
        old(node).wf(depth_below(addr_bits, current_hop)),
    ensures
        final(node).wf(depth_below(addr_bits, current_hop)),
        final(node).occupied(),
        final(node)@ == old(node)@.insert(
            rest_of_key(addr, addr_bits, current_hop, full_hops, rel_len),
            value,
        ),
        is_new == !old(node)@.contains_key(
            rest_of_key(addr, addr_bits, current_hop, full_hops, rel_len),
        ),
    decreases full_hops - current_hop,
{
    let ghost before = *node;
    let ghost key = rest_of_key(addr, addr_bits, current_hop, full_hops, rel_len);
    let ghost depth = depth_below(addr_bits, current_hop);
    if current_hop == full_hops {
        let bpos: u32 = end_position(addr, addr_bits, current_hop, rel_len);
        proof {
            bits::lemma_slot_in_bounds(node.internal, bpos as int);
            bits::lemma_zero_bitmap(node.internal);
            bits::lemma_heap_index_range(key);
        }
        let idx: usize = bits::rank(node.internal, bpos);
        if bits::test_bit(node.internal, bpos) {
            node.values[idx] = value;
            proof {
                bits::lemma_slot_update(before.internal, before.values@, bpos as int, value);
                lemma_internal_change(before, *node, depth, key, Some(value));
            }
            false
        } else {
            node.values.insert(idx, value);
            node.internal = node.internal | (1u32 << bpos);
            proof {
                bits::lemma_slot_insert(before.internal, before.values@, bpos, value);
                bits::lemma_set_bit(before.internal, bpos);
                bits::lemma_zero_bitmap(node.internal);
                assert(bits::has_bit(node.internal, bpos as int));
                lemma_internal_change(before, *node, depth, key, Some(value));
            }
            true
        }
    } else {
        let nib: u32 = bits::nibble(addr, addr_bits, current_hop);
        proof {
            lemma_rest_of_key_step(addr, addr_bits, current_hop, full_hops, rel_len);
            bits::lemma_slot_in_bounds(node.external, nib as int);
            assert(depth > 0);
        }
        let already_exists: bool = bits::test_bit(node.external, nib);
        let child_idx: usize = bits::rank(node.external, nib);
        let ghost old_child: Option<TbNode<V>> = bits::slot(
            before.external,
            before.children@,
            nib as int,
        );
        if !already_exists {
            let child = TbNode::new();
            node.children.insert(child_idx, child);
            node.external = node.external | (1u32 << nib);
            proof {
                bits::lemma_slot_insert(before.external, before.children@, nib, child);
                bits::lemma_set_bit(before.external, nib);
            }
        }
        let ghost middle = *node;
        let is_new: bool = insert_at(
            &mut node.children[child_idx],
            addr,
            addr_bits,
            current_hop + 1,
            full_hops,
            rel_len,
            value,
        );
        proof {
            let child = node.children@[child_idx as int];
            bits::lemma_slot_update(middle.external, middle.children@, nib as int, child);
            bits::lemma_zero_bitmap(node.external);
            assert(bits::has_bit(node.external, nib as int));
            lemma_external_change(before, *node, depth, key.take(4), Some(child));
            lemma_entry_below(before, *node, key, Some(value));
        }
        is_new
    }
}

/// Changing the node's own entry at one position changes the tree's entry for one key.
proof fn lemma_internal_change<V>(
    before: TbNode<V>,
    after: TbNode<V>,
    depth: nat,
    key: Seq<bool>,
    entry: Option<V>,
)
    requires
        before.wf(depth),
        key.len() < 4,
        depth == 0 ==> key.len() == 0,
        after.external == before.external,
        after.children == before.children,
        after.values@.len() == bits::count_below(after.internal, 32),
        forall|i: int| #[trigger]
            bits::slot(after.internal, after.values@, i) == if i == bits::heap_index(key) {
                entry
            } else {
                bits::slot(before.internal, before.values@, i)
            },
    ensures
        after.wf(depth),
        entry matches Some(v) ==> after@ == before@.insert(key, v),
        entry is None ==> after@ == before@.remove(key),
{
    let position = bits::heap_index(key);
    bits::lemma_heap_index_range(key);
    bits::lemma_heap_index_inverse(key);
    assert forall|i: int| #[trigger] bits::has_bit(after.internal, i) implies 1 <= i < 16 && (depth
        == 0 ==> i == 1) by {
        assert(bits::slot(after.internal, after.values@, i) is Some);
        assert(i == position || bits::slot(before.internal, before.values@, i) is Some);
        assert(i == position || bits::has_bit(before.internal, i));
    }
    assert forall|other: Seq<bool>| #[trigger]
        after.find(other) == if other == key {
            entry
        } else {
            before.find(other)
        } by {
        if other.len() < 4 {
            bits::lemma_heap_index_inverse(other);
        }
    }
    if entry is Some {
        assert(after@ =~= before@.insert(key, entry->Some_0));
    } else {
        assert(after@ =~= before@.remove(key));
    }
}

/// The entries below one nibble of a node.
pub open spec fn below<V>(node: TbNode<V>, group: Seq<bool>) -> Map<Seq<bool>, V> {
    match bits::slot(node.external, node.children@, bits::nibble_value(group)) {
        Some(child) => child@,
        None => Map::empty(),
    }
}

/// Changing the child for one nibble leaves every other entry as it was.
proof fn lemma_external_change<V>(
    before: TbNode<V>,
    after: TbNode<V>,
    depth: nat,
    group: Seq<bool>,
    child: Option<TbNode<V>>,
)
    requires
        before.wf(depth),
        depth > 0,
        group.len() == 4,
        after.internal == before.internal,
        after.values == before.values,
        after.children@.len() == bits::count_below(after.external, 32),
        forall|j: int|
            0 <= j < after.children@.len() ==> (#[trigger] after.children@[j]).wf(
                (depth - 1) as nat,
            ) && after.children@[j].occupied(),
        forall|i: int| #[trigger]
            bits::slot(after.external, after.children@, i) == if i == bits::nibble_value(group) {
                child
            } else {
                bits::slot(before.external, before.children@, i)
            },
    ensures
        after.wf(depth),
        forall|key: Seq<bool>|
            key.len() < 4 || key.take(4) != group ==> #[trigger] after.find(key) == before.find(
                key,
            ),
{
    bits::lemma_nibble_value(group);
    assert forall|i: int| #[trigger] bits::has_bit(after.external, i) implies i < 16 by {
        assert(bits::slot(after.external, after.children@, i) is Some);
        assert(i == bits::nibble_value(group) || bits::slot(
            before.external,
            before.children@,
            i,
        ) is Some);
        assert(i == bits::nibble_value(group) || bits::has_bit(before.external, i));
    }
    assert forall|key: Seq<bool>|
        key.len() < 4 || key.take(4) != group implies #[trigger] after.find(key) == before.find(
        key,
    ) by {
        if key.len() >= 4 {
            bits::lemma_nibble_value(key.take(4));
        }
    }
}

/// An entry that changes below a child changes alike in the node above.
proof fn lemma_entry_below<V>(
    before: TbNode<V>,
    after: TbNode<V>,
    key: Seq<bool>,
    entry: Option<V>,
)
    requires
        key.len() >= 4,
        forall|other: Seq<bool>|
            other.len() < 4 || other.take(4) != key.take(4) ==> #[trigger] after.find(other)
                == before.find(other),
        entry matches Some(v) ==> below(after, key.take(4)) == below(before, key.take(4)).insert(
            key.skip(4),
            v,
        ),
        entry is None ==> below(after, key.take(4)) == below(before, key.take(4)).remove(
            key.skip(4),
        ),
    ensures
        before@.contains_key(key) == below(before, key.take(4)).contains_key(key.skip(4)),
        entry matches Some(v) ==> after@ == before@.insert(key, v),
        entry is None ==> after@ == before@.remove(key),
{
    let group = key.take(4);
    assert forall|node: TbNode<V>, other: Seq<bool>|
        other.len() >= 4 && other.take(4) == group implies #[trigger] node.find(other) == if below(
        node,
        group,
    ).contains_key(other.skip(4)) {
        Some(below(node, group)[other.skip(4)])
    } else {
        None
    } by {
    }
    assert forall|other: Seq<bool>| #[trigger]
        after.find(other) == if other == key {
            entry
        } else {
            before.find(other)
        } by {
        if other.len() >= 4 && other.take(4) == group {
            if other.skip(4) == key.skip(4) {
                assert(other =~= group + key.skip(4));
                assert(key =~= group + key.skip(4));
            }
        }
    }
    if entry is Some {
        assert(after@ =~= before@.insert(key, entry->Some_0));
    } else {
        assert(after@ =~= before@.remove(key));
    }
}

/// A node without entries and children stands for the empty map.
proof fn lemma_unoccupied_is_empty<V>(node: TbNode<V>)
    requires
        !node.occupied(),
    ensures
        node@ == Map::<Seq<bool>, V>::empty(),
{
    bits::lemma_zero_bitmap(0);
    assert forall|key: Seq<bool>| node.find(key) is None by {
    }
    assert(node@ =~= Map::<Seq<bool>, V>::empty());
}

/// Removes the value stored for a prefix and returns it, together with a flag that tells the
/// caller to drop this node because the removal left it without entries and children.
pub fn remove_at<V>(
    node: &mut TbNode<V>,
    addr: u128,
    addr_bits: u32,
    current_hop: u32,
    full_hops: u32,
    rel_len: u32,
) -> (removed: (Option<V>, bool))
    requires
        on_path(addr_bits, current_hop, full_hops, rel_len),
        old(node).wf(depth_below(addr_bits, current_hop)),
    ensures
        final(node).wf(depth_below(addr_bits, current_hop)),
        ({
            let key = rest_of_key(addr, addr_bits, current_hop, full_hops, rel_len);
            &&& final(node)@ == old(node)@.remove(key)
            &&& removed.0 == if old(node)@.contains_key(key) {
                Some(old(node)@[key])
            } else {
                None
            }
        }),
        removed.1 == (removed.0 is Some && !final(node).occupied()),
        removed.0 is None ==> final(node).internal == old(node).internal && final(node).external
            == old(node).external,
    decreases full_hops - current_hop,
{
    let ghost before = *node;
    let ghost key = rest_of_key(addr, addr_bits, current_hop, full_hops, rel_len);
    let ghost depth = depth_below(addr_bits, current_hop);
    if current_hop == full_hops {
        let bpos: u32 = end_position(addr, addr_bits, current_hop, rel_len);
        if !bits::test_bit(node.internal, bpos) {
            assert(before@ =~= before@.remove(key));
            return (None, false);
        }
        proof {
            bits::lemma_slot_in_bounds(node.internal, bpos as int);
        }
        let idx: usize = bits::rank(node.internal, bpos);
        let value = node.values.remove(idx);
        node.internal = node.internal & !(1u32 << bpos);
        proof {
            bits::lemma_slot_remove(before.internal, before.values@, bpos);
            lemma_internal_change(before, *node, depth, key, None);
        }
        let is_empty: bool = node.internal == 0 && node.external == 0;
        (Some(value), is_empty)
    } else {
        let nib: u32 = bits::nibble(addr, addr_bits, current_hop);
        proof {
            lemma_rest_of_key_step(addr, addr_bits, current_hop, full_hops, rel_len);
            bits::lemma_slot_in_bounds(node.external, nib as int);
            bits::lemma_zero_bitmap(node.external);
        }
        if !bits::test_bit(node.external, nib) {
            assert(before@ =~= before@.remove(key));
            return (None, false);
        }
        let child_idx: usize = bits::rank(node.external, nib);
        let (value, prune) = remove_at(
            &mut node.children[child_idx],
            addr,
            addr_bits,
            current_hop + 1,
            full_hops,
            rel_len,
        );
        let ghost middle = *node;
        let ghost child = node.children@[child_idx as int];
        proof {
            bits::lemma_slot_update(before.external, before.children@, nib as int, child);
        }
        if prune {
            node.children.remove(child_idx);
            node.external = node.external & !(1u32 << nib);
            proof {
                bits::lemma_slot_remove(middle.external, middle.children@, nib);
                lemma_unoccupied_is_empty(child);
                lemma_external_change(before, *node, depth, key.take(4), None);
            }
        } else {
            proof {
                lemma_external_change(before, *node, depth, key.take(4), Some(child));
            }
        }
        proof {
            lemma_entry_below(before, *node, key, None);
        }
        let is_empty: bool = node.internal == 0 && node.external == 0;
        (value, is_empty)
    }
}

} // verus!
