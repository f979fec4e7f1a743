//! What holds of every well-formed tree.
use vstd::prelude::*;
use vstd::arithmetic::power2;
use crate::address;
use crate::bits;
use crate::treebitmap::node;
use crate::treebitmap::node::TbNode;

verus! {

/// A tree that resolves `depth` nibbles holds no entry of more than `4 * depth` bits.
pub proof fn law_keys_fit<V>(node: TbNode<V>, depth: nat, key: Seq<bool>)
    requires
        node.wf(depth),
        node@.contains_key(key),
    ensures
        key.len() <= 4 * depth,
    decreases depth,
{
    if key.len() < 4 {
        bits::lemma_heap_index_range(key);
    } else {
        let nib = bits::nibble_value(key.take(4));
        bits::lemma_zero_bitmap(node.external);
        bits::lemma_slot_in_bounds(node.external, nib);
        let child = node.children@[bits::count_below(node.external, nib) as int];
        assert(child.wf((depth - 1) as nat));
        assert(child@.contains_key(key.skip(4)));
        law_keys_fit(child, (depth - 1) as nat, key.skip(4));
    }
}

/// No branch is dead: a node that holds anything leads to at least one entry.
pub proof fn law_no_dead_branches<V>(node: TbNode<V>, depth: nat)
    requires
        node.wf(depth),
        node.occupied(),
    ensures
        exists|key: Seq<bool>| node@.contains_key(key),
    decreases depth,
{
    bits::lemma_zero_bitmap(node.internal);
    bits::lemma_zero_bitmap(node.external);
    if node.internal != 0 {
        let position = choose|i: int| bits::has_bit(node.internal, i);
        let key = bits::heap_path(position);
        bits::lemma_heap_path_inverse(position);
        bits::lemma_heap_path_len(position);
        assert(node@.contains_key(key));
    } else {
        let nib = choose|i: int| bits::has_bit(node.external, i);
        bits::lemma_slot_in_bounds(node.external, nib);
        let child = node.children@[bits::count_below(node.external, nib) as int];
        assert(child.wf((depth - 1) as nat) && child.occupied());
        law_no_dead_branches(child, (depth - 1) as nat);
        let rest = choose|key: Seq<bool>| child@.contains_key(key);
        lemma_find_below(node, nib, rest);
        assert(node@.contains_key(bits::nibble_bits(nib) + rest));
    }
}

/// An entry behind a nibble is the entry of the child for that nibble.
proof fn lemma_find_below<V>(node: TbNode<V>, nib: int, rest: Seq<bool>)
    requires
        0 <= nib < 16,
    ensures
        node.find(bits::nibble_bits(nib) + rest) == match bits::slot(
            node.external,
            node.children@,
            nib,
        ) {
            Some(child) => child.find(rest),
            None => None,
        },
{
    let key = bits::nibble_bits(nib) + rest;
    bits::lemma_nibble_bits(nib);
    assert(key.take(4) =~= bits::nibble_bits(nib));
    assert(key.skip(4) =~= rest);
}

/// The tree has a node behind the bits of `path`, four of them at a time.
pub open spec fn has_node<V>(node: TbNode<V>, path: Seq<bool>) -> bool
    decreases path.len(),
{
    if path.len() < 4 {
        path.len() == 0
    } else {
        match bits::slot(node.external, node.children@, bits::nibble_value(path.take(4))) {
            Some(child) => has_node(child, path.skip(4)),
            None => false,
        }
    }
}

/// The nodes follow from the entries: apart from the root, a node is there exactly behind
/// the whole nibbles with which the key of an entry begins. The way to a node takes at most
/// `depth` hops.
pub proof fn law_nodes_follow_entries<V>(node: TbNode<V>, depth: nat, path: Seq<bool>)
    requires
        node.wf(depth),
    ensures
        has_node(node, path) <==> path.len() == 0 || path.len() % 4 == 0 && exists|
            key: Seq<bool>,
        | #[trigger]
            node@.contains_key(key) && path.is_prefix_of(key),
        has_node(node, path) ==> path.len() <= 4 * depth,
    decreases depth,
{
    if path.len() >= 4 {
        let group = path.take(4);
        let nib = bits::nibble_value(group);
        bits::lemma_nibble_value(group);
        bits::lemma_zero_bitmap(node.external);
        if bits::has_bit(node.external, nib) {
            bits::lemma_slot_in_bounds(node.external, nib);
            let child = node.children@[bits::count_below(node.external, nib) as int];
            assert(child.wf((depth - 1) as nat) && child.occupied());
            law_nodes_follow_entries(child, (depth - 1) as nat, path.skip(4));
            if has_node(node, path) {
                let below = path.skip(4);
                if below.len() == 0 {
                    law_no_dead_branches(child, (depth - 1) as nat);
                    let key = choose|key: Seq<bool>| child@.contains_key(key);
                    assert(below =~= key.subrange(0, 0));
                    assert(child@.contains_key(key) && below.is_prefix_of(key));
                }
                let rest = choose|key: Seq<bool>| #[trigger]
                    child@.contains_key(key) && below.is_prefix_of(key);
                assert(below =~= rest.take(below.len() as int));
                assert(path =~= group + below);
                lemma_find_below(node, nib, rest);
                assert(path =~= (group + rest).take(path.len() as int));
                assert(node@.contains_key(group + rest));
            }
        }
        assert forall|key: Seq<bool>| #[trigger]
            node@.contains_key(key) && path.is_prefix_of(key) && path.len() % 4
                == 0 implies has_node(node, path) by {
            assert(key.take(4) =~= group);
            let child = node.children@[bits::count_below(node.external, nib) as int];
            assert(child@.contains_key(key.skip(4)));
            assert(path.skip(4) =~= key.skip(4).take(path.len() - 4));
        }
    }
}

/// Two trees have the same shape and hold the same values at the same places.
pub open spec fn same_tree<V>(a: TbNode<V>, b: TbNode<V>, depth: nat) -> bool
    decreases depth,
{
    &&& a.internal == b.internal
    &&& a.external == b.external
    &&& a.values@ == b.values@
    &&& a.children@.len() == b.children@.len()
    &&& depth > 0 ==> forall|j: int|
        0 <= j < a.children@.len() ==> same_tree(
            #[trigger] a.children@[j],
            b.children@[j],
            (depth - 1) as nat,
        )
}

/// The tree is determined by its entries: however a table came to hold them, in which order
/// they were inserted and what was removed meanwhile, the tree is the same.
pub proof fn law_same_entries_same_tree<V>(a: TbNode<V>, b: TbNode<V>, depth: nat)
    requires
        a.wf(depth),
        b.wf(depth),
        a@ == b@,
    ensures
        same_tree(a, b, depth),
    decreases depth,
{
    lemma_same_view_same_find(a, b);
    assert forall|i: int| #[trigger] bits::slot(a.internal, a.values@, i) == bits::slot(
        b.internal,
        b.values@,
        i,
    ) by {
        if 1 <= i < 16 {
            let key = bits::heap_path(i);
            bits::lemma_heap_path_inverse(i);
            bits::lemma_heap_path_len(i);
            assert(a.find(key) == b.find(key));
        }
    }
    bits::lemma_same_slots(a.internal, a.values@, b.internal, b.values@);
    assert forall|i: int| bits::has_bit(a.external, i) == #[trigger] bits::has_bit(
        b.external,
        i,
    ) by {
        if bits::has_bit(a.external, i) {
            lemma_branch_shared(a, b, depth, i);
        }
        if bits::has_bit(b.external, i) {
            lemma_branch_shared(b, a, depth, i);
        }
    }
    bits::lemma_same_bitmap(a.external, b.external);
    if depth > 0 {
        assert forall|j: int| 0 <= j < a.children@.len() implies same_tree(
            #[trigger] a.children@[j],
            b.children@[j],
            (depth - 1) as nat,
        ) by {
            let nib = bits::lemma_rank_onto(a.external, j, 32);
            let child_a = a.children@[j];
            let child_b = b.children@[j];
            assert forall|rest: Seq<bool>| #[trigger] child_a.find(rest) == child_b.find(rest) by {
                lemma_find_below(a, nib, rest);
                lemma_find_below(b, nib, rest);
                assert(a.find(bits::nibble_bits(nib) + rest) == b.find(
                    bits::nibble_bits(nib) + rest,
                ));
            }
            assert(child_a@ =~= child_b@);
            law_same_entries_same_tree(child_a, child_b, (depth - 1) as nat);
        }
    }
}

/// Trees with the same entries find the same.
proof fn lemma_same_view_same_find<V>(a: TbNode<V>, b: TbNode<V>)
    requires
        a@ == b@,
    ensures
        forall|key: Seq<bool>| #[trigger] a.find(key) == b.find(key),
{
    assert forall|key: Seq<bool>| #[trigger] a.find(key) == b.find(key) by {
        assert(a@.contains_key(key) == b@.contains_key(key));
        if a@.contains_key(key) {
            assert(a@[key] == a.find(key)->Some_0);
            assert(b@[key] == b.find(key)->Some_0);
        }
    }
}

/// A branch of one tree is a branch of any tree with the same entries.
proof fn lemma_branch_shared<V>(a: TbNode<V>, b: TbNode<V>, depth: nat, nib: int)
    requires
        a.wf(depth),
        a@ == b@,
        bits::has_bit(a.external, nib),
    ensures
        bits::has_bit(b.external, nib),
{
    lemma_same_view_same_find(a, b);
    bits::lemma_zero_bitmap(a.external);
    bits::lemma_slot_in_bounds(a.external, nib);
    let child = a.children@[bits::count_below(a.external, nib) as int];
    assert(child.wf((depth - 1) as nat) && child.occupied());
    law_no_dead_branches(child, (depth - 1) as nat);
    let rest = choose|key: Seq<bool>| child@.contains_key(key);
    lemma_find_below(a, nib, rest);
    lemma_find_below(b, nib, rest);
    assert(a.find(bits::nibble_bits(nib) + rest) == b.find(bits::nibble_bits(nib) + rest));
}

/// A node keeps a string of fewer than four bits itself: it is an entry exactly if the
/// internal bit of its heap position is set, and its value stands behind the values of the
/// lower positions.
pub proof fn law_own_entries<V>(node: TbNode<V>, key: Seq<bool>)
    requires
        key.len() < 4,
    ensures
        node@.contains_key(key) <==> bits::has_bit(node.internal, bits::heap_index(key)),
        node@.contains_key(key) ==> node@[key] == node.values@[bits::count_below(
            node.internal,
            bits::heap_index(key),
        ) as int],
{
}

/// A longer string is an entry exactly if the external bit of its first nibble is set and the
/// rest is an entry of that child, which stands behind the children of the lower nibbles.
pub proof fn law_entries_of_children<V>(node: TbNode<V>, key: Seq<bool>)
    requires
        key.len() >= 4,
    ensures
        ({
            let nib = bits::nibble_value(key.take(4));
            let child = node.children@[bits::count_below(node.external, nib) as int];
            &&& node@.contains_key(key) <==> bits::has_bit(node.external, nib)
                && child@.contains_key(key.skip(4))
            &&& node@.contains_key(key) ==> node@[key] == child@[key.skip(4)]
        }),
{
}

/// A node is occupied exactly if one of its bitmaps is not zero, which means that it leads to
/// at least one entry.
pub proof fn law_occupied<V>(node: TbNode<V>, depth: nat)
    requires
        node.wf(depth),
    ensures
        node.occupied() <==> node.internal != 0 || node.external != 0,
        node.occupied() <==> exists|key: Seq<bool>| node@.contains_key(key),
        !node.occupied() <==> node.values@.len() == 0 && node.children@.len() == 0,
{
    bits::lemma_zero_bitmap(node.internal);
    bits::lemma_zero_bitmap(node.external);
    bits::lemma_zero_bitmap(0);
    if node.occupied() {
        law_no_dead_branches(node, depth);
        if node.internal != 0 {
            let i = choose|i: int| bits::has_bit(node.internal, i);
            bits::lemma_slot_in_bounds(node.internal, i);
        } else {
            let i = choose|i: int| bits::has_bit(node.external, i);
            bits::lemma_slot_in_bounds(node.external, i);
        }
    } else {
        bits::lemma_count_flat(node.internal, 0, 32);
        bits::lemma_count_flat(node.external, 0, 32);
        assert forall|key: Seq<bool>| !node@.contains_key(key) by {
        }
    }
}

/// What is left of a prefix after `current_hop` nibbles: the binary digits of the address
/// from there up to the length of the prefix.
pub proof fn law_rest_of_key(
    addr: u128,
    addr_bits: u32,
    current_hop: u32,
    full_hops: u32,
    rel_len: u32,
    i: int,
)
    requires
        current_hop <= full_hops,
        4 * full_hops + rel_len <= addr_bits <= 128,
    ensures
        ({
            let rest = node::rest_of_key(addr, addr_bits, current_hop, full_hops, rel_len);
            &&& rest.len() == 4 * full_hops + rel_len - 4 * current_hop
            &&& 0 <= i < rest.len() ==> (rest[i] <==> (addr as nat / power2::pow2(
                (addr_bits - 1 - 4 * current_hop - i) as nat,
            )) % 2 == 1)
        }),
{
    address::law_leading_bits(
        addr,
        addr_bits as nat,
        (4 * full_hops + rel_len) as nat,
        4 * current_hop + i,
    );
}

/// The arrays of a node have no gaps: there are as many values as internal bits, at positions
/// from 1 to 15, and as many children as external bits, at nibbles from 0 to 15.
pub proof fn law_arrays_are_compact<V>(node: TbNode<V>, depth: nat, i: int)
    requires
        node.wf(depth),
    ensures
        node.values@.len() == Set::new(
            |i: int| 0 <= i < 32 && bits::has_bit(node.internal, i),
        ).len(),
        node.children@.len() == Set::new(
            |i: int| 0 <= i < 32 && bits::has_bit(node.external, i),
        ).len(),
        bits::has_bit(node.internal, i) ==> 1 <= i <= 15,
        bits::has_bit(node.external, i) ==> 0 <= i <= 15,
{
    bits::law_count_is_cardinality(node.internal, 32);
    bits::law_count_is_cardinality(node.external, 32);
}

} // verus!
