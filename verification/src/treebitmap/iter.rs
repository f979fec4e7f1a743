//! Depth-first iteration over the entries of a table.
use std::marker::PhantomData;
use vstd::prelude::*;
use crate::address;
use crate::address::IpAddress;
use crate::bits;
use crate::bits::STRIDE;
use crate::prefix::IpPrefix;
use crate::treebitmap::entries;
use crate::treebitmap::node;
use crate::treebitmap::node::TbNode;

verus! {

/// A node that the iteration has entered, and how far it has got there.
struct IterFrame<'a, V> {
    node: &'a TbNode<V>,
    hop: u32,
    /// The address bits that lead from the root to the node.
    addr: u128,
    /// Next internal position to look at (1 to 15; 16 when exhausted).
    internal_cursor: u32,
    /// Next nibble to look at (0 to 15; 16 when exhausted).
    external_cursor: u32,
}

impl<'a, V> IterFrame<'a, V> {
    /// The bits that lead to the node.
    spec fn path(self, addr_bits: u32) -> Seq<bool> {
        address::leading_bits(self.addr, addr_bits as nat, (4 * self.hop) as nat)
    }

    /// The frame's place in the tree is consistent with the address width.
    spec fn wf(self, addr_bits: u32) -> bool {
        &&& addr_bits <= 128
        &&& addr_bits % 4 == 0
        &&& 4 * self.hop <= addr_bits
        &&& self.node.wf(node::depth_below(addr_bits, self.hop))
        &&& bits::ends_after(self.addr, addr_bits as nat, 4 * self.hop)
        &&& 1 <= self.internal_cursor <= 16
        &&& self.external_cursor <= 16
    }

    /// What the frame has yet to yield.
    spec fn remaining(self, addr_bits: u32) -> Seq<(Seq<bool>, V)> {
        entries::own_entries(*self.node, self.path(addr_bits), self.internal_cursor as int)
            + entries::child_entries(
            *self.node,
            node::depth_below(addr_bits, self.hop),
            self.path(addr_bits),
            self.external_cursor as int,
        )
    }

    /// The steps that are left until the frame is done with.
    spec fn steps(self, addr_bits: u32) -> nat {
        1 + entries::child_steps(
            *self.node,
            node::depth_below(addr_bits, self.hop),
            self.external_cursor as int,
        )
    }
}

/// What a stack of frames has yet to yield, the top frame first.
spec fn stack_remaining<'a, V>(stack: Seq<IterFrame<'a, V>>, addr_bits: u32) -> Seq<
    (Seq<bool>, V),
>
    decreases stack.len(),
{
    if stack.len() == 0 {
        Seq::empty()
    } else {
        stack.last().remaining(addr_bits) + stack_remaining(stack.drop_last(), addr_bits)
    }
}

/// The steps that are left until a stack of frames is done with.
spec fn stack_steps<'a, V>(stack: Seq<IterFrame<'a, V>>, addr_bits: u32) -> nat
    decreases stack.len(),
{
    if stack.len() == 0 {
        0
    } else {
        stack.last().steps(addr_bits) + stack_steps(stack.drop_last(), addr_bits)
    }
}

/// An iteration over all entries of a table.
///
/// Entries are yielded in depth-first order: a node's own prefixes, shorter to longer,
/// before the prefixes of its children.
pub struct Iter<'a, A: IpAddress, V> {
    stack: Vec<IterFrame<'a, V>>,
    addr_bits: u32,
    _marker: PhantomData<A>,
}

impl<'a, A: IpAddress, V> Iter<'a, A, V> {
    /// Every frame on the stack is consistent with the address family.
    pub closed spec fn wf(&self) -> bool {
        &&& self.addr_bits == A::width()
        &&& forall|i: int|
            0 <= i < self.stack@.len() ==> (#[trigger] self.stack@[i]).wf(self.addr_bits)
    }

    /// The entries that are still to come, by their network bits.
    pub closed spec fn remaining(&self) -> Seq<(Seq<bool>, V)> {
        stack_remaining(self.stack@, self.addr_bits)
    }

    /// Starts the iteration over a tree.
    pub(crate) fn start(root: &'a TbNode<V>) -> (iter: Self)
        requires
            root.wf((A::width() / 4) as nat),
        ensures
            iter.wf(),
            iter.remaining() == entries::tree_entries(
                *root,
                (A::width() / 4) as nat,
                Seq::<bool>::empty(),
            ),
    {
        let frame = IterFrame { node: root, hop: 0, addr: 0, internal_cursor: 1, external_cursor: 0 };
        let mut stack: Vec<IterFrame<'a, V>> = Vec::new();
        stack.push(frame);
        let iter = Iter { stack, addr_bits: A::BITS as u32, _marker: PhantomData };
        proof {
            A::lemma_width();
            assert forall|i: int| 0 <= i < A::width() implies !#[trigger] address::bit_of(
                0,
                A::width(),
                i,
            ) by {
                let at = (A::width() - 1 - i) as u128;
                assert((0u128 >> at) & 1 == 0) by (bit_vector);
            }
            assert(0u128 >> 32u128 == 0) by (bit_vector);
            assert(frame.path(A::BITS as u32) =~= Seq::<bool>::empty());
            assert(iter.stack@.drop_last() =~= Seq::<IterFrame<'a, V>>::empty());
            reveal_with_fuel(stack_remaining, 2);
            assert(iter.remaining() =~= frame.remaining(A::BITS as u32));
        }
        iter
    }

    /// Yields the next entry, or `None` when all have been yielded.
    pub fn next(&mut self) -> (entry: Option<(IpPrefix<A>, &'a V)>)
        requires
            old(self).wf(),
        ensures
            final(self).wf(),
            match entry {
                Some((prefix, value)) => {
                    &&& old(self).remaining().len() > 0
                    &&& (prefix@, *value) == old(self).remaining()[0]
                    &&& prefix.canonical()
                    &&& final(self).remaining() == old(self).remaining().drop_first()
                },
                None => {
                    &&& old(self).remaining().len() == 0
                    &&& final(self).remaining() == old(self).remaining()
                },
            },
    {
        let addr_bits: u32 = self.addr_bits;
        proof {
            A::lemma_width();
        }
        loop
            invariant
                self.wf(),
                addr_bits == self.addr_bits,
                addr_bits == A::width(),
                A::BITS == A::width(),
                A::width() == 32 || A::width() == 128,
                self.remaining() == old(self).remaining(),
            decreases stack_steps(self.stack@, addr_bits),
        {
            let depth: usize = self.stack.len();
            if depth == 0 {
                return None;
            }
            let ghost frame = self.stack@.last();
            let ghost below = self.stack@.drop_last();
            assert(frame.wf(addr_bits));
            let node: &'a TbNode<V> = self.stack[depth - 1].node;
            let hop: u32 = self.stack[depth - 1].hop;
            let addr: u128 = self.stack[depth - 1].addr;
            let ic: u32 = self.stack[depth - 1].internal_cursor;
            let ec: u32 = self.stack[depth - 1].external_cursor;
            let ghost tree_depth = node::depth_below(addr_bits, hop);
            let ghost path = frame.path(addr_bits);
            assert(self.stack@ =~= below.push(frame));

            // The node's own entries.
            if ic <= 15 {
                if let Some(bpos) = bits::next_set_bit(node.internal, ic) {
                    self.stack[depth - 1] = IterFrame {
                        node,
                        hop,
                        addr,
                        internal_cursor: bpos + 1,
                        external_cursor: ec,
                    };
                    proof {
                        bits::lemma_slot_in_bounds(node.internal, bpos as int);
                        bits::lemma_heap_path_len(bpos as int);
                    }
                    let prefix: IpPrefix<A> = prefix_at(addr, hop, bpos);
                    let idx: usize = bits::rank(node.internal, bpos);
                    let value: &'a V = &node.values[idx];
                    proof {
                        let rest_frame = self.stack@.last();
                        lemma_yield_entry(below, frame, rest_frame, addr_bits);
                        assert(self.stack@ =~= below.push(rest_frame));
                    }
                    return Some((prefix, value));
                }
                proof {
                    entries::lemma_own_entries_skip(*node, path, ic as int, 16);
                }
            }
            // The node's children.
            let next_child: Option<u32> = if ec <= 15 {
                bits::next_set_bit(node.external, ec)
            } else {
                None
            };
            if let Some(nib) = next_child {
                proof {
                    bits::lemma_zero_bitmap(node.external);
                    bits::lemma_slot_in_bounds(node.external, nib as int);
                    assert(1u128 << 4u128 == 16) by (bit_vector);
                }
                self.stack[depth - 1] = IterFrame {
                    node,
                    hop,
                    addr,
                    internal_cursor: 16,
                    external_cursor: nib + 1,
                };
                let child_addr: u128 = addr | ((nib as u128) << (addr_bits - (hop + 1) * STRIDE));
                proof {
                    bits::lemma_append_bits(
                        addr,
                        addr_bits as u128,
                        (4 * hop) as u128,
                        4,
                        nib as u128,
                        child_addr,
                    );
                }
                let child_idx: usize = bits::rank(node.external, nib);
                let child_node: &'a TbNode<V> = &node.children[child_idx];
                self.stack.push(
                    IterFrame {
                        node: child_node,
                        hop: hop + 1,
                        addr: child_addr,
                        internal_cursor: 1,
                        external_cursor: 0,
                    },
                );
                proof {
                    let child_frame = self.stack@.last();
                    let rest_frame = self.stack@[depth - 1];
                    lemma_enter_child(below, frame, rest_frame, child_frame, addr_bits);
                    assert(self.stack@ =~= below.push(rest_frame).push(child_frame));
                }
            } else {
                // Both exhausted: go back up.
                proof {
                    if ec <= 15 {
                        entries::lemma_child_entries_skip(*node, tree_depth, path, ec as int, 16);
                    }
                    assert(frame.remaining(addr_bits) =~= Seq::<(Seq<bool>, V)>::empty());
                    assert(self.remaining() =~= stack_remaining(below, addr_bits));
                }
                self.stack.pop();
                assert(self.stack@ =~= below);
            }
        }
    }
}

/// The prefix that a node after `hop` nibbles stores at one of its positions; `addr` holds
/// the nibbles that lead to the node.
fn prefix_at<A: IpAddress>(addr: u128, hop: u32, position: u32) -> (prefix: IpPrefix<A>)
    requires
        1 <= position < 16,
        4 * hop + bits::heap_path(position as int).len() <= A::width(),
        bits::ends_after(addr, A::width(), 4 * hop),
    ensures
        prefix@ == address::leading_bits(addr, A::width(), (4 * hop) as nat)
            + bits::heap_path(position as int),
        prefix.canonical(),
{
    proof {
        A::lemma_width();
    }
    let addr_bits: u32 = A::BITS as u32;
    let rel_len: u32 = bits::heap_level(position);
    proof {
        lemma_row_start(position, rel_len);
    }
    let rel_bits: u32 = position - (1u32 << rel_len);
    let full_len: u32 = hop * STRIDE + rel_len;
    let full_addr: u128 = if rel_len > 0 {
        addr | ((rel_bits as u128) << (addr_bits - hop * STRIDE - rel_len))
    } else {
        addr
    };
    proof {
        bits::lemma_append_bits(
            addr,
            addr_bits as u128,
            (4 * hop) as u128,
            rel_len as u128,
            rel_bits as u128,
            full_addr,
        );
        lemma_number_kept(full_addr, A::width());
    }
    let prefix: IpPrefix<A> = IpPrefix::new(A::from_u128(full_addr), full_len as u8).unwrap();
    prefix
}

/// Yielding the next own entry of the top frame takes it off the front of what is to come.
proof fn lemma_yield_entry<'a, V>(
    below: Seq<IterFrame<'a, V>>,
    frame: IterFrame<'a, V>,
    rest: IterFrame<'a, V>,
    addr_bits: u32,
)
    requires
        rest.node == frame.node,
        rest.hop == frame.hop,
        rest.addr == frame.addr,
        rest.external_cursor == frame.external_cursor,
        frame.internal_cursor < rest.internal_cursor <= 16,
        bits::has_bit(frame.node.internal, rest.internal_cursor - 1),
        forall|i: int|
            frame.internal_cursor <= i < rest.internal_cursor - 1 ==> !#[trigger] bits::has_bit(
                frame.node.internal,
                i,
            ),
    ensures
        ({
            let position = rest.internal_cursor - 1;
            let all = stack_remaining(below.push(frame), addr_bits);
            &&& all.len() > 0
            &&& all[0].0 == frame.path(addr_bits) + bits::heap_path(position)
            &&& Some(all[0].1) == bits::slot(
                frame.node.internal,
                frame.node.values@,
                position,
            )
            &&& stack_remaining(below.push(rest), addr_bits) == all.drop_first()
        }),
{
    let position = rest.internal_cursor - 1;
    let path = frame.path(addr_bits);
    let node = *frame.node;
    entries::lemma_own_entries_skip(node, path, frame.internal_cursor as int, position);
    assert(below.push(rest).drop_last() =~= below);
    assert(below.push(frame).drop_last() =~= below);
    let all = stack_remaining(below.push(frame), addr_bits);
    let entry = (
        path + bits::heap_path(position),
        bits::slot(node.internal, node.values@, position)->Some_0,
    );
    let later = entries::own_entries(node, path, position + 1);
    assert(entries::own_entries(node, path, position) =~= seq![entry] + later);
    assert(frame.remaining(addr_bits) =~= seq![entry] + rest.remaining(addr_bits));
    assert(all =~= seq![entry] + stack_remaining(below.push(rest), addr_bits));
    assert(stack_remaining(below.push(rest), addr_bits) =~= all.drop_first());
}

/// Entering the next child of an otherwise finished frame leaves what is to come as it was
/// and takes a step.
proof fn lemma_enter_child<'a, V>(
    below: Seq<IterFrame<'a, V>>,
    frame: IterFrame<'a, V>,
    rest: IterFrame<'a, V>,
    child: IterFrame<'a, V>,
    addr_bits: u32,
)
    requires
        frame.wf(addr_bits),
        rest.node == frame.node,
        rest.hop == frame.hop,
        rest.addr == frame.addr,
        rest.internal_cursor == 16,
        entries::own_entries(
            *frame.node,
            frame.path(addr_bits),
            frame.internal_cursor as int,
        ).len() == 0,
        frame.external_cursor < rest.external_cursor <= 16,
        bits::has_bit(frame.node.external, rest.external_cursor - 1),
        forall|i: int|
            frame.external_cursor <= i < rest.external_cursor - 1 ==> !#[trigger] bits::has_bit(
                frame.node.external,
                i,
            ),
        Some(*child.node) == bits::slot(
            frame.node.external,
            frame.node.children@,
            rest.external_cursor - 1,
        ),
        child.hop == frame.hop + 1,
        4 * child.hop <= addr_bits,
        child.path(addr_bits) == frame.path(addr_bits) + bits::nibble_bits(
            rest.external_cursor - 1,
        ),
        child.internal_cursor == 1,
        child.external_cursor == 0,
    ensures
        stack_remaining(below.push(rest).push(child), addr_bits) == stack_remaining(
            below.push(frame),
            addr_bits,
        ),
        stack_steps(below.push(rest).push(child), addr_bits) < stack_steps(
            below.push(frame),
            addr_bits,
        ),
{
    let nib = rest.external_cursor - 1;
    let depth = node::depth_below(addr_bits, frame.hop);
    let path = frame.path(addr_bits);
    let node = *frame.node;
    entries::lemma_child_entries_skip(node, depth, path, frame.external_cursor as int, nib);
    entries::lemma_child_steps_skip(node, depth, frame.external_cursor as int, nib);
    assert(below.push(rest).push(child).drop_last() =~= below.push(rest));
    assert(below.push(rest).drop_last() =~= below);
    assert(below.push(frame).drop_last() =~= below);
    let tail = stack_remaining(below, addr_bits);
    assert(stack_remaining(below.push(rest), addr_bits) == rest.remaining(addr_bits) + tail);
    assert(stack_remaining(below.push(frame), addr_bits) == frame.remaining(addr_bits) + tail);
    assert(rest.path(addr_bits) == path);
    let later = entries::child_entries(node, depth, path, nib + 1);
    assert(rest.remaining(addr_bits) =~= later);
    let first = entries::tree_entries(*child.node, (depth - 1) as nat, child.path(addr_bits));
    assert(node::depth_below(addr_bits, child.hop) == (depth - 1) as nat);
    assert(child.remaining(addr_bits) == first);
    assert(entries::child_entries(node, depth, path, nib) == first + later);
    assert(frame.remaining(addr_bits) =~= first + later);
    assert(first + (later + tail) =~= (first + later) + tail);
    assert(stack_steps(below.push(rest), addr_bits) == rest.steps(addr_bits) + stack_steps(
        below,
        addr_bits,
    ));
    assert(entries::child_steps(node, depth, nib) == 2 + entries::child_steps(
        *child.node,
        (depth - 1) as nat,
        0,
    ) + entries::child_steps(node, depth, nib + 1));
}

/// A heap position is the first of its row plus the number that its bits stand for.
proof fn lemma_row_start(position: u32, level: u32)
    requires
        1 <= position < 16,
        level == bits::heap_path(position as int).len(),
    ensures
        level < 4,
        (1u32 << level) <= position,
        (position - (1u32 << level)) < (1u128 << (level as u128)),
        (1u128 << (level as u128)) + (position - (1u32 << level)) == position,
{
    bits::lemma_heap_path_len(position as int);
    assert(1u32 << 0u32 == 1 && 1u32 << 1u32 == 2 && 1u32 << 2u32 == 4 && 1u32 << 3u32 == 8)
        by (bit_vector);
    assert(1u128 << 0u128 == 1 && 1u128 << 1u128 == 2 && 1u128 << 2u128 == 4 && 1u128 << 3u128 == 8)
        by (bit_vector);
}

/// A number that fits the address width survives the conversion to an address.
proof fn lemma_number_kept(number: u128, width: nat)
    requires
        width < 128 ==> number >> (width as u128) == 0,
    ensures
        width == 32 ==> number & 0xffff_ffff == number,
{
    if width == 32 {
        assert(number & 0xffff_ffff == number) by (bit_vector)
            requires
                number >> 32u128 == 0,
        ;
    }
}

} // verus!
