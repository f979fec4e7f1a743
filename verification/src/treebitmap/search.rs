//! The walk that finds the most specific match of an address.
use vstd::prelude::*;
use crate::address;
use crate::bits;
use crate::bits::STRIDE;
use crate::treebitmap::node;
use crate::treebitmap::node::TbNode;

verus! {

/// Among the first bits of an address, taken fewer than `end` at a time, `best` is the
/// longest that the tree stores a value for, with that value.
pub open spec fn is_best_below<V>(
    root: TbNode<V>,
    addr: Seq<bool>,
    end: int,
    best: Option<(u32, &V)>,
) -> bool {
    match best {
        Some((len, value)) => {
            &&& len < end
            &&& root.find(addr.take(len as int)) == Some(*value)
            &&& forall|k: int|
                len < k < end ==> (#[trigger] root.find(addr.take(k))) is None
        },
        None => forall|k: int| 0 <= k < end ==> (#[trigger] root.find(addr.take(k))) is None,
    }
}

/// Looks up the most specific stored prefix of an address, and the number of its bits.
pub fn longest_match_at<V>(root: &TbNode<V>, addr: u128, addr_bits: u32) -> (best: Option<
    (u32, &V),
>)
    requires
        0 < addr_bits <= 128,
        addr_bits % 4 == 0,
        root.wf(node::depth_below(addr_bits, 0)),
    ensures
        is_best_below(
            *root,
            address::leading_bits(addr, addr_bits as nat, addr_bits as nat),
            addr_bits + 1,
            best,
        ),
{
    let ghost all = address::leading_bits(addr, addr_bits as nat, addr_bits as nat);
    let total_strides: u32 = addr_bits / STRIDE;
    let mut node: &TbNode<V> = root;
    let mut best: Option<(u32, &V)> = None;
    let mut last_advanced: bool = false;
    let mut hop: u32 = 0;
    assert forall|k: int| 0 <= k <= addr_bits implies #[trigger] root.find(all.take(k))
        == node.find(all.take(k).skip(0)) by {
        assert(all.take(k).skip(0) =~= all.take(k));
    }
    while hop < total_strides
        invariant_except_break
            hop <= total_strides,
            last_advanced == (hop > 0),
            node.wf(node::depth_below(addr_bits, hop)),
            forall|k: int|
                4 * hop <= k <= addr_bits ==> #[trigger] root.find(all.take(k)) == node.find(
                    all.take(k).skip(4 * hop),
                ),
            is_best_below(*root, all, 4 * hop, best),
        invariant
            0 < addr_bits <= 128,
            addr_bits % 4 == 0,
            total_strides == addr_bits / 4,
            all == address::leading_bits(addr, addr_bits as nat, addr_bits as nat),
        ensures
            last_advanced ==> {
                &&& node.wf(0)
                &&& root.find(all.take(addr_bits as int)) == node.find(Seq::empty())
                &&& is_best_below(*root, all, addr_bits as int, best)
            },
            !last_advanced ==> is_best_below(*root, all, addr_bits + 1, best),
        decreases total_strides - hop,
    {
        let nib: u32 = bits::nibble(addr, addr_bits, hop);
        let ghost group = address::leading_bits(addr, addr_bits as nat, (4 * hop + 4) as nat).skip(
            4 * hop,
        );
        proof {
            bits::lemma_nibble_value(group);
        }

        // All four relative lengths inside this node, from least to most specific, so that
        // the last hit wins.
        let mut rel_len: u32 = 0;
        while rel_len < STRIDE
            invariant
                rel_len <= 4,
                hop < total_strides,
                nib < 16,
                0 < addr_bits <= 128,
                total_strides == addr_bits / 4,
                addr_bits % 4 == 0,
                all == address::leading_bits(addr, addr_bits as nat, addr_bits as nat),
                group == address::leading_bits(
                    addr,
                    addr_bits as nat,
                    (4 * hop + 4) as nat,
                ).skip(4 * hop),
                group == bits::nibble_bits(nib as int),
                node.wf(node::depth_below(addr_bits, hop)),
                forall|k: int|
                    4 * hop <= k <= addr_bits ==> #[trigger] root.find(all.take(k)) == node.find(
                        all.take(k).skip(4 * hop),
                    ),
                is_best_below(*root, all, 4 * hop + rel_len, best),
            decreases 4 - rel_len,
        {
            let bpos: u32 = bits::stride_position(nib, rel_len);
            proof {
                let k = 4 * hop + rel_len;
                assert(all.take(k).skip(4 * hop) =~= group.take(rel_len as int));
                assert(root.find(all.take(k)) == node.find(group.take(rel_len as int)));
                bits::lemma_slot_in_bounds(node.internal, bpos as int);
            }
            if bits::test_bit(node.internal, bpos) {
                best = Some(
                    (hop * STRIDE + rel_len, &node.values[bits::rank(node.internal, bpos)]),
                );
            }
            rel_len = rel_len + 1;
        }
        proof {
            assert forall|k: int| 4 * hop + 4 <= k <= addr_bits implies {
                let rest = all.take(k).skip(4 * hop);
                &&& #[trigger] all.take(k) == all.take(k)
                &&& rest.len() >= 4
                &&& rest.take(4) == group
                &&& rest.skip(4) == all.take(k).skip(4 * hop + 4)
            } by {
                let rest = all.take(k).skip(4 * hop);
                assert(rest.take(4) =~= group);
                assert(rest.skip(4) =~= all.take(k).skip(4 * hop + 4));
            }
            bits::lemma_slot_in_bounds(node.external, nib as int);
        }

        // Descend to the child for the full nibble, or stop.
        if !bits::test_bit(node.external, nib) {
            last_advanced = false;
            proof {
                assert forall|k: int| 4 * hop + 4 <= k <= addr_bits implies (#[trigger] root.find(
                    all.take(k),
                )) is None by {
                    assert(root.find(all.take(k)) == node.find(all.take(k).skip(4 * hop)));
                }
            }
            break;
        }
        let ghost parent = *node;
        node = &node.children[bits::rank(node.external, nib)];
        proof {
            assert forall|k: int| 4 * hop + 4 <= k <= addr_bits implies #[trigger] root.find(
                all.take(k),
            ) == node.find(all.take(k).skip(4 * (hop + 1))) by {
                assert(root.find(all.take(k)) == parent.find(all.take(k).skip(4 * hop)));
            }
        }
        last_advanced = true;
        hop = hop + 1;
        proof {
            if hop == total_strides {
                assert(all.take(addr_bits as int).skip(4 * hop) =~= Seq::<bool>::empty());
            }
        }
    }

    // When the last nibble led to a child, that child has not been looked at: its entry for
    // the empty string is the prefix of full length.
    if last_advanced && bits::test_bit(node.internal, 1) {
        proof {
            bits::lemma_slot_in_bounds(node.internal, 1);
        }
        best = Some((addr_bits, &node.values[bits::rank(node.internal, 1)]));
    }
    best
}

/// What the search returns is the longest of the first bits of the address, with its value,
/// that is an entry of the tree, and nothing exactly if none is.
pub proof fn law_best_is_longest<V>(
    root: TbNode<V>,
    addr: Seq<bool>,
    end: int,
    best: Option<(u32, &V)>,
    k: int,
)
    requires
        is_best_below(root, addr, end, best),
    ensures
        best matches Some((len, value)) ==> len < end && root@.contains_key(addr.take(len as int))
            && root@[addr.take(len as int)] == *value,
        0 <= k < end && root@.contains_key(addr.take(k)) ==> best is Some && best->Some_0.0
            >= k,
{
    if 0 <= k < end && root@.contains_key(addr.take(k)) {
        assert(root.find(addr.take(k)) is Some);
    }
}

} // verus!
