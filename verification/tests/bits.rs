//! Bitmaps, nibbles and prefixes, on exact values.
use routemap::address::{bit_at, IpAddress, Ipv4Addr, Ipv6Addr};
use routemap::bits::{heap_level, next_set_bit, nibble, rank, stride_position, test_bit};
use routemap::node::TrieNode;
use routemap::prefix::{InvalidPrefixLen, IpPrefix};
use routemap::table::IpTable;

#[test]
fn rank_at_the_edges() {
    assert_eq!(rank(u32::MAX, 0), 0);
    assert_eq!(rank(u32::MAX, 1), 1);
    assert_eq!(rank(u32::MAX, 31), 31);
    assert_eq!(rank(1 << 31, 31), 0);
    assert_eq!(rank(0, 31), 0);
    assert_eq!(rank(0x8000_0001, 31), 1);
    for position in 0..32 {
        assert_eq!(rank(u32::MAX, position), position as usize);
    }
}

#[test]
fn test_bit_reads_one_position() {
    assert!(test_bit(0b1000, 3));
    assert!(!test_bit(0b1000, 2));
    assert!(test_bit(1 << 31, 31));
    assert!(!test_bit(u32::MAX >> 1, 31));
}

#[test]
fn nibble_of_every_ipv4_position() {
    for hop in 0..8 {
        for value in 0..16 {
            let addr: u128 = (value as u128) << (28 - 4 * hop);
            assert_eq!(nibble(addr, 32, hop), value);
            for other in 0..8 {
                if other != hop {
                    assert_eq!(nibble(addr, 32, other), 0);
                }
            }
        }
    }
    assert_eq!(nibble(0x0a14_0501, 32, 1), 0xa);
    assert_eq!(nibble(0x0a14_0501, 32, 7), 0x1);
}

#[test]
fn nibble_of_every_ipv6_position() {
    for hop in 0..32 {
        for value in 0..16 {
            let addr: u128 = (value as u128) << (124 - 4 * hop);
            assert_eq!(nibble(addr, 128, hop), value);
        }
    }
    let addr: u128 = 0x2001_0db8_0000_0000_0000_0000_0000_000f;
    assert_eq!(nibble(addr, 128, 0), 2);
    assert_eq!(nibble(addr, 128, 5), 0xd);
    assert_eq!(nibble(addr, 128, 31), 0xf);
}

#[test]
fn stride_positions_are_heap_positions() {
    assert_eq!(stride_position(0b1010, 0), 1);
    assert_eq!(stride_position(0b1010, 1), 3);
    assert_eq!(stride_position(0b1010, 2), 6);
    assert_eq!(stride_position(0b1010, 3), 13);
    assert_eq!(stride_position(0, 3), 8);
    assert_eq!(stride_position(15, 3), 15);
}

#[test]
fn heap_levels_are_rows() {
    let rows: Vec<u32> = (1..16).map(heap_level).collect();
    assert_eq!(rows, vec![0, 1, 1, 2, 2, 2, 2, 3, 3, 3, 3, 3, 3, 3, 3]);
}

#[test]
fn next_set_bit_starts_at_the_position() {
    assert_eq!(next_set_bit(0b101000, 0), Some(3));
    assert_eq!(next_set_bit(0b101000, 3), Some(3));
    assert_eq!(next_set_bit(0b101000, 4), Some(5));
    assert_eq!(next_set_bit(0b101000, 6), None);
    assert_eq!(next_set_bit(0, 0), None);
    assert_eq!(next_set_bit(1 << 31, 31), Some(31));
}

#[test]
fn bits_count_from_the_most_significant() {
    // 10.0.0.0 begins with the octet 00001010.
    let bits: Vec<bool> = (0..8).map(|i| bit_at(0x0a00_0000, 32, i)).collect();
    assert_eq!(bits, vec![false, false, false, false, true, false, true, false]);
    assert!(bit_at(1, 128, 127));
    assert!(!bit_at(1, 128, 0));
}

#[test]
fn addresses_convert_both_ways() {
    assert_eq!(Ipv4Addr { bits: 0x0a00_0001 }.to_u128(), 0x0a00_0001);
    assert_eq!(Ipv4Addr::from_u128(0xffff_0a00_0001), Ipv4Addr { bits: 0x0a00_0001 });
    assert_eq!(Ipv6Addr::from_u128(u128::MAX).to_u128(), u128::MAX);
    assert_eq!(Ipv4Addr::BITS, 32);
    assert_eq!(Ipv6Addr::BITS, 128);
}

#[test]
fn prefix_lengths_are_checked() {
    let v4 = Ipv4Addr { bits: 0x0a00_0001 };
    let v6 = Ipv6Addr { bits: 1 };
    assert_eq!(IpPrefix::new(v4, 33), Err(InvalidPrefixLen));
    assert_eq!(IpPrefix::new(v4, 255), Err(InvalidPrefixLen));
    assert_eq!(IpPrefix::new(v6, 129), Err(InvalidPrefixLen));
    let host = IpPrefix::new(v4, 32).unwrap();
    assert_eq!((host.ip(), host.mask()), (v4, 32));
    let host = IpPrefix::new(v6, 128).unwrap();
    assert_eq!((host.ip(), host.mask()), (v6, 128));
}

#[test]
fn masked_clears_exactly_the_host_bits() {
    let masked4 = |bits: u32, len: u8| IpPrefix::new(Ipv4Addr { bits }, len).unwrap().masked();
    assert_eq!(masked4(0xc0a8_0164, 24).ip().bits, 0xc0a8_0100);
    assert_eq!(masked4(0xc0a8_0164, 24).mask(), 24);
    assert_eq!(masked4(0xffff_ffff, 0).ip().bits, 0);
    assert_eq!(masked4(0xffff_ffff, 1).ip().bits, 0x8000_0000);
    assert_eq!(masked4(0xffff_ffff, 32).ip().bits, 0xffff_ffff);
    let masked6 = |bits: u128, len: u8| IpPrefix::new(Ipv6Addr { bits }, len).unwrap().masked();
    assert_eq!(masked6(u128::MAX, 0).ip().bits, 0);
    assert_eq!(masked6(u128::MAX, 64).ip().bits, u128::MAX << 64);
    assert_eq!(masked6(u128::MAX, 128).ip().bits, u128::MAX);
}

#[test]
fn trie_nodes_hold_inserted_values() {
    let mut node: TrieNode<u8> = TrieNode::new();
    assert!(node.value.is_none());
    node.insert_below(0x8000_0000, 32, 0, 2, 7);
    node.insert_below(0, 32, 0, 0, 9);
    assert_eq!(node.value, Some(9));
    assert!(node.children[0].is_none());
    let one = node.children[1].as_ref().unwrap();
    assert!(one.value.is_none());
    assert_eq!(one.children[0].as_ref().unwrap().value, Some(7));
    node.insert_below(0x8000_0000, 32, 0, 2, 8);
    let one = node.children[1].as_ref().unwrap();
    assert_eq!(one.children[0].as_ref().unwrap().value, Some(8));
}

/// How many nodes a trie has, its root included.
fn count_nodes(node: &TrieNode<u8>) -> usize {
    let below: usize = node.children.iter().flatten().map(|child| count_nodes(child)).sum();
    1 + below
}

#[test]
fn trie_grows_by_the_missing_nodes_only() {
    let mut node: TrieNode<u8> = TrieNode::new();
    assert_eq!(count_nodes(&node), 1);
    node.insert_below(0x0a00_0000, 32, 0, 8, 1);
    assert_eq!(count_nodes(&node), 9);
    node.insert_below(0x0a14_0000, 32, 0, 16, 2);
    assert_eq!(count_nodes(&node), 17);
    node.insert_below(0x0a10_0000, 32, 0, 12, 3);
    assert_eq!(count_nodes(&node), 17);
    node.insert_below(0x0b00_0000, 32, 0, 8, 4);
    assert_eq!(count_nodes(&node), 18);
    node.insert_below(0, 32, 0, 0, 5);
    assert_eq!(count_nodes(&node), 18);
}

#[test]
fn pointer_trie_takes_every_prefix_length() {
    let mut table: IpTable<Ipv6Addr, u8> = IpTable::new();
    for len in 0..129 {
        table.insert(IpPrefix::new(Ipv6Addr { bits: u128::MAX }, len).unwrap(), len);
    }
}
