//! The laws of routing tables, on concrete values.
use routemap::address::{IpAddress, Ipv4Addr, Ipv6Addr};
use routemap::arena::table::ArenaTable;
use routemap::prefix::IpPrefix;
use routemap::treebitmap::node::TbNode;
use routemap::RouteMap;

fn a(octets: [u8; 4]) -> Ipv4Addr {
    Ipv4Addr { bits: u32::from_be_bytes(octets) }
}

fn p(octets: [u8; 4], len: u8) -> IpPrefix<Ipv4Addr> {
    IpPrefix::new(a(octets), len).unwrap()
}

/// Addresses, lengths and values in the order of iteration.
fn listing<A: IpAddress, V: Copy>(table: &RouteMap<A, V>) -> Vec<(u128, u8, V)> {
    let mut iter = table.iter();
    let mut list: Vec<(u128, u8, V)> = Vec::new();
    while let Some((prefix, value)) = iter.next() {
        list.push((prefix.ip().to_u128(), prefix.mask(), *value));
    }
    list
}

fn table_of(entries: &[([u8; 4], u8, u32)]) -> RouteMap<Ipv4Addr, u32> {
    let mut table: RouteMap<Ipv4Addr, u32> = RouteMap::new();
    for (octets, len, value) in entries {
        table.insert(p(*octets, *len), *value);
    }
    table
}

#[test]
fn insert_is_visible_and_changes_nothing_else() {
    let mut table = table_of(&[([10, 0, 0, 0], 8, 1)]);
    table.insert(p([10, 20, 0, 0], 16), 2);
    assert_eq!(table.get(p([10, 20, 0, 0], 16)), Some(&2));
    assert_eq!(table.get(p([10, 0, 0, 0], 8)), Some(&1));
    assert_eq!(table.get(p([10, 0, 0, 0], 16)), None);
}

#[test]
fn later_value_replaces_earlier_one() {
    let table = table_of(&[([10, 0, 0, 0], 8, 1), ([10, 0, 0, 0], 8, 2)]);
    assert_eq!(listing(&table), vec![(0x0a00_0000, 8, 2)]);
    assert_eq!(table.len(), 1);
}

#[test]
fn insertion_order_does_not_matter() {
    let entries = [
        ([10, 0, 0, 0], 8, 1),
        ([10, 20, 0, 0], 16, 2),
        ([0, 0, 0, 0], 0, 3),
        ([10, 20, 30, 40], 32, 4),
    ];
    let mut reversed = entries;
    reversed.reverse();
    assert_eq!(listing(&table_of(&entries)), listing(&table_of(&reversed)));
}

#[test]
fn remove_undoes_insert() {
    let mut table = table_of(&[([10, 0, 0, 0], 8, 1), ([10, 20, 0, 0], 16, 2)]);
    let before = listing(&table);
    table.insert(p([10, 20, 30, 0], 23), 3);
    assert_eq!(table.len(), 3);
    assert_eq!(table.remove(p([10, 20, 30, 0], 23)), Some(3));
    assert_eq!(listing(&table), before);
    assert_eq!(table.remove(p([10, 20, 30, 0], 23)), None);
    assert_eq!(table.len(), 2);
}

#[test]
fn lookup_takes_the_longest_cover() {
    let mut table = table_of(&[([10, 0, 0, 0], 8, 1), ([10, 20, 0, 0], 16, 2)]);
    assert_eq!(table.longest_match(a([10, 20, 5, 1])), Some(&2));
    assert_eq!(table.longest_match(a([10, 99, 0, 1])), Some(&1));
    assert_eq!(table.longest_match(a([192, 168, 1, 1])), None);
    table.insert(p([10, 20, 4, 0], 22), 3);
    assert_eq!(table.longest_match(a([10, 20, 5, 1])), Some(&3));
    assert_eq!(table.longest_match(a([10, 20, 8, 1])), Some(&2));
    table.remove(p([10, 20, 4, 0], 22));
    table.remove(p([10, 20, 0, 0], 16));
    assert_eq!(table.longest_match(a([10, 20, 5, 1])), Some(&1));
    table.remove(p([10, 0, 0, 0], 8));
    assert_eq!(table.longest_match(a([10, 20, 5, 1])), None);
}

#[test]
fn removing_a_broad_prefix_keeps_nested_ones() {
    let mut table = table_of(&[([10, 0, 0, 0], 8, 1), ([10, 20, 0, 0], 16, 2)]);
    table.remove(p([10, 0, 0, 0], 8));
    assert_eq!(table.longest_match(a([10, 20, 5, 1])), Some(&2));
    assert_eq!(table.longest_match(a([10, 99, 0, 1])), None);
}

#[test]
fn matching_entry_comes_with_its_canonical_prefix() {
    let mut table: RouteMap<Ipv4Addr, u32> = RouteMap::new();
    assert_eq!(table.longest_match_entry(a([10, 1, 2, 3])), None);
    table.insert(p([10, 99, 88, 77], 8), 1);
    table.insert(p([10, 1, 2, 3], 32), 2);
    let (prefix, value) = table.longest_match_entry(a([10, 1, 2, 4])).unwrap();
    assert_eq!((prefix, *value), (p([10, 0, 0, 0], 8), 1));
    let (prefix, value) = table.longest_match_entry(a([10, 1, 2, 3])).unwrap();
    assert_eq!((prefix, *value), (p([10, 1, 2, 3], 32), 2));
    let mut table: RouteMap<Ipv6Addr, u32> = RouteMap::new();
    table.insert(IpPrefix::new(Ipv6Addr { bits: 5 }, 0).unwrap(), 7);
    let (prefix, value) = table.longest_match_entry(Ipv6Addr { bits: u128::MAX }).unwrap();
    assert_eq!((prefix.ip().bits, prefix.mask(), *value), (0, 0, 7));
}

#[test]
fn host_bits_do_not_distinguish_entries() {
    let mut table = table_of(&[([10, 99, 0, 0], 8, 1), ([10, 0, 0, 0], 8, 2)]);
    assert_eq!(table.len(), 1);
    assert_eq!(table.get(p([10, 255, 255, 255], 8)), Some(&2));
    assert!(table.contains(p([10, 1, 1, 1], 8)));
    assert_eq!(table.remove(p([10, 3, 3, 3], 8)), Some(2));
    assert!(table.is_empty());
}

#[test]
fn iteration_is_depth_first() {
    let table = table_of(&[
        ([0x12, 0, 0, 0], 8, 8),
        ([0x80, 0, 0, 0], 1, 2),
        ([0x10, 0, 0, 0], 4, 6),
        ([0, 0, 0, 0], 0, 1),
        ([0x40, 0, 0, 0], 2, 3),
        ([0x20, 0, 0, 0], 3, 4),
        ([0x10, 0, 0, 0], 5, 7),
        ([0xe0, 0, 0, 0], 3, 5),
        ([0x20, 0, 0, 0], 4, 9),
    ]);
    let order: Vec<u32> = listing(&table).into_iter().map(|(_, _, value)| value).collect();
    assert_eq!(order, vec![1, 2, 3, 4, 5, 6, 7, 8, 9]);
}

#[test]
fn exhausted_iteration_stays_exhausted() {
    let table = table_of(&[([10, 0, 0, 0], 8, 1)]);
    let mut iter = table.into_iter();
    assert!(iter.next().is_some());
    assert!(iter.next().is_none());
    assert!(iter.next().is_none());
}

#[test]
fn collected_table_keeps_the_last_value() {
    let table: RouteMap<Ipv4Addr, u32> = RouteMap::from_iter(vec![
        (p([10, 0, 0, 0], 8), 1),
        (p([11, 0, 0, 0], 8), 2),
        (p([10, 5, 5, 5], 8), 3),
    ]);
    assert_eq!(table.len(), 2);
    assert_eq!(listing(&table), vec![(0x0a00_0000, 8, 3), (0x0b00_0000, 8, 2)]);
    let table: RouteMap<Ipv4Addr, u32> = RouteMap::from_iter(Vec::new());
    assert!(table.is_empty());
}

#[test]
fn cleared_table_equals_a_new_one() {
    let mut table = table_of(&[([10, 0, 0, 0], 8, 1), ([10, 20, 0, 0], 16, 2)]);
    table.clear();
    assert!(table.is_empty());
    assert_eq!(listing(&table), listing::<Ipv4Addr, u32>(&RouteMap::default()));
    assert_eq!(table.longest_match(a([10, 20, 5, 1])), None);
}

#[test]
fn new_tree_node_is_unoccupied() {
    let node: TbNode<u8> = TbNode::new();
    assert_eq!((node.internal, node.external), (0, 0));
    assert!(node.values.is_empty());
    assert!(node.children.is_empty());
}

#[test]
fn tree_is_pruned_on_removal() {
    let mut node: TbNode<u8> = TbNode::new();
    assert!(routemap::treebitmap::node::insert_at(&mut node, 0x1230_0000, 32, 0, 3, 2, 7));
    assert!(!routemap::treebitmap::node::insert_at(&mut node, 0x1230_0000, 32, 0, 3, 2, 8));
    assert_eq!((node.internal, node.external), (0, 1 << 1));
    assert_eq!(node.children.len(), 1);
    assert_eq!(
        routemap::treebitmap::node::get_at(&node, 0x1230_0000, 32, 0, 3, 2),
        Some(&8)
    );
    assert!(routemap::treebitmap::node::contains_at(&node, 0x1230_0000, 32, 0, 3, 2));
    assert_eq!(
        routemap::treebitmap::node::remove_at(&mut node, 0x1230_0000, 32, 0, 3, 1),
        (None, false)
    );
    assert_eq!(
        routemap::treebitmap::node::remove_at(&mut node, 0x1230_0000, 32, 0, 3, 2),
        (Some(8), true)
    );
    assert_eq!((node.internal, node.external), (0, 0));
    assert!(node.children.is_empty());
}

#[test]
fn arena_nodes_follow_entries() {
    let mut table: ArenaTable<Ipv4Addr, u32> = ArenaTable::new();
    assert_eq!(table.allocated_nodes(), 1);
    table.insert(p([10, 0, 0, 0], 8), 1);
    assert_eq!(table.allocated_nodes(), 9);
    table.insert(p([10, 20, 0, 0], 16), 2);
    assert_eq!(table.allocated_nodes(), 17);
    // Every node on the way is there.
    table.insert(p([10, 20, 0, 0], 12), 3);
    assert_eq!(table.allocated_nodes(), 17);
    // The removed branch is unlinked, and its nodes are not used again.
    table.remove(p([10, 20, 0, 0], 16));
    assert_eq!(table.allocated_nodes(), 17);
    table.insert(p([10, 20, 0, 0], 16), 4);
    assert_eq!(table.allocated_nodes(), 21);
}
