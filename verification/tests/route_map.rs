//! The tree bitmap as a routing table.
use routemap::address::{IpAddress, Ipv4Addr, Ipv6Addr};
use routemap::bits::rank;
use routemap::prefix::IpPrefix;
use routemap::RouteMap;

/// Reads an IPv4 address in dotted notation.
fn a4(text: &str) -> Ipv4Addr {
    let mut bits: u32 = 0;
    for octet in text.split('.') {
        bits = bits << 8 | octet.parse::<u32>().unwrap();
    }
    Ipv4Addr { bits }
}

/// Reads an IPv6 address in colon notation.
fn a6(text: &str) -> Ipv6Addr {
    let groups = |part: &str| -> Vec<u128> {
        part.split(':')
            .filter(|group| !group.is_empty())
            .map(|group| u128::from_str_radix(group, 16).unwrap())
            .collect()
    };
    let (head, tail) = match text.split_once("::") {
        Some((head, tail)) => (groups(head), groups(tail)),
        None => (groups(text), Vec::new()),
    };
    let mut all: Vec<u128> = head.clone();
    all.resize(8 - tail.len(), 0);
    all.extend(tail);
    let mut bits: u128 = 0;
    for group in all {
        bits = bits << 16 | group;
    }
    Ipv6Addr { bits }
}

/// Reads an IPv4 prefix in CIDR notation.
fn p4(text: &str) -> IpPrefix<Ipv4Addr> {
    let (addr, len) = text.split_once('/').unwrap();
    IpPrefix::new(a4(addr), len.parse().unwrap()).unwrap()
}

/// Reads an IPv6 prefix in CIDR notation.
fn p6(text: &str) -> IpPrefix<Ipv6Addr> {
    let (addr, len) = text.split_once('/').unwrap();
    IpPrefix::new(a6(addr), len.parse().unwrap()).unwrap()
}

/// All entries in the order of iteration.
fn entries<A: IpAddress, V>(table: &RouteMap<A, V>) -> Vec<(IpPrefix<A>, &V)> {
    let mut iter = table.iter();
    let mut list: Vec<(IpPrefix<A>, &V)> = Vec::new();
    while let Some(entry) = iter.next() {
        list.push(entry);
    }
    list
}

/// An IPv4 address in dotted notation.
fn dotted(addr: Ipv4Addr) -> String {
    let b = addr.bits.to_be_bytes();
    format!("{}.{}.{}.{}", b[0], b[1], b[2], b[3])
}

/// All entries of an IPv4 table, sorted by their CIDR notation.
fn sorted_entries<V: Clone>(table: &RouteMap<Ipv4Addr, V>) -> Vec<(String, V)> {
    let mut list: Vec<(String, V)> = entries(table)
        .into_iter()
        .map(|(p, v)| (format!("{}/{}", dotted(p.ip()), p.mask()), v.clone()))
        .collect();
    list.sort_by_key(|(p, _)| p.clone());
    list
}

#[test]
fn rank_empty_bitmap() {
    assert_eq!(rank(0b000000, 3), 0);
}

#[test]
fn rank_all_set_below() {
    // bits 0,1,2 set; position 3 -> 3 bits below
    assert_eq!(rank(0b00000111, 3), 3);
}

#[test]
fn rank_bit_at_position_does_not_count() {
    // bit 3 is set but we ask for rank AT position 3 (bits strictly below)
    assert_eq!(rank(0b00001000, 3), 0);
}

#[test]
fn rank_mixed() {
    // bits 1 and 3 set; asking for rank at position 6 -> 2 bits below position 6
    assert_eq!(rank(0b00001010, 6), 2);
}

#[test]
fn rank_example_from_reference() {
    // internal = bits set at positions 1, 3, 6; rank at position 6 -> 2
    let bitmap: u32 = (1 << 1) | (1 << 3) | (1 << 6);
    assert_eq!(rank(bitmap, 6), 2);
}

#[test]
fn mod_empty_table_returns_none() {
    let table: RouteMap<Ipv4Addr, &str> = RouteMap::new();
    assert_eq!(table.longest_match(a4("10.0.0.1")), None);
}

#[test]
fn mod_default_route_matches_any_address() {
    let mut table: RouteMap<Ipv4Addr, &str> = RouteMap::new();
    table.insert(p4("0.0.0.0/0"), "default");
    assert_eq!(
        table.longest_match(a4("1.2.3.4")),
        Some(&"default")
    );
    assert_eq!(
        table.longest_match(a4("255.255.255.255")),
        Some(&"default")
    );
    assert_eq!(
        table.longest_match(a4("0.0.0.0")),
        Some(&"default")
    );
}

#[test]
fn mod_default_route_is_fallback_when_no_specific_match() {
    let mut table: RouteMap<Ipv4Addr, &str> = RouteMap::new();
    table.insert(p4("0.0.0.0/0"), "default");
    table.insert(p4("10.0.0.0/8"), "ten");
    assert_eq!(
        table.longest_match(a4("10.0.0.1")),
        Some(&"ten")
    );
    assert_eq!(
        table.longest_match(a4("192.168.1.1")),
        Some(&"default")
    );
}

#[test]
fn mod_single_prefix_hit() {
    let mut table: RouteMap<Ipv4Addr, &str> = RouteMap::new();
    table.insert(p4("10.0.0.0/8"), "ten");
    assert_eq!(
        table.longest_match(a4("10.0.0.1")),
        Some(&"ten")
    );
}

#[test]
fn mod_single_prefix_miss() {
    let mut table: RouteMap<Ipv4Addr, &str> = RouteMap::new();
    table.insert(p4("10.0.0.0/8"), "ten");
    assert_eq!(table.longest_match(a4("11.0.0.1")), None);
}

#[test]
fn mod_network_address_itself_matches() {
    let mut table: RouteMap<Ipv4Addr, &str> = RouteMap::new();
    table.insert(p4("10.0.0.0/8"), "ten");
    assert_eq!(
        table.longest_match(a4("10.0.0.0")),
        Some(&"ten")
    );
}

#[test]
fn mod_address_just_outside_prefix_misses() {
    let mut table: RouteMap<Ipv4Addr, &str> = RouteMap::new();
    table.insert(p4("10.0.0.0/8"), "ten");
    assert_eq!(table.longest_match(a4("11.0.0.0")), None);
}

#[test]
fn mod_last_address_in_prefix_matches() {
    let mut table: RouteMap<Ipv4Addr, &str> = RouteMap::new();
    table.insert(p4("10.0.0.0/24"), "subnet");
    assert_eq!(
        table.longest_match(a4("10.0.0.255")),
        Some(&"subnet")
    );
}

#[test]
fn mod_most_specific_prefix_wins() {
    let mut table: RouteMap<Ipv4Addr, &str> = RouteMap::new();
    table.insert(p4("10.0.0.0/8"), "broad");
    table.insert(p4("10.20.0.0/16"), "specific");
    assert_eq!(
        table.longest_match(a4("10.20.5.1")),
        Some(&"specific")
    );
    assert_eq!(
        table.longest_match(a4("10.99.0.1")),
        Some(&"broad")
    );
}

#[test]
fn mod_three_levels_of_nesting() {
    let mut table: RouteMap<Ipv4Addr, &str> = RouteMap::new();
    table.insert(p4("10.0.0.0/8"), "level-1");
    table.insert(p4("10.20.0.0/16"), "level-2");
    table.insert(p4("10.20.30.0/24"), "level-3");
    assert_eq!(
        table.longest_match(a4("10.20.30.1")),
        Some(&"level-3")
    );
    assert_eq!(
        table.longest_match(a4("10.20.99.1")),
        Some(&"level-2")
    );
    assert_eq!(
        table.longest_match(a4("10.99.0.1")),
        Some(&"level-1")
    );
    assert_eq!(table.longest_match(a4("9.0.0.1")), None);
}

#[test]
fn mod_slash32_matches_only_that_host() {
    let mut table: RouteMap<Ipv4Addr, &str> = RouteMap::new();
    table.insert(p4("10.0.0.0/8"), "broad");
    table.insert(p4("10.0.0.1/32"), "host");
    assert_eq!(
        table.longest_match(a4("10.0.0.1")),
        Some(&"host")
    );
    assert_eq!(
        table.longest_match(a4("10.0.0.2")),
        Some(&"broad")
    );
}

#[test]
fn mod_inserting_same_prefix_twice_overwrites_value() {
    let mut table: RouteMap<Ipv4Addr, &str> = RouteMap::new();
    table.insert(p4("10.0.0.0/8"), "first");
    table.insert(p4("10.0.0.0/8"), "second");
    assert_eq!(
        table.longest_match(a4("10.0.0.1")),
        Some(&"second")
    );
}

#[test]
fn mod_non_overlapping_prefixes_do_not_cross_match() {
    let mut table: RouteMap<Ipv4Addr, &str> = RouteMap::new();
    table.insert(p4("10.0.0.0/8"), "ten");
    table.insert(p4("192.168.0.0/16"), "office");
    assert_eq!(
        table.longest_match(a4("10.1.2.3")),
        Some(&"ten")
    );
    assert_eq!(
        table.longest_match(a4("192.168.1.1")),
        Some(&"office")
    );
    assert_eq!(table.longest_match(a4("172.16.0.1")), None);
}

#[test]
fn mod_ipv6_basic_match() {
    let mut table: RouteMap<Ipv6Addr, &str> = RouteMap::new();
    table.insert(p6("2001:db8::/32"), "docs");
    assert_eq!(
        table.longest_match(a6("2001:db8::1")),
        Some(&"docs")
    );
    assert_eq!(table.longest_match(a6("2001:db9::1")), None);
}

#[test]
fn mod_ipv6_most_specific_wins() {
    let mut table: RouteMap<Ipv6Addr, &str> = RouteMap::new();
    table.insert(p6("2001:db8::/32"), "broad");
    table.insert(p6("2001:db8:1::/48"), "specific");
    assert_eq!(
        table.longest_match(a6("2001:db8:1::1")),
        Some(&"specific")
    );
    assert_eq!(
        table.longest_match(a6("2001:db8:2::1")),
        Some(&"broad")
    );
}

#[test]
fn mod_ipv6_default_route() {
    let mut table: RouteMap<Ipv6Addr, &str> = RouteMap::new();
    table.insert(p6("::/0"), "default");
    assert_eq!(
        table.longest_match(a6("2001:db8::1")),
        Some(&"default")
    );
    assert_eq!(
        table.longest_match(a6("::1")),
        Some(&"default")
    );
}

#[test]
fn mod_remove_returns_the_value() {
    let mut table: RouteMap<Ipv4Addr, &str> = RouteMap::new();
    table.insert(p4("10.0.0.0/8"), "ten");
    assert_eq!(table.remove(p4("10.0.0.0/8")), Some("ten"));
}

#[test]
fn mod_remove_makes_prefix_unmatchable() {
    let mut table: RouteMap<Ipv4Addr, &str> = RouteMap::new();
    table.insert(p4("10.0.0.0/8"), "ten");
    table.remove(p4("10.0.0.0/8"));
    assert_eq!(table.longest_match(a4("10.0.0.1")), None);
}

#[test]
fn mod_remove_nonexistent_prefix_returns_none() {
    let mut table: RouteMap<Ipv4Addr, &str> = RouteMap::new();
    table.insert(p4("10.0.0.0/8"), "ten");
    assert_eq!(table.remove(p4("192.168.0.0/16")), None);
    assert_eq!(
        table.longest_match(a4("10.0.0.1")),
        Some(&"ten")
    );
}

#[test]
fn mod_remove_specific_falls_back_to_general() {
    let mut table: RouteMap<Ipv4Addr, &str> = RouteMap::new();
    table.insert(p4("10.0.0.0/8"), "broad");
    table.insert(p4("10.20.0.0/16"), "specific");
    table.remove(p4("10.20.0.0/16"));
    assert_eq!(
        table.longest_match(a4("10.20.5.1")),
        Some(&"broad")
    );
    assert_eq!(
        table.longest_match(a4("10.99.0.1")),
        Some(&"broad")
    );
}

#[test]
fn mod_remove_general_keeps_specific() {
    let mut table: RouteMap<Ipv4Addr, &str> = RouteMap::new();
    table.insert(p4("10.0.0.0/8"), "broad");
    table.insert(p4("10.20.0.0/16"), "specific");
    table.remove(p4("10.0.0.0/8"));
    assert_eq!(
        table.longest_match(a4("10.20.5.1")),
        Some(&"specific")
    );
    assert_eq!(table.longest_match(a4("10.99.0.1")), None);
}

#[test]
fn mod_remove_with_unmasked_prefix_finds_entry() {
    let mut table: RouteMap<Ipv4Addr, &str> = RouteMap::new();
    table.insert(p4("10.0.0.0/8"), "ten");
    assert_eq!(table.remove(p4("10.99.99.99/8")), Some("ten"));
}

#[test]
fn mod_remove_default_route() {
    let mut table: RouteMap<Ipv4Addr, &str> = RouteMap::new();
    table.insert(p4("0.0.0.0/0"), "default");
    table.insert(p4("10.0.0.0/8"), "ten");
    table.remove(p4("0.0.0.0/0"));
    assert_eq!(
        table.longest_match(a4("10.0.0.1")),
        Some(&"ten")
    );
    assert_eq!(table.longest_match(a4("192.168.1.1")), None);
}

#[test]
fn mod_remove_all_prefixes_empties_table() {
    let mut table: RouteMap<Ipv4Addr, &str> = RouteMap::new();
    table.insert(p4("10.0.0.0/8"), "a");
    table.insert(p4("10.20.0.0/16"), "b");
    table.remove(p4("10.0.0.0/8"));
    table.remove(p4("10.20.0.0/16"));
    assert_eq!(table.longest_match(a4("10.0.0.1")), None);
    assert_eq!(table.longest_match(a4("10.20.5.1")), None);
}

#[test]
fn get_returns_exact_entry() {
    let mut table: RouteMap<Ipv4Addr, &str> = RouteMap::new();
    table.insert(p4("10.0.0.0/8"), "broad");
    table.insert(p4("10.20.0.0/16"), "specific");

    assert_eq!(table.get(p4("10.0.0.0/8")), Some(&"broad"));
    assert_eq!(
        table.get(p4("10.20.0.0/16")),
        Some(&"specific")
    );
}

#[test]
fn get_returns_none_for_covering_prefix() {
    let mut table: RouteMap<Ipv4Addr, &str> = RouteMap::new();
    table.insert(p4("10.0.0.0/8"), "broad");

    // /16 was never inserted - get must not fall back to /8
    assert_eq!(table.get(p4("10.20.0.0/16")), None);
}

#[test]
fn get_returns_none_for_missing_prefix() {
    let table: RouteMap<Ipv4Addr, &str> = RouteMap::new();
    assert_eq!(table.get(p4("10.0.0.0/8")), None);
}

#[test]
fn get_with_unmasked_prefix_finds_entry() {
    let mut table: RouteMap<Ipv4Addr, &str> = RouteMap::new();
    table.insert(p4("10.0.0.0/8"), "ten");
    assert_eq!(table.get(p4("10.99.99.99/8")), Some(&"ten"));
}

#[test]
fn get_returns_none_after_remove() {
    let mut table: RouteMap<Ipv4Addr, &str> = RouteMap::new();
    table.insert(p4("10.0.0.0/8"), "ten");
    table.remove(p4("10.0.0.0/8"));
    assert_eq!(table.get(p4("10.0.0.0/8")), None);
}

#[test]
fn get_non_stride_aligned_prefix() {
    let mut table: RouteMap<Ipv4Addr, &str> = RouteMap::new();
    table.insert(p4("10.64.0.0/10"), "slash10");

    assert_eq!(table.get(p4("10.64.0.0/10")), Some(&"slash10"));
    assert_eq!(table.get(p4("10.0.0.0/10")), None);
}

#[test]
fn mod_contains_inserted_prefix() {
    let mut table: RouteMap<Ipv4Addr, &str> = RouteMap::new();
    table.insert(p4("10.0.0.0/8"), "ten");
    assert!(table.contains(p4("10.0.0.0/8")));
}

#[test]
fn mod_does_not_contain_uninserted_prefix() {
    let mut table: RouteMap<Ipv4Addr, &str> = RouteMap::new();
    table.insert(p4("10.0.0.0/8"), "ten");
    assert!(!table.contains(p4("192.168.0.0/16")));
}

#[test]
fn mod_does_not_contain_more_specific_prefix_that_was_not_inserted() {
    let mut table: RouteMap<Ipv4Addr, &str> = RouteMap::new();
    table.insert(p4("10.0.0.0/8"), "ten");
    assert!(!table.contains(p4("10.20.0.0/16")));
}

#[test]
fn mod_does_not_contain_broader_prefix_that_was_not_inserted() {
    let mut table: RouteMap<Ipv4Addr, &str> = RouteMap::new();
    table.insert(p4("10.20.0.0/16"), "specific");
    assert!(!table.contains(p4("10.0.0.0/8")));
}

#[test]
fn mod_contains_false_after_remove() {
    let mut table: RouteMap<Ipv4Addr, &str> = RouteMap::new();
    table.insert(p4("10.0.0.0/8"), "ten");
    table.remove(p4("10.0.0.0/8"));
    assert!(!table.contains(p4("10.0.0.0/8")));
}

#[test]
fn mod_contains_with_unmasked_prefix() {
    let mut table: RouteMap<Ipv4Addr, &str> = RouteMap::new();
    table.insert(p4("10.0.0.0/8"), "ten");
    assert!(table.contains(p4("10.99.99.99/8")));
}

#[test]
fn mod_empty_table_contains_nothing() {
    let table: RouteMap<Ipv4Addr, &str> = RouteMap::new();
    assert!(!table.contains(p4("10.0.0.0/8")));
}

#[test]
fn prefix_length_not_multiple_of_stride() {
    let mut table: RouteMap<Ipv4Addr, &str> = RouteMap::new();
    // /10 = 2 full strides + rel_len 2
    table.insert(p4("10.0.0.0/8"), "broad");
    table.insert(p4("10.64.0.0/10"), "slash10");
    assert_eq!(
        table.longest_match(a4("10.64.0.1")),
        Some(&"slash10")
    );
    assert_eq!(
        table.longest_match(a4("10.128.0.1")),
        Some(&"broad")
    );
}

#[test]
fn prefix_length_one() {
    let mut table: RouteMap<Ipv4Addr, &str> = RouteMap::new();
    // /1 covers 0.0.0.0-127.255.255.255
    table.insert(p4("0.0.0.0/1"), "low-half");
    assert_eq!(
        table.longest_match(a4("1.2.3.4")),
        Some(&"low-half")
    );
    assert_eq!(table.longest_match(a4("128.0.0.1")), None);
}

#[test]
fn prefix_length_two() {
    let mut table: RouteMap<Ipv4Addr, &str> = RouteMap::new();
    table.insert(p4("128.0.0.0/2"), "class-b");
    assert_eq!(
        table.longest_match(a4("191.255.255.255")),
        Some(&"class-b")
    );
    assert_eq!(table.longest_match(a4("64.0.0.1")), None);
}

#[test]
fn prefix_length_three() {
    let mut table: RouteMap<Ipv4Addr, &str> = RouteMap::new();
    table.insert(p4("10.0.0.0/3"), "slash3");
    // 10.0.0.0/3: binary 00001010 -> top 3 bits are 000 -> covers 0.0.0.0-31.255.255.255
    assert_eq!(
        table.longest_match(a4("10.0.0.1")),
        Some(&"slash3")
    );
    assert_eq!(
        table.longest_match(a4("31.255.255.255")),
        Some(&"slash3")
    );
    assert_eq!(table.longest_match(a4("32.0.0.1")), None);
}

#[test]
fn remove_non_stride_aligned_prefix() {
    // /10 = 2 full hops + rel_len 2
    let mut table: RouteMap<Ipv4Addr, &str> = RouteMap::new();
    table.insert(p4("10.0.0.0/8"), "broad");
    table.insert(p4("10.64.0.0/10"), "slash10");

    assert_eq!(
        table.remove(p4("10.64.0.0/10")),
        Some("slash10")
    );
    // broad prefix is unaffected
    assert_eq!(
        table.longest_match(a4("10.64.0.1")),
        Some(&"broad")
    );
    assert!(!table.contains(p4("10.64.0.0/10")));
}

#[test]
fn remove_non_stride_aligned_prefix_not_present() {
    // Navigates to the correct destination node but the internal bit is unset.
    let mut table: RouteMap<Ipv4Addr, &str> = RouteMap::new();
    table.insert(p4("10.0.0.0/8"), "broad");

    // /10 was never inserted; the node it would live in exists (created for
    // /8), but the rel_len=2 internal bit for 10.64.0.0 is not set.
    assert_eq!(table.remove(p4("10.64.0.0/10")), None);
    // table is unchanged
    assert_eq!(
        table.longest_match(a4("10.64.0.1")),
        Some(&"broad")
    );
}

#[test]
fn contains_non_stride_aligned_prefix() {
    let mut table: RouteMap<Ipv4Addr, &str> = RouteMap::new();
    table.insert(p4("10.64.0.0/10"), "slash10");

    assert!(table.contains(p4("10.64.0.0/10")));
    assert!(!table.contains(p4("10.0.0.0/10"))); // different /10 block
}

#[test]
fn iter_empty_table() {
    let table: RouteMap<Ipv4Addr, &str> = RouteMap::new();
    assert_eq!(entries(&table).len(), 0);
}

#[test]
fn iter_single_default_route() {
    let mut table: RouteMap<Ipv4Addr, &str> = RouteMap::new();
    table.insert(p4("0.0.0.0/0"), "default");
    let entries = sorted_entries(&table);
    assert_eq!(entries, vec![("0.0.0.0/0".to_string(), "default")]);
}

#[test]
fn iter_single_host_route() {
    // /32 is stored at maximum depth - exercises the post-loop node visit.
    let mut table: RouteMap<Ipv4Addr, &str> = RouteMap::new();
    table.insert(p4("10.0.0.1/32"), "host");
    let entries = sorted_entries(&table);
    assert_eq!(entries, vec![("10.0.0.1/32".to_string(), "host")]);
}

#[test]
fn iter_multiple_prefixes_all_present() {
    let mut table: RouteMap<Ipv4Addr, &str> = RouteMap::new();
    table.insert(p4("0.0.0.0/0"), "default");
    table.insert(p4("10.0.0.0/8"), "broad");
    table.insert(p4("10.20.0.0/16"), "specific");
    table.insert(p4("10.20.30.0/24"), "narrow");

    let entries = sorted_entries(&table);
    assert_eq!(entries.len(), 4);
    assert!(entries.iter().any(|(_, v)| *v == "default"));
    assert!(entries.iter().any(|(_, v)| *v == "broad"));
    assert!(entries.iter().any(|(_, v)| *v == "specific"));
    assert!(entries.iter().any(|(_, v)| *v == "narrow"));
}

#[test]
fn iter_reconstructs_prefix_correctly() {
    // Verifies that the address and mask are faithfully recovered.
    let mut table: RouteMap<Ipv4Addr, &str> = RouteMap::new();
    table.insert(p4("192.168.1.0/24"), "subnet");

    let (prefix, value) = table.iter().next().unwrap();
    assert_eq!(dotted(prefix.ip()), "192.168.1.0");
    assert_eq!(prefix.mask(), 24);
    assert_eq!(*value, "subnet");
}

#[test]
fn iter_non_stride_aligned_prefix() {
    // /10 has rel_len=2; checks that internal bitmap decoding is correct.
    let mut table: RouteMap<Ipv4Addr, &str> = RouteMap::new();
    table.insert(p4("10.64.0.0/10"), "slash10");

    let entries = sorted_entries(&table);
    assert_eq!(entries, vec![("10.64.0.0/10".to_string(), "slash10")]);
}

#[test]
fn iter_count_matches_insert_count() {
    // Round-trip: insert N distinct prefixes, iter must yield exactly N.
    let mut table: RouteMap<Ipv4Addr, u32> = RouteMap::new();
    let prefixes = [
        "0.0.0.0/0",
        "10.0.0.0/8",
        "10.0.0.0/16",
        "10.0.0.0/24",
        "172.16.0.0/12",
        "192.168.0.0/16",
        "192.168.1.0/24",
        "10.0.0.1/32",
    ];
    for (i, p) in prefixes.iter().enumerate() {
        table.insert(p4(p), i as u32);
    }
    assert_eq!(entries(&table).len(), prefixes.len());
}

#[test]
fn iter_ipv6() {
    let mut table: RouteMap<Ipv6Addr, &str> = RouteMap::new();
    table.insert(p6("::/0"), "default");
    table.insert(p6("2001:db8::/32"), "docs");
    table.insert(p6("2001:db8:1::/48"), "subnet");

    let entries = entries(&table);
    assert_eq!(entries.len(), 3);
    assert!(entries.iter().any(|(_, v)| **v == "default"));
    assert!(entries.iter().any(|(_, v)| **v == "docs"));
    assert!(entries.iter().any(|(_, v)| **v == "subnet"));
}

#[test]
fn iter_multiple_external_children_exhausted() {
    // Forces the external-cursor-exhausted path (ec <= 15, above == 0)
    // by giving the root node three external children. After iterating
    // through all three subtrees the cursor scans past the last set bit.
    let mut table: RouteMap<Ipv4Addr, &str> = RouteMap::new();
    // nibble[0] of each: 0x0A=10->nib 0, 0x40=64->nib 4, 0xC0=192->nib 12
    table.insert(p4("10.0.0.0/8"), "ten");
    table.insert(p4("64.0.0.0/8"), "sixty-four");
    table.insert(p4("192.168.0.0/16"), "office");

    assert_eq!(entries(&table).len(), 3);
}

#[test]
fn iter_after_remove_reflects_change() {
    let mut table: RouteMap<Ipv4Addr, &str> = RouteMap::new();
    table.insert(p4("10.0.0.0/8"), "broad");
    table.insert(p4("10.20.0.0/16"), "specific");

    table.remove(p4("10.0.0.0/8"));

    let entries = sorted_entries(&table);
    assert_eq!(entries.len(), 1);
    assert_eq!(entries[0], ("10.20.0.0/16".to_string(), "specific"));
}

#[test]
fn default_produces_empty_table() {
    let table: RouteMap<Ipv4Addr, &str> = RouteMap::default();
    assert_eq!(entries(&table).len(), 0);
    assert_eq!(table.longest_match(a4("10.0.0.1")), None);
}

#[test]
fn collect_from_iterator() {
    let pairs: Vec<(IpPrefix<Ipv4Addr>, &str)> = vec![
        (p4("10.0.0.0/8"), "broad"),
        (p4("10.20.0.0/16"), "specific"),
    ];
    let table: RouteMap<Ipv4Addr, &str> = RouteMap::from_iter(pairs);
    assert_eq!(
        table.longest_match(a4("10.20.5.1")),
        Some(&"specific")
    );
    assert_eq!(
        table.longest_match(a4("10.99.0.1")),
        Some(&"broad")
    );
    assert_eq!(entries(&table).len(), 2);
}

#[test]
fn iter_collect_round_trip() {
    let mut original: RouteMap<Ipv4Addr, u32> = RouteMap::new();
    original.insert(p4("0.0.0.0/0"), 0);
    original.insert(p4("10.0.0.0/8"), 1);
    original.insert(p4("10.20.0.0/16"), 2);
    original.insert(p4("192.168.0.0/16"), 3);

    let restored: RouteMap<Ipv4Addr, u32> = RouteMap::from_iter(entries(&original).into_iter().map(|(p, &v)| (p, v)).collect());

    assert_eq!(entries(&restored).len(), 4);
    assert_eq!(
        restored.longest_match(a4("10.20.5.1")),
        Some(&2)
    );
    assert_eq!(
        restored.longest_match(a4("10.99.0.1")),
        Some(&1)
    );
    assert_eq!(
        restored.longest_match(a4("192.168.1.1")),
        Some(&3)
    );
    assert_eq!(restored.longest_match(a4("8.8.8.8")), Some(&0));
}

#[test]
fn len_empty_table() {
    let table: RouteMap<Ipv4Addr, &str> = RouteMap::new();
    assert_eq!(table.len(), 0);
    assert!(table.is_empty());
}

#[test]
fn len_tracks_inserts() {
    let mut table: RouteMap<Ipv4Addr, &str> = RouteMap::new();
    table.insert(p4("10.0.0.0/8"), "a");
    assert_eq!(table.len(), 1);
    assert!(!table.is_empty());
    table.insert(p4("10.20.0.0/16"), "b");
    assert_eq!(table.len(), 2);
}

#[test]
fn len_overwrite_does_not_increment() {
    let mut table: RouteMap<Ipv4Addr, &str> = RouteMap::new();
    table.insert(p4("10.0.0.0/8"), "first");
    table.insert(p4("10.0.0.0/8"), "second");
    assert_eq!(table.len(), 1);
}

#[test]
fn len_tracks_removes() {
    let mut table: RouteMap<Ipv4Addr, &str> = RouteMap::new();
    table.insert(p4("10.0.0.0/8"), "a");
    table.insert(p4("10.20.0.0/16"), "b");
    table.remove(p4("10.0.0.0/8"));
    assert_eq!(table.len(), 1);
    table.remove(p4("10.20.0.0/16"));
    assert_eq!(table.len(), 0);
    assert!(table.is_empty());
}

#[test]
fn len_remove_nonexistent_does_not_decrement() {
    let mut table: RouteMap<Ipv4Addr, &str> = RouteMap::new();
    table.insert(p4("10.0.0.0/8"), "a");
    table.remove(p4("192.168.0.0/16"));
    assert_eq!(table.len(), 1);
}

#[test]
fn len_matches_iter_count() {
    let mut table: RouteMap<Ipv4Addr, u32> = RouteMap::new();
    let prefixes = ["0.0.0.0/0", "10.0.0.0/8", "10.20.0.0/16", "192.168.1.0/24"];
    for (i, p) in prefixes.iter().enumerate() {
        table.insert(p4(p), i as u32);
    }
    assert_eq!(table.len(), entries(&table).len());
}

#[test]
fn into_iter_for_loop_syntax() {
    let mut table: RouteMap<Ipv4Addr, &str> = RouteMap::new();
    table.insert(p4("10.0.0.0/8"), "ten");
    table.insert(p4("10.20.0.0/16"), "twenty");

    let mut count: usize = 0;
    let mut iter = table.into_iter();
    while let Some((_prefix, _value)) = iter.next() {
        count += 1;
    }
    assert_eq!(count, 2);
}

#[test]
fn into_iter_collect() {
    let mut table: RouteMap<Ipv4Addr, u32> = RouteMap::new();
    table.insert(p4("10.0.0.0/8"), 1);
    table.insert(p4("192.168.0.0/16"), 2);

    let mut iter = table.into_iter();
    let mut entries: Vec<(IpPrefix<Ipv4Addr>, &u32)> = Vec::new();
    while let Some(entry) = iter.next() {
        entries.push(entry);
    }
    assert_eq!(entries.len(), 2);
}
