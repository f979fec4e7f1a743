//! The arena trie as a routing table.
use routemap::address::{Ipv4Addr, Ipv6Addr};
use routemap::arena::table::ArenaTable;
use routemap::prefix::IpPrefix;

/// Reads an IPv4 address in dotted notation.
fn a4(text: &str) -> Ipv4Addr {
    let mut bits: u32 = 0;
    for octet in text.split('.') {
        bits = bits << 8 | octet.parse::<u32>().unwrap();
    }
    Ipv4Addr { bits }
}

/// Reads an IPv6 address in colon notation.
fn a6(text: &str) -> Ipv6Addr {
    let groups = |part: &str| -> Vec<u128> {
        part.split(':')
            .filter(|group| !group.is_empty())
            .map(|group| u128::from_str_radix(group, 16).unwrap())
            .collect()
    };
    let (head, tail) = match text.split_once("::") {
        Some((head, tail)) => (groups(head), groups(tail)),
        None => (groups(text), Vec::new()),
    };
    let mut all: Vec<u128> = head.clone();
    all.resize(8 - tail.len(), 0);
    all.extend(tail);
    let mut bits: u128 = 0;
    for group in all {
        bits = bits << 16 | group;
    }
    Ipv6Addr { bits }
}

/// Reads an IPv4 prefix in CIDR notation.
fn p4(text: &str) -> IpPrefix<Ipv4Addr> {
    let (addr, len) = text.split_once('/').unwrap();
    IpPrefix::new(a4(addr), len.parse().unwrap()).unwrap()
}

/// Reads an IPv6 prefix in CIDR notation.
fn p6(text: &str) -> IpPrefix<Ipv6Addr> {
    let (addr, len) = text.split_once('/').unwrap();
    IpPrefix::new(a6(addr), len.parse().unwrap()).unwrap()
}

#[test]
fn table_empty_table_returns_none() {
    let table: ArenaTable<Ipv4Addr, &str> = ArenaTable::new();
    assert_eq!(table.longest_match(a4("10.0.0.1")), None);
}

#[test]
fn table_default_route_matches_any_address() {
    let mut table: ArenaTable<Ipv4Addr, &str> = ArenaTable::new();
    table.insert(p4("0.0.0.0/0"), "default");
    assert_eq!(
        table.longest_match(a4("1.2.3.4")),
        Some(&"default")
    );
    assert_eq!(
        table.longest_match(a4("255.255.255.255")),
        Some(&"default")
    );
    assert_eq!(
        table.longest_match(a4("0.0.0.0")),
        Some(&"default")
    );
}

#[test]
fn table_default_route_is_fallback_when_no_specific_match() {
    let mut table: ArenaTable<Ipv4Addr, &str> = ArenaTable::new();
    table.insert(p4("0.0.0.0/0"), "default");
    table.insert(p4("10.0.0.0/8"), "ten");
    assert_eq!(
        table.longest_match(a4("10.0.0.1")),
        Some(&"ten")
    );
    assert_eq!(
        table.longest_match(a4("192.168.1.1")),
        Some(&"default")
    );
}

#[test]
fn table_single_prefix_hit() {
    let mut table: ArenaTable<Ipv4Addr, &str> = ArenaTable::new();
    table.insert(p4("10.0.0.0/8"), "ten");
    assert_eq!(
        table.longest_match(a4("10.0.0.1")),
        Some(&"ten")
    );
}

#[test]
fn table_single_prefix_miss() {
    let mut table: ArenaTable<Ipv4Addr, &str> = ArenaTable::new();
    table.insert(p4("10.0.0.0/8"), "ten");
    assert_eq!(table.longest_match(a4("11.0.0.1")), None);
}

#[test]
fn table_network_address_itself_matches() {
    let mut table: ArenaTable<Ipv4Addr, &str> = ArenaTable::new();
    table.insert(p4("10.0.0.0/8"), "ten");
    assert_eq!(
        table.longest_match(a4("10.0.0.0")),
        Some(&"ten")
    );
}

#[test]
fn table_address_just_outside_prefix_misses() {
    let mut table: ArenaTable<Ipv4Addr, &str> = ArenaTable::new();
    table.insert(p4("10.0.0.0/8"), "ten");
    assert_eq!(table.longest_match(a4("11.0.0.0")), None);
}

#[test]
fn table_last_address_in_prefix_matches() {
    let mut table: ArenaTable<Ipv4Addr, &str> = ArenaTable::new();
    table.insert(p4("10.0.0.0/24"), "subnet");
    assert_eq!(
        table.longest_match(a4("10.0.0.255")),
        Some(&"subnet")
    );
}

#[test]
fn table_most_specific_prefix_wins() {
    let mut table: ArenaTable<Ipv4Addr, &str> = ArenaTable::new();
    table.insert(p4("10.0.0.0/8"), "broad");
    table.insert(p4("10.20.0.0/16"), "specific");
    assert_eq!(
        table.longest_match(a4("10.20.5.1")),
        Some(&"specific")
    );
    assert_eq!(
        table.longest_match(a4("10.99.0.1")),
        Some(&"broad")
    );
}

#[test]
fn table_three_levels_of_nesting() {
    let mut table: ArenaTable<Ipv4Addr, &str> = ArenaTable::new();
    table.insert(p4("10.0.0.0/8"), "level-1");
    table.insert(p4("10.20.0.0/16"), "level-2");
    table.insert(p4("10.20.30.0/24"), "level-3");
    assert_eq!(
        table.longest_match(a4("10.20.30.1")),
        Some(&"level-3")
    );
    assert_eq!(
        table.longest_match(a4("10.20.99.1")),
        Some(&"level-2")
    );
    assert_eq!(
        table.longest_match(a4("10.99.0.1")),
        Some(&"level-1")
    );
    assert_eq!(table.longest_match(a4("9.0.0.1")), None);
}

#[test]
fn table_slash32_matches_only_that_host() {
    let mut table: ArenaTable<Ipv4Addr, &str> = ArenaTable::new();
    table.insert(p4("10.0.0.0/8"), "broad");
    table.insert(p4("10.0.0.1/32"), "host");
    assert_eq!(
        table.longest_match(a4("10.0.0.1")),
        Some(&"host")
    );
    assert_eq!(
        table.longest_match(a4("10.0.0.2")),
        Some(&"broad")
    );
}

#[test]
fn table_inserting_same_prefix_twice_overwrites_value() {
    let mut table: ArenaTable<Ipv4Addr, &str> = ArenaTable::new();
    table.insert(p4("10.0.0.0/8"), "first");
    table.insert(p4("10.0.0.0/8"), "second");
    assert_eq!(
        table.longest_match(a4("10.0.0.1")),
        Some(&"second")
    );
}

#[test]
fn table_non_overlapping_prefixes_do_not_cross_match() {
    let mut table: ArenaTable<Ipv4Addr, &str> = ArenaTable::new();
    table.insert(p4("10.0.0.0/8"), "ten");
    table.insert(p4("192.168.0.0/16"), "office");
    assert_eq!(
        table.longest_match(a4("10.1.2.3")),
        Some(&"ten")
    );
    assert_eq!(
        table.longest_match(a4("192.168.1.1")),
        Some(&"office")
    );
    assert_eq!(table.longest_match(a4("172.16.0.1")), None);
}

#[test]
fn table_ipv6_basic_match() {
    let mut table: ArenaTable<Ipv6Addr, &str> = ArenaTable::new();
    table.insert(p6("2001:db8::/32"), "docs");
    assert_eq!(
        table.longest_match(a6("2001:db8::1")),
        Some(&"docs")
    );
    assert_eq!(table.longest_match(a6("2001:db9::1")), None);
}

#[test]
fn table_ipv6_most_specific_wins() {
    let mut table: ArenaTable<Ipv6Addr, &str> = ArenaTable::new();
    table.insert(p6("2001:db8::/32"), "broad");
    table.insert(p6("2001:db8:1::/48"), "specific");
    assert_eq!(
        table.longest_match(a6("2001:db8:1::1")),
        Some(&"specific")
    );
    assert_eq!(
        table.longest_match(a6("2001:db8:2::1")),
        Some(&"broad")
    );
}

#[test]
fn table_ipv6_default_route() {
    let mut table: ArenaTable<Ipv6Addr, &str> = ArenaTable::new();
    table.insert(p6("::/0"), "default");
    assert_eq!(
        table.longest_match(a6("2001:db8::1")),
        Some(&"default")
    );
    assert_eq!(
        table.longest_match(a6("::1")),
        Some(&"default")
    );
}

#[test]
fn table_remove_returns_the_value() {
    let mut table: ArenaTable<Ipv4Addr, &str> = ArenaTable::new();
    table.insert(p4("10.0.0.0/8"), "ten");
    assert_eq!(table.remove(p4("10.0.0.0/8")), Some("ten"));
}

#[test]
fn table_remove_makes_prefix_unmatchable() {
    let mut table: ArenaTable<Ipv4Addr, &str> = ArenaTable::new();
    table.insert(p4("10.0.0.0/8"), "ten");
    table.remove(p4("10.0.0.0/8"));
    assert_eq!(table.longest_match(a4("10.0.0.1")), None);
}

#[test]
fn table_remove_nonexistent_prefix_returns_none() {
    let mut table: ArenaTable<Ipv4Addr, &str> = ArenaTable::new();
    table.insert(p4("10.0.0.0/8"), "ten");
    assert_eq!(table.remove(p4("192.168.0.0/16")), None);
    assert_eq!(
        table.longest_match(a4("10.0.0.1")),
        Some(&"ten")
    );
}

#[test]
fn table_remove_specific_falls_back_to_general() {
    let mut table: ArenaTable<Ipv4Addr, &str> = ArenaTable::new();
    table.insert(p4("10.0.0.0/8"), "broad");
    table.insert(p4("10.20.0.0/16"), "specific");
    table.remove(p4("10.20.0.0/16"));
    assert_eq!(
        table.longest_match(a4("10.20.5.1")),
        Some(&"broad")
    );
    assert_eq!(
        table.longest_match(a4("10.99.0.1")),
        Some(&"broad")
    );
}

#[test]
fn table_remove_general_keeps_specific() {
    let mut table: ArenaTable<Ipv4Addr, &str> = ArenaTable::new();
    table.insert(p4("10.0.0.0/8"), "broad");
    table.insert(p4("10.20.0.0/16"), "specific");
    table.remove(p4("10.0.0.0/8"));
    assert_eq!(
        table.longest_match(a4("10.20.5.1")),
        Some(&"specific")
    );
    assert_eq!(table.longest_match(a4("10.99.0.1")), None);
}

#[test]
fn table_remove_with_unmasked_prefix_finds_entry() {
    let mut table: ArenaTable<Ipv4Addr, &str> = ArenaTable::new();
    table.insert(p4("10.0.0.0/8"), "ten");
    assert_eq!(table.remove(p4("10.99.99.99/8")), Some("ten"));
}

#[test]
fn table_remove_default_route() {
    let mut table: ArenaTable<Ipv4Addr, &str> = ArenaTable::new();
    table.insert(p4("0.0.0.0/0"), "default");
    table.insert(p4("10.0.0.0/8"), "ten");
    table.remove(p4("0.0.0.0/0"));
    assert_eq!(
        table.longest_match(a4("10.0.0.1")),
        Some(&"ten")
    );
    assert_eq!(table.longest_match(a4("192.168.1.1")), None);
}

#[test]
fn table_remove_all_prefixes_empties_table() {
    let mut table: ArenaTable<Ipv4Addr, &str> = ArenaTable::new();
    table.insert(p4("10.0.0.0/8"), "a");
    table.insert(p4("10.20.0.0/16"), "b");
    table.remove(p4("10.0.0.0/8"));
    table.remove(p4("10.20.0.0/16"));
    assert_eq!(table.longest_match(a4("10.0.0.1")), None);
    assert_eq!(table.longest_match(a4("10.20.5.1")), None);
}

#[test]
fn table_contains_inserted_prefix() {
    let mut table: ArenaTable<Ipv4Addr, &str> = ArenaTable::new();
    table.insert(p4("10.0.0.0/8"), "ten");
    assert!(table.contains(p4("10.0.0.0/8")));
}

#[test]
fn table_does_not_contain_uninserted_prefix() {
    let mut table: ArenaTable<Ipv4Addr, &str> = ArenaTable::new();
    table.insert(p4("10.0.0.0/8"), "ten");
    assert!(!table.contains(p4("192.168.0.0/16")));
}

#[test]
fn table_does_not_contain_more_specific_prefix_that_was_not_inserted() {
    let mut table: ArenaTable<Ipv4Addr, &str> = ArenaTable::new();
    table.insert(p4("10.0.0.0/8"), "ten");
    assert!(!table.contains(p4("10.20.0.0/16")));
}

#[test]
fn table_does_not_contain_broader_prefix_that_was_not_inserted() {
    let mut table: ArenaTable<Ipv4Addr, &str> = ArenaTable::new();
    table.insert(p4("10.20.0.0/16"), "specific");
    assert!(!table.contains(p4("10.0.0.0/8")));
}

#[test]
fn table_contains_false_after_remove() {
    let mut table: ArenaTable<Ipv4Addr, &str> = ArenaTable::new();
    table.insert(p4("10.0.0.0/8"), "ten");
    table.remove(p4("10.0.0.0/8"));
    assert!(!table.contains(p4("10.0.0.0/8")));
}

#[test]
fn table_contains_with_unmasked_prefix() {
    let mut table: ArenaTable<Ipv4Addr, &str> = ArenaTable::new();
    table.insert(p4("10.0.0.0/8"), "ten");
    assert!(table.contains(p4("10.99.99.99/8")));
}

#[test]
fn table_empty_table_contains_nothing() {
    let table: ArenaTable<Ipv4Addr, &str> = ArenaTable::new();
    assert!(!table.contains(p4("10.0.0.0/8")));
}
