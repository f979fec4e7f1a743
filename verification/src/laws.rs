//! What holds of every routing table.
use vstd::prelude::*;
use vstd::arithmetic::power2;
use crate::address;
use crate::address::{IpAddress, Ipv4Addr, Ipv6Addr};
use crate::bits;
use crate::model;
use crate::prefix;
use crate::prefix::IpPrefix;

verus! {

/// An inserted entry can be read back, and no other entry changes.
pub proof fn law_insert_is_visible<V>(
    table: Map<Seq<bool>, V>,
    key: Seq<bool>,
    value: V,
    other: Seq<bool>,
)
    ensures
        table.insert(key, value).contains_key(key),
        table.insert(key, value)[key] == value,
        other != key ==> table.insert(key, value).contains_key(other) == table.contains_key(other),
        other != key && table.contains_key(other) ==> table.insert(key, value)[other]
            == table[other],
{
}

/// Inserting the same prefix twice leaves one entry, with the later value.
pub proof fn law_overwrite<V>(table: Map<Seq<bool>, V>, key: Seq<bool>, first: V, second: V)
    requires
        table.dom().finite(),
    ensures
        table.insert(key, first).insert(key, second) == table.insert(key, second),
        table.insert(key, first).insert(key, second).len() == table.insert(key, first).len(),
{
    assert(table.insert(key, first).insert(key, second) =~= table.insert(key, second));
    assert(table.insert(key, first).dom() =~= table.insert(key, second).dom());
}

/// The order in which different prefixes are inserted does not matter.
pub proof fn law_inserts_commute<V>(
    table: Map<Seq<bool>, V>,
    a: Seq<bool>,
    value_a: V,
    b: Seq<bool>,
    value_b: V,
)
    requires
        a != b,
    ensures
        table.insert(a, value_a).insert(b, value_b) == table.insert(b, value_b).insert(a, value_a),
{
    assert(table.insert(a, value_a).insert(b, value_b) =~= table.insert(b, value_b).insert(
        a,
        value_a,
    ));
}

/// A removed entry is gone, and no other entry changes.
pub proof fn law_remove_clears<V>(table: Map<Seq<bool>, V>, key: Seq<bool>, other: Seq<bool>)
    ensures
        !table.remove(key).contains_key(key),
        other != key ==> table.remove(key).contains_key(other) == table.contains_key(other),
        other != key && table.contains_key(other) ==> table.remove(key)[other] == table[other],
{
}

/// Removing a prefix undoes its insertion into a table that did not hold it.
pub proof fn law_remove_undoes_insert<V>(table: Map<Seq<bool>, V>, key: Seq<bool>, value: V)
    requires
        !table.contains_key(key),
    ensures
        table.insert(key, value).remove(key) == table,
{
    assert(table.insert(key, value).remove(key) =~= table);
}

/// The number of entries grows by one with a new prefix, shrinks by one with the removal of
/// one that is there, and stays otherwise.
pub proof fn law_len<V>(table: Map<Seq<bool>, V>, key: Seq<bool>, value: V)
    requires
        table.dom().finite(),
    ensures
        table.insert(key, value).len() == table.len() + if table.contains_key(key) {
            0int
        } else {
            1
        },
        table.remove(key).len() == table.len() - if table.contains_key(key) {
            1int
        } else {
            0
        },
{
    assert(table.insert(key, value).dom() =~= table.dom().insert(key));
    assert(table.remove(key).dom() =~= table.dom().remove(key));
}

/// An address has a most specific match exactly if some prefix of the table covers it.
pub proof fn law_match_exists<V>(table: Map<Seq<bool>, V>, addr: Seq<bool>)
    ensures
        !model::is_unmatched(table, addr) <==> exists|key: Seq<bool>|
            model::is_longest_match(table, addr, key),
{
    if !model::is_unmatched(table, addr) {
        let key = choose|key: Seq<bool>| table.contains_key(key) && key.is_prefix_of(addr);
        lemma_longest_from(table, addr, key);
    }
}

/// From a covering key, a longest one is reached in finitely many steps.
proof fn lemma_longest_from<V>(table: Map<Seq<bool>, V>, addr: Seq<bool>, key: Seq<bool>)
    requires
        table.contains_key(key),
        key.is_prefix_of(addr),
    ensures
        exists|best: Seq<bool>| model::is_longest_match(table, addr, best),
    decreases addr.len() - key.len(),
{
    if !model::is_longest_match(table, addr, key) {
        let longer = choose|other: Seq<bool>|
            table.contains_key(other) && other.is_prefix_of(addr) && other.len() > key.len();
        lemma_longest_from(table, addr, longer);
    }
}

/// The most specific match is unique, so that a lookup has one answer.
pub proof fn law_match_unique<V>(
    table: Map<Seq<bool>, V>,
    addr: Seq<bool>,
    a: Seq<bool>,
    b: Seq<bool>,
)
    requires
        model::is_longest_match(table, addr, a),
        model::is_longest_match(table, addr, b),
    ensures
        a == b,
{
    assert(a.len() == b.len());
}

/// Of two prefixes that cover an address, the shorter one never answers the lookup.
pub proof fn law_more_specific_wins<V>(
    table: Map<Seq<bool>, V>,
    addr: Seq<bool>,
    broad: Seq<bool>,
    specific: Seq<bool>,
)
    requires
        table.contains_key(broad),
        table.contains_key(specific),
        broad.is_prefix_of(addr),
        specific.is_prefix_of(addr),
        broad.len() < specific.len(),
    ensures
        !model::is_longest_match(table, addr, broad),
        !model::is_unmatched(table, addr),
        forall|key: Seq<bool>|
            model::is_longest_match(table, addr, key) ==> key.len() >= specific.len(),
{
}

/// An inserted prefix answers the lookups of the addresses that it covers, except where a
/// longer prefix of the table covers them too; all other lookups stay as they were.
pub proof fn law_insert_then_match<V>(
    table: Map<Seq<bool>, V>,
    key: Seq<bool>,
    value: V,
    addr: Seq<bool>,
    best: Seq<bool>,
)
    ensures
        key.is_prefix_of(addr) && (forall|other: Seq<bool>|
            table.contains_key(other) && other.is_prefix_of(addr) ==> other.len() <= key.len())
            ==> model::is_longest_match(table.insert(key, value), addr, key) && table.insert(
            key,
            value,
        )[key] == value,
        model::is_longest_match(table, addr, best) && !(key.is_prefix_of(addr) && best.len()
            <= key.len()) ==> model::is_longest_match(table.insert(key, value), addr, best)
            && table.insert(key, value)[best] == table[best],
        model::is_unmatched(table, addr) && !key.is_prefix_of(addr) ==> model::is_unmatched(
            table.insert(key, value),
            addr,
        ),
{
    let after = table.insert(key, value);
    if model::is_longest_match(table, addr, best) && !(key.is_prefix_of(addr) && best.len()
        <= key.len()) {
        assert(best != key);
        assert forall|other: Seq<bool>|
            after.contains_key(other) && other.is_prefix_of(addr) implies other.len()
            <= best.len() by {
            if other != key {
                assert(table.contains_key(other));
            }
        }
    }
    if model::is_unmatched(table, addr) && !key.is_prefix_of(addr) {
        assert forall|other: Seq<bool>| after.contains_key(other) implies !other.is_prefix_of(
            addr,
        ) by {
            if other != key {
                assert(table.contains_key(other));
            }
        }
    }
}

/// Removing the most specific match lets the lookup fall back to the next longest prefix
/// that covers the address, and to no match where there is none.
pub proof fn law_remove_falls_back<V>(
    table: Map<Seq<bool>, V>,
    addr: Seq<bool>,
    specific: Seq<bool>,
    broad: Seq<bool>,
)
    requires
        model::is_longest_match(table, addr, specific),
    ensures
        broad != specific && table.contains_key(broad) && broad.is_prefix_of(addr) && (forall|
            other: Seq<bool>,
        |
            table.contains_key(other) && other.is_prefix_of(addr) && other != specific
                ==> other.len() <= broad.len()) ==> model::is_longest_match(
            table.remove(specific),
            addr,
            broad,
        ) && table.remove(specific)[broad] == table[broad],
        (forall|other: Seq<bool>|
            table.contains_key(other) && other.is_prefix_of(addr) ==> other == specific)
            ==> model::is_unmatched(table.remove(specific), addr),
{
}

/// Removing a prefix that is not the most specific match of an address leaves the lookup of
/// that address as it was.
pub proof fn law_remove_keeps_match<V>(
    table: Map<Seq<bool>, V>,
    addr: Seq<bool>,
    best: Seq<bool>,
    removed: Seq<bool>,
)
    requires
        removed != best,
    ensures
        model::is_longest_match(table, addr, best) ==> model::is_longest_match(
            table.remove(removed),
            addr,
            best,
        ) && table.remove(removed)[best] == table[best],
        model::is_unmatched(table, addr) ==> model::is_unmatched(table.remove(removed), addr),
{
}

/// The prefix of length zero covers every address.
pub proof fn law_default_route<V>(table: Map<Seq<bool>, V>, addr: Seq<bool>)
    requires
        table.contains_key(Seq::<bool>::empty()),
    ensures
        !model::is_unmatched(table, addr),
{
    assert(Seq::<bool>::empty().is_prefix_of(addr));
}

/// A prefix of full length covers its own address and no other.
pub proof fn law_host_route<A: IpAddress>(host: A, other: A)
    ensures
        address::address_bits(host).is_prefix_of(address::address_bits(other)) <==> host == other,
{
    A::lemma_width();
    host.lemma_number(other);
    other.lemma_number(host);
    if address::address_bits(host).is_prefix_of(address::address_bits(other)) {
        let a = address::address_bits(host);
        let b = address::address_bits(other);
        assert(b.subrange(0, a.len() as int) =~= b);
        assert forall|i: int| 0 <= i < A::width() implies address::bit_of(
            host.number(),
            A::width(),
            i,
        ) == address::bit_of(other.number(), A::width(), i) by {
            assert(a[i] == b[i]);
        }
        lemma_whole_number(host);
        lemma_whole_number(other);
        lemma_same_bits(host.number(), other.number(), A::width(), A::width());
    } else {
        assert(address::address_bits(host).is_prefix_of(address::address_bits(host)));
    }
}

/// Numbers whose leading bits agree are equal once the other bits are shifted out.
proof fn lemma_same_bits(a: u128, b: u128, width: nat, len: nat)
    requires
        len <= width <= 128,
        width < 128 ==> a >> (width as u128) == b >> (width as u128),
        forall|i: int|
            0 <= i < len ==> #[trigger] address::bit_of(a, width, i) == address::bit_of(
                b,
                width,
                i,
            ),
    ensures
        width - len < 128 ==> a >> ((width - len) as u128) == b >> ((width - len) as u128),
    decreases len,
{
    if len > 0 {
        lemma_same_bits(a, b, width, (len - 1) as nat);
        let at = (width - len) as u128;
        assert(address::bit_of(a, width, len - 1) == address::bit_of(b, width, len - 1));
        let next = (width - len + 1) as u128;
        if next < 128 {
            assert(a >> at == b >> at) by (bit_vector)
                requires
                    at < 127,
                    next == at + 1,
                    a >> next == b >> next,
                    ((a >> at) & 1 == 1) == ((b >> at) & 1 == 1),
            ;
        } else {
            assert(a >> at == b >> at) by (bit_vector)
                requires
                    at == 127,
                    ((a >> at) & 1 == 1) == ((b >> at) & 1 == 1),
            ;
        }
    }
}

/// No bit of an address lies outside the width of its family.
proof fn lemma_whole_number<A: IpAddress>(addr: A)
    ensures
        A::width() < 128 ==> addr.number() >> (A::width() as u128) == 0,
        addr.number() >> 0u128 == addr.number(),
{
    A::lemma_width();
    addr.lemma_number(addr);
    let number = addr.number();
    assert(number >> 0u128 == number) by (bit_vector);
    if A::width() == 32 {
        assert(number >> 32u128 == 0) by (bit_vector)
            requires
                number <= 0xffff_ffff,
        ;
    }
}

/// Numbers that are equal once the trailing bits are shifted out agree in the other bits.
proof fn lemma_shifted_same_bits(a: u128, b: u128, width: nat, len: nat, i: int)
    requires
        i < len <= width <= 128,
        0 <= i,
        a >> ((width - len) as u128) == b >> ((width - len) as u128),
    ensures
        address::bit_of(a, width, i) == address::bit_of(b, width, i),
{
    let shift = (width - len) as u128;
    let at = (width - 1 - i) as u128;
    assert((a >> at) & 1 == (b >> at) & 1) by (bit_vector)
        requires
            at < 128,
            shift <= at,
            a >> shift == b >> shift,
    ;
}

/// A prefix covers exactly the addresses that have the same number as the prefix's own
/// address once the host bits are shifted out.
pub proof fn law_coverage<A: IpAddress>(prefix: IpPrefix<A>, addr: A)
    requires
        prefix.length() <= A::width(),
    ensures
        prefix@.is_prefix_of(address::address_bits(addr)) <==> prefix.length() == 0
            || addr.number() >> ((A::width() - prefix.length()) as u128) == prefix.address().number()
            >> ((A::width() - prefix.length()) as u128),
{
    A::lemma_width();
    let width = A::width();
    let len = prefix.length();
    let a = addr.number();
    let b = prefix.address().number();
    let all = address::address_bits(addr);
    lemma_whole_number(addr);
    lemma_whole_number(prefix.address());
    if prefix@.is_prefix_of(all) {
        assert forall|i: int| 0 <= i < len implies #[trigger] address::bit_of(a, width, i)
            == address::bit_of(b, width, i) by {
            assert(all.subrange(0, len as int)[i] == prefix@[i]);
        }
        lemma_same_bits(a, b, width, len);
    } else if len == 0 {
        assert(prefix@ =~= all.subrange(0, 0));
    } else if a >> ((width - len) as u128) == b >> ((width - len) as u128) {
        assert forall|i: int| 0 <= i < len implies prefix@[i] == all.subrange(0, len as int)[i] by {
            lemma_shifted_same_bits(a, b, width, len, i);
        }
        assert(prefix@ =~= all.subrange(0, len as int));
    }
}

/// Every prefix covers its own address.
pub proof fn law_covers_own_address<A: IpAddress>(prefix: IpPrefix<A>)
    requires
        prefix.length() <= A::width(),
    ensures
        prefix@.is_prefix_of(address::address_bits(prefix.address())),
{
    law_coverage(prefix, prefix.address());
}

/// Host bits are ignored: prefixes denote the same entry exactly if they have the same
/// length and the same number once the host bits are shifted out.
pub proof fn law_host_bits_ignored<A: IpAddress>(a: IpPrefix<A>, b: IpPrefix<A>)
    requires
        a.length() <= A::width(),
        b.length() <= A::width(),
    ensures
        a@ == b@ <==> a.length() == b.length() && (a.length() == 0 || a.address().number()
            >> ((A::width() - a.length()) as u128) == b.address().number() >> ((A::width()
            - a.length()) as u128)),
{
    law_coverage(a, b.address());
    let all = address::address_bits(b.address());
    if a.length() == b.length() {
        assert(all.subrange(0, b.length() as int) =~= b@);
    } else {
        assert(a@.len() != b@.len());
    }
}

/// Of all the prefixes that denote an entry, exactly one has no host bit set.
pub proof fn law_canonical_prefix_unique<A: IpAddress>(a: IpPrefix<A>, b: IpPrefix<A>)
    requires
        a.length() <= A::width(),
        b.length() <= A::width(),
        a.canonical(),
        b.canonical(),
        a@ == b@,
    ensures
        a == b,
{
    A::lemma_width();
    let width = A::width();
    let x = a.address().number();
    let y = b.address().number();
    assert(a@.len() == a.length() && b@.len() == b.length());
    assert forall|i: int| 0 <= i < width implies #[trigger] address::bit_of(x, width, i)
        == address::bit_of(y, width, i) by {
        if i < a.length() {
            assert(a@[i] == address::bit_of(a.address().number(), A::width(), i));
            assert(b@[i] == address::bit_of(b.address().number(), A::width(), i));
        } else {
            assert(!address::bit_of(a.address().number(), A::width(), i));
            assert(!address::bit_of(b.address().number(), A::width(), i));
        }
    }
    lemma_whole_number(a.address());
    lemma_whole_number(b.address());
    lemma_same_bits(x, y, width, width);
    a.address().lemma_number(b.address());
    prefix::lemma_prefix_parts(a, b);
}

/// The order of iteration is a strict total order on network bits.
pub proof fn law_iteration_order_total(a: Seq<bool>, b: Seq<bool>, c: Seq<bool>)
    ensures
        !model::precedes(a, a),
        a != b ==> model::precedes(a, b) || model::precedes(b, a),
        model::precedes(a, b) ==> !model::precedes(b, a),
        model::precedes(a, b) && model::precedes(b, c) ==> model::precedes(a, c),
    decreases a.len(),
{
    if a.len() < 4 && b.len() < 4 {
        bits::lemma_heap_index_inverse(a);
        bits::lemma_heap_index_inverse(b);
    }
    if a.len() >= 4 {
        if b.len() >= 4 {
            bits::lemma_nibble_value(a.take(4));
            bits::lemma_nibble_value(b.take(4));
            if a.skip(4) == b.skip(4) && a.take(4) == b.take(4) {
                assert(a =~= a.take(4) + a.skip(4));
                assert(b =~= b.take(4) + b.skip(4));
            }
            if c.len() >= 4 {
                law_iteration_order_total(a.skip(4), b.skip(4), c.skip(4));
            } else {
                law_iteration_order_total(a.skip(4), b.skip(4), c);
            }
        } else {
            law_iteration_order_total(a.skip(4), b, c);
        }
    }
}

/// A prefix is yielded before all the longer prefixes nested beneath it.
pub proof fn law_shorter_prefix_first(a: Seq<bool>, b: Seq<bool>)
    requires
        a.is_prefix_of(b),
        a.len() < b.len(),
    ensures
        model::precedes(a, b),
    decreases a.len(),
{
    if a.len() < 4 {
        if b.len() < 4 {
            bits::lemma_heap_index_range(a);
            bits::lemma_heap_index_range(b);
        }
    } else {
        assert(a.take(4) =~= b.take(4));
        assert(a.skip(4) =~= b.skip(4).subrange(0, a.len() - 4));
        law_shorter_prefix_first(a.skip(4), b.skip(4));
    }
}

/// A table has one listing: what iteration yields is determined by the entries alone.
pub proof fn law_listing_unique<V>(
    a: Seq<(Seq<bool>, V)>,
    b: Seq<(Seq<bool>, V)>,
    table: Map<Seq<bool>, V>,
)
    requires
        model::is_listing(a, table),
        model::is_listing(b, table),
    ensures
        a == b,
{
    lemma_listings_agree(a, b, table, a.len() as int);
    lemma_listings_agree(b, a, table, b.len() as int);
    assert(a =~= b);
}

/// The first `n` entries of one listing are those of any other.
proof fn lemma_listings_agree<V>(
    a: Seq<(Seq<bool>, V)>,
    b: Seq<(Seq<bool>, V)>,
    table: Map<Seq<bool>, V>,
    n: int,
)
    requires
        model::is_listing(a, table),
        model::is_listing(b, table),
        0 <= n <= a.len(),
    ensures
        n <= b.len(),
        forall|i: int| 0 <= i < n ==> a[i] == b[i],
    decreases n,
{
    if n > 0 {
        let i = n - 1;
        lemma_listings_agree(a, b, table, i);
        let key = a[i].0;
        assert(table.contains_key(key));
        let j = choose|j: int| 0 <= j < b.len() && (#[trigger] b[j]).0 == key;
        if j < i {
            assert(a[j] == b[j]);
            assert(model::precedes(a[j].0, a[i].0));
            law_iteration_order_total(key, key, key);
        } else if j > i {
            let earlier = b[i].0;
            assert(model::precedes(b[i].0, b[j].0));
            assert(table.contains_key(earlier));
            let m = choose|m: int| 0 <= m < a.len() && (#[trigger] a[m]).0 == earlier;
            law_iteration_order_total(key, earlier, key);
            if m < i {
                assert(a[m] == b[m]);
                assert(model::precedes(b[m].0, b[i].0));
                law_iteration_order_total(earlier, earlier, earlier);
            } else if m > i {
                assert(model::precedes(a[i].0, a[m].0));
            }
        }
    }
}

/// The number of entries that iteration yields is the number of entries of the table.
pub proof fn law_listing_len<V>(entries: Seq<(Seq<bool>, V)>, table: Map<Seq<bool>, V>)
    requires
        model::is_listing(entries, table),
    ensures
        table.dom().finite(),
        entries.len() == table.len(),
{
    let keys = entries.map_values(|entry: (Seq<bool>, V)| entry.0);
    assert(keys.no_duplicates()) by {
        assert forall|i: int, j: int| 0 <= i < j < keys.len() implies keys[i] != keys[j] by {
            assert(model::precedes(entries[i].0, entries[j].0));
            law_iteration_order_total(keys[i], keys[i], keys[i]);
        }
    }
    assert forall|key: Seq<bool>| #[trigger]
        keys.to_set().contains(key) == table.dom().contains(key) by {
        if table.contains_key(key) {
            let i = choose|i: int| 0 <= i < entries.len() && (#[trigger] entries[i]).0 == key;
            assert(keys[i] == key);
        }
        if keys.contains(key) {
            let i = choose|i: int| 0 <= i < keys.len() && keys[i] == key;
            assert(entries[i].0 == key);
        }
    }
    assert(keys.to_set() =~= table.dom());
    keys.unique_seq_to_set();
    vstd::seq_lib::seq_to_set_is_finite(keys);
}

/// Collecting what iteration yields gives a table with the same entries.
pub proof fn law_collect_round_trip<V>(entries: Seq<(Seq<bool>, V)>, table: Map<Seq<bool>, V>)
    requires
        model::is_listing(entries, table),
    ensures
        model::collected(entries) == table,
{
    assert forall|i: int, j: int| 0 <= i < j < entries.len() implies entries[i].0
        != entries[j].0 by {
        assert(model::precedes(entries[i].0, entries[j].0));
        law_iteration_order_total(entries[i].0, entries[i].0, entries[i].0);
    }
    lemma_collected(entries);
    assert forall|key: Seq<bool>| #[trigger]
        model::collected(entries).contains_key(key) == table.contains_key(key) by {
        if table.contains_key(key) {
            let i = choose|i: int| 0 <= i < entries.len() && (#[trigger] entries[i]).0 == key;
            assert(model::collected(entries).contains_key(entries[i].0));
        }
    }
    assert forall|key: Seq<bool>| table.contains_key(key) implies #[trigger] model::collected(
        entries,
    )[key] == table[key] by {
        let i = choose|i: int| 0 <= i < entries.len() && (#[trigger] entries[i]).0 == key;
        assert(model::collected(entries)[entries[i].0] == entries[i].1);
    }
    assert(model::collected(entries) =~= table);
}

/// What a table collected from entries with different keys holds.
proof fn lemma_collected<V>(entries: Seq<(Seq<bool>, V)>)
    requires
        forall|i: int, j: int|
            0 <= i < j < entries.len() ==> (#[trigger] entries[i]).0 != (#[trigger] entries[j]).0,
    ensures
        forall|i: int|
            0 <= i < entries.len() ==> model::collected(entries).contains_key(
                (#[trigger] entries[i]).0,
            ) && model::collected(entries)[entries[i].0] == entries[i].1,
        forall|key: Seq<bool>| #[trigger]
            model::collected(entries).contains_key(key) ==> exists|i: int|
                0 <= i < entries.len() && (#[trigger] entries[i]).0 == key,
    decreases entries.len(),
{
    if entries.len() > 0 {
        let earlier = entries.drop_last();
        lemma_collected(earlier);
        assert forall|i: int| 0 <= i < entries.len() implies model::collected(
            entries,
        ).contains_key((#[trigger] entries[i]).0) && model::collected(entries)[entries[i].0]
            == entries[i].1 by {
            if i < earlier.len() {
                assert(entries[i] == earlier[i]);
                assert(entries[i].0 != entries[entries.len() - 1].0);
            }
        }
        assert forall|key: Seq<bool>| #[trigger]
            model::collected(entries).contains_key(key) implies exists|i: int|
            0 <= i < entries.len() && (#[trigger] entries[i]).0 == key by {
            if key == entries.last().0 {
                assert(entries[entries.len() - 1].0 == key);
            } else {
                assert(model::collected(earlier).contains_key(key));
                let i = choose|i: int| 0 <= i < earlier.len() && (#[trigger] earlier[i]).0 == key;
                assert(entries[i].0 == key);
            }
        }
    }
}

/// An IPv4 prefix covers exactly the addresses whose number, in the field, agrees with that
/// of the prefix's own address apart from the host bits.
pub proof fn law_ipv4_coverage(prefix: IpPrefix<Ipv4Addr>, addr: Ipv4Addr)
    requires
        prefix.length() <= 32,
    ensures
        prefix@.is_prefix_of(address::address_bits(addr)) <==>
            addr.bits as nat / power2::pow2((32 - prefix.length()) as nat)
                == prefix.address().bits as nat / power2::pow2((32 - prefix.length()) as nat),
{
    prefix::lemma_same_network(prefix, addr);
}

/// A prefix of an IPv4 table is the most specific match of an address exactly if it is in the
/// table, covers the address, and no prefix of the table that covers the address is longer.
pub proof fn law_ipv4_longest_match<V>(
    table: Map<Seq<bool>, V>,
    addr: Ipv4Addr,
    best: IpPrefix<Ipv4Addr>,
)
    requires
        best.length() <= 32,
    ensures
        model::is_longest_match(table, address::address_bits(addr), best@) <==> {
            &&& table.contains_key(best@)
            &&& addr.bits as nat / power2::pow2((32 - best.length()) as nat)
                == best.address().bits as nat / power2::pow2((32 - best.length()) as nat)
            &&& forall|other: IpPrefix<Ipv4Addr>|
                other.length() <= 32 && #[trigger] table.contains_key(other@)
                    && addr.bits as nat / power2::pow2((32 - other.length()) as nat)
                        == other.address().bits as nat / power2::pow2((32 - other.length()) as nat)
                    ==> other.length() <= best.length()
        },
{
    let all = address::address_bits(addr);
    law_ipv4_coverage(best, addr);
    if model::is_longest_match(table, all, best@) {
        assert forall|other: IpPrefix<Ipv4Addr>|
            other.length() <= 32 && #[trigger] table.contains_key(other@)
                && addr.bits as nat / power2::pow2((32 - other.length()) as nat)
                    == other.address().bits as nat / power2::pow2((32 - other.length()) as nat)
            implies other.length() <= best.length() by {
            law_ipv4_coverage(other, addr);
            assert(other@.len() == other.length());
        }
    } else if table.contains_key(best@) && best@.is_prefix_of(all) {
        let longer = choose|key: Seq<bool>|
            table.contains_key(key) && key.is_prefix_of(all) && key.len() > best@.len();
        let other = prefix::lemma_prefix_exists(addr, longer.len());
        law_ipv4_coverage(other, addr);
        prefix::lemma_same_network(other, addr);
        assert(longer =~= all.take(longer.len() as int));
        assert(other@ == longer);
        assert(table.contains_key(other@) && other.length() > best.length());
    }
}

/// Whatever matches an IPv4 address is a prefix of that family.
pub proof fn law_ipv4_match_is_prefix<V>(
    table: Map<Seq<bool>, V>,
    addr: Ipv4Addr,
    key: Seq<bool>,
)
    requires
        model::is_longest_match(table, address::address_bits(addr), key),
    ensures
        exists|best: IpPrefix<Ipv4Addr>| best.length() <= 32 && #[trigger] best@ == key,
{
    let best = prefix::lemma_prefix_exists(addr, key.len());
    prefix::lemma_same_network(best, addr);
    assert(key =~= address::address_bits(addr).take(key.len() as int));
    assert(best@ == key);
}

/// An IPv4 address is unmatched exactly if no prefix of the table covers it.
pub proof fn law_ipv4_unmatched<V>(table: Map<Seq<bool>, V>, addr: Ipv4Addr)
    ensures
        model::is_unmatched(table, address::address_bits(addr)) <==> forall|
            other: IpPrefix<Ipv4Addr>,
        |
            other.length() <= 32 && #[trigger] table.contains_key(other@) ==> !(
                addr.bits as nat / power2::pow2((32 - other.length()) as nat)
                    == other.address().bits as nat / power2::pow2((32 - other.length()) as nat)),
{
    let all = address::address_bits(addr);
    if model::is_unmatched(table, all) {
        assert forall|other: IpPrefix<Ipv4Addr>|
            other.length() <= 32 && #[trigger] table.contains_key(other@) implies !(
                addr.bits as nat / power2::pow2((32 - other.length()) as nat)
                    == other.address().bits as nat / power2::pow2((32 - other.length()) as nat)) by {
            law_ipv4_coverage(other, addr);
        }
    } else {
        let key = choose|key: Seq<bool>| table.contains_key(key) && key.is_prefix_of(all);
        let other = prefix::lemma_prefix_exists(addr, key.len());
        law_ipv4_coverage(other, addr);
        prefix::lemma_same_network(other, addr);
        assert(key =~= all.take(key.len() as int));
        assert(other@ == key);
        assert(table.contains_key(other@));
    }
}

/// An IPv6 prefix covers exactly the addresses whose number, in the field, agrees with that
/// of the prefix's own address apart from the host bits.
pub proof fn law_ipv6_coverage(prefix: IpPrefix<Ipv6Addr>, addr: Ipv6Addr)
    requires
        prefix.length() <= 128,
    ensures
        prefix@.is_prefix_of(address::address_bits(addr)) <==>
            addr.bits as nat / power2::pow2((128 - prefix.length()) as nat)
                == prefix.address().bits as nat / power2::pow2((128 - prefix.length()) as nat),
{
    prefix::lemma_same_network(prefix, addr);
}

/// A prefix of an IPv6 table is the most specific match of an address exactly if it is in the
/// table, covers the address, and no prefix of the table that covers the address is longer.
pub proof fn law_ipv6_longest_match<V>(
    table: Map<Seq<bool>, V>,
    addr: Ipv6Addr,
    best: IpPrefix<Ipv6Addr>,
)
    requires
        best.length() <= 128,
    ensures
        model::is_longest_match(table, address::address_bits(addr), best@) <==> {
            &&& table.contains_key(best@)
            &&& addr.bits as nat / power2::pow2((128 - best.length()) as nat)
                == best.address().bits as nat / power2::pow2((128 - best.length()) as nat)
            &&& forall|other: IpPrefix<Ipv6Addr>|
                other.length() <= 128 && #[trigger] table.contains_key(other@)
                    && addr.bits as nat / power2::pow2((128 - other.length()) as nat)
                        == other.address().bits as nat / power2::pow2((128 - other.length()) as nat)
                    ==> other.length() <= best.length()
        },
{
    let all = address::address_bits(addr);
    law_ipv6_coverage(best, addr);
    if model::is_longest_match(table, all, best@) {
        assert forall|other: IpPrefix<Ipv6Addr>|
            other.length() <= 128 && #[trigger] table.contains_key(other@)
                && addr.bits as nat / power2::pow2((128 - other.length()) as nat)
                    == other.address().bits as nat / power2::pow2((128 - other.length()) as nat)
            implies other.length() <= best.length() by {
            law_ipv6_coverage(other, addr);
            assert(other@.len() == other.length());
        }
    } else if table.contains_key(best@) && best@.is_prefix_of(all) {
        let longer = choose|key: Seq<bool>|
            table.contains_key(key) && key.is_prefix_of(all) && key.len() > best@.len();
        let other = prefix::lemma_prefix_exists(addr, longer.len());
        law_ipv6_coverage(other, addr);
        prefix::lemma_same_network(other, addr);
        assert(longer =~= all.take(longer.len() as int));
        assert(other@ == longer);
        assert(table.contains_key(other@) && other.length() > best.length());
    }
}

/// Whatever matches an IPv6 address is a prefix of that family.
pub proof fn law_ipv6_match_is_prefix<V>(
    table: Map<Seq<bool>, V>,
    addr: Ipv6Addr,
    key: Seq<bool>,
)
    requires
        model::is_longest_match(table, address::address_bits(addr), key),
    ensures
        exists|best: IpPrefix<Ipv6Addr>| best.length() <= 128 && #[trigger] best@ == key,
{
    let best = prefix::lemma_prefix_exists(addr, key.len());
    prefix::lemma_same_network(best, addr);
    assert(key =~= address::address_bits(addr).take(key.len() as int));
    assert(best@ == key);
}

/// An IPv6 address is unmatched exactly if no prefix of the table covers it.
pub proof fn law_ipv6_unmatched<V>(table: Map<Seq<bool>, V>, addr: Ipv6Addr)
    ensures
        model::is_unmatched(table, address::address_bits(addr)) <==> forall|
            other: IpPrefix<Ipv6Addr>,
        |
            other.length() <= 128 && #[trigger] table.contains_key(other@) ==> !(
                addr.bits as nat / power2::pow2((128 - other.length()) as nat)
                    == other.address().bits as nat / power2::pow2((128 - other.length()) as nat)),
{
    let all = address::address_bits(addr);
    if model::is_unmatched(table, all) {
        assert forall|other: IpPrefix<Ipv6Addr>|
            other.length() <= 128 && #[trigger] table.contains_key(other@) implies !(
                addr.bits as nat / power2::pow2((128 - other.length()) as nat)
                    == other.address().bits as nat / power2::pow2((128 - other.length()) as nat)) by {
            law_ipv6_coverage(other, addr);
        }
    } else {
        let key = choose|key: Seq<bool>| table.contains_key(key) && key.is_prefix_of(all);
        let other = prefix::lemma_prefix_exists(addr, key.len());
        law_ipv6_coverage(other, addr);
        prefix::lemma_same_network(other, addr);
        assert(key =~= all.take(key.len() as int));
        assert(other@ == key);
        assert(table.contains_key(other@));
    }
}

/// Where two strings of bits part, their order of iteration is decided. `d` is the first
/// place at which they differ, and the node that holds the place resolves the bits from
/// `d - d % 4` on. Strings that both end in that node come shorter before longer, and at the
/// same length with the zero first; a string that ends there comes before one that goes on;
/// of two that go on, the one with the zero comes first.
pub proof fn law_iteration_order_decided(a: Seq<bool>, b: Seq<bool>, d: int)
    requires
        0 <= d < a.len(),
        d < b.len(),
        a.take(d) == b.take(d),
        a[d] != b[d],
    ensures
        a.len() / 4 == d / 4 && b.len() / 4 == d / 4 ==> (model::precedes(a, b) <==> a.len()
            < b.len() || a.len() == b.len() && !a[d]),
        a.len() / 4 == d / 4 && b.len() / 4 > d / 4 ==> model::precedes(a, b) && !model::precedes(
            b,
            a,
        ),
        a.len() / 4 > d / 4 && b.len() / 4 > d / 4 ==> (model::precedes(a, b) <==> !a[d]),
    decreases d,
{
    assert forall|i: int| 0 <= i < d implies a[i] == b[i] by {
        assert(a[i] == a.take(d)[i]);
        assert(b[i] == b.take(d)[i]);
    }
    if d >= 4 {
        assert(a.take(4) =~= b.take(4));
        assert(a.skip(4).take(d - 4) =~= b.skip(4).take(d - 4));
        law_iteration_order_decided(a.skip(4), b.skip(4), d - 4);
    } else if a.len() < 4 && b.len() < 4 {
        bits::lemma_heap_index_range(a);
        bits::lemma_heap_index_range(b);
        if a.len() == b.len() {
            lemma_heap_order(a, b, d);
        }
    } else if a.len() >= 4 && b.len() >= 4 {
        assert(a.take(4).take(d) =~= b.take(4).take(d));
        lemma_heap_order(a.take(4), b.take(4), d);
        assert(a.take(4)[d] != b.take(4)[d]);
    }
}

/// Strings of the same length are ordered by the first bit in which they differ.
proof fn lemma_heap_order(a: Seq<bool>, b: Seq<bool>, d: int)
    requires
        a.len() == b.len(),
        0 <= d < a.len(),
        a.take(d) == b.take(d),
        a[d] != b[d],
    ensures
        bits::heap_index(a) != bits::heap_index(b),
        bits::heap_index(a) < bits::heap_index(b) <==> !a[d],
    decreases a.len(),
{
    if d == a.len() - 1 {
        assert(a.drop_last() =~= a.take(d));
        assert(b.drop_last() =~= b.take(d));
    } else {
        assert(a.drop_last().take(d) =~= a.take(d));
        assert(b.drop_last().take(d) =~= b.take(d));
        lemma_heap_order(a.drop_last(), b.drop_last(), d);
    }
}

/// A listing yields every entry of the table with its value and nothing else, each once, and
/// of two entries the earlier one precedes the later one.
pub proof fn law_listing_exact<V>(
    entries: Seq<(Seq<bool>, V)>,
    table: Map<Seq<bool>, V>,
    key: Seq<bool>,
    i: int,
    j: int,
)
    requires
        model::is_listing(entries, table),
    ensures
        table.contains_key(key) <==> exists|n: int|
            0 <= n < entries.len() && (#[trigger] entries[n]).0 == key,
        0 <= i < entries.len() ==> table.contains_key(entries[i].0) && entries[i].1
            == table[entries[i].0],
        0 <= i < j < entries.len() ==> entries[i].0 != entries[j].0 && model::precedes(
            entries[i].0,
            entries[j].0,
        ),
{
    if 0 <= i < j < entries.len() {
        law_iteration_order_total(entries[i].0, entries[j].0, entries[i].0);
    }
}

/// Iteration is depth-first and goes up: an entry never comes after one that is nested
/// beneath it. Where two entries part at place `d`, and the later one starts with the zero
/// there, the earlier one ends in the node of that place, and the later one is longer.
pub proof fn law_iteration_is_depth_first<V>(
    entries: Seq<(Seq<bool>, V)>,
    table: Map<Seq<bool>, V>,
    i: int,
    j: int,
    d: int,
)
    requires
        model::is_listing(entries, table),
        0 <= i < j < entries.len(),
    ensures
        !entries[j].0.is_prefix_of(entries[i].0),
        ({
            let a = entries[i].0;
            let b = entries[j].0;
            0 <= d < a.len() && d < b.len() && a.take(d) == b.take(d) && a[d] != b[d] ==> {
                &&& b.len() / 4 == d / 4 ==> a.len() / 4 == d / 4 && a.len() <= b.len()
                &&& !b[d] ==> a.len() / 4 == d / 4 && a.len() < b.len()
            }
        }),
{
    let a = entries[i].0;
    let b = entries[j].0;
    law_listing_exact(entries, table, a, i, j);
    law_iteration_order_total(a, b, a);
    if b.is_prefix_of(a) {
        if a.len() == b.len() {
            assert(a =~= b);
        } else {
            law_shorter_prefix_first(b, a);
        }
    }
    if 0 <= d < a.len() && d < b.len() && a.take(d) == b.take(d) && a[d] != b[d] {
        law_iteration_order_decided(a, b, d);
        law_iteration_order_decided(b, a, d);
    }
}

/// Of all pairs with the same prefix, the last one decides the value in a collected table.
pub proof fn law_collected_last_wins<V>(entries: Seq<(Seq<bool>, V)>, i: int)
    requires
        0 <= i < entries.len(),
        forall|j: int| i < j < entries.len() ==> (#[trigger] entries[j]).0 != entries[i].0,
    ensures
        model::collected(entries).contains_key(entries[i].0),
        model::collected(entries)[entries[i].0] == entries[i].1,
    decreases entries.len(),
{
    let earlier = entries.drop_last();
    if i < earlier.len() {
        assert forall|j: int| i < j < earlier.len() implies (#[trigger] earlier[j]).0
            != earlier[i].0 by {
            assert(earlier[j] == entries[j]);
        }
        law_collected_last_wins(earlier, i);
        assert(entries[entries.len() - 1].0 != entries[i].0);
    }
}

/// A collected table holds the prefixes of the pairs and no others.
pub proof fn law_collected_keys<V>(entries: Seq<(Seq<bool>, V)>, key: Seq<bool>)
    ensures
        model::collected(entries).contains_key(key) <==> exists|i: int|
            0 <= i < entries.len() && (#[trigger] entries[i]).0 == key,
    decreases entries.len(),
{
    if entries.len() > 0 {
        let earlier = entries.drop_last();
        law_collected_keys(earlier, key);
        if exists|i: int| 0 <= i < entries.len() && (#[trigger] entries[i]).0 == key {
            let i = choose|i: int| 0 <= i < entries.len() && (#[trigger] entries[i]).0 == key;
            if i < earlier.len() {
                assert(earlier[i].0 == key);
            }
        }
        if exists|i: int| 0 <= i < earlier.len() && (#[trigger] earlier[i]).0 == key {
            let i = choose|i: int| 0 <= i < earlier.len() && (#[trigger] earlier[i]).0 == key;
            assert(entries[i].0 == key);
        }
        if entries.last().0 == key {
            assert(entries[entries.len() - 1].0 == key);
        }
    }
}

/// Collecting one pair more is one insertion more.
pub proof fn law_collected_pair_more<V>(
    entries: Seq<(Seq<bool>, V)>,
    key: Seq<bool>,
    value: V,
)
    ensures
        model::collected(Seq::<(Seq<bool>, V)>::empty()) == Map::<Seq<bool>, V>::empty(),
        model::collected(entries.push((key, value))) == model::collected(entries).insert(
            key,
            value,
        ),
{
    assert(entries.push((key, value)).drop_last() =~= entries);
}

/// A copy of a table holds, for every prefix of the table and no other, a clone of its value.
pub proof fn law_clone_exact<V: Clone>(
    table: Map<Seq<bool>, V>,
    copy: Map<Seq<bool>, V>,
    key: Seq<bool>,
)
    requires
        model::is_clone(table, copy),
    ensures
        copy.contains_key(key) <==> table.contains_key(key),
        table.contains_key(key) ==> cloned::<V>(table[key], copy[key]),
{
    assert(copy.dom().contains(key) == table.dom().contains(key));
}

} // verus!
