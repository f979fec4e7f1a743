//! What a routing table means: a map from network bits to values.
use vstd::prelude::*;
use crate::bits;

verus! {

/// `key` is the most specific key of the table that covers an address with bits `addr`.
pub open spec fn is_longest_match<V>(
    table: Map<Seq<bool>, V>,
    addr: Seq<bool>,
    key: Seq<bool>,
) -> bool {
    &&& table.contains_key(key)
    &&& key.is_prefix_of(addr)
    &&& forall|other: Seq<bool>|
        table.contains_key(other) && other.is_prefix_of(addr) ==> other.len() <= key.len()
}

/// No key of the table covers an address with bits `addr`.
pub open spec fn is_unmatched<V>(table: Map<Seq<bool>, V>, addr: Seq<bool>) -> bool {
    forall|key: Seq<bool>| table.contains_key(key) ==> !key.is_prefix_of(addr)
}

/// The order of iteration: at each group of four bits, the strings that end within the group
/// come first, shorter before longer and smaller before larger; the others follow by the
/// value of the group, and then by what comes after it.
pub open spec fn precedes(a: Seq<bool>, b: Seq<bool>) -> bool
    decreases a.len(),
{
    if a.len() < 4 {
        b.len() >= 4 || bits::heap_index(a) < bits::heap_index(b)
    } else if b.len() < 4 {
        false
    } else {
        let group_a = bits::nibble_value(a.take(4));
        let group_b = bits::nibble_value(b.take(4));
        group_a < group_b || group_a == group_b && precedes(a.skip(4), b.skip(4))
    }
}

/// `entries` lists a table: every entry once, in the order of iteration.
pub open spec fn is_listing<V>(entries: Seq<(Seq<bool>, V)>, table: Map<Seq<bool>, V>) -> bool {
    &&& forall|i: int, j: int|
        0 <= i < j < entries.len() ==> #[trigger] precedes(entries[i].0, entries[j].0)
    &&& forall|i: int|
        0 <= i < entries.len() ==> table.contains_key((#[trigger] entries[i]).0)
            && table[entries[i].0] == entries[i].1
    &&& forall|key: Seq<bool>| #[trigger]
        table.contains_key(key) ==> exists|i: int|
            0 <= i < entries.len() && (#[trigger] entries[i]).0 == key
}

/// The table that results from inserting `entries` one after the other into an empty table.
pub open spec fn collected<V>(entries: Seq<(Seq<bool>, V)>) -> Map<Seq<bool>, V>
    decreases entries.len(),
{
    if entries.len() == 0 {
        Map::empty()
    } else {
        collected(entries.drop_last()).insert(entries.last().0, entries.last().1)
    }
}

/// Table `copy` is a copy of `table`: it has entries for the same keys, with cloned values.
pub open spec fn is_clone<V: Clone>(table: Map<Seq<bool>, V>, copy: Map<Seq<bool>, V>) -> bool {
    &&& copy.dom() == table.dom()
    &&& forall|key: Seq<bool>| #[trigger]
        copy.contains_key(key) ==> cloned::<V>(table[key], copy[key])
}

} // verus!
