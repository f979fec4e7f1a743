//! Bitmaps that index compact arrays, and four-bit groups of address bits.
use vstd::prelude::*;
use vstd::arithmetic::power2;
use crate::address;

verus! {

/// Number of address bits that one tree node resolves.
pub const STRIDE: u32 = 4;

/// Bit `i` of a bitmap, where bit 0 is the least significant one.
pub open spec fn has_bit(bitmap: u32, i: int) -> bool {
    0 <= i < 32 && (bitmap >> (i as u32)) & 1 == 1
}

/// The number of set bits of a bitmap at positions below `n`.
pub open spec fn count_below(bitmap: u32, n: int) -> nat
    decreases n,
{
    if n <= 0 {
        0
    } else {
        count_below(bitmap, n - 1) + if has_bit(bitmap, n - 1) {
            1nat
        } else {
            0nat
        }
    }
}

/// `u32::count_ones`: the number of set bits among all 32 positions.
pub assume_specification[ u32::count_ones ](bitmap: u32) -> (count: u32)
    ensures
        count == count_below(bitmap, 32),
;

/// Bitmaps that agree below `n` have the same count below `n`.
pub proof fn lemma_count_agrees(a: u32, b: u32, n: int)
    requires
        forall|i: int| 0 <= i < n ==> #[trigger] has_bit(a, i) == has_bit(b, i),
    ensures
        count_below(a, n) == count_below(b, n),
    decreases n,
{
    if n > 0 {
        lemma_count_agrees(a, b, n - 1);
        assert(has_bit(a, n - 1) == has_bit(b, n - 1));
    }
}

/// The count does not decrease with the position, and grows past a set bit.
pub proof fn lemma_count_grows(bitmap: u32, i: int, j: int)
    requires
        i <= j,
    ensures
        count_below(bitmap, i) <= count_below(bitmap, j),
        i < j && has_bit(bitmap, i) ==> count_below(bitmap, i) < count_below(bitmap, j),
    decreases j - i,
{
    if i < j {
        lemma_count_grows(bitmap, i, j - 1);
    }
}

/// What setting one bit does.
pub proof fn lemma_set_bit(bitmap: u32, p: u32)
    requires
        p < 32,
    ensures
        forall|i: int| #[trigger]
            has_bit(bitmap | (1u32 << p), i) == (i == p || has_bit(bitmap, i)),
{
    assert forall|i: int| #[trigger]
        has_bit(bitmap | (1u32 << p), i) == (i == p || has_bit(bitmap, i)) by {
        if 0 <= i < 32 {
            let k = i as u32;
            assert(((bitmap | (1u32 << p)) >> k) & 1 == 1 <==> (k == p || (bitmap >> k) & 1 == 1))
                by (bit_vector)
                requires
                    p < 32,
                    k < 32,
            ;
        }
    }
}

/// What clearing one bit does.
pub proof fn lemma_clear_bit(bitmap: u32, p: u32)
    requires
        p < 32,
    ensures
        forall|i: int| #[trigger]
            has_bit(bitmap & !(1u32 << p), i) == (i != p && has_bit(bitmap, i)),
{
    assert forall|i: int| #[trigger]
        has_bit(bitmap & !(1u32 << p), i) == (i != p && has_bit(bitmap, i)) by {
        if 0 <= i < 32 {
            let k = i as u32;
            assert(((bitmap & !(1u32 << p)) >> k) & 1 == 1 <==> (k != p && (bitmap >> k) & 1 == 1))
                by (bit_vector)
                requires
                    p < 32,
                    k < 32,
            ;
        }
    }
}

/// Counts when bitmap `b` is bitmap `a` with the clear bit `p` set.
pub proof fn lemma_count_with_bit(a: u32, b: u32, p: int, n: int)
    requires
        0 <= p < 32,
        !has_bit(a, p),
        forall|i: int| #[trigger] has_bit(b, i) == (i == p || has_bit(a, i)),
    ensures
        count_below(b, n) == count_below(a, n) + if p < n {
            1nat
        } else {
            0nat
        },
    decreases n,
{
    if n > 0 {
        lemma_count_with_bit(a, b, p, n - 1);
        assert(has_bit(b, n - 1) == (n - 1 == p || has_bit(a, n - 1)));
    }
}

/// A bitmap is zero exactly if no bit is set.
pub proof fn lemma_zero_bitmap(bitmap: u32)
    ensures
        bitmap == 0 <==> forall|i: int| !#[trigger] has_bit(bitmap, i),
{
    if bitmap == 0 {
        assert forall|i: int| !#[trigger] has_bit(bitmap, i) by {
            if 0 <= i < 32 {
                let k = i as u32;
                assert((0u32 >> k) & 1 == 0) by (bit_vector);
            }
        }
    } else {
        vstd::std_specs::bits::axiom_u32_trailing_zeros(bitmap);
        assert(has_bit(bitmap, vstd::std_specs::bits::u32_trailing_zeros(bitmap) as int));
    }
}

/// Tells whether the bit at `position` is set.
pub fn test_bit(bitmap: u32, position: u32) -> (set: bool)
    requires
        position < 32,
    ensures
        set == has_bit(bitmap, position as int),
        set <==> (bitmap as nat / power2::pow2(position as nat)) % 2 == 1,
{
    proof {
        law_bitmap_digits(bitmap, position as int);
    }
    (bitmap >> position) & 1 == 1
}

/// Counts how many set bits in `bitmap` fall below `position`.
/// Maps a bitmap position to a compact-array index.
pub fn rank(bitmap: u32, position: u32) -> (index: usize)
    requires
        position < 32,
    ensures
        index == count_below(bitmap, position as int),
        index == Set::new(|i: int| 0 <= i < position && has_bit(bitmap, i)).len(),
{
    proof {
        law_count_is_cardinality(bitmap, position as int);
    }
    assert(1u32 << position >= 1) by (bit_vector)
        requires
            position < 32,
    ;
    let below: u32 = (1u32 << position) - 1;
    proof {
        assert forall|i: int| #[trigger]
            has_bit(bitmap & below, i) == (i < position && has_bit(bitmap, i)) by {
            if 0 <= i < 32 {
                let k = i as u32;
                assert(((bitmap & below) >> k) & 1 == 1 <==> (k < position && (bitmap >> k) & 1
                    == 1)) by (bit_vector)
                    requires
                        position < 32,
                        k < 32,
                        below == (1u32 << position) - 1,
                ;
            }
        }
        lemma_count_agrees(bitmap & below, bitmap, position as int);
        lemma_count_flat(bitmap & below, position as int, 32);
    }
    (bitmap & below).count_ones() as usize
}

/// The count stays the same over a run of clear bits.
pub proof fn lemma_count_flat(bitmap: u32, i: int, j: int)
    requires
        0 <= i <= j,
        forall|k: int| i <= k < j ==> !#[trigger] has_bit(bitmap, k),
    ensures
        count_below(bitmap, i) == count_below(bitmap, j),
    decreases j - i,
{
    if i < j {
        lemma_count_flat(bitmap, i, j - 1);
        assert(!has_bit(bitmap, j - 1));
    }
}

/// What a compact array holds at a bitmap position: the entries of the set bits stand in
/// the array in order, without gaps.
pub open spec fn slot<T>(bitmap: u32, entries: Seq<T>, position: int) -> Option<T> {
    if has_bit(bitmap, position) {
        Some(entries[count_below(bitmap, position) as int])
    } else {
        None
    }
}

/// The rank of a set bit is an index of the compact array.
pub proof fn lemma_slot_in_bounds(bitmap: u32, position: int)
    requires
        0 <= position < 32,
    ensures
        count_below(bitmap, position) <= count_below(bitmap, 32),
        has_bit(bitmap, position) ==> count_below(bitmap, position) < count_below(bitmap, 32),
{
    lemma_count_grows(bitmap, position, 32);
}

/// Overwriting the entry of a set bit.
pub proof fn lemma_slot_update<T>(bitmap: u32, entries: Seq<T>, p: int, entry: T)
    requires
        has_bit(bitmap, p),
        entries.len() == count_below(bitmap, 32),
    ensures
        forall|i: int| #[trigger]
            slot(bitmap, entries.update(count_below(bitmap, p) as int, entry), i) == if i == p {
                Some(entry)
            } else {
                slot(bitmap, entries, i)
            },
{
    lemma_slot_in_bounds(bitmap, p);
    assert forall|i: int| #[trigger]
        slot(bitmap, entries.update(count_below(bitmap, p) as int, entry), i) == if i == p {
            Some(entry)
        } else {
            slot(bitmap, entries, i)
        } by {
        if has_bit(bitmap, i) {
            lemma_slot_in_bounds(bitmap, i);
            if i < p {
                lemma_count_grows(bitmap, i, p);
            } else if p < i {
                lemma_count_grows(bitmap, p, i);
            }
        }
    }
}

/// Setting a clear bit and inserting its entry at the bit's rank.
pub proof fn lemma_slot_insert<T>(bitmap: u32, entries: Seq<T>, p: u32, entry: T)
    requires
        p < 32,
        !has_bit(bitmap, p as int),
        entries.len() == count_below(bitmap, 32),
    ensures
        entries.len() + 1 == count_below(bitmap | (1u32 << p), 32),
        count_below(bitmap | (1u32 << p), p as int) == count_below(bitmap, p as int),
        forall|i: int| #[trigger]
            slot(
                bitmap | (1u32 << p),
                entries.insert(count_below(bitmap, p as int) as int, entry),
                i,
            ) == if i == p {
                Some(entry)
            } else {
                slot(bitmap, entries, i)
            },
{
    let after = bitmap | (1u32 << p);
    lemma_set_bit(bitmap, p);
    lemma_count_with_bit(bitmap, after, p as int, 32);
    lemma_count_with_bit(bitmap, after, p as int, p as int);
    lemma_slot_in_bounds(bitmap, p as int);
    assert forall|i: int| #[trigger]
        slot(after, entries.insert(count_below(bitmap, p as int) as int, entry), i) == if i == p {
            Some(entry)
        } else {
            slot(bitmap, entries, i)
        } by {
        lemma_count_with_bit(bitmap, after, p as int, i);
        if has_bit(bitmap, i) {
            lemma_slot_in_bounds(bitmap, i);
            if i < p {
                lemma_count_grows(bitmap, i, p as int);
            } else if p < i {
                lemma_count_grows(bitmap, p as int, i);
            }
        }
    }
}

/// Clearing a set bit and removing the entry at the bit's rank.
pub proof fn lemma_slot_remove<T>(bitmap: u32, entries: Seq<T>, p: u32)
    requires
        p < 32,
        has_bit(bitmap, p as int),
        entries.len() == count_below(bitmap, 32),
    ensures
        entries.len() == count_below(bitmap & !(1u32 << p), 32) + 1,
        forall|i: int| #[trigger]
            slot(
                bitmap & !(1u32 << p),
                entries.remove(count_below(bitmap, p as int) as int),
                i,
            ) == if i == p {
                None
            } else {
                slot(bitmap, entries, i)
            },
{
    let after = bitmap & !(1u32 << p);
    lemma_clear_bit(bitmap, p);
    lemma_count_with_bit(after, bitmap, p as int, 32);
    lemma_slot_in_bounds(bitmap, p as int);
    assert forall|i: int| #[trigger]
        slot(after, entries.remove(count_below(bitmap, p as int) as int), i) == if i == p {
            None
        } else {
            slot(bitmap, entries, i)
        } by {
        lemma_count_with_bit(after, bitmap, p as int, i);
        if has_bit(bitmap, i) {
            lemma_slot_in_bounds(bitmap, i);
            if i < p {
                lemma_count_grows(bitmap, i, p as int);
            } else if p < i {
                lemma_count_grows(bitmap, p as int, i);
            }
        }
    }
}

/// Bitmaps with the same bits are the same.
pub proof fn lemma_same_bitmap(a: u32, b: u32)
    requires
        forall|i: int| has_bit(a, i) == #[trigger] has_bit(b, i),
    ensures
        a == b,
{
    let difference = a ^ b;
    assert forall|i: int| !#[trigger] has_bit(difference, i) by {
        if 0 <= i < 32 {
            let k = i as u32;
            assert(has_bit(a, i) == has_bit(b, i));
            assert((difference >> k) & 1 != 1) by (bit_vector)
                requires
                    k < 32,
                    difference == a ^ b,
                    ((a >> k) & 1 == 1) == ((b >> k) & 1 == 1),
            ;
        }
    }
    lemma_zero_bitmap(difference);
    assert(a == b) by (bit_vector)
        requires
            a ^ b == 0,
    ;
}

/// Every index of the compact array is the rank of a set bit.
pub proof fn lemma_rank_onto(bitmap: u32, index: int, n: int) -> (position: int)
    requires
        0 <= index < count_below(bitmap, n),
    ensures
        0 <= position < n,
        has_bit(bitmap, position),
        count_below(bitmap, position) == index,
    decreases n,
{
    if has_bit(bitmap, n - 1) && count_below(bitmap, n - 1) == index {
        n - 1
    } else {
        lemma_rank_onto(bitmap, index, n - 1)
    }
}

/// Compact arrays that hold the same at every position are the same.
pub proof fn lemma_same_slots<T>(a: u32, entries_a: Seq<T>, b: u32, entries_b: Seq<T>)
    requires
        entries_a.len() == count_below(a, 32),
        entries_b.len() == count_below(b, 32),
        forall|i: int| #[trigger] slot(a, entries_a, i) == slot(b, entries_b, i),
    ensures
        a == b,
        entries_a == entries_b,
{
    assert forall|i: int| has_bit(a, i) == #[trigger] has_bit(b, i) by {
        assert(slot(a, entries_a, i) == slot(b, entries_b, i));
    }
    lemma_same_bitmap(a, b);
    assert forall|j: int| 0 <= j < entries_a.len() implies entries_a[j] == entries_b[j] by {
        let position = lemma_rank_onto(a, j, 32);
        assert(slot(a, entries_a, position) == slot(b, entries_b, position));
    }
    assert(entries_a =~= entries_b);
}

/// The position of a bit string in a binary heap whose root has position 1: from a
/// position `p`, a zero bit leads to `2 p` and a one bit to `2 p + 1`.
pub open spec fn heap_index(path: Seq<bool>) -> int
    decreases path.len(),
{
    if path.len() == 0 {
        1
    } else {
        2 * heap_index(path.drop_last()) + if path.last() {
            1int
        } else {
            0int
        }
    }
}

/// The bit string that leads to a heap position.
pub open spec fn heap_path(position: int) -> Seq<bool>
    decreases position,
{
    if position <= 1 {
        Seq::empty()
    } else {
        heap_path(position / 2).push(position % 2 == 1)
    }
}

/// Positions and bit strings correspond one to one.
pub proof fn lemma_heap_index_inverse(path: Seq<bool>)
    ensures
        heap_index(path) >= 1,
        heap_path(heap_index(path)) == path,
    decreases path.len(),
{
    if path.len() > 0 {
        lemma_heap_index_inverse(path.drop_last());
        let half = heap_index(path.drop_last());
        assert(heap_index(path) / 2 == half);
        assert(heap_path(half).push(path.last()) =~= path);
    }
}

/// Positions and bit strings correspond one to one.
pub proof fn lemma_heap_path_inverse(position: int)
    requires
        position >= 1,
    ensures
        heap_index(heap_path(position)) == position,
    decreases position,
{
    if position > 1 {
        lemma_heap_path_inverse(position / 2);
        assert(heap_path(position).drop_last() =~= heap_path(position / 2));
    }
}

/// Lengths up to one stride, read off the position.
pub proof fn lemma_heap_path_len(position: int)
    requires
        1 <= position < 32,
    ensures
        heap_path(position).len() == if position < 2 {
            0int
        } else if position < 4 {
            1
        } else if position < 8 {
            2
        } else if position < 16 {
            3
        } else {
            4
        },
{
    reveal_with_fuel(heap_path, 6);
}

/// Positions of strings no longer than one stride, row by row.
pub proof fn lemma_heap_index_range(path: Seq<bool>)
    requires
        path.len() <= 4,
    ensures
        path.len() == 0 ==> heap_index(path) == 1,
        path.len() == 1 ==> 2 <= heap_index(path) < 4,
        path.len() == 2 ==> 4 <= heap_index(path) < 8,
        path.len() == 3 ==> 8 <= heap_index(path) < 16,
        path.len() == 4 ==> 16 <= heap_index(path) < 32,
{
    reveal_with_fuel(heap_index, 6);
}

/// The value of a four-bit group.
pub open spec fn nibble_value(group: Seq<bool>) -> int {
    heap_index(group) - 16
}

/// The four bits of a value below 16.
pub open spec fn nibble_bits(value: int) -> Seq<bool> {
    heap_path(16 + value)
}

/// Groups of four bits and values below 16 correspond one to one.
pub proof fn lemma_nibble_value(group: Seq<bool>)
    requires
        group.len() == 4,
    ensures
        0 <= nibble_value(group) < 16,
        nibble_bits(nibble_value(group)) == group,
{
    lemma_heap_index_range(group);
    lemma_heap_index_inverse(group);
}

/// Groups of four bits and values below 16 correspond one to one.
pub proof fn lemma_nibble_bits(value: int)
    requires
        0 <= value < 16,
    ensures
        nibble_bits(value).len() == 4,
        nibble_value(nibble_bits(value)) == value,
{
    lemma_heap_path_len(16 + value);
    lemma_heap_path_inverse(16 + value);
}

/// Returns the nibble (4-bit value) at stride index `hop` within `addr`.
/// `addr_bits` is the width of the address family (32 for IPv4, 128 for IPv6).
pub fn nibble(addr: u128, addr_bits: u32, hop: u32) -> (value: u32)
    requires
        addr_bits <= 128,
        (hop + 1) * STRIDE <= addr_bits,
    ensures
        value < 16,
        value == nibble_value(
            address::leading_bits(addr, addr_bits as nat, (4 * hop + 4) as nat).skip(4 * hop),
        ),
        value == (addr as nat / power2::pow2((addr_bits - 4 * hop - 4) as nat)) % 16,
{
    let shift: u32 = addr_bits - (hop + 1) * STRIDE;
    let value: u32 = ((addr >> shift) & 0xF) as u32;
    proof {
        vstd::bits::lemma_u128_shr_is_div(addr, shift as u128);
        let quotient = addr >> (shift as u128);
        assert((quotient & 0xF) as u32 == quotient % 16) by (bit_vector);
        let group = address::leading_bits(addr, addr_bits as nat, (4 * hop + 4) as nat).skip(
            4 * hop,
        );
        let s = shift as u128;
        let b0: u128 = (addr >> ((s + 3) as u128)) & 1;
        let b1: u128 = (addr >> ((s + 2) as u128)) & 1;
        let b2: u128 = (addr >> ((s + 1) as u128)) & 1;
        let b3: u128 = (addr >> s) & 1;
        assert(value < 16 && value == 8 * b0 + 4 * b1 + 2 * b2 + b3 && b0 <= 1 && b1 <= 1 && b2
            <= 1 && b3 <= 1) by (bit_vector)
            requires
                s <= 124,
                shift == s,
                value == ((addr >> shift) & 0xF) as u32,
                b0 == (addr >> ((s + 3) as u128)) & 1,
                b1 == (addr >> ((s + 2) as u128)) & 1,
                b2 == (addr >> ((s + 1) as u128)) & 1,
                b3 == (addr >> s) & 1,
        ;
        assert(group =~= seq![b0 == 1, b1 == 1, b2 == 1, b3 == 1]);
        reveal_with_fuel(heap_index, 6);
        assert(group.drop_last() =~= seq![b0 == 1, b1 == 1, b2 == 1]);
        assert(group.drop_last().drop_last() =~= seq![b0 == 1, b1 == 1]);
        assert(group.drop_last().drop_last().drop_last() =~= seq![b0 == 1]);
        assert(group.drop_last().drop_last().drop_last().drop_last() =~= Seq::<bool>::empty());
    }
    value
}

/// The heap position of the first `rel_len` bits of a nibble.
pub fn stride_position(nib: u32, rel_len: u32) -> (position: u32)
    requires
        nib < 16,
        rel_len < STRIDE,
    ensures
        1 <= position < 16,
        position == heap_index(nibble_bits(nib as int).take(rel_len as int)),
        rel_len == 0 ==> position == 1,
        rel_len == 1 ==> position == 2 + nib / 8,
        rel_len == 2 ==> position == 4 + nib / 4,
        rel_len == 3 ==> position == 8 + nib / 2,
{
    let rel_bits: u32 = if rel_len == 0 {
        0
    } else {
        nib >> (STRIDE - rel_len)
    };
    proof {
        assert(nib >> 1u32 == nib / 2 && nib >> 2u32 == nib / 4 && nib >> 3u32 == nib / 8)
            by (bit_vector);
        assert(1u32 << 0u32 == 1 && 1u32 << 1u32 == 2 && 1u32 << 2u32 == 4 && 1u32 << 3u32 == 8)
            by (bit_vector);
        let whole = 16 + nib as int;
        let group = nibble_bits(nib as int);
        reveal_with_fuel(heap_path, 6);
        assert(group.take(3) =~= heap_path(whole / 2));
        assert(group.take(2) =~= heap_path(whole / 4));
        assert(group.take(1) =~= heap_path(whole / 8));
        assert(group.take(0) =~= heap_path(1));
        lemma_heap_path_inverse(whole / 2);
        lemma_heap_path_inverse(whole / 4);
        lemma_heap_path_inverse(whole / 8);
    }
    (1u32 << rel_len) + rel_bits
}

/// Finds the first set bit at or after a position.
pub fn next_set_bit(bitmap: u32, from: u32) -> (position: Option<u32>)
    requires
        from < 32,
    ensures
        match position {
            Some(p) => {
                &&& from <= p < 32
                &&& has_bit(bitmap, p as int)
                &&& forall|i: int| from <= i < p ==> !#[trigger] has_bit(bitmap, i)
            },
            None => forall|i: int| from <= i ==> !#[trigger] has_bit(bitmap, i),
        },
{
    let above: u32 = bitmap >> from;
    proof {
        assert forall|i: int| from <= i < 32 implies #[trigger] has_bit(bitmap, i) == has_bit(
            above,
            i - from,
        ) by {
            let k = i as u32;
            let j = (i - from) as u32;
            assert((bitmap >> k) & 1 == (above >> j) & 1) by (bit_vector)
                requires
                    above == bitmap >> from,
                    from < 32,
                    k < 32,
                    k == from + j,
            ;
        }
        vstd::std_specs::bits::axiom_u32_trailing_zeros(above);
        lemma_zero_bitmap(above);
    }
    if above != 0 {
        let zeros: u32 = above.trailing_zeros();
        proof {
            assert(from + zeros < 32) by (bit_vector)
                requires
                    above == bitmap >> from,
                    from < 32,
                    zeros < 32,
                    (above >> zeros) & 1 == 1,
            ;
            assert(has_bit(above, zeros as int));
            assert forall|i: int| from <= i < from + zeros implies !#[trigger] has_bit(
                bitmap,
                i,
            ) by {
                assert((above >> ((i - from) as u32)) & 1 == 0);
            }
        }
        Some(from + zeros)
    } else {
        None
    }
}

/// The row of a heap position within one stride: the length of the bits that lead to it.
pub fn heap_level(position: u32) -> (level: u32)
    requires
        1 <= position < 16,
    ensures
        level < 4,
        level == heap_path(position as int).len(),
        power2::pow2(level as nat) <= position < 2 * power2::pow2(level as nat),
{
    proof {
        power2::lemma2_to64();
        vstd::std_specs::bits::axiom_u32_leading_zeros(position);
        lemma_heap_path_len(position as int);
    }
    let zeros: u32 = position.leading_zeros();
    assert(zeros == 31 && position == 1 || zeros == 30 && 2 <= position < 4 || zeros == 29 && 4
        <= position < 8 || zeros == 28 && 8 <= position < 16) by (bit_vector)
        requires
            1 <= position < 16,
            zeros < 32,
            (position >> ((31 - zeros) as u32)) & 1 != 0,
            position >> ((32 - zeros) as u32) == 0,
    ;
    31 - zeros
}

/// A number of `width` bits in which only the first `len` may be set.
pub open spec fn ends_after(number: u128, width: nat, len: int) -> bool {
    &&& forall|i: int| len <= i < width ==> !#[trigger] address::bit_of(number, width, i)
    &&& width < 128 ==> number >> (width as u128) == 0
}

/// The bits that lead to a heap position within the first five rows, read off the number
/// that the position stands for in its row.
proof fn lemma_heap_path_bits(level: u128, value: u128, j: int)
    requires
        level <= 4,
        value < (1u128 << level),
        0 <= j < level,
    ensures
        heap_path((1u128 << level) + value).len() == level,
        heap_path((1u128 << level) + value)[j] == ((value >> ((level - 1 - j) as u128)) & 1 == 1),
{
    assert(1u128 << 0u128 == 1 && 1u128 << 1u128 == 2 && 1u128 << 2u128 == 4 && 1u128 << 3u128 == 8
        && 1u128 << 4u128 == 16) by (bit_vector);
    assert((value >> 0u128) & 1 == value % 2 && (value >> 1u128) & 1 == (value / 2) % 2 && (value
        >> 2u128) & 1 == (value / 4) % 2 && (value >> 3u128) & 1 == (value / 8) % 2)
        by (bit_vector);
    reveal_with_fuel(heap_path, 6);
    lemma_heap_path_len((1u128 << level) + value);
}

/// Writing `level` more bits behind the first `len` bits of a number.
pub proof fn lemma_append_bits(
    number: u128,
    width: u128,
    len: u128,
    level: u128,
    value: u128,
    result: u128,
)
    requires
        width <= 128,
        len + level <= width,
        level <= 4,
        value < (1u128 << level),
        ends_after(number, width as nat, len as int),
        level == 0 ==> result == number,
        level > 0 ==> result == number | (value << ((width - len - level) as u128)),
    ensures
        ends_after(result, width as nat, len + level),
        address::leading_bits(result, width as nat, (len + level) as nat)
            == address::leading_bits(number, width as nat, len as nat) + heap_path(
            (1u128 << level) + value,
        ),
{
    assert(1u128 << 0u128 == 1) by (bit_vector);
    let added = heap_path((1u128 << level) + value);
    if level == 0 {
        assert(address::leading_bits(result, width as nat, (len + level) as nat)
            =~= address::leading_bits(number, width as nat, len as nat) + added);
    } else {
        let shift = (width - len - level) as u128;
        assert forall|i: int| 0 <= i < width implies #[trigger] address::bit_of(
            result,
            width as nat,
            i,
        ) == if i < len {
            address::bit_of(number, width as nat, i)
        } else if i < len + level {
            added[i - len]
        } else {
            false
        } by {
            let at = (width - 1 - i) as u128;
            if i < len {
                assert((result >> at) & 1 == (number >> at) & 1) by (bit_vector)
                    requires
                        at < 128,
                        at >= shift + level,
                        level <= 4,
                        value < (1u128 << level),
                        result == number | (value << shift),
                ;
            } else if i < len + level {
                let in_value = (at - shift) as u128;
                assert(!address::bit_of(number, width as nat, i));
                lemma_heap_path_bits(level, value, i - len);
                assert(in_value == level - 1 - (i - len));
                assert((result >> at) & 1 == (value >> in_value) & 1) by (bit_vector)
                    requires
                        at < 128,
                        at >= shift,
                        in_value == at - shift,
                        (number >> at) & 1 != 1,
                        result == number | (value << shift),
                ;
            } else {
                assert(!address::bit_of(number, width as nat, i));
                assert((result >> at) & 1 != 1) by (bit_vector)
                    requires
                        at < shift,
                        shift < 128,
                        (number >> at) & 1 != 1,
                        result == number | (value << shift),
                ;
            }
        }
        if width < 128 {
            assert(result >> width == 0) by (bit_vector)
                requires
                    number >> width == 0,
                    result == number | (value << shift),
                    value < (1u128 << level),
                    level <= 4,
                    shift + level <= width,
                    width < 128,
            ;
        }
        lemma_heap_path_bits(level, value, 0);
        assert(address::leading_bits(result, width as nat, (len + level) as nat)
            =~= address::leading_bits(number, width as nat, len as nat) + added);
    }
}

/// Bit `i` of a bitmap is the binary digit of the place value two to the power of `i`.
pub proof fn law_bitmap_digits(bitmap: u32, i: int)
    ensures
        has_bit(bitmap, i) <==> 0 <= i < 32 && (bitmap as nat / power2::pow2(i as nat)) % 2 == 1,
{
    if 0 <= i < 32 {
        let shift = i as u32;
        vstd::bits::lemma_u32_shr_is_div(bitmap, shift);
        let digit = bitmap >> shift;
        assert(digit & 1 == digit % 2) by (bit_vector);
    }
}

/// The count below a position is the number of lower positions whose bit is set.
pub proof fn law_count_is_cardinality(bitmap: u32, n: int)
    requires
        0 <= n <= 32,
    ensures
        Set::new(|i: int| 0 <= i < n && has_bit(bitmap, i)).finite(),
        count_below(bitmap, n) == Set::new(|i: int| 0 <= i < n && has_bit(bitmap, i)).len(),
    decreases n,
{
    let set = Set::new(|i: int| 0 <= i < n && has_bit(bitmap, i));
    if n == 0 {
        assert(set =~= Set::<int>::empty());
    } else {
        law_count_is_cardinality(bitmap, n - 1);
        let smaller = Set::new(|i: int| 0 <= i < n - 1 && has_bit(bitmap, i));
        if has_bit(bitmap, n - 1) {
            assert(set =~= smaller.insert(n - 1));
        } else {
            assert(set =~= smaller);
        }
    }
}

/// Heap positions start with 1 for the empty string, and one bit more leads from a position
/// to twice that position, plus one for a one bit; every position from 1 on is reached.
pub proof fn law_heap_positions(path: Seq<bool>, bit: bool, position: int)
    ensures
        heap_index(Seq::<bool>::empty()) == 1,
        heap_index(path.push(bit)) == 2 * heap_index(path) + if bit {
            1int
        } else {
            0int
        },
        heap_path(heap_index(path)) == path,
        position >= 1 ==> heap_index(heap_path(position)) == position,
{
    assert(path.push(bit).drop_last() =~= path);
    lemma_heap_index_inverse(path);
    if position >= 1 {
        lemma_heap_path_inverse(position);
    }
}

/// The value of four bits is the number that they spell, and the bits of a value spell it.
pub proof fn law_nibbles_spell_values(b0: bool, b1: bool, b2: bool, b3: bool, value: int)
    ensures
        nibble_value(seq![b0, b1, b2, b3]) == (if b0 {
            8int
        } else {
            0
        }) + (if b1 {
            4int
        } else {
            0
        }) + (if b2 {
            2int
        } else {
            0
        }) + (if b3 {
            1int
        } else {
            0
        }),
        0 <= value < 16 ==> nibble_bits(value) == seq![
            value / 8 == 1,
            (value / 4) % 2 == 1,
            (value / 2) % 2 == 1,
            value % 2 == 1,
        ],
{
    let group = seq![b0, b1, b2, b3];
    reveal_with_fuel(heap_index, 6);
    assert(group.drop_last() =~= seq![b0, b1, b2]);
    assert(group.drop_last().drop_last() =~= seq![b0, b1]);
    assert(group.drop_last().drop_last().drop_last() =~= seq![b0]);
    assert(group.drop_last().drop_last().drop_last().drop_last() =~= Seq::<bool>::empty());
    if 0 <= value < 16 {
        reveal_with_fuel(heap_path, 6);
        assert(nibble_bits(value) =~= seq![
            value / 8 == 1,
            (value / 4) % 2 == 1,
            (value / 2) % 2 == 1,
            value % 2 == 1,
        ]);
    }
}

/// The position of the first bits of a nibble within its node: one row for each length, and
/// in the row the number that the bits spell.
pub proof fn law_stride_positions(value: int)
    requires
        0 <= value < 16,
    ensures
        heap_index(nibble_bits(value).take(0)) == 1,
        heap_index(nibble_bits(value).take(1)) == 2 + value / 8,
        heap_index(nibble_bits(value).take(2)) == 4 + value / 4,
        heap_index(nibble_bits(value).take(3)) == 8 + value / 2,
{
    let whole = 16 + value;
    let group = nibble_bits(value);
    reveal_with_fuel(heap_path, 6);
    assert(group.take(3) =~= heap_path(whole / 2));
    assert(group.take(2) =~= heap_path(whole / 4));
    assert(group.take(1) =~= heap_path(whole / 8));
    assert(group.take(0) =~= heap_path(1));
    lemma_heap_path_inverse(whole / 2);
    lemma_heap_path_inverse(whole / 4);
    lemma_heap_path_inverse(whole / 8);
}

} // verus!
