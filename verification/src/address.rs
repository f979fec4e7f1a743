//! IP addresses as fixed-width numbers, and their bits counted from the most significant one.
use vstd::prelude::*;
use vstd::arithmetic::div_mod;
use vstd::arithmetic::power2;

verus! {

/// Bit `i` of a `width`-bit number, where bit 0 is the most significant one.
pub open spec fn bit_of(number: u128, width: nat, i: int) -> bool {
    (number >> ((width - 1 - i) as u128)) & 1 == 1
}

/// The `len` most significant bits of a `width`-bit number.
pub open spec fn leading_bits(number: u128, width: nat, len: nat) -> Seq<bool> {
    Seq::new(len, |i: int| bit_of(number, width, i))
}

/// Reads bit `i` of a `width`-bit number, where bit 0 is the most significant one.
pub fn bit_at(number: u128, width: u32, i: u32) -> (bit: bool)
    requires
        i < width <= 128,
    ensures
        bit == bit_of(number, width as nat, i as int),
        bit <==> (number as nat / power2::pow2((width - 1 - i) as nat)) % 2 == 1,
{
    proof {
        law_bits_are_binary_digits(number, width as nat, i as int);
    }
    (number >> (width - 1 - i)) & 1 == 1
}

/// All bits of an address, the most significant one first.
pub open spec fn address_bits<A: IpAddress>(addr: A) -> Seq<bool> {
    leading_bits(addr.number(), A::width(), A::width())
}

/// An address family.
pub trait IpAddress: Copy {
    /// Number of bits in an address: 32 for IPv4, 128 for IPv6.
    const BITS: u8;

    /// The same number of bits, for specifications.
    spec fn width() -> nat;

    /// The address as a number; an IPv4 address uses the low 32 bits.
    spec fn number(self) -> u128;

    /// The family is one of the two that exist.
    proof fn lemma_width()
        ensures
            Self::BITS == Self::width(),
            Self::width() == 32 || Self::width() == 128,
    ;

    /// Addresses are told apart by their numbers, and every number fits the width.
    proof fn lemma_number(self, other: Self)
        ensures
            self.number() == other.number() ==> self == other,
            Self::width() == 32 ==> self.number() <= u32::MAX,
    ;

    /// Converts this address to a number.
    fn to_u128(self) -> (number: u128)
        ensures
            number == self.number(),
    ;

    /// Builds an address from a number; IPv4 reads the low 32 bits.
    fn from_u128(bits: u128) -> (addr: Self)
        ensures
            Self::width() == 32 ==> addr.number() == bits & 0xffff_ffff,
            Self::width() == 128 ==> addr.number() == bits,
    ;
}

/// An IPv4 address.
#[derive(Clone, Copy, Debug, PartialEq, Eq, PartialOrd, Ord, Hash, Structural)]
pub struct Ipv4Addr {
    /// The four octets as one number, the first octet in the highest position.
    pub bits: u32,
}

/// An IPv6 address.
#[derive(Clone, Copy, Debug, PartialEq, Eq, PartialOrd, Ord, Hash, Structural)]
pub struct Ipv6Addr {
    /// The eight groups as one number, the first group in the highest position.
    pub bits: u128,
}

impl IpAddress for Ipv4Addr {
    const BITS: u8 = 32;

    open spec fn width() -> nat {
        32
    }

    open spec fn number(self) -> u128 {
        self.bits as u128
    }

    proof fn lemma_width() {
    }

    proof fn lemma_number(self, other: Self) {
    }

    fn to_u128(self) -> (number: u128)
        ensures
            number == self.bits,
    {
        self.bits as u128
    }

    fn from_u128(bits: u128) -> (addr: Self)
        ensures
            addr.bits == bits % 0x1_0000_0000,
    {
        assert((bits as u32) as u128 == bits & 0xffff_ffff && bits as u32 == bits
            % 0x1_0000_0000) by (bit_vector);
        Ipv4Addr { bits: bits as u32 }
    }
}

impl IpAddress for Ipv6Addr {
    const BITS: u8 = 128;

    open spec fn width() -> nat {
        128
    }

    open spec fn number(self) -> u128 {
        self.bits
    }

    proof fn lemma_width() {
    }

    proof fn lemma_number(self, other: Self) {
    }

    fn to_u128(self) -> (number: u128)
        ensures
            number == self.bits,
    {
        self.bits
    }

    fn from_u128(bits: u128) -> (addr: Self)
        ensures
            addr.bits == bits,
    {
        Ipv6Addr { bits }
    }
}

/// Bit `i` of a `width`-bit number is the binary digit of the place value two to the power
/// of `width - 1 - i`.
pub proof fn law_bits_are_binary_digits(number: u128, width: nat, i: int)
    requires
        0 <= i < width <= 128,
    ensures
        bit_of(number, width, i) <==> (number as nat / power2::pow2((width - 1 - i) as nat)) % 2
            == 1,
{
    let shift = (width - 1 - i) as u128;
    vstd::bits::lemma_u128_shr_is_div(number, shift);
    let digit = number >> shift;
    assert(digit & 1 == digit % 2) by (bit_vector);
}

/// The leading bits of a number are its first binary digits, as many as asked for.
pub proof fn law_leading_bits(number: u128, width: nat, len: nat, i: int)
    requires
        len <= width <= 128,
    ensures
        leading_bits(number, width, len).len() == len,
        0 <= i < len ==> (leading_bits(number, width, len)[i] <==> (number as nat / power2::pow2(
            (width - 1 - i) as nat,
        )) % 2 == 1),
{
    if 0 <= i < len {
        law_bits_are_binary_digits(number, width, i);
    }
}

/// An IPv4 address stands for the number in its field, and its bits are the 32 binary digits
/// of that number.
pub proof fn law_ipv4_address(addr: Ipv4Addr, i: int)
    ensures
        Ipv4Addr::BITS == 32,
        Ipv4Addr::width() == 32,
        addr.number() == addr.bits,
        address_bits(addr).len() == 32,
        0 <= i < 32 ==> (address_bits(addr)[i] <==> (addr.bits as nat / power2::pow2(
            (31 - i) as nat,
        )) % 2 == 1),
{
    law_leading_bits(addr.number(), 32, 32, i);
}

/// An IPv6 address stands for the number in its field, and its bits are the 128 binary digits
/// of that number.
pub proof fn law_ipv6_address(addr: Ipv6Addr, i: int)
    ensures
        Ipv6Addr::BITS == 128,
        Ipv6Addr::width() == 128,
        addr.number() == addr.bits,
        address_bits(addr).len() == 128,
        0 <= i < 128 ==> (address_bits(addr)[i] <==> (addr.bits as nat / power2::pow2(
            (127 - i) as nat,
        )) % 2 == 1),
{
    law_leading_bits(addr.number(), 128, 128, i);
}

/// Numbers agree in their first digits exactly if they are equal without the others.
pub proof fn lemma_equal_quotients(a: nat, b: nat, width: nat, len: nat)
    requires
        len <= width,
        a < power2::pow2(width),
        b < power2::pow2(width),
    ensures
        a / power2::pow2((width - len) as nat) == b / power2::pow2((width - len) as nat)
            <==> forall|i: int|
                0 <= i < len ==> #[trigger] digit(a, width, i) == digit(b, width, i),
    decreases len,
{
    let rest = (width - len) as nat;
    power2::lemma_pow2_pos(rest);
    if len == 0 {
        div_mod::lemma_basic_div(a as int, power2::pow2(width) as int);
        div_mod::lemma_basic_div(b as int, power2::pow2(width) as int);
    } else {
        lemma_equal_quotients(a, b, width, (len - 1) as nat);
        power2::lemma_pow2_unfold(rest + 1);
        div_mod::lemma_div_denominator(a as int, power2::pow2(rest) as int, 2);
        div_mod::lemma_div_denominator(b as int, power2::pow2(rest) as int, 2);
        assert(power2::pow2(rest) * 2 == power2::pow2(rest + 1));
        let x = a / power2::pow2(rest);
        let y = b / power2::pow2(rest);
        assert(x / 2 == a / power2::pow2(rest + 1) && y / 2 == b / power2::pow2(rest + 1));
        assert(digit(a, width, len - 1) == (x % 2 == 1));
        assert(digit(b, width, len - 1) == (y % 2 == 1));
        if x == y {
            assert forall|i: int| 0 <= i < len implies #[trigger] digit(a, width, i) == digit(
                b,
                width,
                i,
            ) by {
                if i < len - 1 {
                    assert(digit(a, width, i) == digit(b, width, i));
                }
            }
        }
    }
}

/// Binary digit `i` of a `width`-digit number, where digit 0 has the highest place value.
pub open spec fn digit(number: nat, width: nat, i: int) -> bool {
    (number / power2::pow2((width - 1 - i) as nat)) % 2 == 1
}

/// The digits from `len` on are zero exactly if the place value of digit `len - 1` divides
/// the number.
pub proof fn lemma_zero_remainder(number: nat, width: nat, len: nat)
    requires
        len <= width,
    ensures
        number % power2::pow2((width - len) as nat) == 0 <==> forall|i: int|
            len <= i < width ==> !#[trigger] digit(number, width, i),
    decreases width - len,
{
    let rest = (width - len) as nat;
    if rest == 0 {
        power2::lemma2_to64();
    } else {
        lemma_zero_remainder(number, width, len + 1);
        let half = (rest - 1) as nat;
        power2::lemma_pow2_pos(half);
        power2::lemma_pow2_unfold(rest);
        assert(power2::pow2(half) * 2 == power2::pow2(rest));
        div_mod::lemma_mod_breakdown(number as int, power2::pow2(half) as int, 2);
        let quotient = number / power2::pow2(half);
        assert(number % power2::pow2(rest) == power2::pow2(half) * (quotient % 2) + number
            % power2::pow2(half));
        assert(digit(number, width, len as int) == (quotient % 2 == 1));
        assert(quotient % 2 == 0 ==> power2::pow2(half) * (quotient % 2) == 0) by (nonlinear_arith);
        assert(quotient % 2 == 1 ==> power2::pow2(half) * (quotient % 2) == power2::pow2(half))
            by (nonlinear_arith);
        if number % power2::pow2(rest) == 0 {
            assert forall|i: int| len <= i < width implies !#[trigger] digit(number, width, i) by {
            }
        }
    }
}

/// Every number of an address is smaller than two to the power of the width.
pub proof fn lemma_number_in_range<A: IpAddress>(addr: A)
    ensures
        addr.number() < power2::pow2(A::width()),
{
    A::lemma_width();
    addr.lemma_number(addr);
    power2::lemma2_to64();
    power2::lemma_pow2_adds(64, 64);
    assert(power2::pow2(128) == 0x1_0000_0000_0000_0000 * 0x1_0000_0000_0000_0000);
}

} // verus!
