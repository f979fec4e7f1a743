//! Network prefixes.
use vstd::prelude::*;
use vstd::arithmetic::div_mod;
use vstd::arithmetic::power2;
use crate::address;
use crate::address::{IpAddress, Ipv4Addr, Ipv6Addr};

verus! {

/// The prefix length exceeds the width of the address family.
#[derive(Clone, Copy, Debug, PartialEq, Eq, Structural)]
pub struct InvalidPrefixLen;

/// An address paired with a prefix length.
///
/// The prefix stands for all addresses that share its leading `mask` bits. The
/// remaining bits of the address, the host bits, may hold anything;
/// [`masked`](IpPrefix::masked) clears them.
#[derive(Debug, PartialEq, Eq, Hash)]
pub struct IpPrefix<A: IpAddress> {
    ip: A,
    mask: u8,
}

impl<A: IpAddress> Clone for IpPrefix<A> {
    fn clone(&self) -> (copy: Self)
        ensures
            copy == *self,
    {
        *self
    }
}

impl<A: IpAddress> Copy for IpPrefix<A> {

}

impl<A: IpAddress> View for IpPrefix<A> {
    type V = Seq<bool>;

    /// The network bits: the leading bits that the prefix fixes.
    open spec fn view(&self) -> Seq<bool> {
        address::leading_bits(self.address().number(), A::width(), self.length())
    }
}

impl<A: IpAddress> IpPrefix<A> {
    /// The address, host bits as they were given.
    pub closed spec fn address(&self) -> A {
        self.ip
    }

    /// The number of network bits.
    pub closed spec fn length(&self) -> nat {
        self.mask as nat
    }

    /// Every host bit is zero.
    pub open spec fn canonical(&self) -> bool {
        forall|i: int|
            self.length() <= i < A::width() ==> !#[trigger] address::bit_of(
                self.address().number(),
                A::width(),
                i,
            )
    }

    #[verifier::type_invariant]
    spec fn fits(self) -> bool {
        self.mask <= A::width()
    }

    /// Pairs an address with a prefix length. Host bits are kept.
    pub fn new(ip: A, mask: u8) -> (prefix: Result<Self, InvalidPrefixLen>)
        ensures
            prefix is Ok <==> mask <= A::width(),
            prefix matches Ok(p) ==> p.address() == ip && p.length() == mask,
    {
        proof {
            A::lemma_width();
        }
        if mask > A::BITS {
            return Err(InvalidPrefixLen);
        }
        Ok(IpPrefix { ip, mask })
    }

    /// The address portion, host bits included.
    pub fn ip(&self) -> (ip: A)
        ensures
            ip == self.address(),
    {
        self.ip
    }

    /// The prefix length.
    pub fn mask(&self) -> (mask: u8)
        ensures
            mask == self.length(),
            mask <= A::width(),
    {
        proof {
            use_type_invariant(self);
        }
        self.mask
    }

    /// The same prefix with the host bits of the address cleared.
    pub fn masked(&self) -> (prefix: Self)
        ensures
            prefix.length() == self.length(),
            prefix@ == self@,
            prefix.canonical(),
            forall|i: int| 0 <= i < A::width() ==> #[trigger] address::bit_of(
                prefix.address().number(),
                A::width(),
                i,
            ) == (i < self.length() && address::bit_of(
                self.address().number(),
                A::width(),
                i,
            )),
    {
        proof {
            use_type_invariant(self);
            A::lemma_width();
            self.ip.lemma_number(self.ip);
        }
        let number: u128 = self.ip.to_u128();
        let host_bits: u8 = A::BITS - self.mask;
        let network: u128 = if host_bits >= 128 {
            0
        } else {
            (number >> host_bits) << host_bits
        };
        let prefix = IpPrefix { ip: A::from_u128(network), mask: self.mask };
        proof {
            assert forall|i: int| 0 <= i < A::width() implies #[trigger] address::bit_of(
                prefix.address().number(),
                A::width(),
                i,
            ) == (i < self.length() && address::bit_of(self.ip.number(), A::width(), i)) by {
                let at = (A::width() - 1 - i) as u128;
                let result = prefix.ip.number();
                if A::width() == 32 {
                    assert((result >> at) & 1 == 1 <==> at >= host_bits && (number >> at) & 1 == 1)
                        by (bit_vector)
                        requires
                            at < 32,
                            host_bits <= 32,
                            result == ((number >> host_bits) << host_bits) & 0xffff_ffff,
                    ;
                } else if host_bits < 128 {
                    assert((result >> at) & 1 == 1 <==> at >= host_bits && (number >> at) & 1 == 1)
                        by (bit_vector)
                        requires
                            at < 128,
                            host_bits < 128,
                            result == (number >> host_bits) << host_bits,
                    ;
                } else {
                    assert((0u128 >> at) & 1 == 0) by (bit_vector);
                }
            }
            assert forall|i: int| self.length() <= i < A::width() implies !#[trigger] address::bit_of(
                prefix.address().number(),
                A::width(),
                i,
            ) by {
            }
            assert(prefix@ =~= self@);
        }
        prefix
    }
}

/// A prefix is determined by its address and its length.
pub proof fn lemma_prefix_parts<A: IpAddress>(a: IpPrefix<A>, b: IpPrefix<A>)
    ensures
        a.address() == b.address() && a.length() == b.length() ==> a == b,
{
}

/// Any address and any length of a byte make a prefix.
pub proof fn lemma_prefix_exists<A: IpAddress>(addr: A, len: nat) -> (prefix: IpPrefix<A>)
    requires
        len <= 255,
    ensures
        prefix.address() == addr,
        prefix.length() == len,
{
    IpPrefix { ip: addr, mask: len as u8 }
}

/// A prefix covers an address exactly if their numbers agree apart from the host bits.
pub proof fn lemma_same_network<A: IpAddress>(prefix: IpPrefix<A>, addr: A)
    requires
        prefix.length() <= A::width(),
    ensures
        prefix@.is_prefix_of(address::address_bits(addr)) <==> addr.number() as nat / power2::pow2(
            (A::width() - prefix.length()) as nat,
        ) == prefix.address().number() as nat / power2::pow2((A::width() - prefix.length()) as nat),
        prefix@.is_prefix_of(address::address_bits(addr)) <==> prefix@ == address::address_bits(
            addr,
        ).take(prefix.length() as int),
{
    A::lemma_width();
    let width = A::width();
    let len = prefix.length();
    let a = addr.number();
    let b = prefix.address().number();
    let all = address::address_bits(addr);
    address::lemma_number_in_range(addr);
    address::lemma_number_in_range(prefix.address());
    address::lemma_equal_quotients(a as nat, b as nat, width, len);
    assert forall|i: int| 0 <= i < len implies (#[trigger] prefix@[i] == address::digit(
        b as nat,
        width,
        i,
    )) && all.take(len as int)[i] == address::digit(a as nat, width, i) by {
        address::law_bits_are_binary_digits(a, width, i);
        address::law_bits_are_binary_digits(b, width, i);
    }
    if prefix@.is_prefix_of(all) {
        assert forall|i: int| 0 <= i < len implies #[trigger] address::digit(a as nat, width, i)
            == address::digit(b as nat, width, i) by {
            assert(prefix@[i] == all.take(len as int)[i]);
        }
    }
    if forall|i: int|
        0 <= i < len ==> #[trigger] address::digit(a as nat, width, i) == address::digit(
            b as nat,
            width,
            i,
        ) {
        assert forall|i: int| 0 <= i < len implies prefix@[i] == all.take(len as int)[i] by {
            assert(address::digit(a as nat, width, i) == address::digit(b as nat, width, i));
        }
        assert(prefix@ =~= all.take(len as int));
    }
}

/// A prefix is canonical exactly if its number without the network bits is zero.
proof fn lemma_canonical<A: IpAddress>(prefix: IpPrefix<A>)
    requires
        prefix.length() <= A::width(),
    ensures
        prefix.canonical() <==> prefix.address().number() as nat % power2::pow2(
            (A::width() - prefix.length()) as nat,
        ) == 0,
{
    A::lemma_width();
    let number = prefix.address().number();
    address::lemma_zero_remainder(number as nat, A::width(), prefix.length());
    assert forall|i: int| prefix.length() <= i < A::width() implies #[trigger] address::bit_of(
        number,
        A::width(),
        i,
    ) == address::digit(number as nat, A::width(), i) by {
        address::law_bits_are_binary_digits(number, A::width(), i);
    }
    if prefix.canonical() {
        assert forall|i: int| prefix.length() <= i < A::width() implies !#[trigger] address::digit(
            number as nat,
            A::width(),
            i,
        ) by {
            assert(!address::bit_of(number, A::width(), i));
        }
    }
    if number as nat % power2::pow2((A::width() - prefix.length()) as nat) == 0 {
        assert forall|i: int| prefix.length() <= i < A::width() implies !#[trigger] address::bit_of(
            prefix.address().number(),
            A::width(),
            i,
        ) by {
            assert(!address::digit(number as nat, A::width(), i));
        }
    }
}

/// The network bits of an IPv4 prefix are the first binary digits of the number in the field
/// of its address, as many as the prefix is long.
pub proof fn law_ipv4_network_bits(prefix: IpPrefix<Ipv4Addr>, i: int)
    requires
        prefix.length() <= 32,
    ensures
        prefix@.len() == prefix.length(),
        0 <= i < prefix.length() ==> (prefix@[i] <==> (prefix.address().bits as nat
            / power2::pow2((31 - i) as nat)) % 2 == 1),
{
    address::law_leading_bits(prefix.address().number(), 32, prefix.length(), i);
}

/// Two IPv4 prefixes denote the same entry exactly if they have the same length and the
/// numbers in the fields of their addresses agree apart from the host bits.
pub proof fn law_ipv4_same_entry(a: IpPrefix<Ipv4Addr>, b: IpPrefix<Ipv4Addr>)
    requires
        a.length() <= 32,
        b.length() <= 32,
    ensures
        a@ == b@ <==> a.length() == b.length() && a.address().bits as nat / power2::pow2(
            (32 - a.length()) as nat,
        ) == b.address().bits as nat / power2::pow2((32 - a.length()) as nat),
{
    if a.length() == b.length() {
        lemma_same_network(a, b.address());
        assert(b@ =~= address::address_bits(b.address()).take(b.length() as int));
    } else {
        assert(a@.len() != b@.len());
    }
}

/// An IPv4 prefix is canonical exactly if the host bits, the last ones behind its length, of
/// the number in the field of its address are zero.
pub proof fn law_ipv4_canonical(prefix: IpPrefix<Ipv4Addr>)
    requires
        prefix.length() <= 32,
    ensures
        prefix.canonical() <==> prefix.address().bits as nat % power2::pow2(
            (32 - prefix.length()) as nat,
        ) == 0,
{
    lemma_canonical(prefix);
}

/// The canonical IPv4 prefix of an entry has the number of any prefix of the entry, less its
/// host bits.
pub proof fn law_ipv4_host_bits_cleared(prefix: IpPrefix<Ipv4Addr>, masked: IpPrefix<Ipv4Addr>)
    requires
        prefix.length() <= 32,
        masked.length() == prefix.length(),
        masked@ == prefix@,
        masked.canonical(),
    ensures
        masked.address().bits == prefix.address().bits - prefix.address().bits as nat
            % power2::pow2((32 - prefix.length()) as nat),
{
    let unit = power2::pow2((32 - prefix.length()) as nat);
    let a = prefix.address().bits as nat;
    let b = masked.address().bits as nat;
    lemma_canonical(masked);
    law_ipv4_same_entry(prefix, masked);
    power2::lemma_pow2_pos((32 - prefix.length()) as nat);
    div_mod::lemma_fundamental_div_mod(a as int, unit as int);
    div_mod::lemma_fundamental_div_mod(b as int, unit as int);
}

/// The network bits of an IPv6 prefix are the first binary digits of the number in the field
/// of its address, as many as the prefix is long.
pub proof fn law_ipv6_network_bits(prefix: IpPrefix<Ipv6Addr>, i: int)
    requires
        prefix.length() <= 128,
    ensures
        prefix@.len() == prefix.length(),
        0 <= i < prefix.length() ==> (prefix@[i] <==> (prefix.address().bits as nat
            / power2::pow2((127 - i) as nat)) % 2 == 1),
{
    address::law_leading_bits(prefix.address().number(), 128, prefix.length(), i);
}

/// Two IPv6 prefixes denote the same entry exactly if they have the same length and the
/// numbers in the fields of their addresses agree apart from the host bits.
pub proof fn law_ipv6_same_entry(a: IpPrefix<Ipv6Addr>, b: IpPrefix<Ipv6Addr>)
    requires
        a.length() <= 128,
        b.length() <= 128,
    ensures
        a@ == b@ <==> a.length() == b.length() && a.address().bits as nat / power2::pow2(
            (128 - a.length()) as nat,
        ) == b.address().bits as nat / power2::pow2((128 - a.length()) as nat),
{
    if a.length() == b.length() {
        lemma_same_network(a, b.address());
        assert(b@ =~= address::address_bits(b.address()).take(b.length() as int));
    } else {
        assert(a@.len() != b@.len());
    }
}

/// An IPv6 prefix is canonical exactly if the host bits, the last ones behind its length, of
/// the number in the field of its address are zero.
pub proof fn law_ipv6_canonical(prefix: IpPrefix<Ipv6Addr>)
    requires
        prefix.length() <= 128,
    ensures
        prefix.canonical() <==> prefix.address().bits as nat % power2::pow2(
            (128 - prefix.length()) as nat,
        ) == 0,
{
    lemma_canonical(prefix);
}

/// The canonical IPv6 prefix of an entry has the number of any prefix of the entry, less its
/// host bits.
pub proof fn law_ipv6_host_bits_cleared(prefix: IpPrefix<Ipv6Addr>, masked: IpPrefix<Ipv6Addr>)
    requires
        prefix.length() <= 128,
        masked.length() == prefix.length(),
        masked@ == prefix@,
        masked.canonical(),
    ensures
        masked.address().bits == prefix.address().bits - prefix.address().bits as nat
            % power2::pow2((128 - prefix.length()) as nat),
{
    let unit = power2::pow2((128 - prefix.length()) as nat);
    let a = prefix.address().bits as nat;
    let b = masked.address().bits as nat;
    lemma_canonical(masked);
    law_ipv6_same_entry(prefix, masked);
    power2::lemma_pow2_pos((128 - prefix.length()) as nat);
    div_mod::lemma_fundamental_div_mod(a as int, unit as int);
    div_mod::lemma_fundamental_div_mod(b as int, unit as int);
}

} // verus!
