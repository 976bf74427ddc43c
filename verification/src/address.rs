//! Client addresses as plain integers.

use vstd::prelude::*;

verus! {

/// The address of a peer, without its port: the 32 bits of an IPv4 address
/// or the 128 bits of an IPv6 address, most significant bit first.
///
/// Two addresses are equal exactly when they are of the same family and hold
/// the same bits. An IPv4 address and the IPv6 address that embeds it are two
/// different peers.
#[derive(Clone, Copy, Debug, PartialEq, Eq, Structural, Hash)]
pub enum IpAddress {
    V4(u32),
    V6(u128),
}

/// The last `count` digits of `value` to the base `base`, the most
/// significant first.
pub open spec fn groups(value: nat, base: nat, count: nat) -> Seq<u16>
    recommends
        2 <= base <= 0x1_0000,
    decreases count,
{
    if count == 0 {
        Seq::empty()
    } else {
        groups(value / base, base, (count - 1) as nat).push((value % base) as u16)
    }
}

/// The number whose digits to the base `base` are `parts`, the most
/// significant first.
pub open spec fn number_of(parts: Seq<u16>, base: nat) -> nat
    decreases parts.len(),
{
    if parts.len() == 0 {
        0
    } else {
        number_of(parts.drop_last(), base) * base + parts.last() as nat
    }
}

/// Taking a number apart gives back the digits it was made of.
pub proof fn lemma_groups_of_number(parts: Seq<u16>, base: nat)
    requires
        2 <= base <= 0x1_0000,
        forall|i: int| 0 <= i < parts.len() ==> parts[i] < base,
    ensures
        groups(number_of(parts, base), base, parts.len()) == parts,
    decreases parts.len(),
{
    if parts.len() > 0 {
        let front = parts.drop_last();
        let high = number_of(front, base);
        let low = parts.last() as nat;
        lemma_groups_of_number(front, base);
        assert((high * base + low) / base == high && (high * base + low) % base == low)
            by (nonlinear_arith)
            requires
                low < base,
        ;
        assert(groups(number_of(parts, base), base, parts.len()) =~= parts);
    }
}

impl IpAddress {
    /// The parts that the address is written in: the four octets of an
    /// IPv4 address, the eight 16-bit segments of an IPv6 address.
    pub open spec fn parts(self) -> Seq<u16> {
        match self {
            IpAddress::V4(bits) => groups(bits as nat, 0x100, 4),
            IpAddress::V6(bits) => groups(bits as nat, 0x1_0000, 8),
        }
    }

    /// The IPv4 address `a.b.c.d`.
    pub fn v4(a: u8, b: u8, c: u8, d: u8) -> (ip: IpAddress)
        ensures
            ip matches IpAddress::V4(bits) && bits == a * 0x100_0000 + b * 0x1_0000 + c * 0x100 + d,
            ip.parts() == seq![a as u16, b as u16, c as u16, d as u16],
    {
        let high: u32 = (a as u32) * 0x100 + (b as u32);
        let low: u32 = (c as u32) * 0x100 + (d as u32);
        let bits: u32 = high * 0x1_0000 + low;
        proof {
            let octets = seq![a as u16, b as u16, c as u16, d as u16];
            reveal_with_fuel(number_of, 5);
            assert(octets.drop_last() =~= seq![a as u16, b as u16, c as u16]);
            assert(octets.drop_last().drop_last() =~= seq![a as u16, b as u16]);
            assert(octets.drop_last().drop_last().drop_last() =~= seq![a as u16]);
            assert(number_of(octets, 0x100) == bits);
            lemma_groups_of_number(octets, 0x100);
        }
        IpAddress::V4(bits)
    }

    /// The IPv6 address with these eight segments, the first segment in the
    /// most significant bits.
    pub fn v6(segments: [u16; 8]) -> (ip: IpAddress)
        ensures
            ip matches IpAddress::V6(bits) && bits == number_of(segments@, 0x1_0000),
            ip.parts() == segments@,
    {
        let mut bits: u128 = 0;
        let mut i: usize = 0;
        assert(segments@.subrange(0, 0) =~= Seq::empty());
        while i < 8
            invariant
                i <= 8,
                bits == number_of(segments@.subrange(0, i as int), 0x1_0000),
                bits < place(i as nat),
            decreases 8 - i,
        {
            proof {
                let now = segments@.subrange(0, i + 1);
                assert(now.drop_last() =~= segments@.subrange(0, i as int));
                lemma_place_grows(i as nat, 7);
                reveal_with_fuel(place, 9);
            }
            bits = bits * 0x1_0000 + segments[i] as u128;
            i += 1;
        }
        proof {
            assert(segments@.subrange(0, 8) =~= segments@);
            lemma_groups_of_number(segments@, 0x1_0000);
        }
        IpAddress::V6(bits)
    }

    /// The order in which addresses are listed where nothing else decides:
    /// every IPv4 address stands before every IPv6 address, and within a
    /// family the address with the smaller bits stands first.
    pub open spec fn precedes(self, other: IpAddress) -> bool {
        match (self, other) {
            (IpAddress::V4(a), IpAddress::V4(b)) => a < b,
            (IpAddress::V4(_), IpAddress::V6(_)) => true,
            (IpAddress::V6(_), IpAddress::V4(_)) => false,
            (IpAddress::V6(a), IpAddress::V6(b)) => a < b,
        }
    }

    /// Whether `self` stands before `other` in the order of addresses.
    pub fn comes_before(&self, other: &IpAddress) -> (before: bool)
        ensures
            before == self.precedes(*other),
    {
        match (*self, *other) {
            (IpAddress::V4(a), IpAddress::V4(b)) => a < b,
            (IpAddress::V4(_), IpAddress::V6(_)) => true,
            (IpAddress::V6(_), IpAddress::V4(_)) => false,
            (IpAddress::V6(a), IpAddress::V6(b)) => a < b,
        }
    }
}

/// The weight of the segment that has `k` segments after it: 65536 to the
/// power `k`.
spec fn place(k: nat) -> nat
    decreases k,
{
    if k == 0 {
        1
    } else {
        0x1_0000 * place((k - 1) as nat)
    }
}

proof fn lemma_place_grows(j: nat, k: nat)
    requires
        j <= k,
    ensures
        place(j) <= place(k),
    decreases k,
{
    if j < k {
        lemma_place_grows(j, (k - 1) as nat);
    }
}

} // verus!
