//! Numbers and addresses as text.

use vstd::prelude::*;
use vstd::string::*;
use crate::address::{groups, IpAddress};

verus! {

/// The digit that stands for `d`, for `d` below 16: `0` to `9`, then `a` to
/// `f`.
pub open spec fn digit(d: nat) -> char {
    "0123456789abcdef"@[d as int]
}

/// The numeral of `n` to the base `radix`, without leading zeros; the
/// numeral of 0 is the digit `0`.
pub open spec fn numeral(n: nat, radix: nat) -> Seq<char>
    recommends
        2 <= radix <= 16,
    decreases n,
    via numeral_decreases
{
    if radix < 2 || n < radix {
        seq![digit(n)]
    } else {
        numeral(n / radix, radix).push(digit(n % radix))
    }
}

#[via_fn]
proof fn numeral_decreases(n: nat, radix: nat) {
    if !(radix < 2 || n < radix) {
        assert(n / radix < n) by (nonlinear_arith)
            requires
                2 <= radix <= n,
        ;
    }
}

/// The one-character text of the digit for `d`.
fn digit_str(d: u64) -> (s: &'static str)
    requires
        d < 16,
    ensures
        s@ == seq![digit(d as nat)],
{
    let digits = "0123456789abcdef";
    proof {
        reveal_strlit("0123456789abcdef");
        assert(is_ascii(digits));
    }
    let s = digits.substring_ascii(d as usize, d as usize + 1);
    assert(s@ =~= seq![digit(d as nat)]);
    s
}

/// Appends the numeral of `n` to the base `radix`.
pub fn write_numeral(out: &mut String, n: u64, radix: u64)
    requires
        2 <= radix <= 16,
    ensures
        final(out)@ == old(out)@ + numeral(n as nat, radix as nat),
    decreases n,
{
    if n < radix {
        out.append(digit_str(n));
    } else {
        assert(n / radix < n) by (nonlinear_arith)
            requires
                2 <= radix <= n,
        ;
        write_numeral(out, n / radix, radix);
        out.append(digit_str(n % radix));
        assert(out@ =~= old(out)@ + numeral(n as nat, radix as nat));
    }
}

/// The numerals of `parts` to the base `radix`, with `sep` between each two.
pub open spec fn joined(parts: Seq<u16>, radix: nat, sep: Seq<char>) -> Seq<char>
    decreases parts.len(),
{
    if parts.len() == 0 {
        Seq::empty()
    } else if parts.len() == 1 {
        numeral(parts[0] as nat, radix)
    } else {
        joined(parts.drop_last(), radix, sep) + sep + numeral(parts.last() as nat, radix)
    }
}

/// The length of the run of zeros in `parts` that starts at `i`.
pub open spec fn zero_run(parts: Seq<u16>, i: int) -> nat
    decreases parts.len() - i,
{
    if 0 <= i < parts.len() && parts[i] == 0 {
        1 + zero_run(parts, i + 1)
    } else {
        0
    }
}

/// Where the longest run of zeros in `parts` at or after `from` starts: the
/// leftmost, where several are as long. Where no part at or after `from`
/// is zero, this is the length of `parts`.
pub open spec fn widest_zero_run(parts: Seq<u16>, from: int) -> int
    decreases parts.len() - from,
{
    if from >= parts.len() {
        parts.len() as int
    } else {
        let later = widest_zero_run(parts, from + 1);
        if zero_run(parts, from) >= 1 && zero_run(parts, from) >= zero_run(parts, later) {
            from
        } else {
            later
        }
    }
}

/// The run that `widest_zero_run` finds is as long as any run at or after
/// `from`, and longer than any run that starts between `from` and it.
pub proof fn lemma_widest_zero_run(parts: Seq<u16>, from: int)
    requires
        0 <= from <= parts.len(),
    ensures
        from <= widest_zero_run(parts, from) <= parts.len(),
        forall|j: int|
            from <= j ==> #[trigger] zero_run(parts, j) <= zero_run(
                parts,
                widest_zero_run(parts, from),
            ),
        forall|j: int|
            from <= j < widest_zero_run(parts, from) ==> #[trigger] zero_run(parts, j) < zero_run(
                parts,
                widest_zero_run(parts, from),
            ) || zero_run(parts, j) == 0,
    decreases parts.len() - from,
{
    if from < parts.len() {
        lemma_widest_zero_run(parts, from + 1);
    }
}

/// The text of an IPv4 address: its four octets in decimal, with dots.
pub open spec fn ipv4_text(bits: u32) -> Seq<char> {
    joined(groups(bits as nat, 0x100, 4), 10, "."@)
}

/// The text of an IPv6 address.
///
/// An address that embeds an IPv4 address (its first 80 bits zero, the next
/// 16 one) is `::ffff:` and that address in dotted form. Any other is its
/// eight segments in hexadecimal with colons, and where two or more
/// segments in a row are zero, the longest such run (the leftmost of the
/// longest) is left out, with `::` in its place.
pub open spec fn ipv6_text(bits: u128) -> Seq<char> {
    if bits / 0x1_0000_0000 == 0xffff {
        "::ffff:"@ + ipv4_text((bits % 0x1_0000_0000) as u32)
    } else {
        let segments = groups(bits as nat, 0x1_0000, 8);
        let start = widest_zero_run(segments, 0);
        let len = zero_run(segments, start);
        if len >= 2 {
            joined(segments.subrange(0, start), 16, ":"@) + "::"@ + joined(
                segments.subrange(start + len, 8),
                16,
                ":"@,
            )
        } else {
            joined(segments, 16, ":"@)
        }
    }
}

/// The text of an address.
pub open spec fn address_text(ip: IpAddress) -> Seq<char> {
    match ip {
        IpAddress::V4(bits) => ipv4_text(bits),
        IpAddress::V6(bits) => ipv6_text(bits),
    }
}

/// Computes the last `count` digits of `value` to the base `base`.
fn groups_of(value: u128, base: u128, count: usize) -> (parts: Vec<u16>)
    requires
        2 <= base <= 0x1_0000,
    ensures
        parts@ == groups(value as nat, base as nat, count as nat),
        parts@.len() == count,
    decreases count,
{
    if count == 0 {
        Vec::new()
    } else {
        let mut parts = groups_of(value / base, base, count - 1);
        parts.push((value % base) as u16);
        parts
    }
}

/// Appends the numerals of `parts[lo..hi]` with `sep` between each two.
fn write_joined(out: &mut String, parts: &Vec<u16>, lo: usize, hi: usize, radix: u64, sep: &str)
    requires
        lo <= hi <= parts.len(),
        2 <= radix <= 16,
    ensures
        final(out)@ == old(out)@ + joined(
            parts@.subrange(lo as int, hi as int),
            radix as nat,
            sep@,
        ),
{
    let mut i: usize = lo;
    assert(parts@.subrange(lo as int, lo as int) =~= Seq::empty());
    assert(out@ =~= old(out)@ + Seq::empty());
    while i < hi
        invariant
            lo <= i <= hi <= parts.len(),
            2 <= radix <= 16,
            out@ == old(out)@ + joined(parts@.subrange(lo as int, i as int), radix as nat, sep@),
        decreases hi - i,
    {
        let ghost before = parts@.subrange(lo as int, i as int);
        let ghost now = parts@.subrange(lo as int, i + 1);
        assert(now.drop_last() =~= before);
        assert(now.last() == parts@[i as int]);
        if i > lo {
            out.append(sep);
        }
        write_numeral(out, parts[i] as u64, radix);
        assert(out@ =~= old(out)@ + joined(now, radix as nat, sep@));
        i += 1;
    }
}

/// Finds the longest run of zeros in `parts`, the leftmost of the longest:
/// where it starts and how long it is.
fn find_widest_zero_run(parts: &Vec<u16>) -> (run: (usize, usize))
    ensures
        run.0 == widest_zero_run(parts@, 0),
        run.1 == zero_run(parts@, run.0 as int),
        run.0 + run.1 <= parts@.len(),
{
    let n = parts.len();
    let mut i: usize = n;
    let mut current: usize = 0;
    let mut start: usize = n;
    let mut len: usize = 0;
    while i > 0
        invariant
            i <= n,
            n == parts@.len(),
            current == zero_run(parts@, i as int),
            start == widest_zero_run(parts@, i as int),
            len == zero_run(parts@, start as int),
            i + current <= n,
            i <= start,
            start + len <= n,
        decreases i,
    {
        i -= 1;
        if parts[i] == 0 {
            current += 1;
        } else {
            current = 0;
        }
        if current >= 1 && current >= len {
            start = i;
            len = current;
        }
    }
    (start, len)
}

/// Appends the text of the IPv4 address with these bits.
fn write_ipv4(out: &mut String, bits: u32)
    ensures
        final(out)@ == old(out)@ + ipv4_text(bits),
{
    let octets = groups_of(bits as u128, 0x100, 4);
    assert(octets@.subrange(0, 4) =~= octets@);
    write_joined(out, &octets, 0, 4, 10, ".");
}

/// Appends the text of the IPv6 address with these bits.
fn write_ipv6(out: &mut String, bits: u128)
    ensures
        final(out)@ == old(out)@ + ipv6_text(bits),
{
    if bits / 0x1_0000_0000 == 0xffff {
        out.append("::ffff:");
        write_ipv4(out, (bits % 0x1_0000_0000) as u32);
        assert(out@ =~= old(out)@ + ipv6_text(bits));
    } else {
        let segments = groups_of(bits, 0x1_0000, 8);
        let (start, len) = find_widest_zero_run(&segments);
        if len >= 2 {
            write_joined(out, &segments, 0, start, 16, ":");
            out.append("::");
            write_joined(out, &segments, start + len, 8, 16, ":");
            assert(out@ =~= old(out)@ + ipv6_text(bits));
        } else {
            assert(segments@.subrange(0, 8) =~= segments@);
            write_joined(out, &segments, 0, 8, 16, ":");
        }
    }
}

/// Appends the text of `ip`.
pub fn write_address(out: &mut String, ip: &IpAddress)
    ensures
        final(out)@ == old(out)@ + address_text(*ip),
{
    match *ip {
        IpAddress::V4(bits) => write_ipv4(out, bits),
        IpAddress::V6(bits) => write_ipv6(out, bits),
    }
}

impl IpAddress {
    /// The address as text: `127.0.0.1`, `2001:db8::1`.
    pub fn to_text(&self) -> (text: String)
        ensures
            text@ == address_text(*self),
    {
        let mut text = String::new();
        write_address(&mut text, self);
        assert(text@ =~= address_text(*self));
        text
    }
}

} // verus!
