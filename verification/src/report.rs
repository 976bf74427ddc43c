//! The text of a report.

use vstd::prelude::*;
use vstd::string::*;
use crate::address::IpAddress;
use crate::text::{address_text, numeral, write_address, write_numeral};

verus! {

/// The line of one entry: two spaces, the address, a colon and a space, the
/// count in decimal, and a line feed.
pub open spec fn entry_line(entry: (IpAddress, u64)) -> Seq<char> {
    "  "@ + address_text(entry.0) + ": "@ + numeral(entry.1 as nat, 10) + "\n"@
}

/// The lines of `entries`, one after the other.
pub open spec fn entry_lines(entries: Seq<(IpAddress, u64)>) -> Seq<char>
    decreases entries.len(),
{
    if entries.len() == 0 {
        Seq::empty()
    } else {
        entry_lines(entries.drop_last()) + entry_line(entries.last())
    }
}

/// A report: the header line `IPs:`, then the line of each entry, in the
/// order of `entries`.
pub open spec fn report_text(entries: Seq<(IpAddress, u64)>) -> Seq<char> {
    "IPs:\n"@ + entry_lines(entries)
}

/// Writes the report that lists `entries` in the order given.
pub fn format_entries(entries: &Vec<(IpAddress, u64)>) -> (text: String)
    ensures
        text@ == report_text(entries@),
{
    let mut text = String::new();
    text.append("IPs:\n");
    let mut i: usize = 0;
    assert(entries@.subrange(0, 0) =~= Seq::empty());
    assert(text@ =~= report_text(entries@.subrange(0, 0)));
    while i < entries.len()
        invariant
            i <= entries.len(),
            text@ == report_text(entries@.subrange(0, i as int)),
        decreases entries.len() - i,
    {
        let ghost before = text@;
        let ghost listed = entries@.subrange(0, i as int);
        let ghost now = entries@.subrange(0, i + 1);
        assert(now.drop_last() =~= listed);
        assert(now.last() == entries@[i as int]);
        text.append("  ");
        write_address(&mut text, &entries[i].0);
        text.append(": ");
        write_numeral(&mut text, entries[i].1, 10);
        text.append("\n");
        assert(text@ =~= before + entry_line(entries@[i as int]));
        assert(text@ =~= report_text(now));
        i += 1;
    }
    assert(entries@.subrange(0, i as int) =~= entries@);
    text
}

/// The body of the reply to a liveness probe.
pub fn ping() -> (body: &'static str)
    ensures
        body@ == "pong"@,
{
    "pong"
}

} // verus!
