//! The request counts of a running service.

use vstd::prelude::*;
use std::collections::HashMap;
use vstd::std_specs::iter::IteratorSpec;
use crate::address::IpAddress;
use crate::report::{format_entries, report_text};
use crate::ranking::{is_ranking_of, ranking, sort_entries, strictly_ranked, lemma_ranking_unique, lemma_rearranged};

verus! {

broadcast use vstd::std_specs::hash::group_hash_axioms;

/// How often `ip` was counted in `m`: its entry, or 0 where it has none.
pub open spec fn count_in(m: Map<IpAddress, u64>, ip: IpAddress) -> nat {
    if m.contains_key(ip) {
        m[ip] as nat
    } else {
        0
    }
}

/// The counts after one more request from `ip`.
pub open spec fn record(m: Map<IpAddress, u64>, ip: IpAddress) -> Map<IpAddress, u64> {
    m.insert(ip, (count_in(m, ip) + 1) as u64)
}

/// The counts after the requests of `peers`, in their order, on top of the
/// counts `m`.
pub open spec fn record_all(m: Map<IpAddress, u64>, peers: Seq<IpAddress>) -> Map<IpAddress, u64>
    decreases peers.len(),
{
    if peers.len() == 0 {
        m
    } else {
        record(record_all(m, peers.drop_last()), peers.last())
    }
}

/// How often `ip` stands in `peers`.
pub open spec fn occurrences(peers: Seq<IpAddress>, ip: IpAddress) -> nat
    decreases peers.len(),
{
    if peers.len() == 0 {
        0
    } else {
        occurrences(peers.drop_last(), ip) + if peers.last() == ip {
            1nat
        } else {
            0nat
        }
    }
}

/// Whether every address that has an entry was counted at least once.
pub open spec fn counts_positive(m: Map<IpAddress, u64>) -> bool {
    forall|ip: IpAddress| #[trigger] m.contains_key(ip) ==> m[ip] >= 1
}

/// The entries of the IPv4 table, each once, in no particular order.
fn entries_v4(table: &HashMap<u32, u64>) -> (out: Vec<(IpAddress, u64)>)
    ensures
        out@.no_duplicates(),
        forall|i: int|
            0 <= i < out@.len() ==> (#[trigger] out@[i]).0 is V4 && table@.contains_pair(
                out@[i].0->V4_0,
                out@[i].1,
            ),
        forall|bits: u32| #[trigger]
            table@.contains_key(bits) ==> out@.contains((IpAddress::V4(bits), table@[bits])),
{
    let mut out: Vec<(IpAddress, u64)> = Vec::new();
    let ghost all = table.iter().remaining();
    for pair in it: table.iter()
        invariant
            it.seq() == all,
            out@.len() == it.index(),
            forall|i: int|
                0 <= i < out@.len() ==> #[trigger] out@[i] == (
                    IpAddress::V4(*all[i].0),
                    *all[i].1,
                ),
    {
        let (bits, count) = pair;
        out.push((IpAddress::V4(*bits), *count));
    }
    proof {
        assert forall|bits: u32| #[trigger] table@.contains_key(bits) implies out@.contains(
            (IpAddress::V4(bits), table@[bits]),
        ) by {
            assert(all.contains((&bits, &table@[bits])));
            let i = choose|i: int| 0 <= i < all.len() && all[i] == (&bits, &table@[bits]);
            assert(out@[i] == (IpAddress::V4(bits), table@[bits]));
        }
    }
    out
}

/// The entries of the IPv6 table, each once, in no particular order.
fn entries_v6(table: &HashMap<u128, u64>) -> (out: Vec<(IpAddress, u64)>)
    ensures
        out@.no_duplicates(),
        forall|i: int|
            0 <= i < out@.len() ==> (#[trigger] out@[i]).0 is V6 && table@.contains_pair(
                out@[i].0->V6_0,
                out@[i].1,
            ),
        forall|bits: u128| #[trigger]
            table@.contains_key(bits) ==> out@.contains((IpAddress::V6(bits), table@[bits])),
{
    let mut out: Vec<(IpAddress, u64)> = Vec::new();
    let ghost all = table.iter().remaining();
    for pair in it: table.iter()
        invariant
            it.seq() == all,
            out@.len() == it.index(),
            forall|i: int|
                0 <= i < out@.len() ==> #[trigger] out@[i] == (
                    IpAddress::V6(*all[i].0),
                    *all[i].1,
                ),
    {
        let (bits, count) = pair;
        out.push((IpAddress::V6(*bits), *count));
    }
    proof {
        assert forall|bits: u128| #[trigger] table@.contains_key(bits) implies out@.contains(
            (IpAddress::V6(bits), table@[bits]),
        ) by {
            assert(all.contains((&bits, &table@[bits])));
            let i = choose|i: int| 0 <= i < all.len() && all[i] == (&bits, &table@[bits]);
            assert(out@[i] == (IpAddress::V6(bits), table@[bits]));
        }
    }
    out
}

/// The number of requests seen from each client address.
///
/// The view is the map from each address seen so far to its count. An
/// address enters it with its first request, at the count 1, and never
/// leaves; every count in it is 1 or more. The addresses of the two families
/// are kept in two tables, each keyed by the address bits.
pub struct AppState {
    v4: HashMap<u32, u64>,
    v6: HashMap<u128, u64>,
}

impl View for AppState {
    type V = Map<IpAddress, u64>;

    closed spec fn view(&self) -> Map<IpAddress, u64> {
        Map::new(
            |ip: IpAddress|
                match ip {
                    IpAddress::V4(bits) => self.v4@.contains_key(bits),
                    IpAddress::V6(bits) => self.v6@.contains_key(bits),
                },
            |ip: IpAddress|
                match ip {
                    IpAddress::V4(bits) => self.v4@[bits],
                    IpAddress::V6(bits) => self.v6@[bits],
                },
        )
    }
}

impl Default for AppState {
    /// A state in which no request was counted.
    fn default() -> (state: AppState)
        ensures
            state@ == Map::<IpAddress, u64>::empty(),
    {
        AppState::new()
    }
}

impl AppState {
    #[verifier::type_invariant]
    spec fn counted_once_or_more(self) -> bool {
        &&& forall|bits: u32| #[trigger] self.v4@.contains_key(bits) ==> self.v4@[bits] >= 1
        &&& forall|bits: u128| #[trigger] self.v6@.contains_key(bits) ==> self.v6@[bits] >= 1
    }

    /// A state in which no request was counted.
    pub fn new() -> (state: AppState)
        ensures
            state@ == Map::<IpAddress, u64>::empty(),
    {
        let state = AppState { v4: HashMap::new(), v6: HashMap::new() };
        assert(state@ =~= Map::<IpAddress, u64>::empty());
        state
    }

    /// Counts one request from `ip`.
    pub fn increment_ip_count(&mut self, ip: IpAddress)
        requires
            count_in(old(self)@, ip) < u64::MAX,
        ensures
            final(self)@ == record(old(self)@, ip),
            count_in(final(self)@, ip) == count_in(old(self)@, ip) + 1,
            counts_positive(final(self)@),
    {
        proof {
            use_type_invariant(&*self);
        }
        // The table is taken out while it changes, so that `self` is whole
        // at every step.
        match ip {
            IpAddress::V4(bits) => {
                let mut table: HashMap<u32, u64> = HashMap::new();
                std::mem::swap(&mut table, &mut self.v4);
                let count = table.entry(bits).or_insert(0);
                *count += 1;
                self.v4 = table;
            },
            IpAddress::V6(bits) => {
                let mut table: HashMap<u128, u64> = HashMap::new();
                std::mem::swap(&mut table, &mut self.v6);
                let count = table.entry(bits).or_insert(0);
                *count += 1;
                self.v6 = table;
            },
        }
        assert(self@ =~= record(old(self)@, ip));
    }

    /// The report on the counts so far: the header line, then one line for
    /// each address seen, the busiest first.
    pub fn format_ip_stats(&self) -> (text: String)
        ensures
            text@ == report_text(ranking(self@)),
    {
        let counts = self.get_sorted_ip_counts();
        format_entries(&counts)
    }

    /// How often `ip` was counted, or `None` if it never was.
    pub fn get(&self, ip: &IpAddress) -> (count: Option<u64>)
        ensures
            count == (if self@.contains_key(*ip) {
                Some(self@[*ip])
            } else {
                None
            }),
            counts_positive(self@),
    {
        proof {
            use_type_invariant(self);
        }
        match *ip {
            IpAddress::V4(bits) => match self.v4.get(&bits) {
                Some(n) => Some(*n),
                None => None,
            },
            IpAddress::V6(bits) => match self.v6.get(&bits) {
                Some(n) => Some(*n),
                None => None,
            },
        }
    }

    /// Lists every address seen so far with its count, the busiest first.
    /// Addresses with the same count stand in the order of addresses, so the
    /// list is determined by the counts alone.
    pub fn get_sorted_ip_counts(&self) -> (sorted: Vec<(IpAddress, u64)>)
        ensures
            is_ranking_of(sorted@, self@),
            sorted@ == ranking(self@),
            forall|i: int, j: int| 0 <= i < j < sorted@.len() ==> sorted@[i].1 >= sorted@[j].1,
            forall|i: int| 0 <= i < sorted@.len() ==> sorted@[i].1 >= 1,
            counts_positive(self@),
    {
        proof {
            use_type_invariant(self);
        }
        let mut entries = entries_v4(&self.v4);
        let mut more = entries_v6(&self.v6);
        let ghost first = entries@;
        let ghost second = more@;
        entries.append(&mut more);
        let sorted = sort_entries(&entries);
        proof {
            let all = entries@;
            assert(all =~= first + second);
            assert(all.no_duplicates()) by {
                assert forall|i: int, j: int| 0 <= i < j < all.len() implies all[i] != all[j] by {
                    if i < first.len() {
                        assert(all[i] == first[i]);
                    } else {
                        assert(all[i] == second[i - first.len()]);
                    }
                    if j < first.len() {
                        assert(all[j] == first[j]);
                    } else {
                        assert(all[j] == second[j - first.len()]);
                    }
                }
            }
            lemma_rearranged(all, sorted@);
            assert(strictly_ranked(sorted@));
            assert forall|i: int| 0 <= i < sorted@.len() implies self@.contains_pair(
                (#[trigger] sorted@[i]).0,
                sorted@[i].1,
            ) by {
                let e = sorted@[i];
                assert(sorted@.contains(e));
                assert(all.contains(e));
                let k = choose|k: int| 0 <= k < all.len() && all[k] == e;
                if k < first.len() {
                    assert(all[k] == first[k]);
                } else {
                    assert(all[k] == second[k - first.len()]);
                }
            }
            assert forall|ip: IpAddress| #[trigger] self@.contains_key(ip) implies sorted@.contains(
                (ip, self@[ip]),
            ) by {
                let e = (ip, self@[ip]);
                match ip {
                    IpAddress::V4(bits) => {
                        assert(self.v4@.contains_key(bits));
                        assert(first.contains(e));
                        let k = choose|k: int| 0 <= k < first.len() && first[k] == e;
                        assert(all[k] == e);
                    },
                    IpAddress::V6(bits) => {
                        assert(self.v6@.contains_key(bits));
                        assert(second.contains(e));
                        let k = choose|k: int| 0 <= k < second.len() && second[k] == e;
                        assert(all[first.len() + k] == e);
                    },
                }
                assert(all.contains(e));
                assert(sorted@.contains(e));
            }
            lemma_ranking_unique(self@, sorted@, sorted@);
        }
        sorted
    }
}

/// No request is lost and none is counted twice: after any sequence of
/// requests the count of an address has grown by the number of requests that
/// came from it, in whatever order they came, as long as that count fits
/// the counter.
pub proof fn lemma_count_is_number_of_requests(
    m: Map<IpAddress, u64>,
    peers: Seq<IpAddress>,
    ip: IpAddress,
)
    requires
        count_in(m, ip) + occurrences(peers, ip) <= u64::MAX,
    ensures
        count_in(record_all(m, peers), ip) == count_in(m, ip) + occurrences(peers, ip),
    decreases peers.len(),
{
    if peers.len() > 0 {
        lemma_count_is_number_of_requests(m, peers.drop_last(), ip);
    }
}

/// Counting keeps every count at one or more.
pub proof fn lemma_record_keeps_counts_positive(m: Map<IpAddress, u64>, ip: IpAddress)
    requires
        counts_positive(m),
        count_in(m, ip) < u64::MAX,
    ensures
        counts_positive(record(m, ip)),
{
}

/// Counting never lowers a count: the count of the address that is counted
/// grows by one, and every other count stays.
pub proof fn lemma_record_changes_one_count(m: Map<IpAddress, u64>, ip: IpAddress, other: IpAddress)
    requires
        count_in(m, ip) < u64::MAX,
    ensures
        count_in(record(m, ip), ip) == count_in(m, ip) + 1,
        other != ip ==> count_in(record(m, ip), other) == count_in(m, other),
        record(m, ip).dom() == m.dom().insert(ip),
{
}

} // verus!
