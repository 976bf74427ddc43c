//! The order of a report: busiest address first.

use vstd::prelude::*;
use crate::address::IpAddress;

verus! {

/// Whether entry `a` ranks strictly before entry `b`: by the larger count
/// and, among equal counts, by the address that stands first.
pub open spec fn ranks_before(a: (IpAddress, u64), b: (IpAddress, u64)) -> bool {
    a.1 > b.1 || (a.1 == b.1 && a.0.precedes(b.0))
}

/// Whether `a` ranks before `b` or is the same entry.
pub open spec fn ranks_no_later(a: (IpAddress, u64), b: (IpAddress, u64)) -> bool {
    a == b || ranks_before(a, b)
}

/// Each entry ranks before or equals every entry after it.
pub open spec fn ranked(s: Seq<(IpAddress, u64)>) -> bool {
    forall|i: int, j: int| 0 <= i < j < s.len() ==> ranks_no_later(#[trigger] s[i], #[trigger] s[j])
}

/// Each entry ranks strictly before every entry after it.
pub open spec fn strictly_ranked(s: Seq<(IpAddress, u64)>) -> bool {
    forall|i: int, j: int| 0 <= i < j < s.len() ==> ranks_before(#[trigger] s[i], #[trigger] s[j])
}

/// Whether `s` lists the pairs of `m`, each once and no other, in rank
/// order.
pub open spec fn is_ranking_of(s: Seq<(IpAddress, u64)>, m: Map<IpAddress, u64>) -> bool {
    &&& strictly_ranked(s)
    &&& forall|i: int| 0 <= i < s.len() ==> m.contains_pair((#[trigger] s[i]).0, s[i].1)
    &&& forall|ip: IpAddress| #[trigger] m.contains_key(ip) ==> s.contains((ip, m[ip]))
}

/// The pairs of `m` in rank order. A map has at most one ranking; this is
/// the one it has.
pub open spec fn ranking(m: Map<IpAddress, u64>) -> Seq<(IpAddress, u64)> {
    choose|s: Seq<(IpAddress, u64)>| is_ranking_of(s, m)
}

/// Whether `a` ranks before `b` or is the same entry.
pub fn no_later(a: &(IpAddress, u64), b: &(IpAddress, u64)) -> (r: bool)
    ensures
        r == ranks_no_later(*a, *b),
{
    if a.1 != b.1 {
        a.1 > b.1
    } else {
        a.0 == b.0 || a.0.comes_before(&b.0)
    }
}

/// Ranking is transitive, and of two entries one ranks no later than the
/// other.
pub proof fn lemma_rank_order(a: (IpAddress, u64), b: (IpAddress, u64), c: (IpAddress, u64))
    ensures
        ranks_no_later(a, b) && ranks_no_later(b, c) ==> ranks_no_later(a, c),
        ranks_no_later(a, b) || ranks_no_later(b, a),
        ranks_no_later(a, b) && ranks_no_later(b, a) ==> a == b,
        !ranks_before(a, a),
{
}

/// Two strictly ranked sequences that hold the same entries are the same
/// sequence.
pub proof fn lemma_strictly_ranked_unique(s1: Seq<(IpAddress, u64)>, s2: Seq<(IpAddress, u64)>)
    requires
        strictly_ranked(s1),
        strictly_ranked(s2),
        forall|e: (IpAddress, u64)| s1.contains(e) <==> s2.contains(e),
    ensures
        s1 == s2,
    decreases s1.len(),
{
    if s1.len() == 0 {
        if s2.len() > 0 {
            assert(s2.contains(s2[0]));
        }
        assert(s1 =~= s2);
    } else if s2.len() == 0 {
        assert(s1.contains(s1[0]));
    } else {
        let a = s1[0];
        let b = s2[0];
        assert(s1.contains(a));
        assert(s2.contains(b));
        let k = choose|k: int| 0 <= k < s2.len() && s2[k] == a;
        let l = choose|l: int| 0 <= l < s1.len() && s1[l] == b;
        if l > 0 {
            assert(ranks_before(s1[0], s1[l]));
            if k > 0 {
                assert(ranks_before(s2[0], s2[k]));
            }
        }
        assert(a == b);
        let t1 = s1.drop_first();
        let t2 = s2.drop_first();
        assert forall|e: (IpAddress, u64)| t1.contains(e) <==> t2.contains(e) by {
            if t1.contains(e) {
                let i = choose|i: int| 0 <= i < t1.len() && t1[i] == e;
                assert(ranks_before(s1[0], s1[i + 1]));
                assert(s1.contains(e));
                let j = choose|j: int| 0 <= j < s2.len() && s2[j] == e;
                assert(t2[j - 1] == e);
            }
            if t2.contains(e) {
                let i = choose|i: int| 0 <= i < t2.len() && t2[i] == e;
                assert(ranks_before(s2[0], s2[i + 1]));
                assert(s2.contains(e));
                let j = choose|j: int| 0 <= j < s1.len() && s1[j] == e;
                assert(t1[j - 1] == e);
            }
        }
        assert(strictly_ranked(t1)) by {
            assert forall|i: int, j: int| 0 <= i < j < t1.len() implies ranks_before(
                #[trigger] t1[i],
                #[trigger] t1[j],
            ) by {
                assert(ranks_before(s1[i + 1], s1[j + 1]));
            }
        }
        assert(strictly_ranked(t2)) by {
            assert forall|i: int, j: int| 0 <= i < j < t2.len() implies ranks_before(
                #[trigger] t2[i],
                #[trigger] t2[j],
            ) by {
                assert(ranks_before(s2[i + 1], s2[j + 1]));
            }
        }
        lemma_strictly_ranked_unique(t1, t2);
        assert(s1 =~= seq![a] + t1);
        assert(s2 =~= seq![b] + t2);
    }
}

/// A map has at most one ranking: two sequences that each list its pairs in
/// rank order are equal, entry for entry. So two readings of counts that
/// did not change in between give the same list.
pub proof fn lemma_ranking_unique(
    m: Map<IpAddress, u64>,
    s1: Seq<(IpAddress, u64)>,
    s2: Seq<(IpAddress, u64)>,
)
    requires
        is_ranking_of(s1, m),
        is_ranking_of(s2, m),
    ensures
        s1 == s2,
        s1 == ranking(m),
{
    lemma_listed_alike(m, s1, s2);
    lemma_strictly_ranked_unique(s1, s2);
    let r = ranking(m);
    lemma_listed_alike(m, s1, r);
    lemma_strictly_ranked_unique(s1, r);
}

/// Two rankings of one map hold the same entries.
proof fn lemma_listed_alike(m: Map<IpAddress, u64>, s1: Seq<(IpAddress, u64)>, s2: Seq<(IpAddress, u64)>)
    requires
        is_ranking_of(s1, m),
        is_ranking_of(s2, m),
    ensures
        forall|e: (IpAddress, u64)| s1.contains(e) <==> s2.contains(e),
{
    assert forall|e: (IpAddress, u64)| s1.contains(e) <==> s2.contains(e) by {
        if s1.contains(e) {
            let i = choose|i: int| 0 <= i < s1.len() && s1[i] == e;
            assert(m.contains_pair(s1[i].0, s1[i].1));
            assert(m.contains_key(e.0));
        }
        if s2.contains(e) {
            let i = choose|i: int| 0 <= i < s2.len() && s2[i] == e;
            assert(m.contains_pair(s2[i].0, s2[i].1));
            assert(m.contains_key(e.0));
        }
    }
}

/// Two sequences that hold the same entries equally often hold the same
/// entries, and if one of them holds none twice, neither does the other.
pub proof fn lemma_rearranged(s: Seq<(IpAddress, u64)>, t: Seq<(IpAddress, u64)>)
    requires
        s.to_multiset() == t.to_multiset(),
    ensures
        forall|e: (IpAddress, u64)| s.contains(e) <==> t.contains(e),
        s.no_duplicates() ==> t.no_duplicates(),
{
    s.to_multiset_ensures();
    t.to_multiset_ensures();
    assert forall|e: (IpAddress, u64)| s.contains(e) <==> t.contains(e) by {
        assert(s.contains(e) <==> s.to_multiset().count(e) > 0);
        assert(t.contains(e) <==> t.to_multiset().count(e) > 0);
    }
    if s.no_duplicates() {
        s.lemma_multiset_has_no_duplicates();
        t.lemma_multiset_has_no_duplicates_conv();
    }
}

/// Merges two ranked runs into one ranked run that holds the entries of
/// both.
fn merge(left: &Vec<(IpAddress, u64)>, right: &Vec<(IpAddress, u64)>) -> (out: Vec<(IpAddress, u64)>)
    requires
        ranked(left@),
        ranked(right@),
    ensures
        ranked(out@),
        out@.to_multiset() == left@.to_multiset().add(right@.to_multiset()),
{
    let mut out: Vec<(IpAddress, u64)> = Vec::new();
    let mut i: usize = 0;
    let mut j: usize = 0;
    proof {
        let none = Seq::<(IpAddress, u64)>::empty();
        assert(out@ =~= none);
        assert(left@.subrange(0, 0) =~= none);
        assert(right@.subrange(0, 0) =~= none);
        none.to_multiset_ensures();
        assert(none.to_multiset() =~= vstd::multiset::Multiset::empty());
        assert(out@.to_multiset() =~= left@.subrange(0, 0).to_multiset().add(
            right@.subrange(0, 0).to_multiset(),
        ));
    }
    while i < left.len() || j < right.len()
        invariant
            i <= left.len(),
            j <= right.len(),
            ranked(left@),
            ranked(right@),
            ranked(out@),
            out@.to_multiset() == left@.subrange(0, i as int).to_multiset().add(
                right@.subrange(0, j as int).to_multiset(),
            ),
            forall|k: int, m: int|
                0 <= k < out@.len() && i <= m < left@.len() ==> ranks_no_later(
                    #[trigger] out@[k],
                    #[trigger] left@[m],
                ),
            forall|k: int, m: int|
                0 <= k < out@.len() && j <= m < right@.len() ==> ranks_no_later(
                    #[trigger] out@[k],
                    #[trigger] right@[m],
                ),
        decreases left.len() - i + right.len() - j,
    {
        let from_left = if i == left.len() {
            false
        } else if j == right.len() {
            true
        } else {
            no_later(&left[i], &right[j])
        };
        let ghost before = out@;
        if from_left {
            let e = left[i];
            out.push(e);
            proof {
                assert(left@.subrange(0, i + 1) =~= left@.subrange(0, i as int).push(e));
                left@.subrange(0, i as int).to_multiset_ensures();
                before.to_multiset_ensures();
                assert(out@.to_multiset() =~= left@.subrange(0, i + 1).to_multiset().add(
                    right@.subrange(0, j as int).to_multiset(),
                ));
                assert forall|k: int, m: int|
                    0 <= k < out@.len() && j <= m < right@.len() implies ranks_no_later(
                    #[trigger] out@[k],
                    #[trigger] right@[m],
                ) by {
                    if k == before.len() {
                        lemma_rank_order(e, right@[j as int], right@[m]);
                    }
                }
            }
            i += 1;
        } else {
            let e = right[j];
            out.push(e);
            proof {
                assert(right@.subrange(0, j + 1) =~= right@.subrange(0, j as int).push(e));
                right@.subrange(0, j as int).to_multiset_ensures();
                before.to_multiset_ensures();
                assert(out@.to_multiset() =~= left@.subrange(0, i as int).to_multiset().add(
                    right@.subrange(0, j + 1).to_multiset(),
                ));
                assert forall|k: int, m: int|
                    0 <= k < out@.len() && i <= m < left@.len() implies ranks_no_later(
                    #[trigger] out@[k],
                    #[trigger] left@[m],
                ) by {
                    if k == before.len() {
                        lemma_rank_order(left@[i as int], e, e);
                        lemma_rank_order(e, left@[i as int], left@[m]);
                    }
                }
            }
            j += 1;
        }
    }
    proof {
        assert(left@.subrange(0, i as int) =~= left@);
        assert(right@.subrange(0, j as int) =~= right@);
    }
    out
}

/// Ranks the entries `entries[lo..hi]`.
fn sort_range(entries: &Vec<(IpAddress, u64)>, lo: usize, hi: usize) -> (out: Vec<(IpAddress, u64)>)
    requires
        lo <= hi <= entries.len(),
    ensures
        ranked(out@),
        out@.to_multiset() == entries@.subrange(lo as int, hi as int).to_multiset(),
    decreases hi - lo,
{
    if hi - lo < 2 {
        let mut out: Vec<(IpAddress, u64)> = Vec::new();
        if lo < hi {
            out.push(entries[lo]);
        }
        proof {
            assert(out@ =~= entries@.subrange(lo as int, hi as int));
        }
        out
    } else {
        let mid: usize = lo + (hi - lo) / 2;
        let left = sort_range(entries, lo, mid);
        let right = sort_range(entries, mid, hi);
        proof {
            let whole = entries@.subrange(lo as int, hi as int);
            let front = entries@.subrange(lo as int, mid as int);
            let back = entries@.subrange(mid as int, hi as int);
            assert(whole =~= front + back);
            vstd::seq_lib::lemma_multiset_commutative(front, back);
        }
        merge(&left, &right)
    }
}

/// Returns the entries in rank order: the larger count first and, among
/// equal counts, the address that stands first. Nothing is added or lost; an
/// entry that occurs several times occurs as often in the result.
pub fn sort_entries(entries: &Vec<(IpAddress, u64)>) -> (out: Vec<(IpAddress, u64)>)
    ensures
        ranked(out@),
        out@.to_multiset() == entries@.to_multiset(),
{
    proof {
        assert(entries@.subrange(0, entries@.len() as int) =~= entries@);
    }
    sort_range(entries, 0, entries.len())
}

} // verus!
