//! Ranking scored entries and keeping the best of them.
//!
//! An entry is a pair of an identifier's value and a score. Entries are ranked
//! by descending score; entries whose scores tie are ranked by ascending
//! identifier, and, should one identifier occur with two encodings of the same
//! score, by ascending bits. That makes the order total, so a collection of
//! entries has exactly one ranking, whatever order it was gathered in.

use crate::score::{key_of_score, score_key};
use vstd::multiset::Multiset;
use vstd::prelude::*;
use vstd::relations::{sorted_by, total_ordering};
use vstd::seq_lib::{lemma_multiset_commutative, lemma_sorted_unique};

verus! {

/// Whether entry `a` stands at or before entry `b` in a ranking.
pub open spec fn ranks_before(a: (u128, u32), b: (u128, u32)) -> bool {
    let ka = score_key(a.1);
    let kb = score_key(b.1);
    ka > kb || (ka == kb && (a.0 < b.0 || (a.0 == b.0 && a.1 <= b.1)))
}

/// `ranks_before` as a relation.
pub open spec fn rank_order() -> spec_fn((u128, u32), (u128, u32)) -> bool {
    |a: (u128, u32), b: (u128, u32)| ranks_before(a, b)
}

/// Whether each entry of `s` ranks before all that follow it.
pub open spec fn is_ranked(s: Seq<(u128, u32)>) -> bool {
    forall|i: int, j: int| 0 <= i < j < s.len() ==> ranks_before(#[trigger] s[i], #[trigger] s[j])
}

/// The entries of `s` in ranked order.
pub open spec fn ranking(s: Seq<(u128, u32)>) -> Seq<(u128, u32)> {
    s.sort_by(rank_order())
}

/// The first `k` entries of the ranking of `s`, or all of them if there are
/// fewer.
pub open spec fn top_k(s: Seq<(u128, u32)>, k: nat) -> Seq<(u128, u32)> {
    ranking(s).take(if k <= s.len() { k as int } else { s.len() as int })
}

/// `ranks_before` is reflexive, antisymmetric, transitive and compares any two
/// entries.
pub proof fn lemma_rank_order_total()
    ensures
        total_ordering(rank_order()),
{
    let r = rank_order();
    assert forall|a: (u128, u32), b: (u128, u32)| #[trigger] r(a, b) && #[trigger] r(b, a) implies a
        == b by {
        assert(a.0 == b.0 && a.1 == b.1);
    }
}

/// The ranking of `s` holds the entries of `s`, each as often as `s` does, in
/// ranked order.
pub proof fn lemma_ranking_is_ranked(s: Seq<(u128, u32)>)
    ensures
        ranking(s).to_multiset() == s.to_multiset(),
        ranking(s).len() == s.len(),
        is_ranked(ranking(s)),
{
    broadcast use vstd::seq_lib::group_to_multiset_ensures;

    lemma_rank_order_total();
    s.lemma_sort_by_ensures(rank_order());
    let r = ranking(s);
    assert(sorted_by(r, rank_order()));
    assert forall|i: int, j: int| 0 <= i < j < r.len() implies ranks_before(
        #[trigger] r[i],
        #[trigger] r[j],
    ) by {
        assert(rank_order()(r[i], r[j]));
    }
    assert(r.to_multiset().len() == s.to_multiset().len());
}

/// A ranked rearrangement of `s` is the ranking of `s`: there is no other.
pub proof fn lemma_ranking_unique(r: Seq<(u128, u32)>, s: Seq<(u128, u32)>)
    requires
        r.to_multiset() == s.to_multiset(),
        is_ranked(r),
    ensures
        r == ranking(s),
{
    lemma_rank_order_total();
    lemma_ranking_is_ranked(s);
    let t = ranking(s);
    s.lemma_sort_by_ensures(rank_order());
    assert(sorted_by(r, rank_order()));
    lemma_sorted_unique(r, t, rank_order());
}

/// Whether no identifier occurs in two entries of `s`.
pub open spec fn has_distinct_ids(s: Seq<(u128, u32)>) -> bool {
    forall|i: int, j: int| 0 <= i < j < s.len() ==> (#[trigger] s[i]).0 != (#[trigger] s[j]).0
}

/// Ranking entries with distinct identifiers leaves the identifiers distinct.
pub proof fn lemma_ranking_keeps_distinct_ids(s: Seq<(u128, u32)>)
    requires
        has_distinct_ids(s),
    ensures
        has_distinct_ids(ranking(s)),
{
    broadcast use vstd::seq_lib::group_to_multiset_ensures;

    lemma_ranking_is_ranked(s);
    let r = ranking(s);
    assert(s.no_duplicates());
    s.lemma_multiset_has_no_duplicates();
    r.lemma_multiset_has_no_duplicates_conv();
    assert forall|i: int, j: int| 0 <= i < j < r.len() implies (#[trigger] r[i]).0 != (
    #[trigger] r[j]).0 by {
        assert(r.contains(r[i]) && r.contains(r[j]));
        assert(s.to_multiset().count(r[i]) > 0 && s.to_multiset().count(r[j]) > 0);
        let a = choose|a: int| 0 <= a < s.len() && s[a] == r[i];
        let b = choose|b: int| 0 <= b < s.len() && s[b] == r[j];
        if a == b {
            assert(r[i] == r[j]);
        }
    }
}

/// What the first `k` of a ranking are: as many as asked for, or all there
/// are; in ranked order; taken from `s`; and ranked before every entry of `s`
/// that was left out.
pub proof fn lemma_top_k_properties(s: Seq<(u128, u32)>, k: nat)
    ensures
        top_k(s, k).len() == if k <= s.len() { k } else { s.len() },
        is_ranked(top_k(s, k)),
        forall|i: int| 0 <= i < top_k(s, k).len() ==> s.contains(#[trigger] top_k(s, k)[i]),
        forall|i: int, x: (u128, u32)|
            0 <= i < top_k(s, k).len() && s.contains(x) && !top_k(s, k).contains(x)
                ==> #[trigger] ranks_before(top_k(s, k)[i], x),
        has_distinct_ids(s) ==> has_distinct_ids(top_k(s, k)),
{
    broadcast use vstd::seq_lib::group_to_multiset_ensures;

    lemma_ranking_is_ranked(s);
    let r = ranking(s);
    let top = top_k(s, k);
    assert forall|i: int| 0 <= i < top.len() implies s.contains(#[trigger] top[i]) by {
        assert(r.contains(r[i]));
        assert(s.to_multiset().count(r[i]) > 0);
    }
    assert forall|i: int, x: (u128, u32)|
        0 <= i < top.len() && s.contains(x) && !top.contains(x) implies #[trigger] ranks_before(
        top[i],
        x,
    ) by {
        assert(r.to_multiset().count(x) > 0);
        let p = choose|p: int| 0 <= p < r.len() && r[p] == x;
        if p < top.len() {
            assert(top[p] == x);
        }
    }
    if has_distinct_ids(s) {
        lemma_ranking_keeps_distinct_ids(s);
    }
}

/// Asking for no entries gives none.
pub proof fn lemma_top_zero(s: Seq<(u128, u32)>)
    ensures
        top_k(s, 0) == Seq::<(u128, u32)>::empty(),
{
    assert(top_k(s, 0) =~= Seq::<(u128, u32)>::empty());
}

/// Where there are no entries, none are found, however many are asked for.
pub proof fn lemma_top_k_of_nothing(k: nat)
    ensures
        top_k(Seq::<(u128, u32)>::empty(), k) == Seq::<(u128, u32)>::empty(),
{
    assert(top_k(Seq::<(u128, u32)>::empty(), k) =~= Seq::<(u128, u32)>::empty());
}

/// Decides whether `a` stands at or before `b` in a ranking.
pub fn comes_first(a: &(u128, u32), b: &(u128, u32)) -> (first: bool)
    ensures
        first == ranks_before(*a, *b),
{
    let ka: i64 = key_of_score(a.1);
    let kb: i64 = key_of_score(b.1);
    if ka != kb {
        ka > kb
    } else if a.0 != b.0 {
        a.0 < b.0
    } else {
        a.1 <= b.1
    }
}

/// Appending the next entry of `from` to `out` keeps `out` a rearrangement of
/// what has been taken from `from`, together with `rest`.
proof fn lemma_take_next(
    out: Seq<(u128, u32)>,
    from: Seq<(u128, u32)>,
    i: int,
    rest: Multiset<(u128, u32)>,
)
    requires
        0 <= i < from.len(),
        out.to_multiset() == from.take(i).to_multiset().add(rest),
    ensures
        out.push(from[i]).to_multiset() == from.take(i + 1).to_multiset().add(rest),
        out.push(from[i]).to_multiset() == rest.add(from.take(i + 1).to_multiset()),
{
    broadcast use vstd::seq_lib::group_to_multiset_ensures;
    broadcast use vstd::multiset::group_multiset_axioms;

    let taken = from.take(i);
    assert(from.take(i + 1) =~= taken.push(from[i]));
    assert(taken.to_multiset().insert(from[i]).add(rest) =~= taken.to_multiset().add(rest).insert(
        from[i],
    ));
    assert(taken.push(from[i]).to_multiset().add(rest) =~= rest.add(
        taken.push(from[i]).to_multiset(),
    ));
}

/// Merges two ranked vectors into one.
fn merge(left: &Vec<(u128, u32)>, right: &Vec<(u128, u32)>) -> (out: Vec<(u128, u32)>)
    requires
        is_ranked(left@),
        is_ranked(right@),
        left.len() + right.len() <= usize::MAX,
    ensures
        is_ranked(out@),
        out@.to_multiset() == left@.to_multiset().add(right@.to_multiset()),
        out.len() == left.len() + right.len(),
{
    let mut out: Vec<(u128, u32)> = Vec::with_capacity(left.len() + right.len());
    let mut i: usize = 0;
    let mut j: usize = 0;
    proof {
        broadcast use vstd::seq_lib::group_to_multiset_ensures;
        broadcast use vstd::multiset::group_multiset_axioms;

        assert(left@.take(0) =~= Seq::empty());
        assert(right@.take(0) =~= Seq::empty());
        assert(out@.to_multiset() =~= left@.take(0).to_multiset().add(
            right@.take(0).to_multiset(),
        ));
    }
    while i < left.len() || j < right.len()
        invariant
            i <= left.len(),
            j <= right.len(),
            out.len() == i + j,
            is_ranked(left@),
            is_ranked(right@),
            is_ranked(out@),
            out@.to_multiset() == left@.take(i as int).to_multiset().add(
                right@.take(j as int).to_multiset(),
            ),
            forall|k: int, p: int|
                0 <= k < out.len() && i <= p < left.len() ==> ranks_before(
                    #[trigger] out[k],
                    #[trigger] left[p],
                ),
            forall|k: int, p: int|
                0 <= k < out.len() && j <= p < right.len() ==> ranks_before(
                    #[trigger] out[k],
                    #[trigger] right[p],
                ),
        decreases left.len() - i + right.len() - j,
    {
        let from_left = if i == left.len() {
            false
        } else if j == right.len() {
            true
        } else {
            comes_first(&left[i], &right[j])
        };
        if from_left {
            proof {
                lemma_take_next(out@, left@, i as int, right@.take(j as int).to_multiset());
            }
            out.push(left[i]);
            i += 1;
        } else {
            proof {
                let rest = left@.take(i as int).to_multiset();
                assert(rest.add(right@.take(j as int).to_multiset()) =~= right@.take(
                    j as int,
                ).to_multiset().add(rest)) by {
                    broadcast use vstd::multiset::group_multiset_axioms;

                }
                lemma_take_next(out@, right@, j as int, rest);
            }
            out.push(right[j]);
            j += 1;
        }
    }
    assert(left@.take(i as int) =~= left@);
    assert(right@.take(j as int) =~= right@);
    out
}

/// Ranks the entries of `entries` between positions `lo` and `hi` by merge sort.
fn rank_range(entries: &Vec<(u128, u32)>, lo: usize, hi: usize) -> (out: Vec<(u128, u32)>)
    requires
        lo <= hi <= entries.len(),
    ensures
        is_ranked(out@),
        out@.to_multiset() == entries@.subrange(lo as int, hi as int).to_multiset(),
        out.len() == hi - lo,
    decreases hi - lo,
{
    broadcast use vstd::seq_lib::group_to_multiset_ensures;

    if hi - lo <= 1 {
        let mut out: Vec<(u128, u32)> = Vec::new();
        if hi - lo == 1 {
            out.push(entries[lo]);
        }
        assert(out@ =~= entries@.subrange(lo as int, hi as int));
        out
    } else {
        let mid: usize = lo + (hi - lo) / 2;
        let left = rank_range(entries, lo, mid);
        let right = rank_range(entries, mid, hi);
        proof {
            let a = entries@.subrange(lo as int, mid as int);
            let b = entries@.subrange(mid as int, hi as int);
            assert(entries@.subrange(lo as int, hi as int) =~= a + b);
            lemma_multiset_commutative(a, b);
        }
        merge(&left, &right)
    }
}

/// Ranks all the entries: by descending score, ties by ascending identifier.
pub fn rank(entries: &Vec<(u128, u32)>) -> (out: Vec<(u128, u32)>)
    ensures
        out@ == ranking(entries@),
{
    let out = rank_range(entries, 0, entries.len());
    proof {
        assert(entries@.subrange(0, entries.len() as int) =~= entries@);
        lemma_ranking_unique(out@, entries@);
    }
    out
}

/// Ranks the entries and keeps the first `k` of them, or all of them if there
/// are fewer than `k`.
pub fn rank_top_k(entries: &Vec<(u128, u32)>, k: usize) -> (out: Vec<(u128, u32)>)
    ensures
        out@ == top_k(entries@, k as nat),
{
    let mut out = rank(entries);
    proof {
        lemma_ranking_is_ranked(entries@);
    }
    out.truncate(k);
    assert(out@ =~= top_k(entries@, k as nat));
    out
}

} // verus!
