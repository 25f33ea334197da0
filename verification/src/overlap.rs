//! Counting the other intervals that overlap each interval.
use vstd::prelude::*;
use crate::endpoint::{Endpoint, ordinals, ordinals_of};
use crate::error::IntervalError;
use crate::rows::{valid_rows, is_first_reversed, overlaps};
use crate::sort::{
    Triple, sort_triples, count_below, count_at_most, seq_sum, below, at_most,
    lemma_seq_sum_multiset, lemma_seq_sum_prefix,
};

verus! {

/// Number of rows `j < m`, other than `i`, that overlap row `i`.
pub open spec fn overlap_count_upto(s: Seq<i128>, e: Seq<i128>, i: int, m: int) -> int
    decreases m,
{
    if m <= 0 {
        0
    } else {
        overlap_count_upto(s, e, i, m - 1) + if m - 1 != i && overlaps(s, e, i, m - 1) {
            1int
        } else {
            0int
        }
    }
}

/// Number of other rows that overlap row `i`.
pub open spec fn overlap_count(s: Seq<i128>, e: Seq<i128>, i: int) -> int {
    overlap_count_upto(s, e, i, s.len() as int)
}

/// Number of non-empty rows `j < m` that start before `x`.
pub open spec fn started_upto(s: Seq<i128>, e: Seq<i128>, x: i128, m: int) -> int
    decreases m,
{
    if m <= 0 {
        0
    } else {
        started_upto(s, e, x, m - 1) + if s[m - 1] < e[m - 1] && s[m - 1] < x {
            1int
        } else {
            0int
        }
    }
}

/// Number of non-empty rows `j < m` that end at or before `x`.
pub open spec fn ended_upto(s: Seq<i128>, e: Seq<i128>, x: i128, m: int) -> int
    decreases m,
{
    if m <= 0 {
        0
    } else {
        ended_upto(s, e, x, m - 1) + if s[m - 1] < e[m - 1] && e[m - 1] <= x {
            1int
        } else {
            0int
        }
    }
}

/// The starts of the non-empty rows among the first `m`, in row order.
pub open spec fn nonempty_starts(s: Seq<i128>, e: Seq<i128>, m: int) -> Seq<Triple>
    decreases m,
{
    if m <= 0 {
        Seq::empty()
    } else if s[m - 1] < e[m - 1] {
        nonempty_starts(s, e, m - 1).push((s[m - 1], 0i128, 0usize))
    } else {
        nonempty_starts(s, e, m - 1)
    }
}

/// The ends of the non-empty rows among the first `m`, in row order.
pub open spec fn nonempty_ends(s: Seq<i128>, e: Seq<i128>, m: int) -> Seq<Triple>
    decreases m,
{
    if m <= 0 {
        Seq::empty()
    } else if s[m - 1] < e[m - 1] {
        nonempty_ends(s, e, m - 1).push((e[m - 1], 0i128, 0usize))
    } else {
        nonempty_ends(s, e, m - 1)
    }
}

proof fn lemma_started(s: Seq<i128>, e: Seq<i128>, x: i128, m: int)
    requires
        0 <= m <= s.len(),
        s.len() == e.len(),
    ensures
        seq_sum(nonempty_starts(s, e, m), below(x)) == started_upto(s, e, x, m),
    decreases m,
{
    if m > 0 {
        lemma_started(s, e, x, m - 1);
        let prev = nonempty_starts(s, e, m - 1);
        if s[m - 1] < e[m - 1] {
            assert(prev.push((s[m - 1], 0i128, 0usize)).drop_last() =~= prev);
        }
    }
}

proof fn lemma_ended(s: Seq<i128>, e: Seq<i128>, x: i128, m: int)
    requires
        0 <= m <= s.len(),
        s.len() == e.len(),
    ensures
        seq_sum(nonempty_ends(s, e, m), at_most(x)) == ended_upto(s, e, x, m),
    decreases m,
{
    if m > 0 {
        lemma_ended(s, e, x, m - 1);
        let prev = nonempty_ends(s, e, m - 1);
        if s[m - 1] < e[m - 1] {
            assert(prev.push((e[m - 1], 0i128, 0usize)).drop_last() =~= prev);
        }
    }
}

/// For a non-empty row, the overlapping rows are those started before its end,
/// less those ended by its start, less the row itself.
proof fn lemma_count_decomposes(s: Seq<i128>, e: Seq<i128>, i: int, m: int)
    requires
        s.len() == e.len(),
        0 <= i < s.len(),
        0 <= m <= s.len(),
        s[i] < e[i],
    ensures
        overlap_count_upto(s, e, i, m) == started_upto(s, e, e[i], m) - ended_upto(s, e, s[i], m)
            - if i < m { 1int } else { 0int },
        overlap_count_upto(s, e, i, m) >= 0,
    decreases m,
{
    if m > 0 {
        lemma_count_decomposes(s, e, i, m - 1);
    }
}

proof fn lemma_empty_row_count(s: Seq<i128>, e: Seq<i128>, i: int, m: int)
    requires
        0 <= i < s.len(),
        s.len() == e.len(),
        s[i] == e[i],
    ensures
        overlap_count_upto(s, e, i, m) == 0,
    decreases m,
{
    if m > 0 {
        lemma_empty_row_count(s, e, i, m - 1);
    }
}

/// The other rows among the first `m` that overlap row `i`.
pub open spec fn overlapping_others(s: Seq<i128>, e: Seq<i128>, i: int, m: int) -> Set<int> {
    Set::new(|j: int| 0 <= j < m && j != i && overlaps(s, e, i, j))
}

proof fn lemma_overlapping_others(s: Seq<i128>, e: Seq<i128>, i: int, m: int)
    requires
        0 <= m,
    ensures
        overlapping_others(s, e, i, m).finite(),
        overlapping_others(s, e, i, m).len() == overlap_count_upto(s, e, i, m),
    decreases m,
{
    if m == 0 {
        assert(overlapping_others(s, e, i, 0) =~= Set::empty());
    } else {
        lemma_overlapping_others(s, e, i, m - 1);
        if m - 1 != i && overlaps(s, e, i, m - 1) {
            assert(overlapping_others(s, e, i, m) =~= overlapping_others(s, e, i, m - 1).insert(m - 1));
        } else {
            assert(overlapping_others(s, e, i, m) =~= overlapping_others(s, e, i, m - 1));
        }
    }
}

/// The count of a row is the number of other rows that overlap it, in either
/// direction alike; an empty row overlaps nothing and counts zero.
pub proof fn lemma_overlap_count_law(s: Seq<i128>, e: Seq<i128>, i: int)
    requires
        s.len() == e.len(),
        0 <= i < s.len(),
    ensures
        overlapping_others(s, e, i, s.len() as int).finite(),
        overlap_count(s, e, i) == overlapping_others(s, e, i, s.len() as int).len(),
        forall|j: int| #[trigger] overlaps(s, e, i, j) == overlaps(s, e, j, i),
        s[i] == e[i] ==> overlap_count(s, e, i) == 0,
{
    lemma_overlapping_others(s, e, i, s.len() as int);
    if s[i] == e[i] {
        lemma_empty_row_count(s, e, i, s.len() as int);
    }
}

proof fn lemma_count_upto_order_only(s: Seq<i128>, e: Seq<i128>, s2: Seq<i128>, e2: Seq<i128>, i: int, m: int)
    requires
        s.len() == e.len() == s2.len() == e2.len(),
        0 <= i < s.len(),
        m <= s.len(),
        forall|a: int, b: int| 0 <= a < s.len() && 0 <= b < s.len() ==> (#[trigger] s[a] < #[trigger] e[b]) == (
        s2[a] < e2[b]),
    ensures
        overlap_count_upto(s, e, i, m) == overlap_count_upto(s2, e2, i, m),
    decreases m,
{
    if m > 0 {
        lemma_count_upto_order_only(s, e, s2, e2, i, m - 1);
        let j = m - 1;
        assert((s[i] < e[i]) == (s2[i] < e2[i]));
        assert((s[j] < e[j]) == (s2[j] < e2[j]));
        assert((s[i] < e[j]) == (s2[i] < e2[j]));
        assert((s[j] < e[i]) == (s2[j] < e2[i]));
    }
}

/// Counts depend on the endpoints only through how starts compare with ends:
/// two collections in which every start lies before the same ends have the
/// same counts.
pub proof fn lemma_overlap_count_order_only(s: Seq<i128>, e: Seq<i128>, s2: Seq<i128>, e2: Seq<i128>, i: int)
    requires
        s.len() == e.len() == s2.len() == e2.len(),
        0 <= i < s.len(),
        forall|a: int, b: int| 0 <= a < s.len() && 0 <= b < s.len() ==> (#[trigger] s[a] < #[trigger] e[b]) == (
        s2[a] < e2[b]),
    ensures
        overlap_count(s, e, i) == overlap_count(s2, e2, i),
{
    lemma_count_upto_order_only(s, e, s2, e2, i, s.len() as int);
}

/// Counts the other intervals overlapping each interval, in input order.
///
/// Intervals are half-open: `[start, end)`. Two non-empty intervals overlap
/// exactly when each starts before the other ends; touching endpoints do not
/// overlap, empty intervals overlap nothing, each row excludes itself, and
/// duplicate non-empty rows count each other. Sorts the non-empty starts and
/// ends independently and counts with binary searches: `O(n log n)` time.
pub fn overlap_counts<T: Endpoint>(starts: &[T], ends: &[T]) -> (r: Result<Vec<usize>, IntervalError>)
    ensures
        starts.len() != ends.len() ==> r == Err::<Vec<usize>, IntervalError>(
            IntervalError::LengthMismatch { starts_len: starts.len(), ends_len: ends.len() },
        ),
        starts.len() == ends.len() && !valid_rows(ordinals(starts@), ordinals(ends@)) ==> (
        r matches Err(IntervalError::InvalidInterval { index }) && is_first_reversed(
            ordinals(starts@),
            ordinals(ends@),
            index as int,
        )),
        starts.len() == ends.len() && valid_rows(ordinals(starts@), ordinals(ends@)) ==> (
        r matches Ok(counts) && counts.len() == starts.len() && forall|i: int|
            0 <= i < counts.len() ==> #[trigger] counts[i] == overlap_count(
                ordinals(starts@),
                ordinals(ends@),
                i,
            )),
{
    if starts.len() != ends.len() {
        return Err(IntervalError::LengthMismatch { starts_len: starts.len(), ends_len: ends.len() });
    }
    let s = ordinals_of(starts);
    let e = ordinals_of(ends);
    let n = s.len();
    let mut raw_starts: Vec<Triple> = Vec::new();
    let mut raw_ends: Vec<Triple> = Vec::new();
    let mut i: usize = 0;
    while i < n
        invariant
            n == s.len() == e.len(),
            s@ == ordinals(starts@),
            e@ == ordinals(ends@),
            i <= n,
            forall|j: int| 0 <= j < i ==> s@[j] <= e@[j],
            raw_starts@ == nonempty_starts(s@, e@, i as int),
            raw_ends@ == nonempty_ends(s@, e@, i as int),
        decreases n - i,
    {
        if s[i] > e[i] {
            return Err(IntervalError::InvalidInterval { index: i });
        }
        if s[i] < e[i] {
            raw_starts.push((s[i], 0, 0));
            raw_ends.push((e[i], 0, 0));
        }
        i += 1;
    }
    let sorted_starts = sort_triples(&raw_starts);
    let sorted_ends = sort_triples(&raw_ends);
    let mut counts: Vec<usize> = Vec::with_capacity(n);
    let mut i: usize = 0;
    while i < n
        invariant
            n == s.len() == e.len(),
            s@ == ordinals(starts@),
            e@ == ordinals(ends@),
            i <= n,
            valid_rows(s@, e@),
            crate::sort::sorted3(sorted_starts@),
            crate::sort::sorted3(sorted_ends@),
            sorted_starts@.to_multiset() == nonempty_starts(s@, e@, n as int).to_multiset(),
            sorted_ends@.to_multiset() == nonempty_ends(s@, e@, n as int).to_multiset(),
            counts.len() == i,
            forall|k: int| 0 <= k < i ==> #[trigger] counts@[k] == overlap_count(s@, e@, k),
        decreases n - i,
    {
        if s[i] == e[i] {
            proof {
                lemma_empty_row_count(s@, e@, i as int, n as int);
            }
            counts.push(0);
        } else {
            let started = count_below(&sorted_starts, e[i]);
            let ended = count_at_most(&sorted_ends, s[i]);
            proof {
                lemma_seq_sum_prefix(sorted_starts@, below(e@[i as int]), started as int);
                lemma_seq_sum_multiset(
                    sorted_starts@,
                    nonempty_starts(s@, e@, n as int),
                    below(e@[i as int]),
                );
                lemma_started(s@, e@, e@[i as int], n as int);
                lemma_seq_sum_prefix(sorted_ends@, at_most(s@[i as int]), ended as int);
                lemma_seq_sum_multiset(
                    sorted_ends@,
                    nonempty_ends(s@, e@, n as int),
                    at_most(s@[i as int]),
                );
                lemma_ended(s@, e@, s@[i as int], n as int);
                lemma_count_decomposes(s@, e@, i as int, n as int);
            }
            counts.push(started - ended - 1);
        }
        i += 1;
    }
    Ok(counts)
}

} // verus!
