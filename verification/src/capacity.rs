//! Maximum-weight selection of intervals under a capacity: at most `k`
//! selected intervals may contain any point.
use vstd::prelude::*;
use vstd::multiset::group_multiset_axioms;
use vstd::seq_lib::group_to_multiset_ensures;
use vstd::set_lib::{set_int_range, lemma_int_range, lemma_len_subset};
use crate::endpoint::{Endpoint, Weight, ordinals, ordinals_of, amounts, amounts_of};
use crate::error::IntervalError;
use crate::rows::{overlaps, valid_rows, is_first_reversed};
use crate::sort::{
    Triple, le3, sorted3, seq_sum, sort_triples, lemma_seq_sum_multiset, lemma_sorted_rows_distinct,
    lemma_seq_sum_append,
};
use crate::network::{Network, isum, lemma_isum_ext, lemma_isum_nonneg};
use crate::lanes::{active_set, active_count, lane_count, optimal_lanes};
use crate::weighted::{
    positive_empty, positive_nonempty, non_overlapping, weight_upto, mask_weight, empty_total,
    selected_nonempty_total, row_weight, optimal_schedule, schedule_overflows, schedule_outcome,
    schedule, schedule_result, same_result, lemma_weight_split,
};

verus! {

// ----------------------------------------------------------------------------
// The model: loads, feasible masks, and optimal masks.
// ----------------------------------------------------------------------------

/// Number of selected rows among the first `j` whose interval contains `x`.
pub open spec fn load_upto(s: Seq<i128>, e: Seq<i128>, m: Seq<bool>, x: int, j: int) -> int
    decreases j,
{
    if j <= 0 {
        0
    } else {
        load_upto(s, e, m, x, j - 1) + if m[j - 1] && s[j - 1] <= x < e[j - 1] {
            1int
        } else {
            0int
        }
    }
}

/// Number of selected rows whose interval contains the point `x`.
pub open spec fn load(s: Seq<i128>, e: Seq<i128>, m: Seq<bool>, x: int) -> int {
    load_upto(s, e, m, x, s.len() as int)
}

/// The mask has one entry per row and selects at most `k` intervals that
/// contain any one point.
pub open spec fn fits(s: Seq<i128>, e: Seq<i128>, m: Seq<bool>, k: int) -> bool {
    &&& m.len() == s.len()
    &&& forall|x: int| #[trigger] load(s, e, m, x) <= k
}

/// The mask is a feasible selection of maximum weight under capacity `k`:
/// only positive rows are selected, every positive empty row is selected, the
/// total fits in `i128`, and no feasible mask weighs more.
pub open spec fn capacity_optimal(s: Seq<i128>, e: Seq<i128>, w: Seq<i128>, k: int, m: Seq<bool>) -> bool {
    &&& fits(s, e, m, k)
    &&& forall|i: int| 0 <= i < m.len() && #[trigger] m[i] ==> w[i] > 0
    &&& forall|i: int| 0 <= i < m.len() && positive_empty(s, e, w, i) ==> #[trigger] m[i]
    &&& mask_weight(w, m) <= i128::MAX
    &&& forall|m2: Seq<bool>| #[trigger] fits(s, e, m2, k) ==> mask_weight(w, m2) <= mask_weight(w, m)
}

/// Some feasible selection under capacity `k` weighs more than `i128::MAX`.
pub open spec fn capacity_overflows(s: Seq<i128>, e: Seq<i128>, w: Seq<i128>, k: int) -> bool {
    exists|m: Seq<bool>| #[trigger] fits(s, e, m, k) && mask_weight(w, m) > i128::MAX
}

/// The outcome on valid rows: an optimal mask, or a weight overflow exactly
/// when some feasible selection exceeds `i128::MAX`.
pub open spec fn capacity_outcome(
    s: Seq<i128>,
    e: Seq<i128>,
    w: Seq<i128>,
    k: int,
    r: Result<Vec<bool>, IntervalError>,
) -> bool {
    match r {
        Ok(m) => capacity_optimal(s, e, w, k, m@),
        Err(err) => err == IntervalError::WeightOverflow && capacity_overflows(s, e, w, k),
    }
}

// ----------------------------------------------------------------------------
// Records of rows, and their loads and weights.
// ----------------------------------------------------------------------------

/// The positive non-empty rows among the first `j`, as `(start, end, row)` records.
pub open spec fn start_rows(s: Seq<i128>, e: Seq<i128>, w: Seq<i128>, j: int) -> Seq<Triple>
    decreases j,
{
    if j <= 0 {
        Seq::empty()
    } else if positive_nonempty(s, e, w, j - 1) {
        start_rows(s, e, w, j - 1).push((s[j - 1], e[j - 1], (j - 1) as usize))
    } else {
        start_rows(s, e, w, j - 1)
    }
}

/// The record describes a positive non-empty row of the input.
pub open spec fn start_record(s: Seq<i128>, e: Seq<i128>, w: Seq<i128>, t: Triple) -> bool {
    &&& 0 <= t.2 < s.len()
    &&& t.0 == s[t.2 as int]
    &&& t.1 == e[t.2 as int]
    &&& positive_nonempty(s, e, w, t.2 as int)
}

/// Indicator of a selected record whose interval contains `x`.
pub open spec fn at_point(m: Seq<bool>, x: int) -> spec_fn(Triple) -> int {
    |t: Triple| if m[t.2 as int] && t.0 <= x < t.1 { 1int } else { 0int }
}

/// Indicator of a record whose interval contains `x`.
pub open spec fn spans(x: int) -> spec_fn(Triple) -> int {
    |t: Triple| if t.0 <= x < t.1 { 1int } else { 0int }
}

/// Number of selected records whose interval contains `x`.
pub open spec fn rows_load(rows: Seq<Triple>, m: Seq<bool>, x: int) -> int {
    seq_sum(rows, at_point(m, x))
}

/// The mask selects at most `k` of the records at any point.
pub open spec fn rows_fit(rows: Seq<Triple>, m: Seq<bool>, k: int) -> bool {
    forall|x: int| #[trigger] rows_load(rows, m, x) <= k
}

/// Total weight of the selected records.
pub open spec fn rows_weight(rows: Seq<Triple>, w: Seq<i128>, m: Seq<bool>) -> int {
    seq_sum(rows, row_weight(w, m))
}

/// The sorted records of the positive non-empty rows, with distinct rows.
pub open spec fn records_ok(s: Seq<i128>, e: Seq<i128>, w: Seq<i128>, rows: Seq<Triple>) -> bool {
    &&& sorted3(rows)
    &&& forall|p: int| 0 <= p < rows.len() ==> start_record(s, e, w, #[trigger] rows[p])
    &&& forall|p: int, q: int| 0 <= p < q < rows.len() ==> (#[trigger] rows[p]).2 != (#[trigger] rows[q]).2
    &&& rows.to_multiset() == start_rows(s, e, w, s.len() as int).to_multiset()
}

/// What `prepare` hands on: the positive empty rows marked in the mask, and
/// the sorted records of the positive non-empty rows unless the capacity is zero.
pub open spec fn prepared(
    s: Seq<i128>,
    e: Seq<i128>,
    w: Seq<i128>,
    k: int,
    rows: Seq<Triple>,
    mask: Seq<bool>,
) -> bool {
    &&& valid_rows(s, e)
    &&& mask.len() == s.len()
    &&& forall|i: int| 0 <= i < s.len() ==> #[trigger] mask[i] == positive_empty(s, e, w, i)
    &&& k > 0 ==> records_ok(s, e, w, rows)
    &&& k == 0 ==> rows.len() == 0
}

proof fn lemma_start_rows(s: Seq<i128>, e: Seq<i128>, w: Seq<i128>, j: int)
    requires
        s.len() == e.len() == w.len(),
        s.len() <= usize::MAX,
        0 <= j <= s.len(),
    ensures
        forall|p: int|
            0 <= p < start_rows(s, e, w, j).len() ==> start_record(s, e, w, #[trigger] start_rows(s, e, w, j)[p])
                && start_rows(s, e, w, j)[p].2 < j,
        forall|a: int, b: int|
            0 <= a < b < start_rows(s, e, w, j).len() ==> (#[trigger] start_rows(s, e, w, j)[a]).2 < (
            #[trigger] start_rows(s, e, w, j)[b]).2,
    decreases j,
{
    if j > 0 {
        lemma_start_rows(s, e, w, j - 1);
        let prev = start_rows(s, e, w, j - 1);
        let cur = start_rows(s, e, w, j);
        if positive_nonempty(s, e, w, j - 1) {
            assert(cur == prev.push((s[j - 1], e[j - 1], (j - 1) as usize)));
            assert forall|p: int| 0 <= p < cur.len() implies start_record(s, e, w, #[trigger] cur[p]) && cur[p].2
                < j by {
                if p < prev.len() {
                    assert(cur[p] == prev[p]);
                }
            }
            assert forall|a: int, b: int| 0 <= a < b < cur.len() implies (#[trigger] cur[a]).2 < (
            #[trigger] cur[b]).2 by {
                assert(cur[a] == prev[a]);
                if b < prev.len() {
                    assert(cur[b] == prev[b]);
                }
            }
        }
    }
}

/// At most one record per row.
proof fn lemma_start_rows_len(s: Seq<i128>, e: Seq<i128>, w: Seq<i128>, j: int)
    ensures
        start_rows(s, e, w, j).len() <= if j > 0 { j } else { 0 },
    decreases j,
{
    if j > 0 {
        lemma_start_rows_len(s, e, w, j - 1);
    }
}

/// The records' weight under a mask is the weight of its selected positive
/// non-empty rows.
proof fn lemma_start_rows_weight(s: Seq<i128>, e: Seq<i128>, w: Seq<i128>, m: Seq<bool>, j: int)
    requires
        s.len() == e.len() == w.len() == m.len(),
        s.len() <= usize::MAX,
        0 <= j <= s.len(),
    ensures
        seq_sum(start_rows(s, e, w, j), row_weight(w, m)) == selected_nonempty_total(s, e, w, m, j),
    decreases j,
{
    if j > 0 {
        lemma_start_rows_weight(s, e, w, m, j - 1);
        let prev = start_rows(s, e, w, j - 1);
        if positive_nonempty(s, e, w, j - 1) {
            assert(prev.push((s[j - 1], e[j - 1], (j - 1) as usize)).drop_last() =~= prev);
        }
    }
}

/// The records' load under a mask is at most the mask's load, and equal when
/// the mask selects only positive rows.
proof fn lemma_start_rows_load(s: Seq<i128>, e: Seq<i128>, w: Seq<i128>, m: Seq<bool>, x: int, j: int)
    requires
        s.len() == e.len() == w.len() == m.len(),
        s.len() <= usize::MAX,
        valid_rows(s, e),
        0 <= j <= s.len(),
    ensures
        seq_sum(start_rows(s, e, w, j), at_point(m, x)) <= load_upto(s, e, m, x, j),
        (forall|i: int| 0 <= i < j && #[trigger] m[i] ==> w[i] > 0) ==> seq_sum(
            start_rows(s, e, w, j),
            at_point(m, x),
        ) == load_upto(s, e, m, x, j),
    decreases j,
{
    if j > 0 {
        lemma_start_rows_load(s, e, w, m, x, j - 1);
        let prev = start_rows(s, e, w, j - 1);
        if positive_nonempty(s, e, w, j - 1) {
            assert(prev.push((s[j - 1], e[j - 1], (j - 1) as usize)).drop_last() =~= prev);
        }
        assert(s[j - 1] <= e[j - 1]);
    }
}

// ----------------------------------------------------------------------------
// Preparing the rows.
// ----------------------------------------------------------------------------

/// Checks the lengths and the rows, marks the positive empty rows, and sorts
/// the positive non-empty rows by start, end and row, unless the capacity is zero.
pub fn prepare(s: &Vec<i128>, e: &Vec<i128>, w: &Vec<i128>, capacity: usize) -> (r: Result<
    (Vec<Triple>, Vec<bool>),
    IntervalError,
>)
    ensures
        s.len() != e.len() ==> r == Err::<(Vec<Triple>, Vec<bool>), IntervalError>(
            IntervalError::LengthMismatch { starts_len: s.len(), ends_len: e.len() },
        ),
        s.len() == e.len() && s.len() != w.len() ==> r == Err::<(Vec<Triple>, Vec<bool>), IntervalError>(
            IntervalError::WeightLengthMismatch { intervals_len: s.len(), weights_len: w.len() },
        ),
        s.len() == e.len() == w.len() ==> match r {
            Ok((rows, mask)) => prepared(s@, e@, w@, capacity as int, rows@, mask@),
            Err(IntervalError::InvalidInterval { index }) => is_first_reversed(s@, e@, index as int),
            Err(_) => false,
        },
{
    if s.len() != e.len() {
        return Err(IntervalError::LengthMismatch { starts_len: s.len(), ends_len: e.len() });
    }
    if s.len() != w.len() {
        return Err(IntervalError::WeightLengthMismatch { intervals_len: s.len(), weights_len: w.len() });
    }
    let n = s.len();
    let mut mask: Vec<bool> = Vec::new();
    let mut raw: Vec<Triple> = Vec::new();
    let mut i: usize = 0;
    while i < n
        invariant
            n == s.len() == e.len() == w.len(),
            i <= n,
            mask.len() == i,
            forall|j: int| 0 <= j < i ==> #[trigger] s@[j] <= e@[j],
            forall|j: int| 0 <= j < i ==> #[trigger] mask@[j] == positive_empty(s@, e@, w@, j),
            capacity > 0 ==> raw@ == start_rows(s@, e@, w@, i as int),
            capacity == 0 ==> raw.len() == 0,
        decreases n - i,
    {
        if s[i] > e[i] {
            return Err(IntervalError::InvalidInterval { index: i });
        }
        let positive = w[i] > 0;
        mask.push(positive && s[i] == e[i]);
        if positive && s[i] < e[i] && capacity > 0 {
            raw.push((s[i], e[i], i));
        }
        i += 1;
    }
    let rows = sort_triples(&raw);
    proof {
        if capacity > 0 {
            lemma_start_rows(s@, e@, w@, n as int);
            lemma_sorted_rows_distinct(rows@, raw@);
            assert forall|p: int| 0 <= p < rows.len() implies start_record(s@, e@, w@, #[trigger] rows@[p]) by {
                assert(raw@.contains(rows@[p]));
            }
        }
    }
    Ok((rows, mask))
}

/// The checked total weight of the selected rows, summed in row order.
pub fn check_objective(w: &Vec<i128>, mask: &Vec<bool>) -> (r: Result<i128, IntervalError>)
    requires
        mask.len() == w.len(),
    ensures
        match r {
            Ok(v) => v == mask_weight(w@, mask@) && forall|j: int|
                0 <= j <= w.len() ==> i128::MIN <= #[trigger] weight_upto(w@, mask@, j) <= i128::MAX,
            Err(err) => err == IntervalError::WeightOverflow && exists|j: int|
                0 <= j <= w.len() && !(i128::MIN <= #[trigger] weight_upto(w@, mask@, j) <= i128::MAX),
        },
{
    let mut sum: i128 = 0;
    let mut i: usize = 0;
    while i < w.len()
        invariant
            mask.len() == w.len(),
            i <= w.len(),
            sum == weight_upto(w@, mask@, i as int),
            forall|j: int| 0 <= j <= i ==> i128::MIN <= #[trigger] weight_upto(w@, mask@, j) <= i128::MAX,
        decreases w.len() - i,
    {
        if mask[i] {
            match crate::network::add(sum, w[i]) {
                Ok(v) => {
                    sum = v;
                },
                Err(err) => {
                    proof {
                        assert(!(i128::MIN <= weight_upto(w@, mask@, i + 1) <= i128::MAX));
                    }
                    return Err(err);
                },
            }
        }
        i += 1;
        proof {
            assert forall|j: int| 0 <= j <= i implies i128::MIN <= #[trigger] weight_upto(w@, mask@, j)
                <= i128::MAX by {
                if j == i {
                    assert(weight_upto(w@, mask@, j) == sum);
                }
            }
        }
    }
    Ok(sum)
}


// ----------------------------------------------------------------------------
// Sums of indicators over records.
// ----------------------------------------------------------------------------

/// Indicator of a record that starts by `x`.
pub open spec fn starts_by(x: int) -> spec_fn(Triple) -> int {
    |t: Triple| if t.0 <= x { 1int } else { 0int }
}

/// Indicator of a record that ends by `x`.
pub open spec fn ends_by(x: int) -> spec_fn(Triple) -> int {
    |t: Triple| if t.1 <= x { 1int } else { 0int }
}

/// Number of records whose interval contains `x`.
pub open spec fn depth(rows: Seq<Triple>, x: int) -> int {
    seq_sum(rows, spans(x))
}

/// A sum is monotone in its terms.
proof fn lemma_seq_sum_le<A>(s: Seq<A>, f: spec_fn(A) -> int, g: spec_fn(A) -> int)
    requires
        forall|k: int| 0 <= k < s.len() ==> f(#[trigger] s[k]) <= g(s[k]),
    ensures
        seq_sum(s, f) <= seq_sum(s, g),
    decreases s.len(),
{
    if s.len() > 0 {
        let t = s.drop_last();
        assert forall|k: int| 0 <= k < t.len() implies f(#[trigger] t[k]) <= g(t[k]) by {
            assert(t[k] == s[k]);
        }
        lemma_seq_sum_le(t, f, g);
    }
}

/// The sum of differences is the difference of sums.
proof fn lemma_seq_sum_sub<A>(s: Seq<A>, f: spec_fn(A) -> int, g: spec_fn(A) -> int, h: spec_fn(A) -> int)
    requires
        forall|k: int| 0 <= k < s.len() ==> h(#[trigger] s[k]) == f(s[k]) - g(s[k]),
    ensures
        seq_sum(s, h) == seq_sum(s, f) - seq_sum(s, g),
    decreases s.len(),
{
    if s.len() > 0 {
        let t = s.drop_last();
        assert forall|k: int| 0 <= k < t.len() implies h(#[trigger] t[k]) == f(t[k]) - g(t[k]) by {
            assert(t[k] == s[k]);
        }
        lemma_seq_sum_sub(t, f, g, h);
    }
}

/// A sum of terms in `[0, 1]` that equal one on a prefix is at least its length.
proof fn lemma_seq_sum_at_least<A>(s: Seq<A>, f: spec_fn(A) -> int, p: int)
    requires
        0 <= p <= s.len(),
        forall|k: int| 0 <= k < s.len() ==> 0 <= #[trigger] f(s[k]) <= 1,
        forall|k: int| 0 <= k < p ==> f(#[trigger] s[k]) == 1,
    ensures
        p <= seq_sum(s, f) <= s.len(),
    decreases s.len(),
{
    if s.len() > 0 {
        let t = s.drop_last();
        assert forall|k: int| 0 <= k < t.len() implies 0 <= #[trigger] f(t[k]) <= 1 by {
            assert(t[k] == s[k]);
        }
        if p == s.len() {
            assert forall|k: int| 0 <= k < p - 1 implies f(#[trigger] t[k]) == 1 by {
                assert(t[k] == s[k]);
            }
            lemma_seq_sum_at_least(t, f, p - 1);
        } else {
            assert forall|k: int| 0 <= k < p implies f(#[trigger] t[k]) == 1 by {
                assert(t[k] == s[k]);
            }
            lemma_seq_sum_at_least(t, f, p);
        }
    }
}

/// A sum of terms in `[0, 1]` that vanish after a prefix is at most its length.
proof fn lemma_seq_sum_at_most<A>(s: Seq<A>, f: spec_fn(A) -> int, p: int)
    requires
        0 <= p <= s.len(),
        forall|k: int| 0 <= k < s.len() ==> 0 <= #[trigger] f(s[k]) <= 1,
        forall|k: int| p <= k < s.len() ==> f(#[trigger] s[k]) == 0,
    ensures
        0 <= seq_sum(s, f) <= p,
    decreases s.len(),
{
    if s.len() > 0 {
        let t = s.drop_last();
        assert forall|k: int| 0 <= k < t.len() implies 0 <= #[trigger] f(t[k]) <= 1 by {
            assert(t[k] == s[k]);
        }
        if p == s.len() {
            lemma_seq_sum_at_most(t, f, p - 1);
        } else {
            assert forall|k: int| p <= k < t.len() implies f(#[trigger] t[k]) == 0 by {
                assert(t[k] == s[k]);
            }
            lemma_seq_sum_at_most(t, f, p);
        }
    } else {
    }
}

/// The end records of `rows`, keyed by end.
pub open spec fn end_keys(rows: Seq<Triple>) -> Seq<Triple> {
    Seq::new(rows.len(), |j: int| (rows[j].1, 0i128, 0usize))
}

proof fn lemma_end_keys(rows: Seq<Triple>, x: int)
    ensures
        seq_sum(end_keys(rows), starts_by(x)) == seq_sum(rows, ends_by(x)),
    decreases rows.len(),
{
    if rows.len() > 0 {
        lemma_end_keys(rows.drop_last(), x);
        assert(end_keys(rows).drop_last() =~= end_keys(rows.drop_last()));
    }
}

/// The records are in nondecreasing order of start.
pub open spec fn start_sorted(rows: Seq<Triple>) -> bool {
    forall|a: int, b: int| 0 <= a < b < rows.len() ==> (#[trigger] rows[a]).0 <= (#[trigger] rows[b]).0
}

/// Records in lexicographic order are in order of start.
proof fn lemma_sorted_starts(rows: Seq<Triple>)
    requires
        sorted3(rows),
    ensures
        start_sorted(rows),
{
    assert forall|a: int, b: int| 0 <= a < b < rows.len() implies (#[trigger] rows[a]).0 <= (
    #[trigger] rows[b]).0 by {
        assert(le3(rows[a], rows[b]));
    }
}

/// In records sorted by start, the records that start by `x` form a prefix.
proof fn lemma_split(rows: Seq<Triple>, x: int) -> (p: int)
    requires
        start_sorted(rows),
    ensures
        0 <= p <= rows.len(),
        forall|k: int| 0 <= k < p ==> (#[trigger] rows[k]).0 <= x,
        forall|k: int| p <= k < rows.len() ==> (#[trigger] rows[k]).0 > x,
        seq_sum(rows, starts_by(x)) == p,
    decreases rows.len(),
{
    if rows.len() == 0 {
        0
    } else if rows[rows.len() - 1].0 <= x {
        assert forall|k: int| 0 <= k < rows.len() implies (#[trigger] rows[k]).0 <= x by {
            if k < rows.len() - 1 {
                assert(rows[k].0 <= rows[rows.len() - 1].0);
            }
        }
        crate::sort::lemma_seq_sum_prefix(rows, starts_by(x), rows.len() as int);
        rows.len() as int
    } else {
        let t = rows.drop_last();
        assert(start_sorted(t)) by {
            assert forall|a: int, b: int| 0 <= a < b < t.len() implies (#[trigger] t[a]).0 <= (#[trigger] t[b]).0 by {
                assert(t[a] == rows[a] && t[b] == rows[b]);
            }
        }
        let p = lemma_split(t, x);
        assert forall|k: int| 0 <= k < p implies (#[trigger] rows[k]).0 <= x by {
            assert(rows[k] == t[k]);
        }
        assert forall|k: int| p <= k < rows.len() implies (#[trigger] rows[k]).0 > x by {
            if k < rows.len() - 1 {
                assert(rows[k] == t[k]);
            }
        }
        crate::sort::lemma_seq_sum_prefix(rows, starts_by(x), p);
        p
    }
}

/// The depth at a point is the records started by it less those ended by it.
proof fn lemma_depth_split(rows: Seq<Triple>, x: int)
    requires
        forall|k: int| 0 <= k < rows.len() ==> (#[trigger] rows[k]).0 < rows[k].1,
    ensures
        depth(rows, x) == seq_sum(rows, starts_by(x)) - seq_sum(rows, ends_by(x)),
{
    lemma_seq_sum_sub(rows, starts_by(x), ends_by(x), spans(x));
}

// ----------------------------------------------------------------------------
// Concurrency and components.
// ----------------------------------------------------------------------------

/// The sweep's count at record `y`: records started so far less those ended
/// by its start.
pub open spec fn sweep_value(rows: Seq<Triple>, y: int) -> int {
    (y + 1) - seq_sum(rows, ends_by(rows[y].0 as int))
}

/// The most records of `rows[lo..hi]` that share a point: a sweep over the
/// rows in start order against their ends in sorted order.
pub fn concurrency(rows: &Vec<Triple>, lo: usize, hi: usize) -> (c: usize)
    requires
        lo <= hi <= rows.len(),
        start_sorted(rows@.subrange(lo as int, hi as int)),
        forall|q: int| lo <= q < hi ==> (#[trigger] rows@[q]).0 < rows@[q].1,
    ensures
        c <= hi - lo,
        forall|x: int| #[trigger] depth(rows@.subrange(lo as int, hi as int), x) <= c,
        c == 0 || exists|x: int| #[trigger] depth(rows@.subrange(lo as int, hi as int), x) == c,
{
    let ghost comp = rows@.subrange(lo as int, hi as int);
    let mut raw: Vec<Triple> = Vec::new();
    let mut q: usize = lo;
    while q < hi
        invariant
            lo <= q <= hi <= rows.len(),
            comp == rows@.subrange(lo as int, hi as int),
            raw@ == end_keys(comp).take(q - lo),
        decreases hi - q,
    {
        raw.push((rows[q].1, 0, 0));
        q += 1;
        proof {
            assert(raw@ =~= end_keys(comp).take(q - lo));
        }
    }
    proof {
        assert(raw@ =~= end_keys(comp));
    }
    let ends = sort_triples(&raw);
    proof {
        assert forall|k: int| 0 <= k < comp.len() implies (#[trigger] comp[k]).0 < comp[k].1 by {
            assert(comp[k] == rows@[lo + k]);
        }
    }
    let mut ended: usize = 0;
    let mut peak: usize = 0;
    let ghost mut best: int = 0;
    let mut i: usize = lo;
    while i < hi
        invariant
            lo <= i <= hi <= rows.len(),
            comp == rows@.subrange(lo as int, hi as int),
            start_sorted(comp),
            sorted3(ends@),
            ends@.to_multiset() == end_keys(comp).to_multiset(),
            ends.len() == comp.len(),
            forall|k: int| 0 <= k < comp.len() ==> (#[trigger] comp[k]).0 < comp[k].1,
            ended <= ends.len(),
            i > lo ==> forall|k: int| 0 <= k < ended ==> (#[trigger] ends@[k]).0 <= comp[i - lo - 1].0,
            i > lo ==> forall|k: int| ended <= k < ends.len() ==> (#[trigger] ends@[k]).0 > comp[i - lo - 1].0,
            i == lo ==> ended == 0,
            peak <= i - lo,
            forall|y: int| 0 <= y < i - lo ==> #[trigger] sweep_value(comp, y) <= peak,
            peak > 0 ==> 0 <= best < i - lo && peak == sweep_value(comp, best),
        decreases hi - i,
    {
        let start = rows[i].0;
        proof {
            assert(comp[i - lo] == rows@[i as int]);
        }
        while ended < ends.len() && ends[ended].0 <= start
            invariant
                ended <= ends.len(),
                sorted3(ends@),
                forall|k: int| 0 <= k < ended ==> (#[trigger] ends@[k]).0 <= start,
                i > lo ==> forall|k: int| ended <= k < ends.len() ==> (#[trigger] ends@[k]).0 > comp[i - lo - 1].0,
            decreases ends.len() - ended,
        {
            ended += 1;
        }
        proof {
            if i > lo {
                assert(comp[i - lo - 1].0 <= comp[i - lo].0);
            }
            assert forall|k: int| ended <= k < ends.len() implies (#[trigger] ends@[k]).0 > start by {
                if ended < ends.len() {
                    assert(ends@[ended as int].0 > start);
                    if k > ended {
                        assert(le3(ends@[ended as int], ends@[k]));
                    }
                }
            }
            let y = start as int;
            crate::sort::lemma_seq_sum_prefix(ends@, starts_by(y), ended as int);
            lemma_seq_sum_multiset(ends@, end_keys(comp), starts_by(y));
            lemma_end_keys(comp, y);
            // Rows that end by this start begin before it, so come earlier.
            let strict = |t: Triple| if t.0 < y { 1int } else { 0int };
            lemma_seq_sum_le(comp, ends_by(y), strict);
            assert forall|k: int| 0 <= k < comp.len() implies 0 <= #[trigger] strict(comp[k]) <= 1 by {
            }
            assert forall|k: int| i - lo <= k < comp.len() implies strict(#[trigger] comp[k]) == 0 by {
                if k > i - lo {
                    assert(comp[i - lo].0 <= comp[k].0);
                }
            }
            lemma_seq_sum_at_most(comp, strict, i - lo);
        }
        let value = i + 1 - lo - ended;
        if peak < value {
            peak = value;
            proof {
                best = i - lo;
            }
        }
        i += 1;
    }
    proof {
        let comp = rows@.subrange(lo as int, hi as int);
        assert forall|x: int| #[trigger] depth(comp, x) <= peak by {
            lemma_depth_split(comp, x);
            let p = lemma_split(comp, x);
            if p > 0 {
                let sy = comp[p - 1].0 as int;
                assert(sy <= x);
                lemma_seq_sum_le(comp, ends_by(sy), ends_by(x));
                assert(sweep_value(comp, p - 1) <= peak);
            } else {
                assert forall|k: int| 0 <= k < comp.len() implies 0 <= #[trigger] ends_by(x)(comp[k]) <= 1 by {
                }
                assert forall|k: int| 0 <= k < comp.len() implies ends_by(x)(#[trigger] comp[k]) == 0 by {
                    assert(comp[k].0 > x);
                }
                lemma_seq_sum_at_most(comp, ends_by(x), 0);
            }
        }
        if peak > 0 {
            let sb = comp[best].0 as int;
            lemma_depth_split(comp, sb);
            assert forall|k: int| 0 <= k < comp.len() implies 0 <= #[trigger] starts_by(sb)(comp[k]) <= 1 by {
            }
            assert forall|k: int| 0 <= k < best + 1 implies starts_by(sb)(#[trigger] comp[k]) == 1 by {
                if k < best {
                    assert(comp[k].0 <= comp[best].0);
                }
            }
            lemma_seq_sum_at_least(comp, starts_by(sb), best + 1);
            assert(depth(comp, sb) >= peak);
            assert(depth(comp, sb) <= peak);
        }
    }
    peak
}


/// Some record from `lo` on, before `q`, ends after record `q` starts.
pub open spec fn joined(rows: Seq<Triple>, lo: int, q: int) -> bool {
    exists|p: int| lo <= p < q && (#[trigger] rows[p]).1 > rows[q].0
}

/// Some range starts at record `q`.
pub open spec fn starts_range(ranges: Seq<(usize, usize)>, q: int) -> bool {
    exists|c: int| 0 <= c < ranges.len() && (#[trigger] ranges[c]).0 == q
}

/// Every record before `q` ends by the start of record `q`.
pub open spec fn clear_before(rows: Seq<Triple>, q: int) -> bool {
    forall|p: int| 0 <= p < q ==> (#[trigger] rows[p]).1 <= rows[q].0
}

/// Contiguous ranges from `ranges[c0]` on cover every position up to the end
/// of the last range.
proof fn lemma_ranges_cover(ranges: Seq<(usize, usize)>, c0: int, q: int) -> (c: int)
    requires
        0 <= c0 < ranges.len(),
        forall|d: int| 0 <= d < ranges.len() ==> (#[trigger] ranges[d]).0 < ranges[d].1,
        forall|d: int| 0 <= d < ranges.len() - 1 ==> (#[trigger] ranges[d]).1 == ranges[d + 1].0,
        ranges[c0].0 <= q < ranges[ranges.len() - 1].1,
    ensures
        c0 <= c < ranges.len(),
        ranges[c].0 <= q < ranges[c].1,
    decreases ranges.len() - c0,
{
    if q < ranges[c0].1 {
        c0
    } else {
        assert(c0 < ranges.len() - 1);
        lemma_ranges_cover(ranges, c0 + 1, q)
    }
}

/// Splits records sorted by start into maximal runs that chain together: a
/// run ends where the next record starts at or after every earlier end, so
/// touching intervals fall in different runs.
pub fn components(rows: &Vec<Triple>) -> (ranges: Vec<(usize, usize)>)
    requires
        start_sorted(rows@),
        forall|q: int| 0 <= q < rows.len() ==> (#[trigger] rows@[q]).0 < rows@[q].1,
    ensures
        rows.len() == 0 ==> ranges.len() == 0,
        rows.len() > 0 ==> ranges.len() > 0 && ranges@[0].0 == 0 && ranges@[ranges.len() - 1].1 == rows.len(),
        forall|c: int| 0 <= c < ranges.len() ==> (#[trigger] ranges@[c]).0 < ranges@[c].1,
        forall|c: int| 0 <= c < ranges.len() - 1 ==> (#[trigger] ranges@[c]).1 == ranges@[c + 1].0,
        forall|c: int, p: int, q: int|
            0 <= c < ranges.len() && 0 <= p < (#[trigger] ranges@[c]).0 <= q < rows.len() ==> (#[trigger] rows@[p]).1
                <= (#[trigger] rows@[q]).0,
        forall|c: int, q: int|
            0 <= c < ranges.len() && (#[trigger] ranges@[c]).0 < q < ranges@[c].1 ==> #[trigger] joined(
                rows@,
                ranges@[c].0 as int,
                q,
            ),
        forall|q: int| 0 < q < rows.len() ==> (#[trigger] starts_range(ranges@, q) <==> clear_before(rows@, q)),
{
    let ranges = split_components(rows);
    proof {
        assert forall|q: int| 0 < q < rows.len() implies (#[trigger] starts_range(ranges@, q) <==> clear_before(
            rows@,
            q,
        )) by {
            if starts_range(ranges@, q) {
                let c = choose|c: int| 0 <= c < ranges.len() && (#[trigger] ranges@[c]).0 == q;
                assert forall|p: int| 0 <= p < q implies (#[trigger] rows@[p]).1 <= rows@[q].0 by {
                    assert(0 <= p < ranges@[c].0 <= q < rows.len());
                }
            }
            if clear_before(rows@, q) && !starts_range(ranges@, q) {
                let c = lemma_ranges_cover(ranges@, 0, q);
                assert(ranges@[c].0 != q);
                assert(joined(rows@, ranges@[c].0 as int, q));
                let p = choose|p: int| ranges@[c].0 <= p < q && (#[trigger] rows@[p]).1 > rows@[q].0;
            }
        }
    }
    ranges
}

fn split_components(rows: &Vec<Triple>) -> (ranges: Vec<(usize, usize)>)
    requires
        start_sorted(rows@),
        forall|q: int| 0 <= q < rows.len() ==> (#[trigger] rows@[q]).0 < rows@[q].1,
    ensures
        rows.len() == 0 ==> ranges.len() == 0,
        rows.len() > 0 ==> ranges.len() > 0 && ranges@[0].0 == 0 && ranges@[ranges.len() - 1].1 == rows.len(),
        forall|c: int| 0 <= c < ranges.len() ==> (#[trigger] ranges@[c]).0 < ranges@[c].1,
        forall|c: int| 0 <= c < ranges.len() - 1 ==> (#[trigger] ranges@[c]).1 == ranges@[c + 1].0,
        forall|c: int, p: int, q: int|
            0 <= c < ranges.len() && 0 <= p < (#[trigger] ranges@[c]).0 <= q < rows.len() ==> (#[trigger] rows@[p]).1
                <= (#[trigger] rows@[q]).0,
        forall|c: int, q: int|
            0 <= c < ranges.len() && (#[trigger] ranges@[c]).0 < q < ranges@[c].1 ==> #[trigger] joined(
                rows@,
                ranges@[c].0 as int,
                q,
            ),
{
    let mut result: Vec<(usize, usize)> = Vec::new();
    if rows.len() == 0 {
        return result;
    }
    let n = rows.len();
    let mut begin: usize = 0;
    let mut end = rows[0].1;
    let mut i: usize = 1;
    while i < n
        invariant
            n == rows.len(),
            start_sorted(rows@),
            forall|q: int| 0 <= q < rows.len() ==> (#[trigger] rows@[q]).0 < rows@[q].1,
            1 <= i <= n,
            begin < i,
            forall|p: int| 0 <= p < i ==> (#[trigger] rows@[p]).1 <= end,
            exists|p: int| begin <= p < i && (#[trigger] rows@[p]).1 == end,
            result.len() > 0 ==> result@[0].0 == 0 && result@[result.len() - 1].1 == begin,
            result.len() == 0 ==> begin == 0,
            forall|c: int| 0 <= c < result.len() ==> (#[trigger] result@[c]).0 < result@[c].1,
            forall|c: int| 0 <= c < result.len() - 1 ==> (#[trigger] result@[c]).1 == result@[c + 1].0,
            forall|p: int, q: int| 0 <= p < begin <= q < rows.len() ==> (#[trigger] rows@[p]).1 <= (
            #[trigger] rows@[q]).0,
            forall|c: int, p: int, q: int|
                0 <= c < result.len() && 0 <= p < (#[trigger] result@[c]).0 <= q < rows.len() ==> (
                #[trigger] rows@[p]).1 <= (#[trigger] rows@[q]).0,
            forall|c: int, q: int|
                0 <= c < result.len() && (#[trigger] result@[c]).0 < q < result@[c].1 ==> #[trigger] joined(
                    rows@,
                    result@[c].0 as int,
                    q,
                ),
            forall|q: int| begin < q < i ==> #[trigger] joined(rows@, begin as int, q),
        decreases n - i,
    {
        if rows[i].0 >= end {
            proof {
                assert forall|p: int, q: int| 0 <= p < i <= q < rows.len() implies (#[trigger] rows@[p]).1 <= (
                #[trigger] rows@[q]).0 by {
                    if q > i {
                        assert(rows@[i as int].0 <= rows@[q].0);
                    }
                }
            }
            let ghost old_result = result@;
            result.push((begin, i));
            proof {
                assert forall|c: int, q: int|
                    0 <= c < result.len() && (#[trigger] result@[c]).0 < q < result@[c].1 implies #[trigger] joined(
                        rows@,
                        result@[c].0 as int,
                        q,
                    ) by {
                    if c < old_result.len() {
                        assert(result@[c] == old_result[c]);
                    } else {
                        assert(result@[c] == (begin, i));
                    }
                }
            }
            begin = i;
        } else {
            proof {
                let w = choose|p: int| begin <= p < i && (#[trigger] rows@[p]).1 == end;
                assert(rows@[w].1 > rows@[i as int].0);
                assert(joined(rows@, begin as int, i as int));
            }
        }
        if rows[i].1 > end {
            end = rows[i].1;
        }
        i += 1;
    }
    result.push((begin, n));
    result
}

// ----------------------------------------------------------------------------
// One component.
// ----------------------------------------------------------------------------

/// A sum over records is a sum over their positions.
proof fn lemma_seq_isum(rows: Seq<Triple>, f: spec_fn(Triple) -> int)
    ensures
        seq_sum(rows, f) == isum(|j: int| f(rows[j]), rows.len() as int),
    decreases rows.len(),
{
    if rows.len() > 0 {
        let t = rows.drop_last();
        lemma_seq_isum(t, f);
        lemma_isum_ext(|j: int| f(t[j]), |j: int| f(rows[j]), t.len() as int);
    }
}

/// A sum of zero-or-one terms is positive only where some term is one.
proof fn lemma_isum_witness(f: spec_fn(int) -> int, j: int)
    requires
        forall|i: int| 0 <= i < j ==> #[trigger] f(i) == 0 || f(i) == 1,
        isum(f, j) > 0,
    ensures
        exists|i: int| 0 <= i < j && #[trigger] f(i) == 1,
    decreases j,
{
    if j > 0 && f(j - 1) != 1 {
        lemma_isum_witness(f, j - 1);
    }
}

/// A sum of zero-or-one terms, no two of them one, is at most one.
proof fn lemma_isum_exclusive(f: spec_fn(int) -> int, j: int)
    requires
        forall|i: int| 0 <= i < j ==> #[trigger] f(i) == 0 || f(i) == 1,
        forall|a: int, b: int| 0 <= a < j && 0 <= b < j && a != b && #[trigger] f(a) == 1 ==> #[trigger] f(b) == 0,
    ensures
        0 <= isum(f, j) <= 1,
    decreases j,
{
    if j > 0 {
        lemma_isum_exclusive(f, j - 1);
        if isum(f, j - 1) > 0 {
            lemma_isum_witness(f, j - 1);
            let a = choose|a: int| 0 <= a < j - 1 && #[trigger] f(a) == 1;
            assert(f(j - 1) == 0);
        }
    }
}

/// The gap after vertex `t` holds `x` exactly when `x` lies between the
/// points of `t` and `t + 1`; then an interval contains `x` exactly when it
/// spans the gap.
proof fn lemma_gap(net: &Network, comp: Seq<Triple>, w: Seq<i128>, t: int, x: int, j: int)
    requires
        net.shaped(comp, w),
        0 <= t < net.n() - 1,
        net.points@[t] <= x < net.points@[t + 1],
        0 <= j < comp.len(),
    ensures
        (comp[j].0 <= x < comp[j].1) == (net.first(j) <= t < net.last(j)),
{
    assert(net.interval_ok(j));
    assert(net.stands_for(comp, w, j));
    let a = net.first(j);
    let b = net.last(j);
    if a > t {
        assert(net.points@[t + 1] <= net.points@[a]) by {
            if a > t + 1 {
                assert(net.points@[t + 1] < net.points@[a]);
            }
        }
    }
    if a <= t && a < t {
        assert(net.points@[a] < net.points@[t]);
    }
    if b <= t {
        assert(net.points@[b] <= net.points@[t]) by {
            if b < t {
                assert(net.points@[b] < net.points@[t]);
            }
        }
    }
    if b > t + 1 {
        assert(net.points@[t + 1] < net.points@[b]);
    }
}

/// Every point between the first and last vertex lies in some gap.
proof fn lemma_find_gap(net: &Network, x: int, u: int) -> (t: int)
    requires
        net.wellformed(),
        0 <= u < net.n(),
        net.points@[u] <= x < net.points@[net.n() - 1],
    ensures
        0 <= t < net.n() - 1,
        net.points@[t] <= x < net.points@[t + 1],
    decreases net.n() - u,
{
    if x < net.points@[u + 1] {
        u
    } else {
        lemma_find_gap(net, x, u + 1)
    }
}

/// Indicator of interval `j` of `comp` being selected and containing `x`.
pub open spec fn picks_at(comp: Seq<Triple>, m: Seq<bool>, x: int) -> spec_fn(int) -> int {
    |j: int| if m[comp[j].2 as int] && comp[j].0 <= x < comp[j].1 { 1int } else { 0int }
}

/// Outside the points no interval contains `x`; inside, the load is the load
/// of the selection on the gap that holds `x`.
proof fn lemma_load_at(net: &Network, comp: Seq<Triple>, w: Seq<i128>, m: Seq<bool>, y: Seq<int>, x: int)
    requires
        net.shaped(comp, w),
        y.len() == comp.len(),
        forall|j: int| 0 <= j < comp.len() ==> #[trigger] y[j] == if m[comp[j].2 as int] { 1int } else { 0int },
    ensures
        rows_load(comp, m, x) == isum(picks_at(comp, m, x), comp.len() as int),
        rows_load(comp, m, x) >= 0,
        (x < net.points@[0] || x >= net.points@[net.n() - 1]) ==> rows_load(comp, m, x) == 0,
        net.points@[0] <= x < net.points@[net.n() - 1] ==> exists|t: int|
            0 <= t < net.n() - 1 && net.points@[t] <= x < net.points@[t + 1] && #[trigger] net.load(y, t)
                == rows_load(comp, m, x),
{
    let r = comp.len() as int;
    lemma_seq_isum(comp, at_point(m, x));
    lemma_isum_ext(|j: int| at_point(m, x)(comp[j]), picks_at(comp, m, x), r);
    lemma_isum_nonneg(picks_at(comp, m, x), r);
    if x < net.points@[0] || x >= net.points@[net.n() - 1] {
        assert forall|j: int| 0 <= j < r implies #[trigger] picks_at(comp, m, x)(j) == 0 by {
            assert(net.interval_ok(j));
            assert(net.stands_for(comp, w, j));
            if net.first(j) > 0 {
                assert(net.points@[0] < net.points@[net.first(j)]);
            }
            if net.last(j) < net.n() - 1 {
                assert(net.points@[net.last(j)] < net.points@[net.n() - 1]);
            }
        }
        lemma_isum_ext(picks_at(comp, m, x), |j: int| 0, r);
        crate::network::lemma_isum_zero(r);
    } else {
        let t = lemma_find_gap(net, x, 0);
        assert forall|j: int| 0 <= j < r implies #[trigger] picks_at(comp, m, x)(j) == (if net.first(j) <= t
            < net.last(j) {
            y[j]
        } else {
            0
        }) by {
            lemma_gap(net, comp, w, t, x, j);
        }
        lemma_isum_ext(
            picks_at(comp, m, x),
            |j: int| if net.first(j) <= t < net.last(j) { y[j] } else { 0 },
            r,
        );
        assert(net.load(y, t) == rows_load(comp, m, x));
    }
}

/// The weight of a selection is its worth on the network.
proof fn lemma_worth(net: &Network, comp: Seq<Triple>, w: Seq<i128>, m: Seq<bool>, y: Seq<int>)
    requires
        net.shaped(comp, w),
        y.len() == comp.len(),
        forall|j: int| 0 <= j < comp.len() ==> #[trigger] y[j] == if m[comp[j].2 as int] { 1int } else { 0int },
    ensures
        rows_weight(comp, w, m) == net.worth(y),
{
    let r = comp.len() as int;
    lemma_seq_isum(comp, row_weight(w, m));
    assert forall|j: int| 0 <= j < r implies #[trigger] row_weight(w, m)(comp[j]) == y[j] * net.gain(j) by {
        assert(net.stands_for(comp, w, j));
    }
    lemma_isum_ext(|j: int| row_weight(w, m)(comp[j]), |j: int| y[j] * net.gain(j), r);
}

/// A minimum-cost flow of value `k` marks a feasible and optimal selection of
/// the component's rows.
proof fn lemma_component_flow(
    net: &Network,
    comp: Seq<Triple>,
    w: Seq<i128>,
    k: int,
    p: Seq<i128>,
    mask: Seq<bool>,
)
    requires
        net.shaped(comp, w),
        net.bounded(k),
        net.carries(k),
        net.priced(p),
        forall|j: int| 0 <= j < comp.len() ==> mask[(#[trigger] comp[j]).2 as int] == (net.capacity@[net.fwd(j)] == 0),
    ensures
        rows_fit(comp, mask, k),
        forall|m2: Seq<bool>| #[trigger] rows_fit(comp, m2, k) ==> rows_weight(comp, w, m2) <= rows_weight(comp, w, mask),
{
    let r = comp.len() as int;
    let x = net.flows();
    assert forall|j: int| 0 <= j < r implies #[trigger] x[j] == if mask[comp[j].2 as int] { 1int } else { 0int } by {
        assert(net.capacity@[net.fwd(j)] + net.capacity@[net.fwd(j) + 1] == 1);
    }
    assert(net.capacity@[2 * 0int] + net.capacity@[2 * 0int + 1] == k);
    assert forall|pt: int| #[trigger] rows_load(comp, mask, pt) <= k by {
        lemma_load_at(net, comp, w, mask, x, pt);
        if net.points@[0] <= pt < net.points@[net.n() - 1] {
            let t = choose|t: int|
                0 <= t < net.n() - 1 && net.points@[t] <= pt < net.points@[t + 1] && #[trigger] net.load(x, t)
                    == rows_load(comp, mask, pt);
            assert(net.capacity@[2 * t + 1] + net.cover(t) == k);
            assert forall|j: int| 0 <= j < r implies #[trigger] net.crossing(t)(j) == (if net.first(j) <= t
                < net.last(j) {
                x[j]
            } else {
                0
            }) by {
            }
            lemma_isum_ext(net.crossing(t), |j: int| if net.first(j) <= t < net.last(j) { x[j] } else { 0 }, r);
            assert(net.cover(t) == net.load(x, t));
        }
    }
    lemma_worth(net, comp, w, mask, x);
    assert forall|m2: Seq<bool>| #[trigger] rows_fit(comp, m2, k) implies rows_weight(comp, w, m2) <= rows_weight(
        comp,
        w,
        mask,
    ) by {
        let y = Seq::new(r as nat, |j: int| if m2[comp[j].2 as int] { 1int } else { 0int });
        assert forall|t: int| 0 <= t < net.n() - 1 implies #[trigger] net.load(y, t) <= k by {
            let pt = net.points@[t] as int;
            lemma_load_at(net, comp, w, m2, y, pt);
            assert(rows_load(comp, m2, pt) <= k);
            let u = choose|u: int|
                0 <= u < net.n() - 1 && net.points@[u] <= pt < net.points@[u + 1] && #[trigger] net.load(y, u)
                    == rows_load(comp, m2, pt);
            if u < t {
                if u + 1 < t {
                    assert(net.points@[u + 1] < net.points@[t]);
                }
            } else if u > t {
                assert(net.points@[t] < net.points@[u]);
            }
        }
        net.lemma_optimal(k, p, y);
        lemma_worth(net, comp, w, m2, y);
    }
}

/// A set of pairwise disjoint intervals of the component weighing more than
/// `i128::MAX` gives a selection within capacity one that does.
proof fn lemma_component_heavy(net: &Network, comp: Seq<Triple>, w: Seq<i128>, size: int)
    requires
        net.shaped(comp, w),
        net.heavy(),
        forall|j: int| 0 <= j < comp.len() ==> (#[trigger] comp[j]).2 < size,
        forall|a: int, b: int| 0 <= a < b < comp.len() ==> (#[trigger] comp[a]).2 != (#[trigger] comp[b]).2,
    ensures
        exists|m2: Seq<bool>|
            m2.len() == size && #[trigger] rows_fit(comp, m2, 1) && rows_weight(comp, w, m2) > i128::MAX,
{
    let r = comp.len() as int;
    let sel = choose|sel: Seq<bool>| #[trigger] net.chain(sel, net.n() - 1) && net.picked(sel) > i128::MAX;
    let m2 = Seq::new(
        size as nat,
        |i: int| exists|j: int| 0 <= j < r && #[trigger] comp[j].2 == i && sel[j],
    );
    assert forall|j: int| 0 <= j < r implies #[trigger] m2[comp[j].2 as int] == sel[j] by {
        if m2[comp[j].2 as int] {
            let j2 = choose|j2: int| 0 <= j2 < r && #[trigger] comp[j2].2 == comp[j].2 && sel[j2];
            if j2 != j {
                if j2 < j {
                    assert(comp[j2].2 != comp[j].2);
                } else {
                    assert(comp[j].2 != comp[j2].2);
                }
            }
        }
    }
    let y = Seq::new(r as nat, |j: int| if m2[comp[j].2 as int] { 1int } else { 0int });
    assert forall|x: int| #[trigger] rows_load(comp, m2, x) <= 1 by {
        lemma_load_at(net, comp, w, m2, y, x);
        let f = picks_at(comp, m2, x);
        assert forall|a: int, b: int| 0 <= a < r && 0 <= b < r && a != b && #[trigger] f(a) == 1 implies #[trigger] f(b)
            == 0 by {
            if f(b) == 1 {
                assert(sel[a] && sel[b]);
                assert(net.stands_for(comp, w, a) && net.stands_for(comp, w, b));
                assert(net.interval_ok(a) && net.interval_ok(b));
                if net.last(a) <= net.first(b) {
                    if net.last(a) < net.first(b) {
                        assert(net.points@[net.last(a)] < net.points@[net.first(b)]);
                    }
                } else {
                    assert(net.last(b) <= net.first(a));
                    if net.last(b) < net.first(a) {
                        assert(net.points@[net.last(b)] < net.points@[net.first(a)]);
                    }
                }
            }
        }
        lemma_isum_exclusive(f, r);
    }
    lemma_worth(net, comp, w, m2, y);
    let gs = |j: int| if sel[j] { net.gain(j) } else { 0 };
    lemma_isum_ext(|j: int| y[j] * net.gain(j), gs, r);
    assert(rows_fit(comp, m2, 1));
}


/// The row is one of `rows[lo..hi]`.
pub open spec fn in_range(rows: Seq<Triple>, lo: int, hi: int, i: int) -> bool {
    exists|q: int| lo <= q < hi && (#[trigger] rows[q]).2 == i
}

/// Selects a maximum-weight subset of the component `rows[lo..hi]` that never
/// exceeds `capacity` at a point, and marks it in the mask: every row when the
/// component's concurrency allows it, else by minimum-cost flow.
pub fn solve_component(
    rows: &Vec<Triple>,
    lo: usize,
    hi: usize,
    w: &Vec<i128>,
    capacity: usize,
    mask: &mut Vec<bool>,
) -> (r: Result<(), IntervalError>)
    requires
        lo < hi <= rows.len(),
        hi - lo < usize::MAX / 16,
        capacity >= 1,
        sorted3(rows@.subrange(lo as int, hi as int)),
        old(mask).len() == w.len(),
        forall|q: int|
            lo <= q < hi ==> (#[trigger] rows@[q]).0 < rows@[q].1 && rows@[q].2 < w.len() && w@[rows@[q].2 as int]
                > 0,
        forall|a: int, b: int| lo <= a < b < hi ==> (#[trigger] rows@[a]).2 != (#[trigger] rows@[b]).2,
    ensures
        final(mask).len() == old(mask).len(),
        match r {
            Ok(()) => {
                &&& forall|i: int|
                    0 <= i < old(mask).len() && !in_range(rows@, lo as int, hi as int, i) ==> #[trigger] final(mask)@[i]
                        == old(mask)@[i]
                &&& rows_fit(rows@.subrange(lo as int, hi as int), final(mask)@, capacity as int)
                &&& forall|m2: Seq<bool>|
                    #[trigger] rows_fit(rows@.subrange(lo as int, hi as int), m2, capacity as int) ==> rows_weight(
                        rows@.subrange(lo as int, hi as int),
                        w@,
                        m2,
                    ) <= rows_weight(rows@.subrange(lo as int, hi as int), w@, final(mask)@)
            },
            Err(err) => err == IntervalError::WeightOverflow && exists|m2: Seq<bool>|
                m2.len() == w.len() && #[trigger] rows_fit(rows@.subrange(lo as int, hi as int), m2, 1)
                    && rows_weight(rows@.subrange(lo as int, hi as int), w@, m2) > i128::MAX,
        },
{
    let ghost comp = rows@.subrange(lo as int, hi as int);
    proof {
        lemma_sorted_starts(comp);
        assert forall|j: int| 0 <= j < comp.len() implies (#[trigger] comp[j]).2 < w.len() && w@[comp[j].2 as int]
            > 0 && comp[j].0 < comp[j].1 by {
            assert(comp[j] == rows@[lo + j]);
        }
        assert forall|a: int, b: int| 0 <= a < b < comp.len() implies (#[trigger] comp[a]).2 != (#[trigger] comp[b]).2 by {
            assert(comp[a] == rows@[lo + a] && comp[b] == rows@[lo + b]);
        }
    }
    if concurrency(rows, lo, hi) <= capacity {
        let ghost before = mask@;
        let mut q: usize = lo;
        while q < hi
            invariant
                lo <= q <= hi <= rows.len(),
                comp == rows@.subrange(lo as int, hi as int),
                mask.len() == before.len() == w.len(),
                forall|x: int| lo <= x < hi ==> (#[trigger] rows@[x]).2 < w.len(),
                forall|x: int| lo <= x < q ==> mask@[(#[trigger] rows@[x]).2 as int],
                forall|i: int|
                    0 <= i < mask.len() && !in_range(rows@, lo as int, q as int, i) ==> #[trigger] mask@[i]
                        == before[i],
            decreases hi - q,
        {
            mask.set(rows[q].2, true);
            proof {
                assert forall|i: int|
                    0 <= i < mask.len() && !in_range(rows@, lo as int, q + 1, i) implies #[trigger] mask@[i]
                    == before[i] by {
                    if i == rows@[q as int].2 {
                        assert(rows@[q as int].2 == i);
                    }
                    assert(!in_range(rows@, lo as int, q as int, i)) by {
                        if in_range(rows@, lo as int, q as int, i) {
                            let x = choose|x: int| lo <= x < q && (#[trigger] rows@[x]).2 == i;
                        }
                    }
                }
            }
            q += 1;
        }
        proof {
            let m = mask@;
            assert forall|j: int| 0 <= j < comp.len() implies m[(#[trigger] comp[j]).2 as int] by {
                assert(comp[j] == rows@[lo + j]);
            }
            assert forall|x: int| #[trigger] rows_load(comp, m, x) <= capacity by {
                lemma_seq_sum_le(comp, at_point(m, x), spans(x));
                assert(depth(comp, x) <= capacity);
            }
            assert forall|m2: Seq<bool>| #[trigger] rows_fit(comp, m2, capacity as int) implies rows_weight(comp, w@, m2)
                <= rows_weight(comp, w@, m) by {
                lemma_seq_sum_le(comp, row_weight(w@, m2), row_weight(w@, m));
            }
        }
        Ok(())
    } else {
        let mut network = Network::new(rows, lo, hi, w, capacity);
        let ghost built = network;
        match network.solve(capacity) {
            Ok(()) => {},
            Err(err) => {
                proof {
                    lemma_component_heavy(&built, comp, w@, w.len() as int);
                }
                return Err(err);
            },
        }
        proof {
            built.lemma_same_shape(&network);
        }
        let ghost before = mask@;
        network.reconstruct(rows, lo, hi, mask);
        proof {
            let p = choose|p: Seq<i128>| #[trigger] network.priced(p);
            assert forall|j: int| 0 <= j < comp.len() implies mask@[(#[trigger] comp[j]).2 as int] == (
            network.capacity@[network.fwd(j)] == 0) by {
                assert(comp[j] == rows@[lo + j]);
            }
            lemma_component_flow(&network, comp, w@, capacity as int, p, mask@);
            assert forall|i: int|
                0 <= i < before.len() && !in_range(rows@, lo as int, hi as int, i) implies #[trigger] mask@[i]
                == before[i] by {
                assert forall|q: int| lo <= q < hi implies (#[trigger] rows@[q]).2 != i by {
                    if rows@[q].2 == i {
                        assert(in_range(rows@, lo as int, hi as int, i));
                    }
                }
            }
        }
        Ok(())
    }
}


// ----------------------------------------------------------------------------
// From records back to rows.
// ----------------------------------------------------------------------------

/// A load counts at least one for a selected row containing the point, and
/// two for two such rows.
proof fn lemma_load_count(s: Seq<i128>, e: Seq<i128>, m: Seq<bool>, x: int, a: int, b: int, j: int)
    requires
        0 <= a < j <= m.len(),
        m[a] && s[a] <= x < e[a],
        0 <= b < j,
    ensures
        load_upto(s, e, m, x, j) >= 1,
        b != a && m[b] && s[b] <= x < e[b] ==> load_upto(s, e, m, x, j) >= 2,
    decreases j,
{
    lemma_load_nonneg(s, e, m, x, j - 1);
    if a < j - 1 {
        if b < j - 1 {
            lemma_load_count(s, e, m, x, a, b, j - 1);
        } else {
            lemma_load_count(s, e, m, x, a, a, j - 1);
        }
    } else if b < j - 1 && m[b] && s[b] <= x < e[b] {
        lemma_load_count(s, e, m, x, b, b, j - 1);
    }
}

proof fn lemma_load_nonneg(s: Seq<i128>, e: Seq<i128>, m: Seq<bool>, x: int, j: int)
    ensures
        load_upto(s, e, m, x, j) >= 0,
    decreases j,
{
    if j > 0 {
        lemma_load_nonneg(s, e, m, x, j - 1);
    }
}

/// Without two selected rows that overlap, at most one selected row contains
/// any point, and a positive load has a witness.
proof fn lemma_load_disjoint(s: Seq<i128>, e: Seq<i128>, m: Seq<bool>, x: int, j: int)
    requires
        non_overlapping(s, e, m),
        0 <= j <= m.len(),
    ensures
        0 <= load_upto(s, e, m, x, j) <= 1,
        load_upto(s, e, m, x, j) == 1 ==> exists|i: int| 0 <= i < j && #[trigger] m[i] && s[i] <= x < e[i],
    decreases j,
{
    if j > 0 {
        lemma_load_disjoint(s, e, m, x, j - 1);
        if load_upto(s, e, m, x, j - 1) == 1 && m[j - 1] && s[j - 1] <= x < e[j - 1] {
            let i = choose|i: int| 0 <= i < j - 1 && #[trigger] m[i] && s[i] <= x < e[i];
            assert(overlaps(s, e, i, j - 1));
            assert(m[i] && m[j - 1]);
        }
    }
}

/// Under capacity one, feasible masks are exactly the masks without two
/// selected overlapping rows.
pub proof fn lemma_fits_one(s: Seq<i128>, e: Seq<i128>, m: Seq<bool>)
    requires
        m.len() == s.len(),
    ensures
        fits(s, e, m, 1) == non_overlapping(s, e, m),
{
    if non_overlapping(s, e, m) {
        assert forall|x: int| #[trigger] load(s, e, m, x) <= 1 by {
            lemma_load_disjoint(s, e, m, x, m.len() as int);
        }
    }
    if fits(s, e, m, 1) {
        assert forall|i: int, j: int|
            #![trigger m[i], m[j]]
            0 <= i < m.len() && 0 <= j < m.len() && i != j && m[i] && m[j] implies !overlaps(s, e, i, j) by {
            if overlaps(s, e, i, j) {
                let x = if s[i] < s[j] { s[j] as int } else { s[i] as int };
                lemma_load_count(s, e, m, x, i, j, m.len() as int);
                assert(load(s, e, m, x) <= 1);
            }
        }
    }
}

/// Under capacity one the optimal masks and the overflows are those of
/// maximum-weight non-overlapping selection.
pub proof fn lemma_capacity_one(s: Seq<i128>, e: Seq<i128>, w: Seq<i128>, r: Result<Vec<bool>, IntervalError>)
    requires
        s.len() == e.len() == w.len(),
        valid_rows(s, e),
        schedule_outcome(s, e, w, r),
    ensures
        capacity_outcome(s, e, w, 1, r),
{
    match r {
        Ok(m) => {
            lemma_fits_one(s, e, m@);
            assert forall|m2: Seq<bool>| #[trigger] fits(s, e, m2, 1) implies mask_weight(w, m2) <= mask_weight(
                w,
                m@,
            ) by {
                lemma_fits_one(s, e, m2);
            }
        },
        Err(err) => {
            let m2 = choose|m2: Seq<bool>| #[trigger] non_overlapping(s, e, m2) && mask_weight(w, m2) > i128::MAX;
            lemma_fits_one(s, e, m2);
        },
    }
}

/// Sums over records agree for masks that agree on the records' rows.
proof fn lemma_rows_agree(rows: Seq<Triple>, w: Seq<i128>, m1: Seq<bool>, m2: Seq<bool>, x: int)
    requires
        forall|k: int| 0 <= k < rows.len() ==> m1[(#[trigger] rows[k]).2 as int] == m2[rows[k].2 as int],
    ensures
        rows_load(rows, m1, x) == rows_load(rows, m2, x),
        rows_weight(rows, w, m1) == rows_weight(rows, w, m2),
{
    lemma_seq_sum_le(rows, at_point(m1, x), at_point(m2, x));
    lemma_seq_sum_le(rows, at_point(m2, x), at_point(m1, x));
    lemma_seq_sum_le(rows, row_weight(w, m1), row_weight(w, m2));
    lemma_seq_sum_le(rows, row_weight(w, m2), row_weight(w, m1));
}

/// Loads of a mask on records are at least zero.
proof fn lemma_rows_load_nonneg(rows: Seq<Triple>, m: Seq<bool>, x: int)
    ensures
        rows_load(rows, m, x) >= 0,
{
    lemma_seq_sum_le(rows, |t: Triple| 0int, at_point(m, x));
    lemma_seq_sum_zero(rows);
}

proof fn lemma_seq_sum_zero(rows: Seq<Triple>)
    ensures
        seq_sum(rows, |t: Triple| 0int) == 0,
    decreases rows.len(),
{
    if rows.len() > 0 {
        lemma_seq_sum_zero(rows.drop_last());
    }
}

/// For a mask that selects only positive rows, its weight is that of its
/// selected positive non-empty rows plus the positive empty ones.
proof fn lemma_weight_positive(s: Seq<i128>, e: Seq<i128>, w: Seq<i128>, m: Seq<bool>, j: int)
    requires
        s.len() == e.len() == w.len() == m.len(),
        valid_rows(s, e),
        0 <= j <= s.len(),
        forall|i: int| 0 <= i < m.len() && #[trigger] m[i] ==> w[i] > 0 && s[i] < e[i],
    ensures
        weight_upto(w, m, j) == selected_nonempty_total(s, e, w, m, j),
    decreases j,
{
    if j > 0 {
        lemma_weight_positive(s, e, w, m, j - 1);
    }
}

/// With only positive rows selected, prefix weights grow from zero.
proof fn lemma_weight_grows(w: Seq<i128>, m: Seq<bool>, a: int, b: int)
    requires
        0 <= a <= b <= m.len() <= w.len(),
        forall|i: int| 0 <= i < m.len() && #[trigger] m[i] ==> w[i] > 0,
    ensures
        0 <= weight_upto(w, m, a) <= weight_upto(w, m, b),
    decreases b,
{
    if b > 0 {
        if a < b {
            lemma_weight_grows(w, m, a, b - 1);
        } else {
            lemma_weight_grows(w, m, b - 1, b - 1);
        }
    }
}

/// From the records back to the rows: a mask that keeps the prepared marks
/// off the records and is feasible and optimal on the records is feasible and
/// optimal on the rows.
proof fn lemma_lift(
    s: Seq<i128>,
    e: Seq<i128>,
    w: Seq<i128>,
    k: int,
    rows: Seq<Triple>,
    base: Seq<bool>,
    m: Seq<bool>,
)
    requires
        s.len() == e.len() == w.len(),
        s.len() <= usize::MAX,
        k > 0,
        prepared(s, e, w, k, rows, base),
        m.len() == s.len(),
        forall|i: int| 0 <= i < m.len() && !in_range(rows, 0, rows.len() as int, i) ==> #[trigger] m[i] == base[i],
        rows_fit(rows, m, k),
        forall|m2: Seq<bool>| #[trigger] rows_fit(rows, m2, k) ==> rows_weight(rows, w, m2) <= rows_weight(rows, w, m),
    ensures
        fits(s, e, m, k),
        forall|i: int| 0 <= i < m.len() && #[trigger] m[i] ==> w[i] > 0,
        forall|i: int| 0 <= i < m.len() && positive_empty(s, e, w, i) ==> #[trigger] m[i],
        forall|m2: Seq<bool>| #[trigger] fits(s, e, m2, k) ==> mask_weight(w, m2) <= mask_weight(w, m),
{
    let n = s.len() as int;
    let all = start_rows(s, e, w, n);
    assert forall|i: int| 0 <= i < m.len() && #[trigger] m[i] implies w[i] > 0 by {
        if in_range(rows, 0, rows.len() as int, i) {
            let q = choose|q: int| 0 <= q < rows.len() && (#[trigger] rows[q]).2 == i;
            assert(start_record(s, e, w, rows[q]));
        }
    }
    assert forall|i: int| 0 <= i < m.len() && positive_empty(s, e, w, i) implies #[trigger] m[i] by {
        if in_range(rows, 0, rows.len() as int, i) {
            let q = choose|q: int| 0 <= q < rows.len() && (#[trigger] rows[q]).2 == i;
            assert(start_record(s, e, w, rows[q]));
        }
    }
    assert forall|x: int| #[trigger] load(s, e, m, x) <= k by {
        lemma_start_rows_load(s, e, w, m, x, n);
        lemma_seq_sum_multiset(rows, all, at_point(m, x));
        assert(rows_load(rows, m, x) <= k);
    }
    lemma_weight_split(s, e, w, m, n);
    lemma_start_rows_weight(s, e, w, m, n);
    lemma_seq_sum_multiset(rows, all, row_weight(w, m));
    assert forall|m2: Seq<bool>| #[trigger] fits(s, e, m2, k) implies mask_weight(w, m2) <= mask_weight(w, m) by {
        assert forall|x: int| #[trigger] rows_load(rows, m2, x) <= k by {
            lemma_start_rows_load(s, e, w, m2, x, n);
            lemma_seq_sum_multiset(rows, all, at_point(m2, x));
            assert(load(s, e, m2, x) <= k);
        }
        assert(rows_fit(rows, m2, k));
        lemma_weight_split(s, e, w, m2, n);
        lemma_start_rows_weight(s, e, w, m2, n);
        lemma_seq_sum_multiset(rows, all, row_weight(w, m2));
    }
}

/// Under capacity zero only the positive empty rows can be selected.
proof fn lemma_zero_capacity(s: Seq<i128>, e: Seq<i128>, w: Seq<i128>, base: Seq<bool>)
    requires
        s.len() == e.len() == w.len() == base.len(),
        valid_rows(s, e),
        forall|i: int| 0 <= i < s.len() ==> #[trigger] base[i] == positive_empty(s, e, w, i),
    ensures
        capacity_optimal(s, e, w, 0, base) || mask_weight(w, base) > i128::MAX,
        mask_weight(w, base) > i128::MAX ==> capacity_overflows(s, e, w, 0),
{
    let n = s.len() as int;
    assert forall|x: int| #[trigger] load(s, e, base, x) <= 0 by {
        lemma_load_zero(s, e, base, x, n);
    }
    lemma_weight_split(s, e, w, base, n);
    lemma_nonempty_none(s, e, w, base, n);
    assert forall|m2: Seq<bool>| #[trigger] fits(s, e, m2, 0) implies mask_weight(w, m2) <= mask_weight(w, base) by {
        lemma_weight_split(s, e, w, m2, n);
        lemma_nonempty_none(s, e, w, m2, n);
    }
}

proof fn lemma_load_zero(s: Seq<i128>, e: Seq<i128>, m: Seq<bool>, x: int, j: int)
    requires
        0 <= j <= m.len() <= s.len(),
        s.len() == e.len(),
        forall|i: int| 0 <= i < m.len() && #[trigger] m[i] ==> s[i] == e[i],
    ensures
        load_upto(s, e, m, x, j) == 0,
    decreases j,
{
    if j > 0 {
        lemma_load_zero(s, e, m, x, j - 1);
    }
}

/// A mask that fits capacity zero selects no positive non-empty row.
proof fn lemma_nonempty_none(s: Seq<i128>, e: Seq<i128>, w: Seq<i128>, m: Seq<bool>, j: int)
    requires
        s.len() == e.len() == w.len() == m.len(),
        0 <= j <= s.len(),
        fits(s, e, m, 0) || forall|i: int| 0 <= i < m.len() && #[trigger] m[i] ==> s[i] == e[i],
    ensures
        selected_nonempty_total(s, e, w, m, j) == 0,
    decreases j,
{
    if j > 0 {
        lemma_nonempty_none(s, e, w, m, j - 1);
        if positive_nonempty(s, e, w, j - 1) && m[j - 1] {
            if fits(s, e, m, 0) {
                lemma_load_count(s, e, m, s[j - 1] as int, j - 1, j - 1, m.len() as int);
                assert(load(s, e, m, s[j - 1] as int) <= 0);
            }
        }
    }
}


/// A sum over records splits at two positions.
proof fn lemma_rows_split(rows: Seq<Triple>, lo: int, hi: int, f: spec_fn(Triple) -> int)
    requires
        0 <= lo <= hi <= rows.len(),
    ensures
        seq_sum(rows, f) == seq_sum(rows.subrange(0, lo), f) + seq_sum(rows.subrange(lo, hi), f) + seq_sum(
            rows.subrange(hi, rows.len() as int),
            f,
        ),
{
    let a = rows.subrange(0, lo);
    let b = rows.subrange(lo, hi);
    let c = rows.subrange(hi, rows.len() as int);
    assert(rows =~= a + b + c);
    lemma_seq_sum_append(a + b, c, f);
    lemma_seq_sum_append(a, b, f);
}

/// Terms that vanish on every record make a zero sum.
proof fn lemma_rows_vanish(rows: Seq<Triple>, f: spec_fn(Triple) -> int)
    requires
        forall|k: int| 0 <= k < rows.len() ==> f(#[trigger] rows[k]) == 0,
    ensures
        seq_sum(rows, f) == 0,
{
    lemma_seq_sum_le(rows, f, |t: Triple| 0int);
    lemma_seq_sum_le(rows, |t: Triple| 0int, f);
    lemma_seq_sum_zero(rows);
}

/// A heavy selection within capacity one of a component gives a feasible mask
/// of the rows under any positive capacity that outweighs `i128::MAX`.
proof fn lemma_component_overflow(
    s: Seq<i128>,
    e: Seq<i128>,
    w: Seq<i128>,
    k: int,
    rows: Seq<Triple>,
    base: Seq<bool>,
    lo: int,
    hi: int,
    m2: Seq<bool>,
)
    requires
        s.len() == e.len() == w.len(),
        s.len() <= usize::MAX,
        k >= 1,
        prepared(s, e, w, k, rows, base),
        0 <= lo < hi <= rows.len(),
        m2.len() == w.len(),
        rows_fit(rows.subrange(lo, hi), m2, 1),
        rows_weight(rows.subrange(lo, hi), w, m2) > i128::MAX,
    ensures
        capacity_overflows(s, e, w, k),
{
    let n = s.len() as int;
    let all = start_rows(s, e, w, n);
    let comp = rows.subrange(lo, hi);
    let len = rows.len() as int;
    let m3 = Seq::new(n as nat, |i: int| m2[i] && in_range(rows, lo, hi, i));
    assert forall|i: int| 0 <= i < m3.len() && #[trigger] m3[i] implies w[i] > 0 && s[i] < e[i] by {
        let q = choose|q: int| lo <= q < hi && (#[trigger] rows[q]).2 == i;
        assert(start_record(s, e, w, rows[q]));
    }
    // Outside the component the new mask selects nothing; inside it agrees.
    assert forall|k2: int| 0 <= k2 < lo implies !m3[(#[trigger] rows.subrange(0, lo)[k2]).2 as int] by {
        assert(rows.subrange(0, lo)[k2] == rows[k2]);
        if in_range(rows, lo, hi, rows[k2].2 as int) {
            let q = choose|q: int| lo <= q < hi && (#[trigger] rows[q]).2 == rows[k2].2;
        }
    }
    assert forall|k2: int| 0 <= k2 < len - hi implies !m3[(#[trigger] rows.subrange(hi, len)[k2]).2 as int] by {
        assert(rows.subrange(hi, len)[k2] == rows[hi + k2]);
        if in_range(rows, lo, hi, rows[hi + k2].2 as int) {
            let q = choose|q: int| lo <= q < hi && (#[trigger] rows[q]).2 == rows[hi + k2].2;
        }
    }
    assert forall|k2: int| 0 <= k2 < comp.len() implies m3[(#[trigger] comp[k2]).2 as int] == m2[comp[k2].2 as int] by {
        assert(comp[k2] == rows[lo + k2]);
        assert(start_record(s, e, w, rows[lo + k2]));
        assert(in_range(rows, lo, hi, rows[lo + k2].2 as int));
    }
    assert forall|x: int| #[trigger] load(s, e, m3, x) <= k by {
        lemma_start_rows_load(s, e, w, m3, x, n);
        lemma_seq_sum_multiset(rows, all, at_point(m3, x));
        lemma_rows_split(rows, lo, hi, at_point(m3, x));
        lemma_rows_vanish(rows.subrange(0, lo), at_point(m3, x));
        lemma_rows_vanish(rows.subrange(hi, len), at_point(m3, x));
        lemma_rows_agree(comp, w, m3, m2, x);
        assert(rows_load(comp, m2, x) <= 1);
    }
    lemma_weight_positive(s, e, w, m3, n);
    lemma_start_rows_weight(s, e, w, m3, n);
    lemma_seq_sum_multiset(rows, all, row_weight(w, m3));
    lemma_rows_split(rows, lo, hi, row_weight(w, m3));
    lemma_rows_vanish(rows.subrange(0, lo), row_weight(w, m3));
    lemma_rows_vanish(rows.subrange(hi, len), row_weight(w, m3));
    lemma_rows_agree(comp, w, m3, m2, 0);
    assert(fits(s, e, m3, k));
}

/// Adding the next component, separated from the rows before it, to a prefix
/// keeps the mask feasible and optimal on the longer prefix.
proof fn lemma_extend(
    rows: Seq<Triple>,
    w: Seq<i128>,
    k: int,
    b: int,
    b2: int,
    before: Seq<bool>,
    after: Seq<bool>,
)
    requires
        0 <= b < b2 <= rows.len(),
        k >= 0,
        sorted3(rows),
        forall|p: int, q: int| 0 <= p < b <= q < rows.len() ==> (#[trigger] rows[p]).1 <= (#[trigger] rows[q]).0,
        forall|a: int, c: int| 0 <= a < c < rows.len() ==> (#[trigger] rows[a]).2 != (#[trigger] rows[c]).2,
        after.len() == before.len(),
        forall|q: int| 0 <= q < rows.len() ==> (#[trigger] rows[q]).2 < before.len(),
        forall|i: int| 0 <= i < after.len() && !in_range(rows, b, b2, i) ==> #[trigger] after[i] == before[i],
        rows_fit(rows.subrange(0, b), before, k),
        forall|m2: Seq<bool>|
            #[trigger] rows_fit(rows.subrange(0, b), m2, k) ==> rows_weight(rows.subrange(0, b), w, m2) <= rows_weight(
                rows.subrange(0, b),
                w,
                before,
            ),
        rows_fit(rows.subrange(b, b2), after, k),
        forall|m2: Seq<bool>|
            #[trigger] rows_fit(rows.subrange(b, b2), m2, k) ==> rows_weight(rows.subrange(b, b2), w, m2)
                <= rows_weight(rows.subrange(b, b2), w, after),
    ensures
        rows_fit(rows.subrange(0, b2), after, k),
        forall|m2: Seq<bool>|
            #[trigger] rows_fit(rows.subrange(0, b2), m2, k) ==> rows_weight(rows.subrange(0, b2), w, m2)
                <= rows_weight(rows.subrange(0, b2), w, after),
{
    let pre = rows.subrange(0, b);
    let comp = rows.subrange(b, b2);
    let whole = rows.subrange(0, b2);
    assert(whole =~= pre + comp);
    assert forall|k2: int| 0 <= k2 < pre.len() implies before[(#[trigger] pre[k2]).2 as int] == after[pre[k2].2 as int] by {
        assert(pre[k2] == rows[k2]);
        if in_range(rows, b, b2, rows[k2].2 as int) {
            let q = choose|q: int| b <= q < b2 && (#[trigger] rows[q]).2 == rows[k2].2;
        }
    }
    assert forall|x: int| #[trigger] rows_load(whole, after, x) <= k by {
        lemma_seq_sum_append(pre, comp, at_point(after, x));
        lemma_rows_agree(pre, w, before, after, x);
        assert(rows_load(pre, before, x) <= k);
        assert(rows_load(comp, after, x) <= k);
        if x >= rows[b].0 {
            assert forall|k2: int| 0 <= k2 < pre.len() implies at_point(after, x)(#[trigger] pre[k2]) == 0 by {
                assert(pre[k2] == rows[k2]);
                assert(rows[k2].1 <= rows[b].0);
            }
            lemma_rows_vanish(pre, at_point(after, x));
        } else {
            assert forall|k2: int| 0 <= k2 < comp.len() implies at_point(after, x)(#[trigger] comp[k2]) == 0 by {
                assert(comp[k2] == rows[b + k2]);
                if k2 > 0 {
                    assert(le3(rows[b], rows[b + k2]));
                }
            }
            lemma_rows_vanish(comp, at_point(after, x));
        }
    }
    lemma_seq_sum_append(pre, comp, row_weight(w, after));
    lemma_rows_agree(pre, w, before, after, 0);
    assert forall|m2: Seq<bool>| #[trigger] rows_fit(whole, m2, k) implies rows_weight(whole, w, m2) <= rows_weight(
        whole,
        w,
        after,
    ) by {
        assert forall|x: int| #[trigger] rows_load(pre, m2, x) <= k by {
            lemma_seq_sum_append(pre, comp, at_point(m2, x));
            lemma_rows_load_nonneg(comp, m2, x);
            assert(rows_load(whole, m2, x) <= k);
        }
        assert forall|x: int| #[trigger] rows_load(comp, m2, x) <= k by {
            lemma_seq_sum_append(pre, comp, at_point(m2, x));
            lemma_rows_load_nonneg(pre, m2, x);
            assert(rows_load(whole, m2, x) <= k);
        }
        assert(rows_fit(pre, m2, k));
        assert(rows_fit(comp, m2, k));
        lemma_seq_sum_append(pre, comp, row_weight(w, m2));
    }
}


// ----------------------------------------------------------------------------
// The algorithm.
// ----------------------------------------------------------------------------

/// The result of capacity scheduling on rows of the given lengths: empty input
/// gives an empty mask; unequal lengths are reported; valid rows give
/// `capacity_outcome`; otherwise the first reversed row is reported. Capacity
/// one answers as maximum-weight non-overlapping selection does.
pub open spec fn capacity_result(
    s: Seq<i128>,
    e: Seq<i128>,
    w: Seq<i128>,
    k: int,
    r: Result<Vec<bool>, IntervalError>,
) -> bool {
    if s.len() == 0 && e.len() == 0 && w.len() == 0 {
        r matches Ok(m) && m@.len() == 0
    } else if s.len() != e.len() {
        r == Err::<Vec<bool>, IntervalError>(
            IntervalError::LengthMismatch { starts_len: s.len() as usize, ends_len: e.len() as usize },
        )
    } else if s.len() != w.len() {
        r == Err::<Vec<bool>, IntervalError>(
            IntervalError::WeightLengthMismatch { intervals_len: s.len() as usize, weights_len: w.len() as usize },
        )
    } else if valid_rows(s, e) {
        capacity_outcome(s, e, w, k, r) && (k == 1 ==> schedule_outcome(s, e, w, r))
    } else if k == 1 {
        schedule_outcome(s, e, w, r)
    } else {
        match r {
            Err(IntervalError::InvalidInterval { index }) => is_first_reversed(s, e, index as int),
            _ => false,
        }
    }
}

/// Every range ends by the end of the last one.
proof fn lemma_ranges_end(ranges: Seq<(usize, usize)>, c: int)
    requires
        0 <= c < ranges.len(),
        forall|d: int| 0 <= d < ranges.len() ==> (#[trigger] ranges[d]).0 < ranges[d].1,
        forall|d: int| 0 <= d < ranges.len() - 1 ==> (#[trigger] ranges[d]).1 == ranges[d + 1].0,
    ensures
        ranges[c].1 <= ranges[ranges.len() - 1].1,
    decreases ranges.len() - c,
{
    if c < ranges.len() - 1 {
        lemma_ranges_end(ranges, c + 1);
    }
}

/// Capacity scheduling over endpoint and weight ordinals.
pub fn capacity_keys(s: &Vec<i128>, e: &Vec<i128>, w: &Vec<i128>, capacity: usize) -> (r: Result<
    Vec<bool>,
    IntervalError,
>)
    requires
        s.len() < usize::MAX / 16,
    ensures
        capacity_result(s@, e@, w@, capacity as int, r),
{
    if s.len() == 0 && e.len() == 0 && w.len() == 0 {
        return Ok(Vec::new());
    }
    if capacity == 1 {
        if s.len() != e.len() {
            return Err(IntervalError::LengthMismatch { starts_len: s.len(), ends_len: e.len() });
        }
        if s.len() != w.len() {
            return Err(IntervalError::WeightLengthMismatch { intervals_len: s.len(), weights_len: w.len() });
        }
        let r = schedule(s, e, w);
        proof {
            if valid_rows(s@, e@) {
                lemma_capacity_one(s@, e@, w@, r);
            }
        }
        return r;
    }
    let (rows, mut mask) = match prepare(s, e, w, capacity) {
        Ok(x) => x,
        Err(err) => {
            return Err(err);
        },
    };
    let ghost base = mask@;
    let ghost n = s.len() as int;
    let ghost k = capacity as int;
    let count = rows.len();
    proof {
        if capacity > 0 {
            assert(sorted3(rows@.subrange(0, count as int))) by {
                assert(rows@.subrange(0, count as int) =~= rows@);
            }
            lemma_sorted_starts(rows@.subrange(0, count as int));
            lemma_sorted_starts(rows@);
            assert forall|q: int| 0 <= q < count implies (#[trigger] rows@[q]).0 < rows@[q].1 by {
                assert(start_record(s@, e@, w@, rows@[q]));
            }
        }
    }
    if concurrency(&rows, 0, count) <= capacity {
        let mut q: usize = 0;
        while q < count
            invariant
                count == rows.len(),
                q <= count,
                n == s.len() == e.len() == w.len(),
                mask.len() == n,
                capacity > 0 ==> records_ok(s@, e@, w@, rows@),
                capacity == 0 ==> count == 0,
                forall|x: int| 0 <= x < q ==> mask@[(#[trigger] rows@[x]).2 as int],
                forall|i: int| 0 <= i < n && !in_range(rows@, 0, q as int, i) ==> #[trigger] mask@[i] == base[i],
            decreases count - q,
        {
            proof {
                assert(start_record(s@, e@, w@, rows@[q as int]));
            }
            mask.set(rows[q].2, true);
            proof {
                assert forall|x: int| 0 <= x < q + 1 implies mask@[(#[trigger] rows@[x]).2 as int] by {
                }
                assert forall|i: int| 0 <= i < n && !in_range(rows@, 0, q + 1, i) implies #[trigger] mask@[i]
                    == base[i] by {
                    assert(rows@[q as int].2 != i);
                    if in_range(rows@, 0, q as int, i) {
                        let x = choose|x: int| 0 <= x < q && (#[trigger] rows@[x]).2 == i;
                    }
                }
            }
            q += 1;
        }
        proof {
            if capacity > 0 {
                let m = mask@;
                assert(rows@.subrange(0, count as int) =~= rows@);
                assert forall|x: int| #[trigger] rows_load(rows@, m, x) <= k by {
                    lemma_seq_sum_le(rows@, at_point(m, x), spans(x));
                    assert(depth(rows@, x) <= k);
                }
                assert forall|m2: Seq<bool>| #[trigger] rows_fit(rows@, m2, k) implies rows_weight(rows@, w@, m2)
                    <= rows_weight(rows@, w@, m) by {
                    assert forall|x: int| 0 <= x < rows.len() implies row_weight(w@, m2)(#[trigger] rows@[x])
                        <= row_weight(w@, m)(rows@[x]) by {
                        assert(start_record(s@, e@, w@, rows@[x]));
                    }
                    lemma_seq_sum_le(rows@, row_weight(w@, m2), row_weight(w@, m));
                }
                lemma_lift(s@, e@, w@, k, rows@, base, m);
            } else {
                assert(mask@ =~= base);
                lemma_zero_capacity(s@, e@, w@, base);
            }
        }
    } else {
        let ranges = components(&rows);
        let mut c: usize = 0;
        let ghost mut b: int = 0;
        proof {
            assert(count > 0);
            assert(rows_fit(rows@.subrange(0, 0), mask@, k));
            lemma_start_rows_len(s@, e@, w@, n);
            assert(rows@.to_multiset().len() == start_rows(s@, e@, w@, n).to_multiset().len());
            broadcast use group_to_multiset_ensures;
        }
        while c < ranges.len()
            invariant
                count == rows.len() > 0,
                count <= n,
                capacity >= 2,
                k == capacity,
                n == s.len() == e.len() == w.len(),
                n < usize::MAX / 16,
                mask.len() == n,
                records_ok(s@, e@, w@, rows@),
                prepared(s@, e@, w@, k, rows@, base),
                ranges.len() > 0,
                ranges@[0].0 == 0,
                ranges@[ranges.len() - 1].1 == count,
                forall|d: int| 0 <= d < ranges.len() ==> (#[trigger] ranges@[d]).0 < ranges@[d].1,
                forall|d: int| 0 <= d < ranges.len() - 1 ==> (#[trigger] ranges@[d]).1 == ranges@[d + 1].0,
                forall|d: int, p: int, q: int|
                    0 <= d < ranges.len() && 0 <= p < (#[trigger] ranges@[d]).0 <= q < rows.len() ==> (
                    #[trigger] rows@[p]).1 <= (#[trigger] rows@[q]).0,
                c <= ranges.len(),
                c < ranges.len() ==> b == ranges@[c as int].0,
                c == ranges.len() ==> b == count,
                0 <= b <= count,
                forall|i: int| 0 <= i < n && !in_range(rows@, 0, b, i) ==> #[trigger] mask@[i] == base[i],
                rows_fit(rows@.subrange(0, b), mask@, k),
                forall|m2: Seq<bool>|
                    #[trigger] rows_fit(rows@.subrange(0, b), m2, k) ==> rows_weight(rows@.subrange(0, b), w@, m2)
                        <= rows_weight(rows@.subrange(0, b), w@, mask@),
            decreases ranges.len() - c,
        {
            let lo = ranges[c].0;
            let hi = ranges[c].1;
            proof {
                lemma_ranges_end(ranges@, c as int);
                assert(sorted3(rows@.subrange(lo as int, hi as int))) by {
                    assert forall|a: int, d: int| 0 <= a < d < hi - lo implies le3(
                        #[trigger] rows@.subrange(lo as int, hi as int)[a],
                        #[trigger] rows@.subrange(lo as int, hi as int)[d],
                    ) by {
                        assert(le3(rows@[lo + a], rows@[lo + d]));
                    }
                }
                assert forall|q: int| lo <= q < hi implies (#[trigger] rows@[q]).0 < rows@[q].1 && rows@[q].2 < w.len()
                    && w@[rows@[q].2 as int] > 0 by {
                    assert(start_record(s@, e@, w@, rows@[q]));
                }
            }
            let ghost before = mask@;
            match solve_component(&rows, lo, hi, w, capacity, &mut mask) {
                Ok(()) => {},
                Err(err) => {
                    proof {
                        let m2 = choose|m2: Seq<bool>|
                            m2.len() == w.len() && #[trigger] rows_fit(rows@.subrange(lo as int, hi as int), m2, 1)
                                && rows_weight(rows@.subrange(lo as int, hi as int), w@, m2) > i128::MAX;
                        lemma_component_overflow(s@, e@, w@, k, rows@, base, lo as int, hi as int, m2);
                    }
                    return Err(err);
                },
            }
            proof {
                lemma_extend(rows@, w@, k, lo as int, hi as int, before, mask@);
                assert forall|i: int| 0 <= i < n && !in_range(rows@, 0, hi as int, i) implies #[trigger] mask@[i]
                    == base[i] by {
                    if in_range(rows@, lo as int, hi as int, i) {
                        let q = choose|q: int| lo <= q < hi && (#[trigger] rows@[q]).2 == i;
                    }
                    if in_range(rows@, 0, lo as int, i) {
                        let q = choose|q: int| 0 <= q < lo && (#[trigger] rows@[q]).2 == i;
                    }
                }
                b = hi as int;
            }
            c += 1;
        }
        proof {
            assert(rows@.subrange(0, count as int) =~= rows@);
            lemma_lift(s@, e@, w@, k, rows@, base, mask@);
        }
    }
    let ghost m = mask@;
    match check_objective(w, &mask) {
        Ok(_) => {
            proof {
                if capacity == 0 {
                    assert(m =~= base);
                    lemma_zero_capacity(s@, e@, w@, base);
                }
            }
            Ok(mask)
        },
        Err(err) => {
            proof {
                let j = choose|j: int| 0 <= j <= w.len() && !(i128::MIN <= #[trigger] weight_upto(w@, m, j) <= i128::MAX);
                if capacity == 0 {
                    assert(m =~= base);
                    lemma_zero_capacity(s@, e@, w@, base);
                }
                lemma_weight_grows(w@, m, j, n);
            }
            Err(err)
        },
    }
}


/// Select a globally maximum-weight subset subject to a maximum simultaneous
/// capacity.
///
/// Returns a Boolean mask in original row order for half-open `[start, end)`
/// intervals: no point lies in more than `capacity` selected intervals.
/// Positive empty intervals are always selected and consume no capacity.
/// Nonpositive rows are never selected. Capacity zero selects only positive
/// empty intervals; capacity one selects as [`crate::weighted::max_weight_non_overlapping`]
/// does. Other capacities filter the positive non-empty rows, select them all
/// when the capacity is sufficient, and otherwise solve each independent
/// overlap component by minimum-cost flow. Weights widen losslessly to `i128`;
/// arithmetic and the selected objective are checked, and a weight overflow
/// is reported exactly when some feasible selection outweighs `i128::MAX`.
/// Beyond capacity one, which of several optimal masks is returned is not stated.
pub fn max_weight_with_capacity<T: Endpoint, W: Weight>(
    starts: &[T],
    ends: &[T],
    weights: &[W],
    capacity: usize,
) -> (r: Result<Vec<bool>, IntervalError>)
    requires
        starts.len() < usize::MAX / 16,
    ensures
        capacity_result(ordinals(starts@), ordinals(ends@), amounts(weights@), capacity as int, r),
{
    let s = ordinals_of(starts);
    let e = ordinals_of(ends);
    let w = amounts_of(weights);
    capacity_keys(&s, &e, &w, capacity)
}

// ----------------------------------------------------------------------------
// Laws across capacities.
// ----------------------------------------------------------------------------

/// The mask that selects exactly the rows of positive weight.
pub open spec fn positive_mask(w: Seq<i128>) -> Seq<bool> {
    Seq::new(w.len(), |i: int| w[i] > 0)
}

/// A selection that fits a capacity fits every larger capacity.
pub proof fn lemma_fits_larger(s: Seq<i128>, e: Seq<i128>, m: Seq<bool>, k1: int, k2: int)
    requires
        k1 <= k2,
        fits(s, e, m, k1),
    ensures
        fits(s, e, m, k2),
{
    assert forall|x: int| #[trigger] load(s, e, m, x) <= k2 by {
        assert(load(s, e, m, x) <= k1);
    }
}

/// More capacity never lowers the optimum: an optimal selection under a
/// capacity weighs at most as much as an optimal selection under any larger
/// capacity.
pub proof fn lemma_capacity_monotone(
    s: Seq<i128>,
    e: Seq<i128>,
    w: Seq<i128>,
    k1: int,
    k2: int,
    m1: Seq<bool>,
    m2: Seq<bool>,
)
    requires
        k1 <= k2,
        capacity_optimal(s, e, w, k1, m1),
        capacity_optimal(s, e, w, k2, m2),
    ensures
        mask_weight(w, m1) <= mask_weight(w, m2),
{
    lemma_fits_larger(s, e, m1, k1, k2);
}

/// A weight overflow under a capacity is a weight overflow under every larger
/// capacity.
pub proof fn lemma_overflow_monotone(s: Seq<i128>, e: Seq<i128>, w: Seq<i128>, k1: int, k2: int)
    requires
        k1 <= k2,
        capacity_overflows(s, e, w, k1),
    ensures
        capacity_overflows(s, e, w, k2),
{
    let m = choose|m: Seq<bool>| #[trigger] fits(s, e, m, k1) && mask_weight(w, m) > i128::MAX;
    lemma_fits_larger(s, e, m, k1, k2);
}

/// Capacity zero selects exactly the positive empty rows.
pub proof fn lemma_capacity_zero(s: Seq<i128>, e: Seq<i128>, w: Seq<i128>, m: Seq<bool>)
    requires
        s.len() == e.len() == w.len(),
        valid_rows(s, e),
        capacity_optimal(s, e, w, 0, m),
    ensures
        forall|i: int| 0 <= i < m.len() ==> #[trigger] m[i] == positive_empty(s, e, w, i),
{
    assert forall|i: int| 0 <= i < m.len() && #[trigger] m[i] implies positive_empty(s, e, w, i) by {
        if s[i] < e[i] {
            lemma_load_count(s, e, m, s[i] as int, i, i, m.len() as int);
            assert(load(s, e, m, s[i] as int) <= 0);
        }
    }
}

/// Against the mask of positive rows, a mask that selects only positive rows
/// weighs no more, and at least `w[i]` less when it leaves out the positive
/// row `i`.
proof fn lemma_short_of_positive(w: Seq<i128>, m: Seq<bool>, i: int, j: int)
    requires
        m.len() == w.len(),
        0 <= j <= m.len(),
        forall|a: int| 0 <= a < m.len() && #[trigger] m[a] ==> w[a] > 0,
    ensures
        weight_upto(w, m, j) <= weight_upto(w, positive_mask(w), j),
        0 <= i < j && w[i] > 0 && !m[i] ==> weight_upto(w, m, j) + w[i] <= weight_upto(
            w,
            positive_mask(w),
            j,
        ),
    decreases j,
{
    if j > 0 {
        lemma_short_of_positive(w, m, i, j - 1);
    }
}

/// When no point lies in more than `k` positive rows, the optimum under
/// capacity `k` selects exactly the positive rows.
pub proof fn lemma_capacity_sufficient(s: Seq<i128>, e: Seq<i128>, w: Seq<i128>, k: int, m: Seq<bool>)
    requires
        s.len() == e.len() == w.len(),
        fits(s, e, positive_mask(w), k),
        capacity_optimal(s, e, w, k, m),
    ensures
        forall|i: int| 0 <= i < m.len() ==> #[trigger] m[i] == (w[i] > 0),
{
    let p = positive_mask(w);
    assert(mask_weight(w, p) <= mask_weight(w, m));
    assert forall|i: int| 0 <= i < m.len() implies #[trigger] m[i] == (w[i] > 0) by {
        lemma_short_of_positive(w, m, i, m.len() as int);
    }
}

/// The selected rows among the first `j` whose interval contains the point `x`.
pub open spec fn selected_at(s: Seq<i128>, e: Seq<i128>, m: Seq<bool>, x: int, j: int) -> Set<int> {
    Set::new(|i: int| 0 <= i < j && m[i] && s[i] <= x < e[i])
}

proof fn lemma_selected_at(s: Seq<i128>, e: Seq<i128>, m: Seq<bool>, x: int, j: int)
    requires
        0 <= j,
    ensures
        selected_at(s, e, m, x, j).finite(),
        selected_at(s, e, m, x, j).len() == load_upto(s, e, m, x, j),
    decreases j,
{
    if j == 0 {
        assert(selected_at(s, e, m, x, 0) =~= Set::empty());
    } else {
        lemma_selected_at(s, e, m, x, j - 1);
        if m[j - 1] && s[j - 1] <= x < e[j - 1] {
            assert(selected_at(s, e, m, x, j) =~= selected_at(s, e, m, x, j - 1).insert(j - 1));
        } else {
            assert(selected_at(s, e, m, x, j) =~= selected_at(s, e, m, x, j - 1));
        }
    }
}

/// The load of any selection at a point is at most the number of intervals
/// that contain the point.
pub proof fn lemma_load_at_most_active(s: Seq<i128>, e: Seq<i128>, m: Seq<bool>, x: int)
    requires
        s.len() == e.len(),
    ensures
        load(s, e, m, x) <= active_count(s, e, x),
{
    let n = s.len() as int;
    lemma_selected_at(s, e, m, x, n);
    lemma_int_range(0, n);
    lemma_len_subset(active_set(s, e, x), set_int_range(0, n));
    lemma_len_subset(selected_at(s, e, m, x, n), active_set(s, e, x));
}

/// Capacity at least the number of lanes of an optimal lane assignment, which
/// is the largest number of intervals that share a point, is sufficient: the
/// optimum under it selects exactly the positive rows.
pub proof fn lemma_lanes_suffice(
    s: Seq<i128>,
    e: Seq<i128>,
    w: Seq<i128>,
    lanes: Seq<u32>,
    k: int,
    m: Seq<bool>,
)
    requires
        s.len() == e.len() == w.len(),
        optimal_lanes(s, e, lanes),
        lane_count(lanes) <= k,
        capacity_optimal(s, e, w, k, m),
    ensures
        forall|i: int| 0 <= i < m.len() ==> #[trigger] m[i] == (w[i] > 0),
{
    assert forall|x: int| #[trigger] load(s, e, positive_mask(w), x) <= k by {
        lemma_load_at_most_active(s, e, positive_mask(w), x);
        assert(active_count(s, e, x) <= lane_count(lanes));
    }
    lemma_capacity_sufficient(s, e, w, k, m);
}

/// Capacity one gives exactly the result of maximum-weight non-overlapping
/// selection: the very same mask, or the same error.
pub proof fn lemma_capacity_one_same(
    s: Seq<i128>,
    e: Seq<i128>,
    w: Seq<i128>,
    r1: Result<Vec<bool>, IntervalError>,
    r2: Result<Vec<bool>, IntervalError>,
)
    requires
        capacity_result(s, e, w, 1, r1),
        schedule_result(s, e, w, r2),
    ensures
        same_result(r1, r2),
{
    if s.len() == 0 && e.len() == 0 && w.len() == 0 {
        assert(valid_rows(s, e));
        if r2 is Err {
            let m = choose|m: Seq<bool>| #[trigger] non_overlapping(s, e, m) && mask_weight(w, m) > i128::MAX;
        }
        let m1 = r1->Ok_0;
        let m2 = r2->Ok_0;
        assert(m1@ =~= m2@);
    } else if s.len() != e.len() || s.len() != w.len() {
    } else if valid_rows(s, e) {
        match r1 {
            Ok(m1) => {
                if r2 is Err {
                    let m = choose|m: Seq<bool>| #[trigger] non_overlapping(s, e, m) && mask_weight(w, m) > i128::MAX;
                    assert(mask_weight(w, m) <= mask_weight(w, m1@));
                }
            },
            Err(_) => {
                if r2 is Ok {
                    let m = choose|m: Seq<bool>| #[trigger] non_overlapping(s, e, m) && mask_weight(w, m) > i128::MAX;
                    assert(mask_weight(w, m) <= mask_weight(w, r2->Ok_0@));
                }
            },
        }
    } else {
        match r1 {
            Err(IntervalError::InvalidInterval { index: a }) => {
                match r2 {
                    Err(IntervalError::InvalidInterval { index: b }) => {
                        if a < b {
                            assert(s[a as int] <= e[a as int]);
                        } else if b < a {
                            assert(s[b as int] <= e[b as int]);
                        }
                    },
                    _ => {
                        assert(is_first_reversed(s, e, a as int));
                    },
                }
            },
            _ => {
                match r2 {
                    Err(IntervalError::InvalidInterval { index: b }) => {
                        assert(is_first_reversed(s, e, b as int));
                    },
                    _ => {},
                }
            },
        }
    }
}

} // verus!
