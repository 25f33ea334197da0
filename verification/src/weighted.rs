//! Maximum-weight selection of mutually non-overlapping intervals.
use vstd::prelude::*;
use crate::endpoint::{Endpoint, Weight, ordinals, ordinals_of, amounts, amounts_of};
use crate::error::IntervalError;
use crate::rows::{overlaps, valid_rows, is_first_reversed, shifted, shift_fits};
use crate::sort::{
    Triple, le3, sorted3, seq_sum, sort_triples, count_at_most, lemma_seq_sum_multiset,
    lemma_seq_sum_prefix, lemma_sorted_rows_distinct, lemma_sorted_unique, sorted_of, lemma_sorted_of, lemma_map_same_items, at_most,
};

verus! {

// ----------------------------------------------------------------------------
// The model: masks, their weights, and feasibility.
// ----------------------------------------------------------------------------

/// Row `i` is empty and has a positive weight.
pub open spec fn positive_empty(s: Seq<i128>, e: Seq<i128>, w: Seq<i128>, i: int) -> bool {
    s[i] == e[i] && w[i] > 0
}

/// Row `i` is non-empty and has a positive weight.
pub open spec fn positive_nonempty(s: Seq<i128>, e: Seq<i128>, w: Seq<i128>, i: int) -> bool {
    s[i] < e[i] && w[i] > 0
}

/// The mask has one entry per row, and no two selected rows overlap.
pub open spec fn non_overlapping(s: Seq<i128>, e: Seq<i128>, m: Seq<bool>) -> bool {
    &&& m.len() == s.len()
    &&& forall|i: int, j: int|
        #![trigger m[i], m[j]]
        0 <= i < m.len() && 0 <= j < m.len() && i != j && m[i] && m[j] ==> !overlaps(s, e, i, j)
}

/// Total weight of the selected rows among the first `j`.
pub open spec fn weight_upto(w: Seq<i128>, m: Seq<bool>, j: int) -> int
    decreases j,
{
    if j <= 0 {
        0
    } else {
        weight_upto(w, m, j - 1) + if m[j - 1] {
            w[j - 1] as int
        } else {
            0int
        }
    }
}

/// Total weight of the selected rows.
pub open spec fn mask_weight(w: Seq<i128>, m: Seq<bool>) -> int {
    weight_upto(w, m, m.len() as int)
}

/// Total weight of the positive empty rows among the first `j`.
pub open spec fn empty_total(s: Seq<i128>, e: Seq<i128>, w: Seq<i128>, j: int) -> int
    decreases j,
{
    if j <= 0 {
        0
    } else {
        empty_total(s, e, w, j - 1) + if positive_empty(s, e, w, j - 1) {
            w[j - 1] as int
        } else {
            0int
        }
    }
}

/// Total weight of the selected positive non-empty rows among the first `j`.
pub open spec fn selected_nonempty_total(
    s: Seq<i128>,
    e: Seq<i128>,
    w: Seq<i128>,
    m: Seq<bool>,
    j: int,
) -> int
    decreases j,
{
    if j <= 0 {
        0
    } else {
        selected_nonempty_total(s, e, w, m, j - 1) + if positive_nonempty(s, e, w, j - 1)
            && m[j - 1] {
            w[j - 1] as int
        } else {
            0int
        }
    }
}

/// The mask that selects every positive empty row and the rows at the given
/// positions of `rows`.
pub open spec fn mask_of(
    s: Seq<i128>,
    e: Seq<i128>,
    w: Seq<i128>,
    rows: Seq<Triple>,
    sel: Set<int>,
) -> Seq<bool> {
    Seq::new(
        s.len(),
        |i: int|
            positive_empty(s, e, w, i) || exists|p: int|
                #![trigger sel.contains(p)]
                sel.contains(p) && 0 <= p < rows.len() && rows[p].2 == i,
    )
}

// ----------------------------------------------------------------------------
// The dynamic program over rows sorted by end.
// ----------------------------------------------------------------------------

/// Best total value among the first `j` sorted rows, where row `j - 1` is
/// compatible exactly with the rows before `pred[j - 1]`.
pub open spec fn best_upto(pred: Seq<usize>, val: Seq<i128>, j: int) -> int
    decreases j,
{
    if j <= 0 {
        0
    } else {
        let skip = best_upto(pred, val, j - 1);
        let p = pred[j - 1] as int;
        let take = if p < j {
            best_upto(pred, val, p) + val[j - 1]
        } else {
            val[j - 1] as int
        };
        if take > skip {
            take
        } else {
            skip
        }
    }
}

/// The positions that backtracking from `j` selects.
pub open spec fn chosen(pred: Seq<usize>, val: Seq<i128>, j: int) -> Set<int>
    decreases j,
{
    if j <= 0 {
        Set::empty()
    } else if best_upto(pred, val, j) > best_upto(pred, val, j - 1) {
        let p = pred[j - 1] as int;
        if p < j {
            chosen(pred, val, p).insert(j - 1)
        } else {
            Set::empty().insert(j - 1)
        }
    } else {
        chosen(pred, val, j - 1)
    }
}

/// Sum of `val` over the positions in `sel` below `j`.
pub open spec fn psum(val: Seq<i128>, sel: Set<int>, j: int) -> int
    decreases j,
{
    if j <= 0 {
        0
    } else {
        psum(val, sel, j - 1) + if sel.contains(j - 1) {
            val[j - 1] as int
        } else {
            0int
        }
    }
}

/// Any two selected positions below `j` are compatible.
pub open spec fn compatible_positions(pred: Seq<usize>, sel: Set<int>, j: int) -> bool {
    forall|a: int, b: int|
        #![trigger sel.contains(a), sel.contains(b)]
        0 <= a < b < j && sel.contains(a) && sel.contains(b) ==> a < pred[b]
}

/// Predecessors never point past their row, and all values are positive.
pub open spec fn dp_ready(pred: Seq<usize>, val: Seq<i128>) -> bool {
    &&& pred.len() == val.len()
    &&& forall|q: int| 0 <= q < pred.len() ==> #[trigger] pred[q] <= q
    &&& forall|q: int| 0 <= q < val.len() ==> #[trigger] val[q] > 0
}

proof fn lemma_best_mono(pred: Seq<usize>, val: Seq<i128>, a: int, b: int)
    requires
        dp_ready(pred, val),
        0 <= a <= b <= val.len(),
    ensures
        0 <= best_upto(pred, val, a) <= best_upto(pred, val, b),
    decreases b,
{
    if b > 0 {
        if a < b {
            lemma_best_mono(pred, val, a, b - 1);
        } else {
            lemma_best_mono(pred, val, b - 1, b - 1);
        }
    }
}

proof fn lemma_psum_agree(val: Seq<i128>, s1: Set<int>, s2: Set<int>, j: int)
    requires
        forall|p: int| 0 <= p < j ==> (s1.contains(p) <==> s2.contains(p)),
    ensures
        psum(val, s1, j) == psum(val, s2, j),
    decreases j,
{
    if j > 0 {
        lemma_psum_agree(val, s1, s2, j - 1);
    }
}

proof fn lemma_psum_gap(val: Seq<i128>, sel: Set<int>, a: int, j: int)
    requires
        0 <= a <= j,
        forall|p: int| a <= p < j ==> !sel.contains(p),
    ensures
        psum(val, sel, j) == psum(val, sel, a),
    decreases j,
{
    if j > a {
        lemma_psum_gap(val, sel, a, j - 1);
    }
}

/// Backtracking from `j` selects compatible positions below `j` worth `best_upto(j)`.
proof fn lemma_chosen(pred: Seq<usize>, val: Seq<i128>, j: int)
    requires
        dp_ready(pred, val),
        0 <= j <= val.len(),
    ensures
        forall|p: int| #[trigger] chosen(pred, val, j).contains(p) ==> 0 <= p < j,
        compatible_positions(pred, chosen(pred, val, j), j),
        psum(val, chosen(pred, val, j), j) == best_upto(pred, val, j),
    decreases j,
{
    if j > 0 {
        let c = chosen(pred, val, j);
        if best_upto(pred, val, j) > best_upto(pred, val, j - 1) {
            let p = pred[j - 1] as int;
            assert(p <= j - 1);
            lemma_chosen(pred, val, p);
            let cp = chosen(pred, val, p);
            assert(c == cp.insert(j - 1));
            assert forall|a: int, b: int|
                #![trigger c.contains(a), c.contains(b)]
                0 <= a < b < j && c.contains(a) && c.contains(b) implies a < pred[b] by {
                if b == j - 1 {
                    assert(cp.contains(a));
                } else {
                    assert(cp.contains(a) && cp.contains(b));
                }
            }
            lemma_psum_agree(val, c, cp, j - 1);
            lemma_psum_gap(val, cp, p, j - 1);
        } else {
            lemma_chosen(pred, val, j - 1);
        }
    }
}

/// No compatible selection of positions below `j` is worth more than `best_upto(j)`.
proof fn lemma_best_is_upper_bound(pred: Seq<usize>, val: Seq<i128>, sel: Set<int>, j: int)
    requires
        dp_ready(pred, val),
        0 <= j <= val.len(),
        compatible_positions(pred, sel, j),
    ensures
        psum(val, sel, j) <= best_upto(pred, val, j),
    decreases j,
{
    if j > 0 {
        if !sel.contains(j - 1) {
            lemma_best_is_upper_bound(pred, val, sel, j - 1);
            lemma_best_mono(pred, val, j - 1, j);
        } else {
            let p = pred[j - 1] as int;
            assert forall|a: int| p <= a < j - 1 implies !sel.contains(a) by {
                if sel.contains(a) {
                    assert(sel.contains(j - 1));
                }
            }
            lemma_psum_gap(val, sel, p, j - 1);
            lemma_best_is_upper_bound(pred, val, sel, p);
        }
    }
}

// ----------------------------------------------------------------------------
// From original rows to sorted positions.
// ----------------------------------------------------------------------------

/// The positive non-empty rows among the first `j`, as `(end, start, row)` records.
pub open spec fn positive_rows(s: Seq<i128>, e: Seq<i128>, w: Seq<i128>, j: int) -> Seq<Triple>
    decreases j,
{
    if j <= 0 {
        Seq::empty()
    } else if positive_nonempty(s, e, w, j - 1) {
        positive_rows(s, e, w, j - 1).push((e[j - 1], s[j - 1], (j - 1) as usize))
    } else {
        positive_rows(s, e, w, j - 1)
    }
}

/// The record describes a positive non-empty row of the input.
pub open spec fn row_record(s: Seq<i128>, e: Seq<i128>, w: Seq<i128>, t: Triple) -> bool {
    &&& 0 <= t.2 < s.len()
    &&& t.0 == e[t.2 as int]
    &&& t.1 == s[t.2 as int]
    &&& positive_nonempty(s, e, w, t.2 as int)
}

/// The sorted records of the positive non-empty rows.
pub open spec fn rows_ok(s: Seq<i128>, e: Seq<i128>, w: Seq<i128>, rows: Seq<Triple>) -> bool {
    &&& sorted3(rows)
    &&& forall|p: int| 0 <= p < rows.len() ==> row_record(s, e, w, #[trigger] rows[p])
    &&& forall|p: int, q: int| 0 <= p < q < rows.len() ==> (#[trigger] rows[p]).2 != (#[trigger] rows[q]).2
    &&& rows.to_multiset() == positive_rows(s, e, w, s.len() as int).to_multiset()
}

/// `pred[q]` counts the sorted rows that end by the start of row `q`.
pub open spec fn preds_ok(rows: Seq<Triple>, pred: Seq<usize>) -> bool {
    &&& pred.len() == rows.len()
    &&& forall|q: int| 0 <= q < pred.len() ==> #[trigger] pred[q] <= rows.len()
    &&& forall|q: int, p: int|
        #![trigger pred[q], rows[p]]
        0 <= q < pred.len() && 0 <= p < pred[q] ==> rows[p].0 <= rows[q].1
    &&& forall|q: int, p: int|
        #![trigger pred[q], rows[p]]
        0 <= q < pred.len() && pred[q] <= p < rows.len() ==> rows[p].0 > rows[q].1
}

/// The weights of the sorted rows.
pub open spec fn row_values(w: Seq<i128>, rows: Seq<Triple>) -> Seq<i128> {
    Seq::new(rows.len(), |p: int| w[rows[p].2 as int])
}

/// The sorted positions whose rows the mask selects.
pub open spec fn positions_of(rows: Seq<Triple>, m: Seq<bool>) -> Set<int> {
    Set::new(|p: int| 0 <= p < rows.len() && m[rows[p].2 as int])
}

/// Weight of a record's row when the mask selects it.
pub open spec fn row_weight(w: Seq<i128>, m: Seq<bool>) -> spec_fn(Triple) -> int {
    |t: Triple| if m[t.2 as int] { w[t.2 as int] as int } else { 0int }
}

proof fn lemma_positive_rows(s: Seq<i128>, e: Seq<i128>, w: Seq<i128>, j: int)
    requires
        s.len() == e.len() == w.len(),
        s.len() <= usize::MAX,
        0 <= j <= s.len(),
    ensures
        forall|p: int|
            0 <= p < positive_rows(s, e, w, j).len() ==> row_record(
                s,
                e,
                w,
                #[trigger] positive_rows(s, e, w, j)[p],
            ) && positive_rows(s, e, w, j)[p].2 < j,
        forall|a: int, b: int|
            0 <= a < b < positive_rows(s, e, w, j).len() ==> (#[trigger] positive_rows(
                s,
                e,
                w,
                j,
            )[a]).2 < (#[trigger] positive_rows(s, e, w, j)[b]).2,
    decreases j,
{
    if j > 0 {
        lemma_positive_rows(s, e, w, j - 1);
        let prev = positive_rows(s, e, w, j - 1);
        let cur = positive_rows(s, e, w, j);
        if positive_nonempty(s, e, w, j - 1) {
            let x = (e[j - 1], s[j - 1], (j - 1) as usize);
            assert(cur == prev.push(x));
            assert forall|p: int| 0 <= p < cur.len() implies row_record(s, e, w, #[trigger] cur[p])
                && cur[p].2 < j by {
                if p < prev.len() {
                    assert(cur[p] == prev[p]);
                }
            }
            assert forall|a: int, b: int| 0 <= a < b < cur.len() implies (#[trigger] cur[a]).2 < (
            #[trigger] cur[b]).2 by {
                assert(cur[a] == prev[a]);
                if b < prev.len() {
                    assert(cur[b] == prev[b]);
                }
            }
        }
    }
}

proof fn lemma_positive_rows_sum(s: Seq<i128>, e: Seq<i128>, w: Seq<i128>, m: Seq<bool>, j: int)
    requires
        s.len() == e.len() == w.len() == m.len(),
        s.len() <= usize::MAX,
        0 <= j <= s.len(),
    ensures
        seq_sum(positive_rows(s, e, w, j), row_weight(w, m)) == selected_nonempty_total(
            s,
            e,
            w,
            m,
            j,
        ),
    decreases j,
{
    if j > 0 {
        lemma_positive_rows_sum(s, e, w, m, j - 1);
        let prev = positive_rows(s, e, w, j - 1);
        if positive_nonempty(s, e, w, j - 1) {
            assert(prev.push((e[j - 1], s[j - 1], (j - 1) as usize)).drop_last() =~= prev);
        }
    }
}

proof fn lemma_sorted_rows_sum(w: Seq<i128>, rows: Seq<Triple>, m: Seq<bool>, j: int)
    requires
        0 <= j <= rows.len(),
    ensures
        seq_sum(rows.take(j), row_weight(w, m)) == psum(
            row_values(w, rows),
            positions_of(rows, m),
            j,
        ),
    decreases j,
{
    if j > 0 {
        lemma_sorted_rows_sum(w, rows, m, j - 1);
        assert(rows.take(j).drop_last() =~= rows.take(j - 1));
    }
}

pub(crate) proof fn lemma_weight_split(s: Seq<i128>, e: Seq<i128>, w: Seq<i128>, m: Seq<bool>, j: int)
    requires
        s.len() == e.len() == w.len() == m.len(),
        0 <= j <= s.len(),
        valid_rows(s, e),
    ensures
        weight_upto(w, m, j) <= empty_total(s, e, w, j) + selected_nonempty_total(s, e, w, m, j),
        (forall|i: int| 0 <= i < j && #[trigger] m[i] ==> w[i] > 0) && (forall|i: int|
            0 <= i < j && positive_empty(s, e, w, i) ==> #[trigger] m[i]) ==> weight_upto(w, m, j)
            == empty_total(s, e, w, j) + selected_nonempty_total(s, e, w, m, j),
    decreases j,
{
    if j > 0 {
        lemma_weight_split(s, e, w, m, j - 1);
        assert(s[j - 1] <= e[j - 1]);
    }
}

/// Every selection of sorted positions made by a feasible mask is compatible.
proof fn lemma_feasible_compatible(
    s: Seq<i128>,
    e: Seq<i128>,
    w: Seq<i128>,
    rows: Seq<Triple>,
    pred: Seq<usize>,
    m: Seq<bool>,
)
    requires
        s.len() == e.len() == w.len(),
        rows_ok(s, e, w, rows),
        preds_ok(rows, pred),
        non_overlapping(s, e, m),
    ensures
        compatible_positions(pred, positions_of(rows, m), rows.len() as int),
{
    let sel = positions_of(rows, m);
    assert forall|a: int, b: int|
        #![trigger sel.contains(a), sel.contains(b)]
        0 <= a < b < rows.len() && sel.contains(a) && sel.contains(b) implies a < pred[b] by {
        let i = rows[a].2 as int;
        let j = rows[b].2 as int;
        assert(row_record(s, e, w, rows[a]));
        assert(row_record(s, e, w, rows[b]));
        assert(i != j);
        assert(m[i] && m[j]);
        assert(!overlaps(s, e, i, j));
        assert(le3(rows[a], rows[b]));
        if a >= pred[b] {
            assert(rows[a].0 > rows[b].1);
        }
    }
}

/// The records of the positive non-empty rows, sorted, make a valid dynamic program.
proof fn lemma_rows_ready(
    s: Seq<i128>,
    e: Seq<i128>,
    w: Seq<i128>,
    rows: Seq<Triple>,
    pred: Seq<usize>,
)
    requires
        s.len() == e.len() == w.len(),
        rows_ok(s, e, w, rows),
        preds_ok(rows, pred),
    ensures
        dp_ready(pred, row_values(w, rows)),
{
    assert forall|q: int| 0 <= q < pred.len() implies #[trigger] pred[q] <= q by {
        if pred[q] > q {
            assert(rows[q].0 <= rows[q].1);
            assert(row_record(s, e, w, rows[q]));
        }
    }
    assert forall|q: int| 0 <= q < rows.len() implies #[trigger] row_values(w, rows)[q] > 0 by {
        assert(row_record(s, e, w, rows[q]));
    }
}

/// The weight of a mask made of positions is the empty total plus the value of the positions.
proof fn lemma_mask_of(
    s: Seq<i128>,
    e: Seq<i128>,
    w: Seq<i128>,
    rows: Seq<Triple>,
    pred: Seq<usize>,
    sel: Set<int>,
)
    requires
        s.len() == e.len() == w.len(),
        s.len() <= usize::MAX,
        valid_rows(s, e),
        rows_ok(s, e, w, rows),
        preds_ok(rows, pred),
        forall|p: int| #[trigger] sel.contains(p) ==> 0 <= p < rows.len(),
        compatible_positions(pred, sel, rows.len() as int),
    ensures
        non_overlapping(s, e, mask_of(s, e, w, rows, sel)),
        mask_weight(w, mask_of(s, e, w, rows, sel)) == empty_total(s, e, w, s.len() as int) + psum(
            row_values(w, rows),
            sel,
            rows.len() as int,
        ),
{
    let n = s.len() as int;
    let m = mask_of(s, e, w, rows, sel);
    assert forall|i: int, j: int|
        #![trigger m[i], m[j]]
        0 <= i < m.len() && 0 <= j < m.len() && i != j && m[i] && m[j] implies !overlaps(
            s,
            e,
            i,
            j,
        ) by {
        if overlaps(s, e, i, j) {
            let a = choose|p: int| #![trigger sel.contains(p)] sel.contains(p) && 0 <= p < rows.len() && rows[p].2 == i;
            let b = choose|p: int| #![trigger sel.contains(p)] sel.contains(p) && 0 <= p < rows.len() && rows[p].2 == j;
            assert(row_record(s, e, w, rows[a]));
            assert(row_record(s, e, w, rows[b]));
            assert(a != b);
            if a < b {
                assert(a < pred[b]);
                assert(rows[a].0 <= rows[b].1);
            } else {
                assert(b < pred[a]);
                assert(rows[b].0 <= rows[a].1);
            }
        }
    }
    assert forall|i: int| 0 <= i < n && #[trigger] m[i] implies w[i] > 0 by {
        if !positive_empty(s, e, w, i) {
            let a = choose|p: int| #![trigger sel.contains(p)] sel.contains(p) && 0 <= p < rows.len() && rows[p].2 == i;
            assert(row_record(s, e, w, rows[a]));
        }
    }
    lemma_weight_split(s, e, w, m, n);
    lemma_positive_rows_sum(s, e, w, m, n);
    lemma_seq_sum_multiset(rows, positive_rows(s, e, w, n), row_weight(w, m));
    lemma_sorted_rows_sum(w, rows, m, rows.len() as int);
    assert(rows.take(rows.len() as int) =~= rows);
    assert forall|p: int| 0 <= p < rows.len() implies (positions_of(rows, m).contains(p)
        <==> sel.contains(p)) by {
        assert(row_record(s, e, w, rows[p]));
        if sel.contains(p) {
            assert(m[rows[p].2 as int]);
        }
        if m[rows[p].2 as int] {
            let i = rows[p].2 as int;
            assert(!positive_empty(s, e, w, i));
            let a = choose|q: int| #![trigger sel.contains(q)] sel.contains(q) && 0 <= q < rows.len() && rows[q].2 == i;
            if a != p {
                if a < p {
                    assert(rows[a].2 != rows[p].2);
                } else {
                    assert(rows[p].2 != rows[a].2);
                }
            }
        }
    }
    lemma_psum_agree(row_values(w, rows), positions_of(rows, m), sel, rows.len() as int);
}

/// No feasible mask weighs more than the empty total plus the best sorted selection.
proof fn lemma_upper_bound(
    s: Seq<i128>,
    e: Seq<i128>,
    w: Seq<i128>,
    rows: Seq<Triple>,
    pred: Seq<usize>,
    m: Seq<bool>,
)
    requires
        s.len() == e.len() == w.len(),
        s.len() <= usize::MAX,
        valid_rows(s, e),
        rows_ok(s, e, w, rows),
        preds_ok(rows, pred),
        non_overlapping(s, e, m),
    ensures
        mask_weight(w, m) <= empty_total(s, e, w, s.len() as int) + best_upto(
            pred,
            row_values(w, rows),
            rows.len() as int,
        ),
{
    let n = s.len() as int;
    lemma_rows_ready(s, e, w, rows, pred);
    lemma_feasible_compatible(s, e, w, rows, pred, m);
    lemma_weight_split(s, e, w, m, n);
    lemma_positive_rows_sum(s, e, w, m, n);
    lemma_seq_sum_multiset(rows, positive_rows(s, e, w, n), row_weight(w, m));
    lemma_sorted_rows_sum(w, rows, m, rows.len() as int);
    assert(rows.take(rows.len() as int) =~= rows);
    lemma_best_is_upper_bound(
        pred,
        row_values(w, rows),
        positions_of(rows, m),
        rows.len() as int,
    );
}


/// Changing one entry of a mask changes its weight by that row's weight.
pub(crate) proof fn lemma_weight_update(w: Seq<i128>, m: Seq<bool>, i: int, v: bool, j: int)
    requires
        0 <= i < m.len(),
        0 <= j <= m.len(),
    ensures
        weight_upto(w, m.update(i, v), j) == weight_upto(w, m, j) + if i < j {
            (if v { w[i] as int } else { 0int }) - (if m[i] { w[i] as int } else { 0int })
        } else {
            0int
        },
    decreases j,
{
    if j > 0 {
        lemma_weight_update(w, m, i, v, j - 1);
    }
}

/// With nonnegative weights every mask weighs at least zero.
pub(crate) proof fn lemma_weight_nonneg(w: Seq<i128>, m: Seq<bool>, j: int)
    requires
        j <= w.len(),
        forall|i: int| 0 <= i < w.len() ==> #[trigger] w[i] >= 0,
    ensures
        weight_upto(w, m, j) >= 0,
    decreases j,
{
    if j > 0 {
        lemma_weight_nonneg(w, m, j - 1);
    }
}

proof fn lemma_empty_total_mono(s: Seq<i128>, e: Seq<i128>, w: Seq<i128>, a: int, b: int)
    requires
        0 <= a <= b <= s.len(),
        s.len() == e.len() == w.len(),
    ensures
        0 <= empty_total(s, e, w, a) <= empty_total(s, e, w, b),
    decreases b,
{
    if b > 0 {
        if a < b {
            lemma_empty_total_mono(s, e, w, a, b - 1);
        } else {
            lemma_empty_total_mono(s, e, w, b - 1, b - 1);
        }
    }
}

/// Selecting just the positive empty rows is feasible and weighs the empty total.
proof fn lemma_empty_mask(s: Seq<i128>, e: Seq<i128>, w: Seq<i128>, j: int)
    requires
        s.len() == e.len() == w.len(),
        0 <= j <= s.len(),
    ensures
        non_overlapping(s, e, Seq::new(s.len(), |i: int| positive_empty(s, e, w, i))),
        weight_upto(w, Seq::new(s.len(), |i: int| positive_empty(s, e, w, i)), j) == empty_total(
            s,
            e,
            w,
            j,
        ),
    decreases j,
{
    if j > 0 {
        lemma_empty_mask(s, e, w, j - 1);
    }
}

// ----------------------------------------------------------------------------
// The contract and the algorithm.
// ----------------------------------------------------------------------------

/// The mask is a feasible selection of maximum weight: no two selected rows
/// overlap, only positive rows are selected, every positive empty row is
/// selected, the total fits in `i128`, and no feasible mask weighs more.
pub open spec fn optimal_schedule(s: Seq<i128>, e: Seq<i128>, w: Seq<i128>, m: Seq<bool>) -> bool {
    &&& non_overlapping(s, e, m)
    &&& forall|i: int| 0 <= i < m.len() && #[trigger] m[i] ==> w[i] > 0
    &&& forall|i: int| 0 <= i < m.len() && positive_empty(s, e, w, i) ==> #[trigger] m[i]
    &&& mask_weight(w, m) <= i128::MAX
    &&& forall|m2: Seq<bool>| #[trigger]
        non_overlapping(s, e, m2) ==> mask_weight(w, m2) <= mask_weight(w, m)
}

/// Some feasible selection weighs more than `i128::MAX`.
pub open spec fn schedule_overflows(s: Seq<i128>, e: Seq<i128>, w: Seq<i128>) -> bool {
    exists|m: Seq<bool>| #[trigger] non_overlapping(s, e, m) && mask_weight(w, m) > i128::MAX
}

/// The records of the positive non-empty rows in lexicographic order of
/// `(end, start, row)`.
pub open spec fn sorted_rows(s: Seq<i128>, e: Seq<i128>, w: Seq<i128>) -> Seq<Triple> {
    sorted_of(positive_rows(s, e, w, s.len() as int))
}

/// Number of records among the first `j` that end by `x`.
pub open spec fn ending_by(rows: Seq<Triple>, x: i128, j: int) -> int
    decreases j,
{
    if j <= 0 {
        0
    } else {
        ending_by(rows, x, j - 1) + if rows[j - 1].0 <= x {
            1int
        } else {
            0int
        }
    }
}

/// For each sorted record, the number of records that end by its start.
pub open spec fn preds_of(rows: Seq<Triple>) -> Seq<usize> {
    Seq::new(rows.len(), |q: int| ending_by(rows, rows[q].1, rows.len() as int) as usize)
}

/// The mask that the dynamic program selects: every positive empty row, and
/// the sorted records that backtracking from the last record chooses.
pub open spec fn scheduled_mask(s: Seq<i128>, e: Seq<i128>, w: Seq<i128>) -> Seq<bool> {
    let rows = sorted_rows(s, e, w);
    mask_of(s, e, w, rows, chosen(preds_of(rows), row_values(w, rows), rows.len() as int))
}

proof fn lemma_ending_by(rows: Seq<Triple>, pred: Seq<usize>, q: int, j: int)
    requires
        preds_ok(rows, pred),
        0 <= q < rows.len(),
        0 <= j <= rows.len(),
    ensures
        ending_by(rows, rows[q].1, j) == if j < pred[q] { j } else { pred[q] as int },
    decreases j,
{
    if j > 0 {
        lemma_ending_by(rows, pred, q, j - 1);
        let p = j - 1;
        if p < pred[q] {
            assert(rows[p].0 <= rows[q].1);
        } else {
            assert(rows[p].0 > rows[q].1);
        }
    }
}

/// Predecessor counts are determined by the records.
proof fn lemma_preds_count(rows: Seq<Triple>, pred: Seq<usize>)
    requires
        preds_ok(rows, pred),
    ensures
        pred == preds_of(rows),
{
    assert forall|q: int| 0 <= q < pred.len() implies pred[q] == preds_of(rows)[q] by {
        lemma_ending_by(rows, pred, q, rows.len() as int);
    }
    assert(pred =~= preds_of(rows));
}

/// The outcome of maximum-weight scheduling on rows of equal length.
///
/// Valid rows give an optimal mask, or a weight overflow exactly when some
/// feasible selection exceeds `i128::MAX`. Otherwise the first reversed row is
/// reported, unless the positive empty rows before it already overflow.
pub open spec fn schedule_outcome(
    s: Seq<i128>,
    e: Seq<i128>,
    w: Seq<i128>,
    r: Result<Vec<bool>, IntervalError>,
) -> bool {
    if valid_rows(s, e) {
        match r {
            Ok(m) => optimal_schedule(s, e, w, m@) && m@ == scheduled_mask(s, e, w),
            Err(err) => err == IntervalError::WeightOverflow && schedule_overflows(s, e, w),
        }
    } else {
        match r {
            Err(IntervalError::InvalidInterval { index }) => is_first_reversed(s, e, index as int)
                && empty_total(s, e, w, index as int) <= i128::MAX,
            Err(IntervalError::WeightOverflow) => forall|k: int| #[trigger]
                is_first_reversed(s, e, k) ==> empty_total(s, e, w, k) > i128::MAX,
            _ => false,
        }
    }
}

/// The result of maximum-weight scheduling on rows of the given lengths:
/// unequal lengths are reported, starts against ends first; otherwise
/// `schedule_outcome`.
pub open spec fn schedule_result(
    s: Seq<i128>,
    e: Seq<i128>,
    w: Seq<i128>,
    r: Result<Vec<bool>, IntervalError>,
) -> bool {
    if s.len() != e.len() {
        r == Err::<Vec<bool>, IntervalError>(
            IntervalError::LengthMismatch { starts_len: s.len() as usize, ends_len: e.len() as usize },
        )
    } else if s.len() != w.len() {
        r == Err::<Vec<bool>, IntervalError>(
            IntervalError::WeightLengthMismatch { intervals_len: s.len() as usize, weights_len: w.len() as usize },
        )
    } else {
        schedule_outcome(s, e, w, r)
    }
}

/// Maximum-weight non-overlapping selection over endpoint and weight ordinals.
pub fn schedule(s: &Vec<i128>, e: &Vec<i128>, w: &Vec<i128>) -> (r: Result<Vec<bool>, IntervalError>)
    requires
        s.len() == e.len() == w.len(),
    ensures
        schedule_outcome(s@, e@, w@, r),
{
    let n = s.len();
    let mut raw: Vec<Triple> = Vec::new();
    let mut selected: Vec<bool> = Vec::new();
    let mut empty_weight: i128 = 0;
    let mut i: usize = 0;
    while i < n
        invariant
            n == s.len() == e.len() == w.len(),
            i <= n,
            forall|j: int| 0 <= j < i ==> s@[j] <= e@[j],
            raw@ == positive_rows(s@, e@, w@, i as int),
            selected@ == Seq::new(i as nat, |j: int| positive_empty(s@, e@, w@, j)),
            empty_weight == empty_total(s@, e@, w@, i as int),
        decreases n - i,
    {
        if s[i] > e[i] {
            proof {
                assert(is_first_reversed(s@, e@, i as int));
                assert(!valid_rows(s@, e@));
            }
            return Err(IntervalError::InvalidInterval { index: i });
        }
        let wi = w[i];
        if wi > 0 && s[i] == e[i] {
            match empty_weight.checked_add(wi) {
                Some(total) => {
                    empty_weight = total;
                },
                None => {
                    proof {
                        if valid_rows(s@, e@) {
                            let m = Seq::new(n as nat, |j: int| positive_empty(s@, e@, w@, j));
                            lemma_empty_mask(s@, e@, w@, n as int);
                            lemma_empty_total_mono(s@, e@, w@, i + 1, n as int);
                            assert(non_overlapping(s@, e@, m) && mask_weight(w@, m) > i128::MAX);
                        } else {
                            assert forall|k: int| #[trigger]
                                is_first_reversed(s@, e@, k) implies empty_total(s@, e@, w@, k)
                                > i128::MAX by {
                                assert(k > i);
                                lemma_empty_total_mono(s@, e@, w@, i + 1, k);
                            }
                        }
                    }
                    return Err(IntervalError::WeightOverflow);
                },
            }
            selected.push(true);
        } else {
            if wi > 0 {
                raw.push((e[i], s[i], i));
            }
            selected.push(false);
        }
        proof {
            assert(selected@ =~= Seq::new((i + 1) as nat, |j: int| positive_empty(s@, e@, w@, j)));
        }
        i += 1;
    }
    assert(valid_rows(s@, e@));
    let rows = sort_triples(&raw);
    proof {
        lemma_positive_rows(s@, e@, w@, n as int);
        lemma_sorted_rows_distinct(rows@, raw@);
        assert forall|p: int| 0 <= p < rows.len() implies row_record(s@, e@, w@, #[trigger] rows@[p]) by {
            assert(raw@.contains(rows@[p]));
        }
        assert(rows_ok(s@, e@, w@, rows@));
    }
    let k = rows.len();
    let mut pred: Vec<usize> = Vec::new();
    let mut q: usize = 0;
    while q < k
        invariant
            k == rows.len(),
            q <= k,
            sorted3(rows@),
            pred.len() == q,
            forall|a: int| 0 <= a < q ==> #[trigger] pred@[a] <= k,
            forall|a: int, p: int|
                #![trigger pred@[a], rows@[p]]
                0 <= a < q && 0 <= p < pred@[a] ==> rows@[p].0 <= rows@[a].1,
            forall|a: int, p: int|
                #![trigger pred@[a], rows@[p]]
                0 <= a < q && pred@[a] <= p < k ==> rows@[p].0 > rows@[a].1,
        decreases k - q,
    {
        let p = count_at_most(&rows, rows[q].1);
        pred.push(p);
        q += 1;
    }
    let ghost val = row_values(w@, rows@);
    proof {
        assert(preds_ok(rows@, pred@));
        lemma_rows_ready(s@, e@, w@, rows@, pred@);
        lemma_chosen(pred@, val, k as int);
    }
    let mut best: Vec<i128> = Vec::new();
    best.push(0);
    let mut q: usize = 0;
    while q < k
        invariant
            k == rows.len() == pred.len(),
            n == s.len() == e.len() == w.len(),
            q <= k,
            val == row_values(w@, rows@),
            dp_ready(pred@, val),
            rows_ok(s@, e@, w@, rows@),
            preds_ok(rows@, pred@),
            valid_rows(s@, e@),
            selected@ == Seq::new(n as nat, |j: int| positive_empty(s@, e@, w@, j)),
            empty_weight == empty_total(s@, e@, w@, n as int),
            best.len() == q + 1,
            forall|a: int| 0 <= a <= q ==> #[trigger] best@[a] == best_upto(pred@, val, a),
        decreases k - q,
    {
        let p = pred[q];
        assert(row_record(s@, e@, w@, rows@[q as int]));
        let wq = w[rows[q].2];
        let take = match best[p].checked_add(wq) {
            Some(total) => total,
            None => {
                proof {
                    lemma_best_mono(pred@, val, p as int, p as int);
                    lemma_best_mono(pred@, val, (q + 1) as int, k as int);
                    lemma_chosen(pred@, val, k as int);
                    lemma_mask_of(s@, e@, w@, rows@, pred@, chosen(pred@, val, k as int));
                    lemma_empty_total_mono(s@, e@, w@, 0, n as int);
                    let m = mask_of(s@, e@, w@, rows@, chosen(pred@, val, k as int));
                    assert(non_overlapping(s@, e@, m) && mask_weight(w@, m) > i128::MAX);
                }
                return Err(IntervalError::WeightOverflow);
            },
        };
        let skip = best[q];
        if take > skip {
            best.push(take);
        } else {
            best.push(skip);
        }
        q += 1;
    }
    let chosen_total = best[k];
    let grand_total = empty_weight.checked_add(chosen_total);
    proof {
        lemma_mask_of(s@, e@, w@, rows@, pred@, chosen(pred@, val, k as int));
        lemma_best_mono(pred@, val, 0, k as int);
        lemma_empty_total_mono(s@, e@, w@, 0, n as int);
    }
    if grand_total.is_none() {
        proof {
            let m = mask_of(s@, e@, w@, rows@, chosen(pred@, val, k as int));
            assert(non_overlapping(s@, e@, m) && mask_weight(w@, m) > i128::MAX);
        }
        return Err(IntervalError::WeightOverflow);
    }
    let mut j: usize = k;
    let ghost mut sel: Set<int> = Set::empty();
    proof {
        assert(selected@ =~= mask_of(s@, e@, w@, rows@, sel));
    }
    while j > 0
        invariant
            k == rows.len() == pred.len(),
            n == s.len() == e.len() == w.len(),
            j <= k,
            val == row_values(w@, rows@),
            dp_ready(pred@, val),
            rows_ok(s@, e@, w@, rows@),
            best.len() == k + 1,
            forall|a: int| 0 <= a <= k ==> #[trigger] best@[a] == best_upto(pred@, val, a),
            forall|p: int| #[trigger] sel.contains(p) ==> j <= p < k,
            forall|p: int|
                0 <= p < k ==> (#[trigger] chosen(pred@, val, k as int).contains(p) <==> (
                sel.contains(p) || chosen(pred@, val, j as int).contains(p))),
            selected@ == mask_of(s@, e@, w@, rows@, sel),
        decreases j,
    {
        proof {
            lemma_chosen(pred@, val, j as int);
        }
        if best[j] > best[j - 1] {
            let row = rows[j - 1].2;
            proof {
                assert(row_record(s@, e@, w@, rows@[j - 1]));
            }
            let ghost old_sel = sel;
            let ghost old_selected = selected@;
            selected.set(row, true);
            proof {
                sel = sel.insert(j - 1);
                let target = mask_of(s@, e@, w@, rows@, sel);
                assert forall|i: int| 0 <= i < n implies selected@[i] == target[i] by {
                    if i == row as int {
                        assert(sel.contains(j - 1));
                    } else {
                        assert(selected@[i] == old_selected[i]);
                        if target[i] && !positive_empty(s@, e@, w@, i) {
                            let a = choose|p: int| #![trigger sel.contains(p)] sel.contains(p) && 0 <= p < rows.len() && rows@[p].2 == i;
                            assert(old_sel.contains(a));
                        }
                        if old_selected[i] && !positive_empty(s@, e@, w@, i) {
                            let a = choose|p: int| #![trigger old_sel.contains(p)] old_sel.contains(p) && 0 <= p < rows.len() && rows@[p].2 == i;
                            assert(sel.contains(a));
                        }
                    }
                }
                assert(selected@ =~= target);
            }
            j = pred[j - 1];
        } else {
            j -= 1;
        }
    }
    proof {
        let c = chosen(pred@, val, k as int);
        assert(sel =~= c);
        lemma_chosen(pred@, val, k as int);
        lemma_sorted_of(positive_rows(s@, e@, w@, n as int));
        lemma_sorted_unique(rows@, sorted_rows(s@, e@, w@));
        lemma_preds_count(rows@, pred@);
        assert(selected@ == scheduled_mask(s@, e@, w@));
        assert forall|m2: Seq<bool>| #[trigger] non_overlapping(s@, e@, m2) implies mask_weight(w@, m2)
            <= mask_weight(w@, selected@) by {
            lemma_upper_bound(s@, e@, w@, rows@, pred@, m2);
        }
        assert forall|i: int| 0 <= i < n && #[trigger] selected@[i] implies w@[i] > 0 by {
            if !positive_empty(s@, e@, w@, i) {
                let a = choose|p: int| #![trigger sel.contains(p)] sel.contains(p) && 0 <= p < rows.len() && rows@[p].2 == i;
                assert(row_record(s@, e@, w@, rows@[a]));
            }
        }
    }
    Ok(selected)
}

/// Select a globally maximum-weight subset of mutually non-overlapping intervals.
///
/// Returns a Boolean mask in original row order. Intervals are half-open
/// `[start, end)`; touching endpoints are compatible. Empty intervals conflict
/// with nothing: every positive empty interval is selected, including
/// duplicates. Nonpositive rows are never selected. Weights widen losslessly to
/// `i128` and all accumulation is checked. Sorts the positive non-empty rows by
/// end, finds each row's predecessor prefix, and reconstructs the exact
/// dynamic-programming optimum in `O(n log n)` time. Among optimal masks the one
/// returned is exactly `scheduled_mask`, the same for endpoints moved alike.
pub fn max_weight_non_overlapping<T: Endpoint, W: Weight>(
    starts: &[T],
    ends: &[T],
    weights: &[W],
) -> (r: Result<Vec<bool>, IntervalError>)
    ensures
        schedule_result(ordinals(starts@), ordinals(ends@), amounts(weights@), r),
{
    if starts.len() != ends.len() {
        return Err(IntervalError::LengthMismatch { starts_len: starts.len(), ends_len: ends.len() });
    }
    if starts.len() != weights.len() {
        return Err(
            IntervalError::WeightLengthMismatch {
                intervals_len: starts.len(),
                weights_len: weights.len(),
            },
        );
    }
    let s = ordinals_of(starts);
    let e = ordinals_of(ends);
    let w = amounts_of(weights);
    schedule(&s, &e, &w)
}

// ----------------------------------------------------------------------------
// Moving every endpoint by the same amount.
// ----------------------------------------------------------------------------

/// Two results are the same: equal masks, or equal errors.
pub open spec fn same_result(r1: Result<Vec<bool>, IntervalError>, r2: Result<Vec<bool>, IntervalError>) -> bool {
    match r1 {
        Ok(m1) => r2 matches Ok(m2) && m1@ == m2@,
        Err(x) => r2 matches Err(y) && x == y,
    }
}

/// A record with both keys moved by `d`.
pub open spec fn shift3(d: int) -> spec_fn(Triple) -> Triple {
    |t: Triple| ((t.0 + d) as i128, (t.1 + d) as i128, t.2)
}

proof fn lemma_shift_rows(s: Seq<i128>, e: Seq<i128>, w: Seq<i128>, d: int, j: int)
    requires
        s.len() == e.len() == w.len(),
        shift_fits(s, d),
        shift_fits(e, d),
        0 <= j <= s.len(),
    ensures
        positive_rows(shifted(s, d), shifted(e, d), w, j) == positive_rows(s, e, w, j).map_values(shift3(d)),
        empty_total(shifted(s, d), shifted(e, d), w, j) == empty_total(s, e, w, j),
    decreases j,
{
    if j > 0 {
        lemma_shift_rows(s, e, w, d, j - 1);
        let prev = positive_rows(s, e, w, j - 1);
        if positive_nonempty(s, e, w, j - 1) {
            assert(prev.push((e[j - 1], s[j - 1], (j - 1) as usize)).map_values(shift3(d)) =~= prev.map_values(
                shift3(d),
            ).push(shift3(d)((e[j - 1], s[j - 1], (j - 1) as usize))));
        }
    }
}

proof fn lemma_shift_ending(rows: Seq<Triple>, d: int, q: int, j: int)
    requires
        0 <= q < rows.len(),
        0 <= j <= rows.len(),
        forall|p: int| 0 <= p < rows.len() ==> i128::MIN <= (#[trigger] rows[p]).0 + d <= i128::MAX && i128::MIN
            <= rows[p].1 + d <= i128::MAX,
    ensures
        ending_by(rows.map_values(shift3(d)), rows.map_values(shift3(d))[q].1, j) == ending_by(rows, rows[q].1, j),
    decreases j,
{
    if j > 0 {
        lemma_shift_ending(rows, d, q, j - 1);
        assert(rows.map_values(shift3(d))[j - 1] == shift3(d)(rows[j - 1]));
    }
}

/// Moving every endpoint by the same amount changes nothing: scheduling gives
/// the very same mask, or the same error.
pub proof fn lemma_schedule_shift(
    s: Seq<i128>,
    e: Seq<i128>,
    w: Seq<i128>,
    d: int,
    r1: Result<Vec<bool>, IntervalError>,
    r2: Result<Vec<bool>, IntervalError>,
)
    requires
        s.len() <= usize::MAX,
        shift_fits(s, d),
        shift_fits(e, d),
        schedule_result(s, e, w, r1),
        schedule_result(shifted(s, d), shifted(e, d), w, r2),
    ensures
        same_result(r1, r2),
{
    let s2 = shifted(s, d);
    let e2 = shifted(e, d);
    if s.len() != e.len() || s.len() != w.len() {
        return;
    }
    let n = s.len() as int;
    assert forall|i: int, j: int| 0 <= i < n && 0 <= j < n implies #[trigger] overlaps(s2, e2, i, j) == overlaps(
        s,
        e,
        i,
        j,
    ) by {}
    assert forall|m: Seq<bool>| #[trigger] non_overlapping(s2, e2, m) == non_overlapping(s, e, m) by {
        if m.len() == n {
            assert forall|i: int, j: int|
                #![trigger m[i], m[j]]
                0 <= i < m.len() && 0 <= j < m.len() && i != j && m[i] && m[j] implies (overlaps(s2, e2, i, j)
                == overlaps(s, e, i, j)) by {}
        }
    }
    assert forall|j: int| 0 <= j < n implies (#[trigger] s2[j] <= e2[j]) == (s[j] <= e[j]) by {
        assert(s2[j] == s[j] + d && e2[j] == e[j] + d);
    }
    assert(valid_rows(s2, e2) == valid_rows(s, e)) by {
        if valid_rows(s, e) {
            assert forall|j: int| 0 <= j < s2.len() implies #[trigger] s2[j] <= e2[j] by {
                assert(s[j] <= e[j]);
            }
        }
        if valid_rows(s2, e2) {
            assert forall|j: int| 0 <= j < s.len() implies #[trigger] s[j] <= e[j] by {
                assert(s2[j] <= e2[j]);
            }
        }
    }
    assert forall|k: int| #[trigger] is_first_reversed(s2, e2, k) == is_first_reversed(s, e, k) by {
        if is_first_reversed(s, e, k) {
            assert(s2[k] > e2[k]);
            assert forall|j: int| 0 <= j < k implies #[trigger] s2[j] <= e2[j] by {
                assert(s[j] <= e[j]);
            }
        }
        if is_first_reversed(s2, e2, k) {
            assert(s[k] > e[k]);
            assert forall|j: int| 0 <= j < k implies #[trigger] s[j] <= e[j] by {
                assert(s2[j] <= e2[j]);
            }
        }
    }
    assert forall|k: int| 0 <= k <= n implies #[trigger] empty_total(s2, e2, w, k) == empty_total(s, e, w, k) by {
        lemma_shift_rows(s, e, w, d, k);
    }
    assert forall|i: int| 0 <= i < n implies #[trigger] positive_empty(s2, e2, w, i) == positive_empty(s, e, w, i) by {}
    // The dynamic program sees the same sorted records, moved by `d`.
    let pr = positive_rows(s, e, w, n);
    let rows = sorted_rows(s, e, w);
    let moved = rows.map_values(shift3(d));
    lemma_shift_rows(s, e, w, d, n);
    lemma_positive_rows(s, e, w, n);
    lemma_sorted_of(pr);
    lemma_sorted_of(positive_rows(s2, e2, w, n));
    assert forall|p: int| 0 <= p < rows.len() implies #[trigger] row_record(s, e, w, rows[p]) by {
        broadcast use vstd::seq_lib::group_to_multiset_ensures;

        vstd::seq_lib::to_multiset_contains(rows, rows[p]);
        vstd::seq_lib::to_multiset_contains(pr, rows[p]);
        assert(rows.contains(rows[p]));
        let q = choose|q: int| 0 <= q < pr.len() && pr[q] == rows[p];
        assert(row_record(s, e, w, pr[q]));
    }
    assert(sorted3(moved)) by {
        assert forall|a: int, b: int| 0 <= a < b < moved.len() implies le3(#[trigger] moved[a], #[trigger] moved[b]) by {
            assert(row_record(s, e, w, rows[a]) && row_record(s, e, w, rows[b]));
            assert(le3(rows[a], rows[b]));
        }
    }
    lemma_map_same_items(rows, pr, shift3(d));
    lemma_sorted_unique(moved, sorted_rows(s2, e2, w));
    assert(preds_of(moved) =~= preds_of(rows)) by {
        assert forall|q: int| 0 <= q < rows.len() implies preds_of(moved)[q] == preds_of(rows)[q] by {
            assert forall|p: int| 0 <= p < rows.len() implies i128::MIN <= (#[trigger] rows[p]).0 + d <= i128::MAX
                && i128::MIN <= rows[p].1 + d <= i128::MAX by {
                assert(row_record(s, e, w, rows[p]));
            }
            lemma_shift_ending(rows, d, q, rows.len() as int);
        }
    }
    assert(row_values(w, moved) =~= row_values(w, rows));
    let sel = chosen(preds_of(rows), row_values(w, rows), rows.len() as int);
    assert(scheduled_mask(s2, e2, w) =~= scheduled_mask(s, e, w)) by {
        assert(mask_of(s2, e2, w, moved, sel) =~= mask_of(s, e, w, rows, sel));
    }
    // Hence the same outcome.
    if valid_rows(s, e) {
        assert forall|m: Seq<bool>| #[trigger] optimal_schedule(s2, e2, w, m) == optimal_schedule(s, e, w, m) by {
            assert(non_overlapping(s2, e2, m) == non_overlapping(s, e, m));
            if optimal_schedule(s, e, w, m) {
                assert forall|i: int| 0 <= i < m.len() && positive_empty(s2, e2, w, i) implies #[trigger] m[i] by {
                    assert(positive_empty(s, e, w, i));
                }
                assert forall|m2: Seq<bool>| #[trigger] non_overlapping(s2, e2, m2) implies mask_weight(w, m2)
                    <= mask_weight(w, m) by {
                    assert(non_overlapping(s, e, m2));
                }
            }
            if optimal_schedule(s2, e2, w, m) {
                assert forall|i: int| 0 <= i < m.len() && positive_empty(s, e, w, i) implies #[trigger] m[i] by {
                    assert(positive_empty(s2, e2, w, i));
                }
                assert forall|m2: Seq<bool>| #[trigger] non_overlapping(s, e, m2) implies mask_weight(w, m2)
                    <= mask_weight(w, m) by {
                    assert(non_overlapping(s2, e2, m2));
                }
            }
        }
        assert(schedule_overflows(s2, e2, w) == schedule_overflows(s, e, w)) by {
            if schedule_overflows(s, e, w) {
                let m = choose|m: Seq<bool>| #[trigger] non_overlapping(s, e, m) && mask_weight(w, m) > i128::MAX;
                assert(non_overlapping(s2, e2, m));
            }
            if schedule_overflows(s2, e2, w) {
                let m = choose|m: Seq<bool>| #[trigger] non_overlapping(s2, e2, m) && mask_weight(w, m) > i128::MAX;
                assert(non_overlapping(s, e, m));
            }
        }
        match r1 {
            Ok(m1) => {
                if r2 is Err {
                    let m = choose|m: Seq<bool>| #[trigger] non_overlapping(s, e, m) && mask_weight(w, m) > i128::MAX;
                    assert(mask_weight(w, m) <= mask_weight(w, m1@));
                }
            },
            Err(_) => {
                if r2 is Ok {
                    let m = choose|m: Seq<bool>| #[trigger] non_overlapping(s, e, m) && mask_weight(w, m) > i128::MAX;
                    assert(optimal_schedule(s, e, w, r2->Ok_0@));
                    assert(mask_weight(w, m) <= mask_weight(w, r2->Ok_0@));
                }
            },
        }
    } else {
        match r1 {
            Err(IntervalError::InvalidInterval { index: a }) => {
                assert(is_first_reversed(s2, e2, a as int));
                match r2 {
                    Err(IntervalError::InvalidInterval { index: b }) => {
                        assert(is_first_reversed(s, e, b as int));
                        if a < b {
                            assert(s[a as int] <= e[a as int]);
                        } else if b < a {
                            assert(s[b as int] <= e[b as int]);
                        }
                    },
                    _ => {},
                }
            },
            _ => {
                match r2 {
                    Err(IntervalError::InvalidInterval { index: b }) => {
                        assert(is_first_reversed(s, e, b as int));
                    },
                    _ => {},
                }
            },
        }
    }
}

// ----------------------------------------------------------------------------
// Reordering the rows.
// ----------------------------------------------------------------------------

/// `p` reorders `n` rows: it lists every row `0..n` exactly once.
pub open spec fn is_permutation(p: Seq<int>, n: int) -> bool {
    &&& p.len() == n
    &&& forall|k: int| 0 <= k < n ==> 0 <= #[trigger] p[k] < n
    &&& forall|a: int, b: int| 0 <= a < b < n ==> #[trigger] p[a] != #[trigger] p[b]
    &&& forall|i: int| 0 <= i < n ==> #[trigger] lists(p, i)
}

/// Some entry of `p` is `i`.
pub open spec fn lists(p: Seq<int>, i: int) -> bool {
    exists|k: int| 0 <= k < p.len() && #[trigger] p[k] == i
}

/// Row `k` of the reordered values is row `p[k]` of `v`.
pub open spec fn permuted<A>(v: Seq<A>, p: Seq<int>) -> Seq<A> {
    Seq::new(p.len(), |k: int| v[p[k]])
}

/// Weight of row `i` when the mask selects it.
pub open spec fn selected_weight(w: Seq<i128>, m: Seq<bool>) -> spec_fn(int) -> int {
    |i: int| if m[i] { w[i] as int } else { 0int }
}

proof fn lemma_weight_as_sum(w: Seq<i128>, m: Seq<bool>, j: int)
    requires
        0 <= j,
    ensures
        weight_upto(w, m, j) == seq_sum(Seq::new(j as nat, |i: int| i), selected_weight(w, m)),
    decreases j,
{
    if j > 0 {
        lemma_weight_as_sum(w, m, j - 1);
        assert(Seq::new(j as nat, |i: int| i).drop_last() =~= Seq::new((j - 1) as nat, |i: int| i));
    }
}

proof fn lemma_sum_reindexed(f: spec_fn(int) -> int, g: spec_fn(int) -> int, p: Seq<int>, j: int)
    requires
        0 <= j <= p.len(),
        forall|k: int| 0 <= k < p.len() ==> #[trigger] g(k) == f(p[k]),
    ensures
        seq_sum(Seq::new(j as nat, |k: int| k), g) == seq_sum(p.take(j), f),
    decreases j,
{
    if j > 0 {
        lemma_sum_reindexed(f, g, p, j - 1);
        assert(Seq::new(j as nat, |k: int| k).drop_last() =~= Seq::new((j - 1) as nat, |k: int| k));
        assert(p.take(j).drop_last() =~= p.take(j - 1));
    }
}

/// Reordering rows and mask alike keeps the mask's weight.
proof fn lemma_permuted_weight(w: Seq<i128>, m: Seq<bool>, p: Seq<int>)
    requires
        w.len() == m.len(),
        is_permutation(p, w.len() as int),
    ensures
        mask_weight(permuted(w, p), permuted(m, p)) == mask_weight(w, m),
{
    broadcast use vstd::seq_lib::group_to_multiset_ensures, vstd::multiset::group_multiset_axioms;

    let n = w.len() as int;
    let idx = Seq::new(n as nat, |i: int| i);
    let f = selected_weight(w, m);
    lemma_weight_as_sum(w, m, n);
    lemma_weight_as_sum(permuted(w, p), permuted(m, p), n);
    lemma_sum_reindexed(f, selected_weight(permuted(w, p), permuted(m, p)), p, n);
    assert(p.take(n) =~= p);
    assert(p.to_multiset() =~= idx.to_multiset()) by {
        assert(p.no_duplicates());
        assert(idx.no_duplicates());
        p.lemma_multiset_has_no_duplicates();
        idx.lemma_multiset_has_no_duplicates();
        assert forall|x: int| #[trigger] p.to_multiset().count(x) == idx.to_multiset().count(x) by {
            vstd::seq_lib::to_multiset_contains(p, x);
            vstd::seq_lib::to_multiset_contains(idx, x);
            if 0 <= x < n {
                assert(lists(p, x));
                assert(p.contains(x));
                assert(idx[x] == x);
                assert(idx.contains(x));
            } else {
                if p.contains(x) {
                    let k = choose|k: int| 0 <= k < p.len() && p[k] == x;
                }
            }
        }
    }
    lemma_seq_sum_multiset(p, idx, f);
}

/// Reordering the rows changes neither whether scheduling succeeds nor the
/// weight of the optimal selection.
pub proof fn lemma_schedule_permutation(
    s: Seq<i128>,
    e: Seq<i128>,
    w: Seq<i128>,
    p: Seq<int>,
    r1: Result<Vec<bool>, IntervalError>,
    r2: Result<Vec<bool>, IntervalError>,
)
    requires
        s.len() == e.len() == w.len(),
        valid_rows(s, e),
        is_permutation(p, s.len() as int),
        schedule_result(s, e, w, r1),
        schedule_result(permuted(s, p), permuted(e, p), permuted(w, p), r2),
    ensures
        r1 is Ok <==> r2 is Ok,
        r1 is Ok ==> mask_weight(w, r1->Ok_0@) == mask_weight(permuted(w, p), r2->Ok_0@),
{
    let n = s.len() as int;
    let s2 = permuted(s, p);
    let e2 = permuted(e, p);
    let w2 = permuted(w, p);
    // The inverse reordering.
    let q = Seq::new(n as nat, |i: int| choose|k: int| 0 <= k < n && p[k] == i);
    assert forall|i: int| 0 <= i < n implies 0 <= #[trigger] q[i] < n && p[q[i]] == i by {
        assert(lists(p, i));
    }
    assert forall|k: int| 0 <= k < n implies #[trigger] q[p[k]] == k by {
        let i = p[k];
        if q[i] != k {
            if q[i] < k {
                assert(p[q[i]] != p[k]);
            } else {
                assert(p[k] != p[q[i]]);
            }
        }
    }
    assert(valid_rows(s2, e2)) by {
        assert forall|k: int| 0 <= k < s2.len() implies #[trigger] s2[k] <= e2[k] by {
            assert(s[p[k]] <= e[p[k]]);
        }
    }
    // Feasible masks correspond one to one, with equal weights.
    assert forall|m: Seq<bool>| #[trigger] non_overlapping(s, e, m) implies non_overlapping(s2, e2, permuted(m, p))
        && mask_weight(w2, permuted(m, p)) == mask_weight(w, m) by {
        let m2 = permuted(m, p);
        assert forall|a: int, b: int|
            #![trigger m2[a], m2[b]]
            0 <= a < m2.len() && 0 <= b < m2.len() && a != b && m2[a] && m2[b] implies !overlaps(s2, e2, a, b) by {
            assert(m[p[a]] && m[p[b]]);
            assert(p[a] != p[b]) by {
                if a < b {
                    assert(p[a] != p[b]);
                } else {
                    assert(p[b] != p[a]);
                }
            }
        }
        lemma_permuted_weight(w, m, p);
    }
    assert forall|m2: Seq<bool>| #[trigger] non_overlapping(s2, e2, m2) implies non_overlapping(s, e, permuted(m2, q))
        && mask_weight(w, permuted(m2, q)) == mask_weight(w2, m2) by {
        let m = permuted(m2, q);
        assert forall|a: int, b: int|
            #![trigger m[a], m[b]]
            0 <= a < m.len() && 0 <= b < m.len() && a != b && m[a] && m[b] implies !overlaps(s, e, a, b) by {
            assert(m2[q[a]] && m2[q[b]]);
            assert(p[q[a]] == a && p[q[b]] == b);
            assert(s2[q[a]] == s[a] && e2[q[a]] == e[a]);
            assert(s2[q[b]] == s[b] && e2[q[b]] == e[b]);
        }
        lemma_permuted_weight(w, m, p);
        assert(permuted(m, p) =~= m2) by {
            assert forall|k: int| 0 <= k < n implies #[trigger] permuted(m, p)[k] == m2[k] by {
                assert(q[p[k]] == k);
            }
        }
        assert(permuted(w, p) =~= w2);
    }
    match r1 {
        Ok(m1) => {
            match r2 {
                Ok(m2) => {
                    assert(non_overlapping(s, e, m1@));
                    assert(non_overlapping(s2, e2, m2@));
                    assert(mask_weight(w2, permuted(m1@, p)) <= mask_weight(w2, m2@));
                    assert(mask_weight(w, permuted(m2@, q)) <= mask_weight(w, m1@));
                },
                Err(_) => {
                    let m = choose|m: Seq<bool>| #[trigger] non_overlapping(s2, e2, m) && mask_weight(w2, m) > i128::MAX;
                    assert(non_overlapping(s, e, permuted(m, q)));
                },
            }
        },
        Err(_) => {
            if r2 is Ok {
                let m = choose|m: Seq<bool>| #[trigger] non_overlapping(s, e, m) && mask_weight(w, m) > i128::MAX;
                assert(non_overlapping(s2, e2, permuted(m, p)));
                assert(mask_weight(w2, permuted(m, p)) <= mask_weight(w2, r2->Ok_0@));
            }
        },
    }
}

} // verus!
