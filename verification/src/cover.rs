//! Covering a half-open target with the fewest intervals.
use vstd::prelude::*;
use vstd::multiset::group_multiset_axioms;
use vstd::seq_lib::group_to_multiset_ensures;
use vstd::seq_lib::to_multiset_contains;
use crate::endpoint::{Endpoint, ordinals, ordinals_of};
use crate::error::IntervalError;
use crate::rows::{valid_rows, is_first_reversed};
use crate::sort::{Triple, le3, sorted3, sort_triples};

verus! {

// ----------------------------------------------------------------------------
// The model: coverage of the integer points of a target.
// ----------------------------------------------------------------------------

/// Some selected row contains the point `x`.
pub open spec fn covered(s: Seq<i128>, e: Seq<i128>, m: Seq<bool>, x: int) -> bool {
    exists|i: int| #![trigger m[i]] 0 <= i < m.len() && m[i] && s[i] <= x < e[i]
}

/// The selected rows together contain every point of `[lo, hi)`.
pub open spec fn covers(s: Seq<i128>, e: Seq<i128>, m: Seq<bool>, lo: int, hi: int) -> bool {
    forall|x: int| lo <= x < hi ==> #[trigger] covered(s, e, m, x)
}

/// The mask that selects every row.
pub open spec fn all_rows(n: nat) -> Seq<bool> {
    Seq::new(n, |i: int| true)
}

/// The target can be covered at all: all rows together cover it.
pub open spec fn coverable(s: Seq<i128>, e: Seq<i128>, lo: int, hi: int) -> bool {
    covers(s, e, all_rows(s.len()), lo, hi)
}

/// Number of selected rows among the first `j`.
pub open spec fn count_upto(m: Seq<bool>, j: int) -> int
    decreases j,
{
    if j <= 0 {
        0
    } else {
        count_upto(m, j - 1) + if m[j - 1] {
            1int
        } else {
            0int
        }
    }
}

/// Number of selected rows.
pub open spec fn selected_count(m: Seq<bool>) -> int {
    count_upto(m, m.len() as int)
}

/// Start of row `i` clipped to the target.
pub open spec fn clip_start(s: Seq<i128>, lo: i128, i: int) -> i128 {
    if s[i] > lo {
        s[i]
    } else {
        lo
    }
}

/// End of row `i` clipped to the target.
pub open spec fn clip_end(e: Seq<i128>, hi: i128, i: int) -> i128 {
    if e[i] < hi {
        e[i]
    } else {
        hi
    }
}

/// Row `i` meets the target in a non-empty part.
pub open spec fn candidate(s: Seq<i128>, e: Seq<i128>, lo: i128, hi: i128, i: int) -> bool {
    clip_start(s, lo, i) < clip_end(e, hi, i)
}

/// Row `i` extends a cover that has reached the frontier `f`.
pub open spec fn eligible(s: Seq<i128>, e: Seq<i128>, lo: i128, hi: i128, f: int, i: int) -> bool {
    candidate(s, e, lo, hi, i) && clip_start(s, lo, i) <= f && clip_end(e, hi, i) > f
}

/// Furthest frontier that one more row among the first `j` reaches from `f`.
pub open spec fn reach(s: Seq<i128>, e: Seq<i128>, lo: i128, hi: i128, f: int, j: int) -> int
    decreases j,
{
    if j <= 0 {
        f
    } else {
        let prev = reach(s, e, lo, hi, f, j - 1);
        if eligible(s, e, lo, hi, f, j - 1) && clip_end(e, hi, j - 1) > prev {
            clip_end(e, hi, j - 1) as int
        } else {
            prev
        }
    }
}

/// Frontier after `k` furthest-reaching steps from the target start.
pub open spec fn greedy_frontier(s: Seq<i128>, e: Seq<i128>, lo: i128, hi: i128, k: int) -> int
    decreases k,
{
    if k <= 0 {
        lo as int
    } else {
        reach(s, e, lo, hi, greedy_frontier(s, e, lo, hi, k - 1), s.len() as int)
    }
}

/// Row `i` reaches furthest from the frontier `f`, and no lower row reaches as far.
pub open spec fn first_furthest(s: Seq<i128>, e: Seq<i128>, lo: i128, hi: i128, f: int, i: int) -> bool {
    &&& 0 <= i < s.len()
    &&& eligible(s, e, lo, hi, f, i)
    &&& clip_end(e, hi, i) == reach(s, e, lo, hi, f, s.len() as int)
    &&& forall|j: int|
        0 <= j < i && #[trigger] eligible(s, e, lo, hi, f, j) ==> clip_end(e, hi, j) < reach(
            s,
            e,
            lo,
            hi,
            f,
            s.len() as int,
        )
}

/// Every selected row is the lowest furthest-reaching row from the frontier of
/// some furthest-reaching step that had not yet reached the target end.
pub open spec fn greedy_ties(s: Seq<i128>, e: Seq<i128>, lo: i128, hi: i128, m: Seq<bool>) -> bool {
    forall|i: int|
        0 <= i < m.len() && #[trigger] m[i] ==> exists|c: int|
            0 <= c && greedy_frontier(s, e, lo, hi, c) < hi && #[trigger] first_furthest(
                s,
                e,
                lo,
                hi,
                greedy_frontier(s, e, lo, hi, c),
                i,
            )
}

/// The candidate rows among the first `j`, as `(clipped start, clipped end, row)` records.
pub open spec fn cover_candidates(s: Seq<i128>, e: Seq<i128>, lo: i128, hi: i128, j: int) -> Seq<
    Triple,
>
    decreases j,
{
    if j <= 0 {
        Seq::empty()
    } else if candidate(s, e, lo, hi, j - 1) {
        cover_candidates(s, e, lo, hi, j - 1).push(
            (clip_start(s, lo, j - 1), clip_end(e, hi, j - 1), (j - 1) as usize),
        )
    } else {
        cover_candidates(s, e, lo, hi, j - 1)
    }
}

/// The record is the clipped candidate record of its row.
pub open spec fn candidate_record(s: Seq<i128>, e: Seq<i128>, lo: i128, hi: i128, t: Triple) -> bool {
    &&& 0 <= t.2 < s.len()
    &&& t.0 == clip_start(s, lo, t.2 as int)
    &&& t.1 == clip_end(e, hi, t.2 as int)
    &&& candidate(s, e, lo, hi, t.2 as int)
}

// ----------------------------------------------------------------------------
// Lemmas.
// ----------------------------------------------------------------------------

pub(crate) proof fn lemma_count_update(m: Seq<bool>, i: int, v: bool, j: int)
    requires
        0 <= i < m.len(),
        0 <= j <= m.len(),
    ensures
        count_upto(m.update(i, v), j) == count_upto(m, j) + if i < j {
            (if v { 1int } else { 0int }) - (if m[i] { 1int } else { 0int })
        } else {
            0int
        },
    decreases j,
{
    if j > 0 {
        lemma_count_update(m, i, v, j - 1);
    }
}

pub(crate) proof fn lemma_count_nonneg(m: Seq<bool>, j: int)
    ensures
        count_upto(m, j) >= 0,
    decreases j,
{
    if j > 0 {
        lemma_count_nonneg(m, j - 1);
    }
}

proof fn lemma_reach(s: Seq<i128>, e: Seq<i128>, lo: i128, hi: i128, f: int, j: int)
    ensures
        reach(s, e, lo, hi, f, j) >= f,
        forall|i: int|
            0 <= i < j && #[trigger] eligible(s, e, lo, hi, f, i) ==> reach(s, e, lo, hi, f, j)
                >= clip_end(e, hi, i),
        reach(s, e, lo, hi, f, j) == f || exists|i: int|
            0 <= i < j && #[trigger] eligible(s, e, lo, hi, f, i) && reach(s, e, lo, hi, f, j)
                == clip_end(e, hi, i),
    decreases j,
{
    if j > 0 {
        lemma_reach(s, e, lo, hi, f, j - 1);
    }
}

proof fn lemma_greedy_mono(s: Seq<i128>, e: Seq<i128>, lo: i128, hi: i128, a: int, b: int)
    requires
        0 <= a <= b,
    ensures
        lo <= greedy_frontier(s, e, lo, hi, a) <= greedy_frontier(s, e, lo, hi, b),
    decreases b,
{
    if b > 0 {
        if a < b {
            lemma_greedy_mono(s, e, lo, hi, a, b - 1);
        } else {
            lemma_greedy_mono(s, e, lo, hi, b - 1, b - 1);
        }
        lemma_reach(s, e, lo, hi, greedy_frontier(s, e, lo, hi, b - 1), s.len() as int);
    }
}

/// A cover of `[lo, y)` by `c` rows is never ahead of `c` furthest-reaching steps.
proof fn lemma_stays_ahead(s: Seq<i128>, e: Seq<i128>, lo: i128, hi: i128, m: Seq<bool>, y: int)
    requires
        s.len() == e.len() == m.len(),
        lo <= y <= hi,
        covers(s, e, m, lo as int, y),
    ensures
        greedy_frontier(s, e, lo, hi, selected_count(m)) >= y,
    decreases selected_count(m),
{
    let c = selected_count(m);
    lemma_count_nonneg(m, m.len() as int);
    if y > lo {
        assert(covered(s, e, m, y - 1));
        let i0 = choose|i: int| #![trigger m[i]] 0 <= i < m.len() && m[i] && s[i] <= y - 1 < e[i];
        let m2 = m.update(i0, false);
        lemma_count_update(m, i0, false, m.len() as int);
        assert(m2.len() == m.len());
        assert(selected_count(m2) == c - 1);
        lemma_count_nonneg(m2, m2.len() as int);
        let cs = clip_start(s, lo, i0);
        assert forall|x: int| lo <= x < cs implies #[trigger] covered(s, e, m2, x) by {
            assert(covered(s, e, m, x));
            let i = choose|i: int| #![trigger m[i]] 0 <= i < m.len() && m[i] && s[i] <= x < e[i];
            assert(i != i0);
            assert(m2[i]);
        }
        lemma_stays_ahead(s, e, lo, hi, m2, cs as int);
        let f = greedy_frontier(s, e, lo, hi, c - 1);
        lemma_greedy_mono(s, e, lo, hi, c - 1, c);
        if f < y {
            assert(eligible(s, e, lo, hi, f, i0));
            lemma_reach(s, e, lo, hi, f, s.len() as int);
        }
    } else {
        lemma_greedy_mono(s, e, lo, hi, 0, c);
    }
}

/// There are no more candidate records than rows.
pub(crate) proof fn lemma_cover_candidates_len(s: Seq<i128>, e: Seq<i128>, lo: i128, hi: i128, j: int)
    ensures
        cover_candidates(s, e, lo, hi, j).len() <= if j < 0 { 0 } else { j },
    decreases j,
{
    if j > 0 {
        lemma_cover_candidates_len(s, e, lo, hi, j - 1);
    }
}

pub(crate) proof fn lemma_cover_candidates(s: Seq<i128>, e: Seq<i128>, lo: i128, hi: i128, j: int)
    requires
        s.len() == e.len(),
        s.len() <= usize::MAX,
        0 <= j <= s.len(),
    ensures
        forall|p: int|
            0 <= p < cover_candidates(s, e, lo, hi, j).len() ==> candidate_record(
                s,
                e,
                lo,
                hi,
                #[trigger] cover_candidates(s, e, lo, hi, j)[p],
            ),
        forall|a: int, b: int|
            0 <= a < b < cover_candidates(s, e, lo, hi, j).len() ==> (#[trigger] cover_candidates(
                s,
                e,
                lo,
                hi,
                j,
            )[a]).2 < (#[trigger] cover_candidates(s, e, lo, hi, j)[b]).2,
        forall|p: int|
            0 <= p < cover_candidates(s, e, lo, hi, j).len() ==> (#[trigger] cover_candidates(
                s,
                e,
                lo,
                hi,
                j,
            )[p]).2 < j,
        forall|i: int|
            0 <= i < j && #[trigger] candidate(s, e, lo, hi, i) ==> cover_candidates(
                s,
                e,
                lo,
                hi,
                j,
            ).contains((clip_start(s, lo, i), clip_end(e, hi, i), i as usize)),
    decreases j,
{
    if j > 0 {
        lemma_cover_candidates(s, e, lo, hi, j - 1);
        let prev = cover_candidates(s, e, lo, hi, j - 1);
        let cur = cover_candidates(s, e, lo, hi, j);
        if candidate(s, e, lo, hi, j - 1) {
            let x = (clip_start(s, lo, j - 1), clip_end(e, hi, j - 1), (j - 1) as usize);
            assert(cur == prev.push(x));
            assert forall|p: int| 0 <= p < cur.len() implies candidate_record(s, e, lo, hi, #[trigger] cur[p])
                && cur[p].2 < j by {
                if p < prev.len() {
                    assert(cur[p] == prev[p]);
                }
            }
            assert forall|a: int, b: int| 0 <= a < b < cur.len() implies (#[trigger] cur[a]).2 < (
            #[trigger] cur[b]).2 by {
                assert(cur[a] == prev[a]);
                if b < prev.len() {
                    assert(cur[b] == prev[b]);
                }
            }
            assert forall|i: int|
                0 <= i < j && #[trigger] candidate(s, e, lo, hi, i) implies cur.contains(
                (clip_start(s, lo, i), clip_end(e, hi, i), i as usize),
            ) by {
                if i < j - 1 {
                    let p = choose|p: int| 0 <= p < prev.len() && prev[p] == (clip_start(s, lo, i), clip_end(e, hi, i), i as usize);
                    assert(cur[p] == prev[p]);
                } else {
                    assert(cur[cur.len() - 1] == x);
                }
            }
        }
    }
}

// ----------------------------------------------------------------------------
// Validation and candidate preparation.
// ----------------------------------------------------------------------------

/// The outcome of validating a covering request: the first failing check.
pub open spec fn cover_request_error(
    s: Seq<i128>,
    e: Seq<i128>,
    lo: i128,
    hi: i128,
    err: IntervalError,
) -> bool {
    if lo > hi {
        err == IntervalError::InvalidTarget
    } else {
        err matches IntervalError::InvalidInterval { index } && is_first_reversed(s, e, index as int)
    }
}

/// Checks the target and the rows, and lists the candidate records in row order.
pub(crate) fn prepare_cover(s: &Vec<i128>, e: &Vec<i128>, lo: i128, hi: i128) -> (r: Result<
    Vec<Triple>,
    IntervalError,
>)
    requires
        s.len() == e.len(),
    ensures
        lo <= hi && valid_rows(s@, e@) ==> (r matches Ok(c) && c@ == cover_candidates(
            s@,
            e@,
            lo,
            hi,
            s.len() as int,
        )),
        !(lo <= hi && valid_rows(s@, e@)) ==> (r matches Err(err) && cover_request_error(
            s@,
            e@,
            lo,
            hi,
            err,
        )),
{
    if lo > hi {
        return Err(IntervalError::InvalidTarget);
    }
    let n = s.len();
    let mut c: Vec<Triple> = Vec::new();
    let mut i: usize = 0;
    while i < n
        invariant
            n == s.len() == e.len(),
            lo <= hi,
            i <= n,
            forall|j: int| 0 <= j < i ==> s@[j] <= e@[j],
            c@ == cover_candidates(s@, e@, lo, hi, i as int),
        decreases n - i,
    {
        if s[i] > e[i] {
            proof {
                assert(is_first_reversed(s@, e@, i as int));
            }
            return Err(IntervalError::InvalidInterval { index: i });
        }
        let start = if s[i] > lo {
            s[i]
        } else {
            lo
        };
        let end = if e[i] < hi {
            e[i]
        } else {
            hi
        };
        if start < end {
            c.push((start, end, i));
        }
        i += 1;
    }
    Ok(c)
}

pub(crate) fn all_false(n: usize) -> (m: Vec<bool>)
    ensures
        m@ == Seq::new(n as nat, |i: int| false),
{
    let mut m: Vec<bool> = Vec::new();
    let mut i: usize = 0;
    while i < n
        invariant
            i <= n,
            m@ == Seq::new(i as nat, |j: int| false),
        decreases n - i,
    {
        m.push(false);
        i += 1;
        proof {
            assert(m@ =~= Seq::new(i as nat, |j: int| false));
        }
    }
    m
}

pub(crate) proof fn lemma_count_all_false(n: nat, j: int)
    requires
        0 <= j <= n,
    ensures
        count_upto(Seq::new(n, |i: int| false), j) == 0,
    decreases j,
{
    if j > 0 {
        lemma_count_all_false(n, j - 1);
    }
}

// ----------------------------------------------------------------------------
// Minimum cover.
// ----------------------------------------------------------------------------

/// The mask covers the target with as few rows as any covering mask, and
/// selects only rows that are non-empty.
pub open spec fn minimum_cover_mask(s: Seq<i128>, e: Seq<i128>, lo: i128, hi: i128, m: Seq<bool>) -> bool {
    &&& m.len() == s.len()
    &&& covers(s, e, m, lo as int, hi as int)
    &&& forall|i: int| 0 <= i < m.len() && #[trigger] m[i] ==> s[i] < e[i]
    &&& forall|m2: Seq<bool>|
        m2.len() == s.len() && #[trigger] covers(s, e, m2, lo as int, hi as int) ==> selected_count(
            m) <= selected_count(m2)
}

/// The outcome of a minimum cover on rows of equal length.
pub open spec fn cover_outcome(
    s: Seq<i128>,
    e: Seq<i128>,
    lo: i128,
    hi: i128,
    r: Result<Vec<bool>, IntervalError>,
) -> bool {
    if lo <= hi && valid_rows(s, e) {
        if coverable(s, e, lo as int, hi as int) {
            r matches Ok(m) && minimum_cover_mask(s, e, lo, hi, m@) && greedy_ties(s, e, lo, hi, m@)
        } else {
            r == Err::<Vec<bool>, IntervalError>(IntervalError::InfeasibleCover)
        }
    } else {
        r matches Err(err) && cover_request_error(s, e, lo, hi, err)
    }
}

/// Furthest-reaching greedy sweep over candidate records sorted by clipped start.
fn greedy(s: &Vec<i128>, e: &Vec<i128>, lo: i128, hi: i128, cands: &Vec<Triple>) -> (r: Result<
    Vec<bool>,
    IntervalError,
>)
    requires
        s.len() == e.len(),
        lo <= hi,
        valid_rows(s@, e@),
        sorted3(cands@),
        cands@.to_multiset() == cover_candidates(s@, e@, lo, hi, s.len() as int).to_multiset(),
    ensures
        coverable(s@, e@, lo as int, hi as int) ==> (r matches Ok(m) && minimum_cover_mask(
            s@,
            e@,
            lo,
            hi,
            m@,
        ) && greedy_ties(s@, e@, lo, hi, m@)),
        !coverable(s@, e@, lo as int, hi as int) ==> r == Err::<Vec<bool>, IntervalError>(
            IntervalError::InfeasibleCover,
        ),
{
    broadcast use group_to_multiset_ensures, group_multiset_axioms;

    let n = s.len();
    let ghost raw = cover_candidates(s@, e@, lo, hi, n as int);
    proof {
        lemma_cover_candidates(s@, e@, lo, hi, n as int);
        crate::sort::lemma_sorted_rows_distinct(cands@, raw);
        assert forall|p: int| 0 <= p < cands.len() implies candidate_record(
            s@,
            e@,
            lo,
            hi,
            #[trigger] cands@[p],
        ) by {
            assert(raw.contains(cands@[p]));
        }
    }
    let k = cands.len();
    let mut mask = all_false(n);
    let mut frontier: i128 = lo;
    let mut next: usize = 0;
    let ghost mut steps: int = 0;
    proof {
        lemma_count_all_false(n as nat, n as int);
    }
    while frontier < hi
        invariant
            n == s.len() == e.len() == mask.len(),
            k == cands.len(),
            lo <= frontier <= hi,
            valid_rows(s@, e@),
            sorted3(cands@),
            cands@.to_multiset() == raw.to_multiset(),
            forall|p: int| 0 <= p < k ==> candidate_record(s@, e@, lo, hi, #[trigger] cands@[p]),
            forall|i: int|
                0 <= i < n && #[trigger] candidate(s@, e@, lo, hi, i) ==> raw.contains(
                    (clip_start(s@, lo, i), clip_end(e@, hi, i), i as usize),
                ),
            next <= k,
            forall|t: int| 0 <= t < next ==> (#[trigger] cands@[t]).0 <= frontier && cands@[t].1
                <= frontier,
            steps >= 0,
            frontier == greedy_frontier(s@, e@, lo, hi, steps),
            forall|c: int| 0 <= c < steps ==> #[trigger] greedy_frontier(s@, e@, lo, hi, c) < hi,
            covers(s@, e@, mask@, lo as int, frontier as int),
            selected_count(mask@) == steps,
            forall|i: int|
                0 <= i < n && #[trigger] mask@[i] ==> candidate(s@, e@, lo, hi, i) && clip_end(
                    e@,
                    hi,
                    i,
                ) <= frontier,
            forall|i: int|
                0 <= i < n && #[trigger] mask@[i] ==> exists|c: int|
                    0 <= c < steps && #[trigger] first_furthest(
                        s@,
                        e@,
                        lo,
                        hi,
                        greedy_frontier(s@, e@, lo, hi, c),
                        i,
                    ),
        decreases hi - frontier,
    {
        let ghost round_start = next;
        let mut best: Option<Triple> = None;
        while next < k && cands[next].0 <= frontier
            invariant
                k == cands.len(),
                round_start <= next <= k,
                sorted3(cands@),
                forall|t: int| round_start <= t < next ==> (#[trigger] cands@[t]).0 <= frontier,
                best matches Some(b) ==> (exists|t: int|
                    round_start <= t < next && #[trigger] cands@[t] == b) && b.1 > frontier,
                forall|t: int|
                    round_start <= t < next && (#[trigger] cands@[t]).1 > frontier ==> (
                    best matches Some(b) && (cands@[t].1 < b.1 || (cands@[t].1 == b.1 && b.2
                        <= cands@[t].2))),
            decreases k - next,
        {
            let c = cands[next];
            let better = match best {
                None => c.1 > frontier,
                Some(b) => c.1 > frontier && (c.1 > b.1 || (c.1 == b.1 && c.2 < b.2)),
            };
            if better {
                best = Some(c);
            }
            next += 1;
        }
        proof {
            assert forall|t: int| next <= t < k implies (#[trigger] cands@[t]).0 > frontier by {
                if next < k {
                    if t > next {
                        assert(le3(cands@[next as int], cands@[t]));
                    }
                }
            }
            lemma_reach(s@, e@, lo, hi, frontier as int, n as int);
            assert forall|i: int|
                0 <= i < n && #[trigger] eligible(s@, e@, lo, hi, frontier as int, i) implies (
            best matches Some(b) && (clip_end(e@, hi, i) < b.1 || (clip_end(e@, hi, i) == b.1
                && b.2 <= i))) by {
                let x = (clip_start(s@, lo, i), clip_end(e@, hi, i), i as usize);
                assert(raw.contains(x));
                to_multiset_contains(raw, x);
                to_multiset_contains(cands@, x);
                assert(cands@.contains(x));
                let t = choose|t: int| 0 <= t < k && cands@[t] == x;
                if t < round_start {
                    assert(cands@[t].1 <= frontier);
                }
            }
        }
        match best {
            None => {
                proof {
                    if coverable(s@, e@, lo as int, hi as int) {
                        assert(covered(s@, e@, all_rows(n as nat), frontier as int));
                        let i = choose|i: int|
                            #![trigger all_rows(n as nat)[i]]
                            0 <= i < n && all_rows(n as nat)[i] && s@[i] <= frontier < e@[i];
                        assert(eligible(s@, e@, lo, hi, frontier as int, i));
                    }
                }
                return Err(IntervalError::InfeasibleCover);
            },
            Some(b) => {
                proof {
                    let t = choose|t: int| round_start <= t < next && #[trigger] cands@[t] == b;
                    assert(candidate_record(s@, e@, lo, hi, cands@[t]));
                    assert(eligible(s@, e@, lo, hi, frontier as int, b.2 as int));
                    assert(reach(s@, e@, lo, hi, frontier as int, n as int) == b.1);
                    assert(!mask@[b.2 as int]);
                    lemma_count_update(mask@, b.2 as int, true, n as int);
                    assert(first_furthest(s@, e@, lo, hi, frontier as int, b.2 as int));
                }
                let ghost old_mask = mask@;
                let ghost old_frontier = frontier;
                mask.set(b.2, true);
                frontier = b.1;
                proof {
                    steps = steps + 1;
                    assert forall|i: int| 0 <= i < n && #[trigger] mask@[i] implies exists|c: int|
                        0 <= c < steps && #[trigger] first_furthest(
                            s@,
                            e@,
                            lo,
                            hi,
                            greedy_frontier(s@, e@, lo, hi, c),
                            i,
                        ) by {
                        if i == b.2 {
                            assert(first_furthest(
                                s@,
                                e@,
                                lo,
                                hi,
                                greedy_frontier(s@, e@, lo, hi, steps - 1),
                                i,
                            ));
                        } else {
                            assert(old_mask[i]);
                        }
                    }
                    assert forall|x: int| lo <= x < frontier implies #[trigger] covered(
                        s@,
                        e@,
                        mask@,
                        x,
                    ) by {
                        if x < old_frontier {
                            assert(covered(s@, e@, old_mask, x));
                            let i = choose|i: int|
                                #![trigger old_mask[i]]
                                0 <= i < old_mask.len() && old_mask[i] && s@[i] <= x < e@[i];
                            assert(mask@[i]);
                        } else {
                            assert(mask@[b.2 as int]);
                        }
                    }
                    assert forall|t: int| 0 <= t < next implies (#[trigger] cands@[t]).0 <= frontier
                        && cands@[t].1 <= frontier by {
                        if t >= round_start && cands@[t].1 > old_frontier {
                        }
                    }
                }
            },
        }
    }
    proof {
        assert forall|m2: Seq<bool>|
            m2.len() == n && #[trigger] covers(s@, e@, m2, lo as int, hi as int) implies selected_count(
            mask@) <= selected_count(m2) by {
            lemma_stays_ahead(s@, e@, lo, hi, m2, hi as int);
            lemma_count_nonneg(m2, n as int);
            if selected_count(m2) < steps {
                assert(greedy_frontier(s@, e@, lo, hi, selected_count(m2)) < hi);
            }
        }
        assert forall|x: int| lo <= x < hi implies #[trigger] covered(
            s@,
            e@,
            all_rows(n as nat),
            x,
        ) by {
            assert(covered(s@, e@, mask@, x));
            let i = choose|i: int| #![trigger mask@[i]] 0 <= i < n && mask@[i] && s@[i] <= x < e@[i];
            assert(all_rows(n as nat)[i]);
        }
    }
    Ok(mask)
}

/// Select the fewest intervals whose union covers `[target_start, target_end)`.
///
/// Returns a Boolean mask in original row order. Coverage is of every point
/// between the target endpoints' ordinals, so touching intervals chain
/// perfectly and intervals may extend outside the target. Empty intervals are
/// never selected; an empty target selects nothing once every row is valid.
/// The furthest-reaching greedy sweep over candidates sorted by clipped start is
/// globally optimal and takes `O(n log n)` time. Ties prefer the lowest
/// original row among the furthest-reaching candidates.
pub fn minimum_cover<T: Endpoint>(starts: &[T], ends: &[T], target_start: T, target_end: T) -> (r:
    Result<Vec<bool>, IntervalError>)
    ensures
        starts.len() != ends.len() ==> r == Err::<Vec<bool>, IntervalError>(
            IntervalError::LengthMismatch { starts_len: starts.len(), ends_len: ends.len() },
        ),
        starts.len() == ends.len() ==> cover_outcome(
            ordinals(starts@),
            ordinals(ends@),
            target_start.ordinal(),
            target_end.ordinal(),
            r,
        ),
{
    if starts.len() != ends.len() {
        return Err(IntervalError::LengthMismatch { starts_len: starts.len(), ends_len: ends.len() });
    }
    let s = ordinals_of(starts);
    let e = ordinals_of(ends);
    let lo = target_start.key();
    let hi = target_end.key();
    cover_keys(&s, &e, lo, hi)
}

/// Minimum cover over endpoint ordinals.
pub fn cover_keys(s: &Vec<i128>, e: &Vec<i128>, lo: i128, hi: i128) -> (r: Result<Vec<bool>, IntervalError>)
    requires
        s.len() == e.len(),
    ensures
        cover_outcome(s@, e@, lo, hi, r),
{
    let raw = match prepare_cover(s, e, lo, hi) {
        Ok(c) => c,
        Err(err) => {
            return Err(err);
        },
    };
    let cands = sort_triples(&raw);
    greedy(s, e, lo, hi, &cands)
}

} // verus!
