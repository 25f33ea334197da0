//! Covering a half-open target at minimum total cost, then with the fewest intervals.
use vstd::prelude::*;
use vstd::multiset::group_multiset_axioms;
use vstd::seq_lib::group_to_multiset_ensures;
use vstd::seq_lib::to_multiset_contains;
use crate::endpoint::{Endpoint, Weight, ordinals, ordinals_of, amounts, amounts_of};
use crate::error::IntervalError;
use crate::rows::{valid_rows, is_first_reversed};
use crate::sort::{Triple, le3, sorted3, sorted_values, sort_triples, count_values_below};
use crate::cover::{
    covered, covers, coverable, selected_count, count_upto, clip_start, clip_end, candidate,
    cover_candidates, candidate_record, cover_request_error, prepare_cover, all_false, cover_keys,
    cover_outcome, all_rows, lemma_count_update, lemma_count_nonneg, lemma_cover_candidates,
    lemma_count_all_false, lemma_cover_candidates_len,
};
use crate::weighted::{weight_upto, mask_weight, lemma_weight_update, lemma_weight_nonneg};
use crate::fenwick::{Best, Fenwick, best_le, lex_le, better_spec, seg_min, lemma_seg_is_min};

verus! {

// ----------------------------------------------------------------------------
// The model.
// ----------------------------------------------------------------------------

/// `(a0, a1)` precedes or equals `(b0, b1)` lexicographically.
pub open spec fn lex2_le(a0: int, a1: int, b0: int, b1: int) -> bool {
    a0 < b0 || (a0 == b0 && a1 <= b1)
}

/// No cost is negative.
pub open spec fn nonneg_costs(w: Seq<i128>) -> bool {
    forall|i: int| 0 <= i < w.len() ==> #[trigger] w[i] >= 0
}

/// Row `k` holds the first negative cost.
pub open spec fn is_first_negative(w: Seq<i128>, k: int) -> bool {
    &&& 0 <= k < w.len()
    &&& w[k] < 0
    &&& forall|j: int| 0 <= j < k ==> #[trigger] w[j] >= 0
}

/// Some cover of the target costs at most `i128::MAX`.
pub open spec fn affordable_cover_exists(
    s: Seq<i128>,
    e: Seq<i128>,
    w: Seq<i128>,
    lo: i128,
    hi: i128,
) -> bool {
    exists|m: Seq<bool>|
        m.len() == s.len() && #[trigger] covers(s, e, m, lo as int, hi as int) && mask_weight(w, m)
            <= i128::MAX
}

/// The mask covers the target, selects only non-empty rows, and has the least
/// total cost of any cover, and the fewest rows among covers of that cost.
pub open spec fn minimum_cost_cover_mask(
    s: Seq<i128>,
    e: Seq<i128>,
    w: Seq<i128>,
    lo: i128,
    hi: i128,
    m: Seq<bool>,
) -> bool {
    &&& m.len() == s.len()
    &&& covers(s, e, m, lo as int, hi as int)
    &&& forall|i: int| 0 <= i < m.len() && #[trigger] m[i] ==> s[i] < e[i]
    &&& mask_weight(w, m) <= i128::MAX
    &&& forall|m2: Seq<bool>|
        m2.len() == s.len() && #[trigger] covers(s, e, m2, lo as int, hi as int) ==> lex2_le(
            mask_weight(w, m),
            selected_count(m),
            mask_weight(w, m2),
            selected_count(m2),
        )
}

/// The outcome of a minimum-cost cover on rows and costs of equal length with
/// nonnegative costs.
pub open spec fn cost_cover_outcome(
    s: Seq<i128>,
    e: Seq<i128>,
    w: Seq<i128>,
    lo: i128,
    hi: i128,
    r: Result<Vec<bool>, IntervalError>,
) -> bool {
    if lo <= hi && valid_rows(s, e) {
        if !coverable(s, e, lo as int, hi as int) {
            r == Err::<Vec<bool>, IntervalError>(IntervalError::InfeasibleCover)
        } else if affordable_cover_exists(s, e, w, lo, hi) {
            r matches Ok(m) && minimum_cost_cover_mask(s, e, w, lo, hi, m@)
        } else {
            r == Err::<Vec<bool>, IntervalError>(IntervalError::CostOverflow)
        }
    } else {
        r matches Err(err) && cover_request_error(s, e, lo, hi, err)
    }
}

// ----------------------------------------------------------------------------
// The frontier dynamic program.
// ----------------------------------------------------------------------------

/// Candidate records keyed by clipped end first.
pub open spec fn end_first(c: Seq<Triple>) -> Seq<Triple> {
    Seq::new(c.len(), |p: int| (c[p].1, c[p].0, c[p].2))
}

/// The coordinates: the target start, then increasing values above it up to
/// the target end, among which is every candidate's clipped end.
pub open spec fn coords_ok(s: Seq<i128>, e: Seq<i128>, lo: i128, hi: i128, coords: Seq<i128>) -> bool {
    &&& coords.len() >= 1
    &&& coords[0] == lo
    &&& forall|a: int, b: int| 0 <= a < b < coords.len() ==> #[trigger] coords[a] < #[trigger] coords[b]
    &&& forall|r: int| 0 <= r < coords.len() ==> lo <= #[trigger] coords[r] <= hi
    &&& forall|i: int|
        0 <= i < s.len() && #[trigger] candidate(s, e, lo, hi, i) ==> exists|r: int|
            1 <= r < coords.len() && #[trigger] coords[r] == clip_end(e, hi, i)
}

/// Entry `p` of the table: the best `(cost, count, p)` of a chain of candidates
/// that covers the target up to coordinate `p`, with the back pointer that
/// names the chain's last row and the coordinate before it.
pub open spec fn entry_ok(
    s: Seq<i128>,
    e: Seq<i128>,
    w: Seq<i128>,
    lo: i128,
    hi: i128,
    coords: Seq<i128>,
    vals: Seq<Best>,
    back: Seq<Option<(usize, usize)>>,
    p: int,
) -> bool {
    if p == 0 {
        vals[0] == Some((0i128, 0usize, 0usize)) && back[0] is None
    } else {
        match vals[p] {
            None => back[p] is None,
            Some(v) => {
                &&& v.2 == p
                &&& v.0 >= 0
                &&& v.1 <= p
                &&& back[p] matches Some(bp) && {
                    let pp = bp.0 as int;
                    let row = bp.1 as int;
                    &&& pp < p
                    &&& row < s.len()
                    &&& candidate(s, e, lo, hi, row)
                    &&& clip_end(e, hi, row) == coords[p]
                    &&& clip_start(s, lo, row) <= coords[pp]
                    &&& vals[pp] matches Some(u) && u.0 + w[row] == v.0 && u.1 + 1 == v.1
                }
            },
        }
    }
}

/// Extending any table entry `p` by candidate row `i`, which ends at
/// coordinate `r`, is never better than entry `r`, unless the cost overflows,
/// which then has been noted.
pub open spec fn step_ok(
    s: Seq<i128>,
    e: Seq<i128>,
    w: Seq<i128>,
    lo: i128,
    hi: i128,
    coords: Seq<i128>,
    vals: Seq<Best>,
    overflowed: bool,
    i: int,
    r: int,
    p: int,
) -> bool {
    (0 <= i < s.len() && candidate(s, e, lo, hi, i) && 1 <= r < coords.len() && coords[r]
        == clip_end(e, hi, i) && 0 <= p < r && coords[p] >= clip_start(s, lo, i) && vals[p] is Some)
        ==> {
        let v = vals[p].unwrap();
        let beaten = vals[r] is Some && lex2_le(
            vals[r].unwrap().0 as int,
            vals[r].unwrap().1 as int,
            v.0 + w[i],
            v.1 + 1,
        );
        &&& (v.0 + w[i] <= i128::MAX ==> beaten)
        &&& (overflowed || beaten)
    }
}

/// Extending entry `p` by the row of record `q` is never better than the best
/// proposal found so far, unless its cost overflows, which then has been noted.
pub open spec fn batch_bound(
    vals: Seq<Best>,
    w: Seq<i128>,
    cands: Seq<Triple>,
    best: Option<(i128, usize, usize, usize)>,
    overflowed: bool,
    coords: Seq<i128>,
    q: int,
    p: int,
) -> bool {
    (coords[p] >= cands[q].1 && vals[p] is Some) ==> {
        let v = vals[p].unwrap();
        let c = w[cands[q].2 as int];
        let beaten = best matches Some(b) && lex2_le(b.0 as int, b.1 as int, v.0 + c, v.1 + 1);
        &&& (v.0 + c <= i128::MAX ==> beaten)
        &&& (overflowed || beaten)
    }
}

/// Entry `p` is present and its `(cost, count)` is at most `(cost, count)`.
pub open spec fn entry_beats(vals: Seq<Best>, p: int, cost: int, count: int) -> bool {
    vals[p] matches Some(v) && lex2_le(v.0 as int, v.1 as int, cost, count)
}

/// Every cover of `[lo, y)` is matched or beaten by an entry at a coordinate at
/// or beyond `y`, unless it is unaffordable and an overflow was noted.
proof fn lemma_dp_lower_bound(
    s: Seq<i128>,
    e: Seq<i128>,
    w: Seq<i128>,
    lo: i128,
    hi: i128,
    coords: Seq<i128>,
    vals: Seq<Best>,
    overflowed: bool,
    m: Seq<bool>,
    y: int,
)
    requires
        s.len() == e.len() == w.len() == m.len(),
        nonneg_costs(w),
        lo <= y <= hi,
        coords_ok(s, e, lo, hi, coords),
        vals.len() == coords.len(),
        vals[0] == Some((0i128, 0usize, 0usize)),
        forall|i: int, r: int, p: int| #[trigger]
            step_ok(s, e, w, lo, hi, coords, vals, overflowed, i, r, p),
        covers(s, e, m, lo as int, y),
        mask_weight(w, m) <= i128::MAX || !overflowed,
    ensures
        exists|p: int|
            0 <= p < coords.len() && coords[p] >= y && #[trigger] entry_beats(
                vals,
                p,
                mask_weight(w, m),
                selected_count(m),
            ),
    decreases selected_count(m),
{
    lemma_count_nonneg(m, m.len() as int);
    lemma_weight_nonneg(w, m, m.len() as int);
    if y <= lo {
        assert(entry_beats(vals, 0, mask_weight(w, m), selected_count(m)));
    } else {
        assert(covered(s, e, m, y - 1));
        let i0 = choose|i: int| #![trigger m[i]] 0 <= i < m.len() && m[i] && s[i] <= y - 1 < e[i];
        let m2 = m.update(i0, false);
        lemma_count_update(m, i0, false, m.len() as int);
        lemma_weight_update(w, m, i0, false, m.len() as int);
        assert(m2.len() == m.len());
        lemma_count_nonneg(m2, m2.len() as int);
        let cs = clip_start(s, lo, i0);
        assert forall|x: int| lo <= x < cs implies #[trigger] covered(s, e, m2, x) by {
            assert(covered(s, e, m, x));
            let i = choose|i: int| #![trigger m[i]] 0 <= i < m.len() && m[i] && s[i] <= x < e[i];
            assert(i != i0);
            assert(m2[i]);
        }
        assert(w[i0] >= 0);
        lemma_dp_lower_bound(s, e, w, lo, hi, coords, vals, overflowed, m2, cs as int);
        let p = choose|p: int|
            0 <= p < coords.len() && coords[p] >= cs && #[trigger] entry_beats(
                vals,
                p,
                mask_weight(w, m2),
                selected_count(m2),
            );
        let v = vals[p].unwrap();
        if coords[p] >= y {
            assert(entry_beats(vals, p, mask_weight(w, m), selected_count(m)));
        } else {
            assert(candidate(s, e, lo, hi, i0));
            let r = choose|r: int| 1 <= r < coords.len() && #[trigger] coords[r] == clip_end(e, hi, i0);
            if p >= r {
                if p > r {
                    assert(coords[r] < coords[p]);
                }
            }
            assert(step_ok(s, e, w, lo, hi, coords, vals, overflowed, i0, r, p));
            if overflowed {
                assert(v.0 + w[i0] <= i128::MAX);
            }
            assert(coords[r] >= y);
            assert(entry_beats(vals, r, mask_weight(w, m), selected_count(m)));
        }
    }
}

fn lex2_lt4(a: (i128, usize, usize, usize), b: (i128, usize, usize, usize)) -> (r: bool)
    ensures
        r ==> lex2_le(a.0 as int, a.1 as int, b.0 as int, b.1 as int),
        !r ==> lex2_le(b.0 as int, b.1 as int, a.0 as int, a.1 as int),
{
    a.0 < b.0 || (a.0 == b.0 && (a.1 < b.1 || (a.1 == b.1 && (a.2 < b.2 || (a.2 == b.2 && a.3
        < b.3)))))
}

/// Minimum-cost cover over endpoint and cost ordinals.
pub fn cost_cover_keys(s: &Vec<i128>, e: &Vec<i128>, w: &Vec<i128>, lo: i128, hi: i128) -> (r:
    Result<Vec<bool>, IntervalError>)
    requires
        s.len() == e.len() == w.len(),
        s.len() < 0x3fff_ffff_ffff_ffff,
        nonneg_costs(w@),
    ensures
        cost_cover_outcome(s@, e@, w@, lo, hi, r),
{
    broadcast use group_to_multiset_ensures, group_multiset_axioms;

    let n = s.len();
    let raw = match prepare_cover(s, e, lo, hi) {
        Ok(c) => c,
        Err(err) => {
            return Err(err);
        },
    };
    if lo == hi {
        let mask = all_false(n);
        proof {
            lemma_count_all_false(n as nat, n as int);
            assert forall|m2: Seq<bool>|
                m2.len() == n && #[trigger] covers(s@, e@, m2, lo as int, hi as int) implies lex2_le(
                mask_weight(w@, mask@),
                selected_count(mask@),
                mask_weight(w@, m2),
                selected_count(m2),
            ) by {
                lemma_weight_nonneg(w@, m2, n as int);
                lemma_count_nonneg(m2, n as int);
                lemma_weight_all_false(w@, n as nat, n as int);
            }
            lemma_weight_all_false(w@, n as nat, n as int);
            assert(covers(s@, e@, mask@, lo as int, hi as int));
            assert(covers(s@, e@, all_rows(n as nat), lo as int, hi as int));
        }
        return Ok(mask);
    }
    // Key the candidates by clipped end.
    let ghost base = cover_candidates(s@, e@, lo, hi, n as int);
    let mut keyed: Vec<Triple> = Vec::new();
    let mut t: usize = 0;
    while t < raw.len()
        invariant
            raw@ == base,
            t <= raw.len(),
            keyed@ == end_first(base).take(t as int),
        decreases raw.len() - t,
    {
        keyed.push((raw[t].1, raw[t].0, raw[t].2));
        t += 1;
        proof {
            assert(keyed@ =~= end_first(base).take(t as int));
        }
    }
    proof {
        assert(keyed@ =~= end_first(base));
    }
    let cands = sort_triples(&keyed);
    let k = cands.len();
    proof {
        lemma_cover_candidates(s@, e@, lo, hi, n as int);
        lemma_cover_candidates_len(s@, e@, lo, hi, n as int);
        crate::sort::lemma_sorted_rows_distinct(cands@, keyed@);
        assert forall|p: int| 0 <= p < k implies end_record(s@, e@, lo, hi, #[trigger] cands@[p]) by {
            assert(keyed@.contains(cands@[p]));
            let q = choose|q: int| 0 <= q < keyed@.len() && keyed@[q] == cands@[p];
            assert(candidate_record(s@, e@, lo, hi, base[q]));
        }
        assert forall|i: int|
            0 <= i < n && #[trigger] candidate(s@, e@, lo, hi, i) implies cands@.contains(
            (clip_end(e@, hi, i), clip_start(s@, lo, i), i as usize),
        ) by {
            let x = (clip_start(s@, lo, i), clip_end(e@, hi, i), i as usize);
            assert(base.contains(x));
            let q = choose|q: int| 0 <= q < base.len() && base[q] == x;
            assert(keyed@[q] == (x.1, x.0, x.2));
            to_multiset_contains(keyed@, (x.1, x.0, x.2));
            to_multiset_contains(cands@, (x.1, x.0, x.2));
        }
    }
    // The coordinates: the target start, then the distinct candidate ends.
    let mut coords: Vec<i128> = Vec::new();
    coords.push(lo);
    let mut t: usize = 0;
    while t < k
        invariant
            k == cands.len(),
            t <= k,
            sorted3(cands@),
            forall|p: int| 0 <= p < k ==> end_record(s@, e@, lo, hi, #[trigger] cands@[p]),
            coords.len() >= 1,
            coords@[0] == lo,
            coords.len() <= t + 1,
            forall|a: int, b: int| 0 <= a < b < coords.len() ==> #[trigger] coords@[a] < #[trigger] coords@[b],
            forall|r: int| 0 <= r < coords.len() ==> lo <= #[trigger] coords@[r] <= hi,
            t > 0 ==> coords@[coords.len() - 1] == cands@[t - 1].0,
            forall|q: int|
                0 <= q < t ==> exists|r: int|
                    1 <= r < coords.len() && #[trigger] coords@[r] == (#[trigger] cands@[q]).0,
        decreases k - t,
    {
        let end = cands[t].0;
        let last = coords[coords.len() - 1];
        let ghost old_coords = coords@;
        proof {
            assert(end_record(s@, e@, lo, hi, cands@[t as int]));
            if t > 0 {
                assert(le3(cands@[t - 1], cands@[t as int]));
            }
        }
        if end != last {
            coords.push(end);
        }
        proof {
            assert forall|q: int| 0 <= q < t + 1 implies exists|r: int|
                1 <= r < coords.len() && #[trigger] coords@[r] == (#[trigger] cands@[q]).0 by {
                if q < t {
                    let r0 = choose|r: int|
                        1 <= r < old_coords.len() && #[trigger] old_coords[r] == (#[trigger] cands@[q]).0;
                    assert(coords@[r0] == old_coords[r0]);
                } else {
                    if end == last {
                        assert(t > 0);
                        assert(coords@[coords.len() - 1] == cands@[q].0);
                        assert(coords.len() - 1 >= 1);
                    } else {
                        assert(coords@[coords.len() - 1] == cands@[q].0);
                    }
                }
            }
        }
        t += 1;
    }
    proof {
        assert forall|i: int|
            0 <= i < n && #[trigger] candidate(s@, e@, lo, hi, i) implies exists|r: int|
            1 <= r < coords.len() && #[trigger] coords@[r] == clip_end(e@, hi, i) by {
            let x = (clip_end(e@, hi, i), clip_start(s@, lo, i), i as usize);
            assert(cands@.contains(x));
            let q = choose|q: int| 0 <= q < k && cands@[q] == x;
            assert(cands@[q].0 == clip_end(e@, hi, i));
        }
        assert(coords_ok(s@, e@, lo, hi, coords@));
    }
    let kc = coords.len();
    if coords[kc - 1] != hi {
        proof {
            if coverable(s@, e@, lo as int, hi as int) {
                assert(covered(s@, e@, all_rows(n as nat), hi - 1));
                let i = choose|i: int|
                    #![trigger all_rows(n as nat)[i]]
                    0 <= i < n && all_rows(n as nat)[i] && s@[i] <= hi - 1 < e@[i];
                assert(candidate(s@, e@, lo, hi, i));
                let r = choose|r: int| 1 <= r < coords.len() && #[trigger] coords@[r] == clip_end(e@, hi, i);
                if r < kc - 1 {
                    assert(coords@[r] < coords@[kc - 1]);
                }
            }
        }
        return Err(IntervalError::InfeasibleCover);
    }
    // The dynamic program over coordinates.
    let mut tree = Fenwick::new(kc);
    tree.update(0, Some((0, 0, 0)));
    let mut back: Vec<Option<(usize, usize)>> = Vec::new();
    let mut t: usize = 0;
    while t < kc
        invariant
            t <= kc,
            back.len() == t,
            forall|p: int| 0 <= p < t ==> #[trigger] back@[p] is None,
        decreases kc - t,
    {
        back.push(None);
        t += 1;
    }
    let mut overflowed = false;
    let mut next: usize = 0;
    let mut r: usize = 1;
    proof {
        assert forall|p: int| 0 <= p < kc implies #[trigger] tree.view()[p] == if p == 0 {
            Some((0i128, 0usize, 0usize))
        } else {
            None::<(i128, usize, usize)>
        } by {}
    }
    while r < kc
        invariant
            n == s.len() == e.len() == w.len(),
            nonneg_costs(w@),
            kc == coords.len(),
            k == cands.len(),
            1 <= r <= kc,
            coords_ok(s@, e@, lo, hi, coords@),
            sorted_values(coords@),
            sorted3(cands@),
            forall|p: int| 0 <= p < k ==> end_record(s@, e@, lo, hi, #[trigger] cands@[p]),
            forall|i: int|
                0 <= i < n && #[trigger] candidate(s@, e@, lo, hi, i) ==> cands@.contains(
                    (clip_end(e@, hi, i), clip_start(s@, lo, i), i as usize),
                ),
            tree.wf(),
            tree.view().len() == kc,
            back.len() == kc,
            next <= k,
            forall|q: int| 0 <= q < next ==> (#[trigger] cands@[q]).0 <= coords@[r - 1],
            forall|q: int| next <= q < k ==> (#[trigger] cands@[q]).0 > coords@[r - 1],
            forall|p: int| r <= p < kc ==> #[trigger] tree.view()[p] is None && back@[p] is None,
            forall|p: int|
                0 <= p < r ==> #[trigger] entry_ok(
                    s@,
                    e@,
                    w@,
                    lo,
                    hi,
                    coords@,
                    tree.view(),
                    back@,
                    p,
                ),
            forall|i: int, rr: int, p: int|
                rr < r ==> #[trigger] step_ok(
                    s@,
                    e@,
                    w@,
                    lo,
                    hi,
                    coords@,
                    tree.view(),
                    overflowed,
                    i,
                    rr,
                    p,
                ),
        decreases kc - r,
    {
        let ghost batch_start = next;
        let ghost vals = tree.view();
        let mut best: Option<(i128, usize, usize, usize)> = None;
        proof {
            assert(coords@[r - 1] < coords@[r as int]);
        }
        while next < k && cands[next].0 == coords[r]
            invariant
                n == s.len() == e.len() == w.len(),
                nonneg_costs(w@),
                kc == coords.len(),
                k == cands.len(),
                1 <= r < kc,
                batch_start <= next <= k,
                coords_ok(s@, e@, lo, hi, coords@),
                sorted_values(coords@),
                forall|p: int| 0 <= p < k ==> end_record(s@, e@, lo, hi, #[trigger] cands@[p]),
                tree.wf(),
                tree.view() == vals,
                vals.len() == kc,
                forall|p: int| r <= p < kc ==> #[trigger] vals[p] is None,
                forall|p: int|
                    0 <= p < r ==> #[trigger] entry_ok(
                        s@,
                        e@,
                        w@,
                        lo,
                        hi,
                        coords@,
                        vals,
                        back@,
                        p,
                    ),
                forall|q: int| batch_start <= q < next ==> (#[trigger] cands@[q]).0 == coords@[r as int],
                best matches Some(b) ==> {
                    &&& b.3 < r
                    &&& b.2 < n
                    &&& candidate(s@, e@, lo, hi, b.2 as int)
                    &&& clip_end(e@, hi, b.2 as int) == coords@[r as int]
                    &&& clip_start(s@, lo, b.2 as int) <= coords@[b.3 as int]
                    &&& vals[b.3 as int] matches Some(u) && u.0 + w@[b.2 as int] == b.0 && u.1 + 1
                        == b.1
                    &&& b.0 >= 0
                    &&& b.1 <= r
                },
                forall|q: int, p: int|
                    batch_start <= q < next && 0 <= p < r ==> #[trigger] batch_bound(
                        vals,
                        w@,
                        cands@,
                        best,
                        overflowed,
                        coords@,
                        q,
                        p,
                    ),
                forall|i: int, rr: int, p: int|
                    rr < r ==> #[trigger] step_ok(
                        s@,
                        e@,
                        w@,
                        lo,
                        hi,
                        coords@,
                        vals,
                        overflowed,
                        i,
                        rr,
                        p,
                    ),
            decreases k - next,
        {
            let c = cands[next];
            let ghost old_best = best;
            let ghost old_ovf = overflowed;
            proof {
                assert(end_record(s@, e@, lo, hi, cands@[next as int]));
            }
            let l = count_values_below(&coords, c.1);
            let found = tree.suffix(l);
            proof {
                lemma_seg_is_min(vals, l as int, kc as int);
            }
            match found {
                None => {
                    proof {
                        assert forall|p: int| 0 <= p < r implies #[trigger] batch_bound(
                            vals,
                            w@,
                            cands@,
                            best,
                            overflowed,
                            coords@,
                            next as int,
                            p,
                        ) by {
                            if coords@[p] >= c.1 && vals[p] is Some {
                                assert(p >= l) by {
                                    if p < l {
                                        assert(coords@[p] < c.1);
                                    }
                                }
                            }
                        }
                    }
                },
                Some(q) => {
                    let ghost p0 = choose|p: int| l <= p < kc && #[trigger] vals[p] == found;
                    proof {
                        assert(vals[p0] == found);
                        assert(p0 < r);
                        assert(entry_ok(s@, e@, w@, lo, hi, coords@, vals, back@, p0));
                        if p0 == 0 {
                            assert(q.2 == 0);
                        }
                        assert(q.2 == p0);
                        assert(q.1 <= p0);
                        assert(q.0 >= 0);
                        assert(w@[c.2 as int] >= 0);
                    }
                    match q.0.checked_add(w[c.2]) {
                        None => {
                            overflowed = true;
                            proof {
                                assert forall|i: int, rr: int, p: int|
                                    rr < r implies #[trigger] step_ok(
                                    s@,
                                    e@,
                                    w@,
                                    lo,
                                    hi,
                                    coords@,
                                    vals,
                                    overflowed,
                                    i,
                                    rr,
                                    p,
                                ) by {
                                    assert(step_ok(s@, e@, w@, lo, hi, coords@, vals, old_ovf, i, rr, p));
                                }
                                assert forall|p: int| 0 <= p < r implies #[trigger] batch_bound(
                                    vals,
                                    w@,
                                    cands@,
                                    best,
                                    overflowed,
                                    coords@,
                                    next as int,
                                    p,
                                ) by {
                                    if coords@[p] >= c.1 && vals[p] is Some {
                                        assert(p >= l) by {
                                            if p < l {
                                                assert(coords@[p] < c.1);
                                            }
                                        }
                                        assert(best_le(found, vals[p]));
                                    }
                                }
                            }
                        },
                        Some(total) => {
                            let proposal = (total, q.1 + 1, c.2, q.2);
                            let take = match best {
                                None => true,
                                Some(b) => lex2_lt4(proposal, b),
                            };
                            if take {
                                best = Some(proposal);
                            }
                            proof {
                                assert(best matches Some(nb) && lex2_le(
                                    nb.0 as int,
                                    nb.1 as int,
                                    proposal.0 as int,
                                    proposal.1 as int,
                                ));
                                assert forall|p: int| 0 <= p < r implies #[trigger] batch_bound(
                                    vals,
                                    w@,
                                    cands@,
                                    best,
                                    overflowed,
                                    coords@,
                                    next as int,
                                    p,
                                ) by {
                                    if coords@[p] >= c.1 && vals[p] is Some {
                                        assert(p >= l) by {
                                            if p < l {
                                                assert(coords@[p] < c.1);
                                            }
                                        }
                                        assert(best_le(found, vals[p]));
                                        let v = vals[p].unwrap();
                                        assert(lex_le(q, v));
                                        assert(lex2_le(
                                            proposal.0 as int,
                                            proposal.1 as int,
                                            v.0 + w@[c.2 as int],
                                            v.1 + 1,
                                        ));
                                    }
                                }
                            }
                        },
                    }
                },
            }
            proof {
                assert(old_best matches Some(ob) ==> (best matches Some(nb) && lex2_le(
                    nb.0 as int,
                    nb.1 as int,
                    ob.0 as int,
                    ob.1 as int,
                )));
                assert forall|qq: int, p: int|
                    batch_start <= qq < next + 1 && 0 <= p < r implies #[trigger] batch_bound(
                    vals,
                    w@,
                    cands@,
                    best,
                    overflowed,
                    coords@,
                    qq,
                    p,
                ) by {
                    if qq < next {
                        assert(batch_bound(vals, w@, cands@, old_best, old_ovf, coords@, qq, p));
                    }
                }
            }
            next += 1;
        }
        proof {
            assert forall|q: int| next <= q < k implies (#[trigger] cands@[q]).0 > coords@[r as int] by {
                assert(le3(cands@[next as int], cands@[q]));
                assert(cands@[next as int].0 != coords@[r as int]);
                assert(cands@[next as int].0 >= coords@[r as int]) by {
                    assert(end_record(s@, e@, lo, hi, cands@[next as int]));
                    let i = cands@[next as int].2 as int;
                    let rr = choose|rr: int| 1 <= rr < kc && #[trigger] coords@[rr] == clip_end(e@, hi, i);
                    if rr < r {
                        if rr < r - 1 {
                            assert(coords@[rr] < coords@[r - 1]);
                        }
                    }
                    if rr > r {
                        assert(coords@[r as int] < coords@[rr]);
                    }
                }
            }
        }
        let ghost old_back = back@;
        match best {
            None => {},
            Some(b) => {
                back.set(r, Some((b.3, b.2)));
                tree.update(r, Some((b.0, b.1, r)));
            },
        }
        proof {
            let nv = tree.view();
            assert forall|p: int| 0 <= p < kc implies #[trigger] nv[p] == if p == r {
                match best {
                    None => None,
                    Some(b) => Some((b.0, b.1, r)),
                }
            } else {
                vals[p]
            } by {}
            assert forall|p: int| 0 <= p < kc && p != r implies #[trigger] back@[p] == old_back[p] by {}
            assert forall|p: int| 0 <= p < r + 1 implies #[trigger] entry_ok(
                s@,
                e@,
                w@,
                lo,
                hi,
                coords@,
                nv,
                back@,
                p,
            ) by {
                if p < r {
                    assert(entry_ok(s@, e@, w@, lo, hi, coords@, vals, old_back, p));
                    if p > 0 {
                        if let Some(v) = vals[p] {
                            let bp = old_back[p].unwrap();
                            assert(nv[bp.0 as int] == vals[bp.0 as int]);
                        }
                    }
                } else {
                    if let Some(b) = best {
                        assert(nv[b.3 as int] == vals[b.3 as int]);
                    }
                }
            }
            assert forall|i: int, rr: int, p: int|
                rr < r + 1 implies #[trigger] step_ok(
                s@,
                e@,
                w@,
                lo,
                hi,
                coords@,
                nv,
                overflowed,
                i,
                rr,
                p,
            ) by {
                if rr < r {
                    assert(step_ok(s@, e@, w@, lo, hi, coords@, vals, overflowed, i, rr, p));
                    if 0 <= p < rr && 1 <= rr {
                        assert(nv[p] == vals[p]);
                        assert(nv[rr] == vals[rr]);
                    }
                } else if rr == r && 0 <= i < n && candidate(s@, e@, lo, hi, i) && coords@[r as int]
                    == clip_end(e@, hi, i) && 0 <= p < r && coords@[p] >= clip_start(s@, lo, i)
                    && vals[p] is Some {
                    let x = (clip_end(e@, hi, i), clip_start(s@, lo, i), i as usize);
                    assert(cands@.contains(x));
                    let q = choose|q: int| 0 <= q < k && cands@[q] == x;
                    if q < batch_start {
                        assert(cands@[q].0 <= coords@[r - 1]);
                    }
                    if q >= next {
                        assert(cands@[q].0 > coords@[r as int]);
                    }
                    assert(nv[p] == vals[p]);
                    assert(end_record(s@, e@, lo, hi, cands@[q]));
                    assert(batch_bound(vals, w@, cands@, best, overflowed, coords@, q, p));
                }
            }
        }
        r += 1;
    }
    // Reconstruction along the back pointers.
    let ghost fin = tree.view();
    proof {
        assert forall|i: int, rr: int, p: int| #[trigger]
            step_ok(s@, e@, w@, lo, hi, coords@, fin, overflowed, i, rr, p) by {
            if rr < r {
                assert(step_ok(s@, e@, w@, lo, hi, coords@, fin, overflowed, i, rr, p));
            }
        }
    }
    let mut mask = all_false(n);
    let mut f: usize = kc - 1;
    proof {
        lemma_count_all_false(n as nat, n as int);
        lemma_weight_all_false(w@, n as nat, n as int);
        assert(coords@[0] < coords@[kc - 1]);
    }
    while f != 0
        invariant
            n == s.len() == e.len() == w.len() == mask.len(),
            kc == coords.len() == fin.len() == back.len(),
            kc >= 2,
            f < kc,
            nonneg_costs(w@),
            lo <= hi,
            valid_rows(s@, e@),
            coords_ok(s@, e@, lo, hi, coords@),
            coords@[kc - 1] == hi,
            forall|i: int, rr: int, p: int| #[trigger]
                step_ok(s@, e@, w@, lo, hi, coords@, fin, overflowed, i, rr, p),
            forall|p: int|
                0 <= p < kc ==> #[trigger] entry_ok(
                    s@,
                    e@,
                    w@,
                    lo,
                    hi,
                    coords@,
                    fin,
                    back@,
                    p,
                ),
            f != kc - 1 ==> fin[kc - 1] is Some,
            fin[kc - 1] is Some ==> {
                &&& fin[f as int] is Some
                &&& mask_weight(w@, mask@) + fin[f as int].unwrap().0 == fin[kc - 1].unwrap().0
                &&& selected_count(mask@) + fin[f as int].unwrap().1 == fin[kc - 1].unwrap().1
                &&& covers(s@, e@, mask@, coords@[f as int] as int, hi as int)
                &&& forall|i: int|
                    0 <= i < n && #[trigger] mask@[i] ==> candidate(s@, e@, lo, hi, i) && clip_end(
                        e@,
                        hi,
                        i,
                    ) > coords@[f as int]
            },
        decreases f,
    {
        proof {
            assert(entry_ok(s@, e@, w@, lo, hi, coords@, fin, back@, f as int));
        }
        match back[f] {
            None => {
                proof {
                    assert(fin[kc - 1] is None);
                    assert(entry_ok(s@, e@, w@, lo, hi, coords@, fin, back@, 0));
                }
                let feasible = cover_keys(s, e, lo, hi).is_ok();
                proof {
                    assert forall|m2: Seq<bool>|
                        m2.len() == n && #[trigger] covers(s@, e@, m2, lo as int, hi as int) implies overflowed
                        && mask_weight(w@, m2) > i128::MAX by {
                        if mask_weight(w@, m2) <= i128::MAX || !overflowed {
                            lemma_dp_lower_bound(s@, e@, w@, lo, hi, coords@, fin, overflowed, m2, hi as int);
                            let p = choose|p: int|
                                0 <= p < coords.len() && coords@[p] >= hi && #[trigger] entry_beats(fin, p, mask_weight(w@, m2), selected_count(m2));
                            if p < kc - 1 {
                                assert(coords@[p] < coords@[kc - 1]);
                            }
                        }
                    }
                    if coverable(s@, e@, lo as int, hi as int) {
                        assert(covers(s@, e@, all_rows(n as nat), lo as int, hi as int));
                    }
                }
                if overflowed && feasible {
                    return Err(IntervalError::CostOverflow);
                }
                return Err(IntervalError::InfeasibleCover);
            },
            Some(bp) => {
                let pred = bp.0;
                let row = bp.1;
                proof {
                    assert(fin[f as int] is Some);
                    assert(!mask@[row as int]);
                    lemma_count_update(mask@, row as int, true, n as int);
                    lemma_weight_update(w@, mask@, row as int, true, n as int);
                }
                let ghost old_mask = mask@;
                mask.set(row, true);
                proof {
                    assert(entry_ok(s@, e@, w@, lo, hi, coords@, fin, back@, pred as int));
                    assert forall|x: int| coords@[pred as int] <= x < hi implies #[trigger] covered(
                        s@,
                        e@,
                        mask@,
                        x,
                    ) by {
                        if x >= coords@[f as int] {
                            assert(covered(s@, e@, old_mask, x));
                            let i = choose|i: int|
                                #![trigger old_mask[i]]
                                0 <= i < old_mask.len() && old_mask[i] && s@[i] <= x < e@[i];
                            assert(mask@[i]);
                        } else {
                            assert(mask@[row as int]);
                        }
                    }
                    assert forall|i: int|
                        0 <= i < n && #[trigger] mask@[i] implies candidate(s@, e@, lo, hi, i)
                        && clip_end(e@, hi, i) > coords@[pred as int] by {
                        if i != row {
                            assert(old_mask[i]);
                        }
                        assert(coords@[pred as int] < coords@[f as int]);
                    }
                }
                f = pred;
            },
        }
    }
    proof {
        assert(entry_ok(s@, e@, w@, lo, hi, coords@, fin, back@, 0));
        let total = fin[kc - 1].unwrap();
        assert forall|m2: Seq<bool>|
            m2.len() == n && #[trigger] covers(s@, e@, m2, lo as int, hi as int) implies lex2_le(
            mask_weight(w@, mask@),
            selected_count(mask@),
            mask_weight(w@, m2),
            selected_count(m2),
        ) by {
            if mask_weight(w@, m2) <= i128::MAX {
                lemma_dp_lower_bound(s@, e@, w@, lo, hi, coords@, fin, overflowed, m2, hi as int);
                let p = choose|p: int|
                    0 <= p < coords.len() && coords@[p] >= hi && #[trigger] entry_beats(fin, p, mask_weight(w@, m2), selected_count(m2));
                if p < kc - 1 {
                    assert(coords@[p] < coords@[kc - 1]);
                }
            }
        }
        assert forall|x: int| lo <= x < hi implies #[trigger] covered(s@, e@, all_rows(n as nat), x) by {
            assert(covered(s@, e@, mask@, x));
            let i = choose|i: int| #![trigger mask@[i]] 0 <= i < n && mask@[i] && s@[i] <= x < e@[i];
            assert(all_rows(n as nat)[i]);
        }
        assert(covers(s@, e@, mask@, lo as int, hi as int));
    }
    Ok(mask)
}

/// The record is the clipped candidate record of its row, keyed by end.
pub open spec fn end_record(s: Seq<i128>, e: Seq<i128>, lo: i128, hi: i128, t: Triple) -> bool {
    &&& 0 <= t.2 < s.len()
    &&& t.0 == clip_end(e, hi, t.2 as int)
    &&& t.1 == clip_start(s, lo, t.2 as int)
    &&& candidate(s, e, lo, hi, t.2 as int)
}

proof fn lemma_weight_all_false(w: Seq<i128>, n: nat, j: int)
    requires
        0 <= j <= n,
    ensures
        weight_upto(w, Seq::new(n, |i: int| false), j) == 0,
    decreases j,
{
    if j > 0 {
        lemma_weight_all_false(w, n, j - 1);
    }
}


/// Checks that there is one cost per row and that no cost is negative.
fn validate_costs(w: &Vec<i128>, len: usize) -> (r: Result<(), IntervalError>)
    ensures
        w.len() != len ==> r == Err::<(), IntervalError>(
            IntervalError::CostLengthMismatch { intervals_len: len, costs_len: w.len() },
        ),
        w.len() == len && !nonneg_costs(w@) ==> (r matches Err(IntervalError::NegativeCost { index })
            && is_first_negative(w@, index as int)),
        w.len() == len && nonneg_costs(w@) ==> r is Ok,
{
    if w.len() != len {
        return Err(IntervalError::CostLengthMismatch { intervals_len: len, costs_len: w.len() });
    }
    let mut i: usize = 0;
    while i < w.len()
        invariant
            i <= w.len(),
            w.len() == len,
            forall|j: int| 0 <= j < i ==> #[trigger] w@[j] >= 0,
        decreases w.len() - i,
    {
        if w[i] < 0 {
            return Err(IntervalError::NegativeCost { index: i });
        }
        i += 1;
    }
    Ok(())
}

/// Select a minimum-cost cover of `[target_start, target_end)`, breaking equal
/// costs by fewer intervals.
///
/// Target, interval, validation and mask semantics are those of
/// [`crate::cover::minimum_cover`]. Costs must be nonnegative and widen
/// losslessly to `i128`; every cost is validated first, including rows outside
/// the target or an empty target. Accumulation is checked: overflowing paths
/// are discarded, and [`IntervalError::CostOverflow`] is returned only when the
/// target can be covered but no cover's cost fits in `i128`. Uses exact
/// frontier dynamic programming over the distinct clipped ends, a reversed
/// Fenwick suffix-minimum tree and back pointers, in `O(n log n)` time. Which
/// of several tied optimal masks is returned is deterministic but not part of
/// the contract. Inputs are bounded below `2^62` rows, a limit no machine reaches.
pub fn minimum_cost_cover<T: Endpoint, W: Weight>(
    starts: &[T],
    ends: &[T],
    costs: &[W],
    target_start: T,
    target_end: T,
) -> (r: Result<Vec<bool>, IntervalError>)
    requires
        starts.len() < 0x3fff_ffff_ffff_ffff,
    ensures
        costs.len() != starts.len() ==> r == Err::<Vec<bool>, IntervalError>(
            IntervalError::CostLengthMismatch {
                intervals_len: starts.len(),
                costs_len: costs.len(),
            },
        ),
        costs.len() == starts.len() && !nonneg_costs(amounts(costs@)) ==> (r matches Err(
            IntervalError::NegativeCost { index },
        ) && is_first_negative(amounts(costs@), index as int)),
        costs.len() == starts.len() && nonneg_costs(amounts(costs@)) && starts.len() != ends.len()
            ==> r == Err::<Vec<bool>, IntervalError>(
            IntervalError::LengthMismatch { starts_len: starts.len(), ends_len: ends.len() },
        ),
        costs.len() == starts.len() && nonneg_costs(amounts(costs@)) && starts.len() == ends.len()
            ==> cost_cover_outcome(
            ordinals(starts@),
            ordinals(ends@),
            amounts(costs@),
            target_start.ordinal(),
            target_end.ordinal(),
            r,
        ),
{
    let w = amounts_of(costs);
    match validate_costs(&w, starts.len()) {
        Ok(()) => {},
        Err(err) => {
            return Err(err);
        },
    }
    if starts.len() != ends.len() {
        return Err(IntervalError::LengthMismatch { starts_len: starts.len(), ends_len: ends.len() });
    }
    let s = ordinals_of(starts);
    let e = ordinals_of(ends);
    let lo = target_start.key();
    let hi = target_end.key();
    cost_cover_keys(&s, &e, &w, lo, hi)
}

// ----------------------------------------------------------------------------
// Laws relating the two covers.
// ----------------------------------------------------------------------------

/// With every cost zero, every selection costs nothing.
proof fn lemma_zero_costs(w: Seq<i128>, m: Seq<bool>, j: int)
    requires
        0 <= j <= w.len(),
        forall|i: int| 0 <= i < w.len() ==> #[trigger] w[i] == 0,
    ensures
        weight_upto(w, m, j) == 0,
    decreases j,
{
    if j > 0 {
        lemma_zero_costs(w, m, j - 1);
    }
}

/// A minimum-cost cover and a fewest-rows cover of the same request agree:
/// both reject an invalid or uncoverable request with the same error; when the
/// target can be covered, the minimum-cost cover costs no more than the
/// fewest-rows cover and selects at least as many rows, or reports a cost
/// overflow because the fewest-rows cover itself costs more than `i128::MAX`;
/// and with every cost zero the minimum-cost cover selects exactly as many
/// rows as the fewest-rows cover.
pub proof fn lemma_cost_cover_against_cover(
    s: Seq<i128>,
    e: Seq<i128>,
    w: Seq<i128>,
    lo: i128,
    hi: i128,
    r1: Result<Vec<bool>, IntervalError>,
    r2: Result<Vec<bool>, IntervalError>,
)
    requires
        s.len() == e.len() == w.len(),
        nonneg_costs(w),
        cover_outcome(s, e, lo, hi, r1),
        cost_cover_outcome(s, e, w, lo, hi, r2),
    ensures
        r1 is Err ==> r2 == r1,
        r1 matches Ok(m1) ==> match r2 {
            Ok(m2) => selected_count(m1@) <= selected_count(m2@) && mask_weight(w, m2@) <= mask_weight(
                w,
                m1@,
            ),
            Err(err) => err == IntervalError::CostOverflow && mask_weight(w, m1@) > i128::MAX,
        },
        (forall|i: int| 0 <= i < w.len() ==> #[trigger] w[i] == 0) && r1 is Ok ==> (r2 matches Ok(m2)
            && selected_count(m2@) == selected_count(r1->Ok_0@)),
{
    if lo <= hi && valid_rows(s, e) {
        if coverable(s, e, lo as int, hi as int) {
            let m1 = r1->Ok_0;
            assert(covers(s, e, m1@, lo as int, hi as int));
            if affordable_cover_exists(s, e, w, lo, hi) {
                let m2 = r2->Ok_0;
                assert(covers(s, e, m2@, lo as int, hi as int));
            }
            if forall|i: int| 0 <= i < w.len() ==> #[trigger] w[i] == 0 {
                lemma_zero_costs(w, m1@, m1@.len() as int);
                assert(affordable_cover_exists(s, e, w, lo, hi));
                let m2 = r2->Ok_0;
                assert(covers(s, e, m2@, lo as int, hi as int));
                lemma_zero_costs(w, m2@, m2@.len() as int);
            }
        }
    } else {
        let err1 = r1->Err_0;
        let err2 = r2->Err_0;
        if lo <= hi {
            let a = err1->InvalidInterval_index;
            let b = err2->InvalidInterval_index;
            assert(is_first_reversed(s, e, a as int));
            assert(is_first_reversed(s, e, b as int));
            if a < b {
                assert(s[a as int] <= e[a as int]);
            } else if b < a {
                assert(s[b as int] <= e[b as int]);
            }
        }
    }
}

/// A mask with a selected row counts at least one.
proof fn lemma_selected_counts(m: Seq<bool>, i: int)
    requires
        0 <= i < m.len(),
        m[i],
    ensures
        selected_count(m) >= 1,
{
    lemma_count_update(m, i, false, m.len() as int);
    lemma_count_nonneg(m.update(i, false), m.len() as int);
}

/// An empty target needs no interval: on valid rows, both covers of an empty
/// target succeed and select nothing.
pub proof fn lemma_empty_target(
    s: Seq<i128>,
    e: Seq<i128>,
    w: Seq<i128>,
    x: i128,
    r1: Result<Vec<bool>, IntervalError>,
    r2: Result<Vec<bool>, IntervalError>,
)
    requires
        s.len() == e.len() == w.len(),
        nonneg_costs(w),
        valid_rows(s, e),
        cover_outcome(s, e, x, x, r1),
        cost_cover_outcome(s, e, w, x, x, r2),
    ensures
        r1 matches Ok(m1) && forall|i: int| 0 <= i < m1.len() ==> !#[trigger] m1[i],
        r2 matches Ok(m2) && forall|i: int| 0 <= i < m2.len() ==> !#[trigger] m2[i],
{
    let n = s.len();
    let none = Seq::new(n, |i: int| false);
    assert(covers(s, e, none, x as int, x as int));
    assert(covers(s, e, all_rows(n), x as int, x as int));
    lemma_count_all_false(n, n as int);
    lemma_weight_all_false(w, n, n as int);
    assert(affordable_cover_exists(s, e, w, x, x));
    let m1 = r1->Ok_0;
    let m2 = r2->Ok_0;
    assert forall|i: int| 0 <= i < m1.len() implies !#[trigger] m1[i] by {
        if m1[i] {
            lemma_selected_counts(m1@, i);
        }
    }
    lemma_weight_nonneg(w, m2@, m2@.len() as int);
    assert forall|i: int| 0 <= i < m2.len() implies !#[trigger] m2[i] by {
        if m2[i] {
            lemma_selected_counts(m2@, i);
        }
    }
}

} // verus!
