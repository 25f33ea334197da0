//! Assigning intervals to the fewest non-overlapping lanes.
use vstd::prelude::*;
use vstd::multiset::group_multiset_axioms;
use vstd::seq_lib::group_to_multiset_ensures;
use vstd::seq_lib::{to_multiset_contains, to_multiset_update, to_multiset_build};
use vstd::set_lib::{set_int_range, lemma_int_range, lemma_len_subset, lemma_map_size};
use crate::endpoint::{Endpoint, ordinals, ordinals_of};
use crate::error::IntervalError;
use crate::rows::{overlaps, valid_rows, is_first_reversed, shifted, shift_fits};
use crate::sort::{Triple, le3, sorted3, sort_triples, lemma_sorted_rows_distinct, sorted_of, lemma_sorted_of, lemma_sorted_unique};
use crate::heap::{Entry, entry_le, heap_ok, lemma_root_is_min, heap_push, heap_replace_root};

verus! {

// ----------------------------------------------------------------------------
// The model.
// ----------------------------------------------------------------------------

/// The rows whose interval contains the point `x`.
pub open spec fn active_set(s: Seq<i128>, e: Seq<i128>, x: int) -> Set<int> {
    Set::new(|i: int| 0 <= i < s.len() && s[i] <= x < e[i])
}

/// Number of intervals that contain the point `x`.
pub open spec fn active_count(s: Seq<i128>, e: Seq<i128>, x: int) -> int {
    active_set(s, e, x).len() as int
}

/// One more than the largest lane among the first `j` rows, or zero.
pub open spec fn lane_count_upto(lanes: Seq<u32>, j: int) -> int
    decreases j,
{
    if j <= 0 {
        0
    } else {
        let prev = lane_count_upto(lanes, j - 1);
        if lanes[j - 1] + 1 > prev {
            lanes[j - 1] + 1
        } else {
            prev
        }
    }
}

/// Number of lanes used: one more than the largest lane, or zero without rows.
pub open spec fn lane_count(lanes: Seq<u32>) -> int {
    lane_count_upto(lanes, lanes.len() as int)
}

/// Some row is on lane `l`.
pub open spec fn lane_used(lanes: Seq<u32>, l: int) -> bool {
    exists|i: int| 0 <= i < lanes.len() && #[trigger] lanes[i] == l
}

/// The lanes are a valid assignment with the fewest lanes: one lane per row,
/// empty rows on lane zero, overlapping rows on different lanes, lanes used
/// contiguously from zero, and exactly as many lanes as the largest number of
/// intervals that share a point (one lane when every row is empty).
pub open spec fn optimal_lanes(s: Seq<i128>, e: Seq<i128>, lanes: Seq<u32>) -> bool {
    &&& lanes.len() == s.len()
    &&& forall|i: int| 0 <= i < s.len() && s[i] == e[i] ==> #[trigger] lanes[i] == 0
    &&& forall|i: int, j: int|
        0 <= i < s.len() && 0 <= j < s.len() && i != j && #[trigger] overlaps(s, e, i, j) ==> lanes[i]
            != lanes[j]
    &&& forall|l: int| 0 <= l < lane_count(lanes) ==> #[trigger] lane_used(lanes, l)
    &&& forall|x: int| #[trigger] active_count(s, e, x) <= lane_count(lanes)
    &&& (exists|i: int| 0 <= i < s.len() && s[i] < e[i]) ==> exists|x: int|
        #[trigger] active_count(s, e, x) == lane_count(lanes)
}

/// The outcome of lane assignment on rows of equal length.
pub open spec fn lanes_outcome(s: Seq<i128>, e: Seq<i128>, r: Result<Vec<u32>, IntervalError>) -> bool {
    if valid_rows(s, e) {
        match r {
            Ok(lanes) => optimal_lanes(s, e, lanes@) && lanes@ == assigned_lanes(s, e),
            Err(err) => err == IntervalError::TooManyLanes && exists|x: int|
                #[trigger] active_count(s, e, x) > 0x1_0000_0000,
        }
    } else {
        r matches Err(IntervalError::InvalidInterval { index }) && is_first_reversed(s, e, index as int)
    }
}

/// The non-empty rows among the first `j`, as `(start, 0, row)` records.
pub open spec fn nonempty_rows(s: Seq<i128>, e: Seq<i128>, j: int) -> Seq<Triple>
    decreases j,
{
    if j <= 0 {
        Seq::empty()
    } else if s[j - 1] < e[j - 1] {
        nonempty_rows(s, e, j - 1).push((s[j - 1], 0i128, (j - 1) as usize))
    } else {
        nonempty_rows(s, e, j - 1)
    }
}

/// The heap entries of the lanes: each lane's latest end and the lane.
pub open spec fn lane_entries(e: Seq<i128>, last: Seq<int>) -> Seq<Entry> {
    Seq::new(last.len(), |l: int| (e[last[l]], l as u32))
}

/// The lane, among lanes `0..j`, whose latest interval ends first; on equal
/// ends, the lowest lane.
pub open spec fn first_free(e: Seq<i128>, last: Seq<int>, j: int) -> int
    decreases j,
{
    if j <= 1 {
        0
    } else {
        let b = first_free(e, last, j - 1);
        if e[last[j - 1]] < e[last[b]] {
            j - 1
        } else {
            b
        }
    }
}

/// Places row `r`, which starts at `x`: it reuses the lane whose latest
/// interval ends first when that interval ends by `x`, and opens a new lane
/// otherwise. `last` holds each lane's latest row.
pub open spec fn place(e: Seq<i128>, last: Seq<int>, lanes: Seq<u32>, r: int, x: i128) -> (Seq<int>, Seq<u32>) {
    let l = first_free(e, last, last.len() as int);
    if last.len() > 0 && e[last[l]] <= x {
        (last.update(l, r), lanes.update(r, l as u32))
    } else {
        (last.push(r), lanes.update(r, last.len() as u32))
    }
}

/// The lanes after placing the first `p` records of `order`, each
/// `(start, 0, row)`, starting from `n` rows on lane zero.
pub open spec fn replay(e: Seq<i128>, order: Seq<Triple>, n: nat, p: int) -> (Seq<int>, Seq<u32>)
    decreases p,
{
    if p <= 0 {
        (Seq::empty(), Seq::new(n, |i: int| 0u32))
    } else {
        let prev = replay(e, order, n, p - 1);
        place(e, prev.0, prev.1, order[p - 1].2 as int, order[p - 1].0)
    }
}

/// The lanes that assignment gives: the non-empty rows, by start and then
/// row, each placed in turn.
pub open spec fn assigned_lanes(s: Seq<i128>, e: Seq<i128>) -> Seq<u32> {
    let order = sorted_of(nonempty_rows(s, e, s.len() as int));
    replay(e, order, s.len(), order.len() as int).1
}

proof fn lemma_first_free(e: Seq<i128>, last: Seq<int>, j: int)
    requires
        0 < j,
    ensures
        0 <= first_free(e, last, j) < j,
        forall|l: int|
            0 <= l < j ==> e[last[first_free(e, last, j)]] < e[#[trigger] last[l]] || (e[last[first_free(
                e,
                last,
                j,
            )]] == e[last[l]] && first_free(e, last, j) <= l),
    decreases j,
{
    if j > 1 {
        lemma_first_free(e, last, j - 1);
    }
}

/// The root of a heap of lane entries is the entry of `first_free`.
proof fn lemma_heap_root(e: Seq<i128>, last: Seq<int>, heap: Seq<Entry>)
    requires
        heap_ok(heap),
        heap.len() > 0,
        heap.len() == last.len(),
        last.len() <= 0x1_0000_0000,
        heap.to_multiset() == lane_entries(e, last).to_multiset(),
    ensures
        0 <= first_free(e, last, last.len() as int) < last.len(),
        heap[0] == (e[last[first_free(e, last, last.len() as int)]], first_free(e, last, last.len() as int) as u32),
{
    broadcast use group_to_multiset_ensures, group_multiset_axioms;

    let f = first_free(e, last, last.len() as int);
    lemma_first_free(e, last, last.len() as int);
    let entries = lane_entries(e, last);
    to_multiset_contains(heap, heap[0]);
    to_multiset_contains(entries, heap[0]);
    assert(heap.contains(heap[0]));
    let l0 = choose|l: int| 0 <= l < entries.len() && entries[l] == heap[0];
    let x = entries[f];
    to_multiset_contains(entries, x);
    to_multiset_contains(heap, x);
    assert(entries.contains(x));
    let q = choose|q: int| 0 <= q < heap.len() && heap[q] == x;
    lemma_root_is_min(heap, q);
    assert(entry_le(heap[0], x));
    assert(e[last[f]] < e[last[l0]] || (e[last[f]] == e[last[l0]] && f <= l0));
}

// ----------------------------------------------------------------------------
// Lemmas.
// ----------------------------------------------------------------------------

proof fn lemma_nonempty_rows(s: Seq<i128>, e: Seq<i128>, j: int)
    requires
        s.len() == e.len(),
        s.len() <= usize::MAX,
        0 <= j <= s.len(),
    ensures
        forall|p: int|
            0 <= p < nonempty_rows(s, e, j).len() ==> {
                let t = #[trigger] nonempty_rows(s, e, j)[p];
                0 <= t.2 < j && t.0 == s[t.2 as int] && t.1 == 0 && s[t.2 as int] < e[t.2 as int]
            },
        forall|a: int, b: int|
            0 <= a < b < nonempty_rows(s, e, j).len() ==> (#[trigger] nonempty_rows(s, e, j)[a]).2
                < (#[trigger] nonempty_rows(s, e, j)[b]).2,
        forall|i: int|
            0 <= i < j && s[i] < e[i] ==> #[trigger] nonempty_rows(s, e, j).contains(
                (s[i], 0i128, i as usize),
            ),
    decreases j,
{
    if j > 0 {
        lemma_nonempty_rows(s, e, j - 1);
        let prev = nonempty_rows(s, e, j - 1);
        let cur = nonempty_rows(s, e, j);
        if s[j - 1] < e[j - 1] {
            let x = (s[j - 1], 0i128, (j - 1) as usize);
            assert(cur == prev.push(x));
            assert forall|p: int| 0 <= p < cur.len() implies {
                let t = #[trigger] cur[p];
                0 <= t.2 < j && t.0 == s[t.2 as int] && t.1 == 0 && s[t.2 as int] < e[t.2 as int]
            } by {
                if p < prev.len() {
                    assert(cur[p] == prev[p]);
                }
            }
            assert forall|a: int, b: int| 0 <= a < b < cur.len() implies (#[trigger] cur[a]).2 < (
            #[trigger] cur[b]).2 by {
                assert(cur[a] == prev[a]);
                if b < prev.len() {
                    assert(cur[b] == prev[b]);
                }
            }
            assert forall|i: int| 0 <= i < j && s[i] < e[i] implies #[trigger] cur.contains(
                (s[i], 0i128, i as usize),
            ) by {
                if i < j - 1 {
                    assert(prev.contains((s[i], 0i128, i as usize)));
                    let p = choose|p: int| 0 <= p < prev.len() && prev[p] == (s[i], 0i128, i as usize);
                    assert(cur[p] == prev[p]);
                } else {
                    assert(cur[cur.len() - 1] == x);
                }
            }
        }
    }
}

proof fn lemma_active_finite(s: Seq<i128>, e: Seq<i128>, x: int)
    ensures
        active_set(s, e, x).finite(),
        active_set(s, e, x).len() <= s.len(),
{
    lemma_int_range(0, s.len() as int);
    lemma_len_subset(active_set(s, e, x), set_int_range(0, s.len() as int));
}

proof fn lemma_lane_count(lanes: Seq<u32>, j: int, bound: int)
    requires
        0 <= j <= lanes.len(),
        forall|i: int| 0 <= i < j ==> #[trigger] lanes[i] < bound,
    ensures
        lane_count_upto(lanes, j) <= bound || j == 0,
        forall|i: int| 0 <= i < j ==> #[trigger] lanes[i] < lane_count_upto(lanes, j),
        0 <= lane_count_upto(lanes, j),
    decreases j,
{
    if j > 0 {
        lemma_lane_count(lanes, j - 1, bound);
    }
}

/// Any row with lane `bound - 1` makes the count reach `bound`.
proof fn lemma_lane_count_exact(lanes: Seq<u32>, j: int, bound: int, w: int)
    requires
        0 <= w < j <= lanes.len(),
        forall|i: int| 0 <= i < j ==> #[trigger] lanes[i] < bound,
        lanes[w] == bound - 1,
    ensures
        lane_count_upto(lanes, j) == bound,
    decreases j,
{
    lemma_lane_count(lanes, j, bound);
    if w < j - 1 {
        lemma_lane_count_exact(lanes, j - 1, bound, w);
    }
}

// ----------------------------------------------------------------------------
// The algorithm.
// ----------------------------------------------------------------------------

fn zero_lanes(n: usize) -> (v: Vec<u32>)
    ensures
        v@ == Seq::new(n as nat, |i: int| 0u32),
{
    let mut v: Vec<u32> = Vec::new();
    let mut i: usize = 0;
    while i < n
        invariant
            i <= n,
            v@ == Seq::new(i as nat, |j: int| 0u32),
        decreases n - i,
    {
        v.push(0);
        i += 1;
        proof {
            assert(v@ =~= Seq::new(i as nat, |j: int| 0u32));
        }
    }
    v
}

/// Lane assignment over endpoint ordinals.
pub fn lanes_keys(s: &Vec<i128>, e: &Vec<i128>) -> (r: Result<Vec<u32>, IntervalError>)
    requires
        s.len() == e.len(),
    ensures
        lanes_outcome(s@, e@, r),
{
    broadcast use group_to_multiset_ensures, group_multiset_axioms;

    let n = s.len();
    let mut raw: Vec<Triple> = Vec::new();
    let mut i: usize = 0;
    while i < n
        invariant
            n == s.len() == e.len(),
            i <= n,
            forall|j: int| 0 <= j < i ==> s@[j] <= e@[j],
            raw@ == nonempty_rows(s@, e@, i as int),
        decreases n - i,
    {
        if s[i] > e[i] {
            proof {
                assert(is_first_reversed(s@, e@, i as int));
            }
            return Err(IntervalError::InvalidInterval { index: i });
        }
        if s[i] < e[i] {
            raw.push((s[i], 0, i));
        }
        i += 1;
    }
    let order = sort_triples(&raw);
    let k = order.len();
    proof {
        lemma_nonempty_rows(s@, e@, n as int);
        lemma_sorted_rows_distinct(order@, raw@);
        lemma_sorted_of(raw@);
        lemma_sorted_unique(order@, sorted_of(raw@));
    }
    let mut lanes = zero_lanes(n);
    let mut heap: Vec<Entry> = Vec::new();
    let ghost mut last: Seq<int> = Seq::empty();
    let ghost mut done: Set<int> = Set::empty();
    let ghost mut wx: int = 0;
    let ghost mut cur: int = i128::MIN as int;
    let mut pos: usize = 0;
    while pos < k
        invariant
            n == s.len() == e.len() == lanes.len(),
            k == order.len(),
            pos <= k,
            valid_rows(s@, e@),
            sorted3(order@),
            order@.to_multiset() == raw@.to_multiset(),
            raw@ == nonempty_rows(s@, e@, n as int),
            forall|p: int| 0 <= p < k ==> raw@.contains(#[trigger] order@[p]),
            forall|p: int, q: int| 0 <= p < q < k ==> (#[trigger] order@[p]).2 != (#[trigger] order@[q]).2,
            forall|p: int|
                0 <= p < raw@.len() ==> {
                    let t = #[trigger] raw@[p];
                    0 <= t.2 < n && t.0 == s@[t.2 as int] && t.1 == 0 && s@[t.2 as int] < e@[t.2 as int]
                },
            heap_ok(heap@),
            heap.len() == last.len(),
            heap.len() <= 0x1_0000_0000,
            heap@.to_multiset() == lane_entries(e@, last).to_multiset(),
            forall|t: int| 0 <= t < pos ==> done.contains((#[trigger] order@[t]).2 as int),
            forall|t: int| pos <= t < k ==> !done.contains((#[trigger] order@[t]).2 as int),
            forall|t: int| pos <= t < k ==> cur <= (#[trigger] order@[t]).0,
            forall|j: int|
                #[trigger] done.contains(j) ==> 0 <= j < n && s@[j] < e@[j] && s@[j] <= cur,
            forall|j: int| 0 <= j < n && !done.contains(j) ==> #[trigger] lanes@[j] == 0,
            forall|l: int|
                0 <= l < last.len() ==> done.contains(#[trigger] last[l]) && lanes@[last[l]] == l,
            forall|j: int|
                #[trigger] done.contains(j) ==> lanes@[j] < last.len() && e@[j] <= e@[last[lanes@[j] as int]],
            forall|j: int, jj: int|
                #[trigger] done.contains(j) && #[trigger] done.contains(jj) && j != jj && lanes@[j]
                    == lanes@[jj] ==> !overlaps(s@, e@, j, jj),
            last.len() > 0 ==> active_count(s@, e@, wx) >= last.len(),
            order@ == sorted_of(nonempty_rows(s@, e@, n as int)),
            last == replay(e@, order@, n as nat, pos as int).0,
            lanes@ == replay(e@, order@, n as nat, pos as int).1,
        decreases k - pos,
    {
        let row = order[pos].2;
        let start = order[pos].0;
        proof {
            assert(raw@.contains(order@[pos as int]));
            let q = choose|q: int| 0 <= q < raw@.len() && raw@[q] == order@[pos as int];
            assert(raw@[q] == order@[pos as int]);
        }
        let ghost old_last = last;
        let ghost old_done = done;
        let ghost old_lanes = lanes@;
        let ghost old_heap = heap@;
        proof {
            if heap.len() > 0 {
                lemma_heap_root(e@, last, heap@);
            }
        }
        let reuse = heap.len() > 0 && heap[0].0 <= start;
        if reuse {
            let lane = heap[0].1;
            proof {
                to_multiset_contains(heap@, heap@[0]);
                assert(heap@.contains(heap@[0]));
                to_multiset_contains(lane_entries(e@, last), heap@[0]);
                let l = choose|l: int| 0 <= l < last.len() && #[trigger] lane_entries(e@, last)[l] == heap@[0];
                assert(lane_entries(e@, last)[l] == heap@[0]);
                assert(l == lane as int);
            }
            lanes.set(row, lane);
            heap_replace_root(&mut heap, (e[row], lane));
            proof {
                let l = lane as int;
                last = old_last.update(l, row as int);
                done = old_done.insert(row as int);
                cur = start as int;
                to_multiset_update(lane_entries(e@, old_last), l, (e@[row as int], lane));
                assert(lane_entries(e@, last) =~= lane_entries(e@, old_last).update(l, (e@[row as int], lane)));
                assert(lane_entries(e@, old_last)[l] == old_heap[0]);
                assert(heap@.to_multiset() =~= lane_entries(e@, last).to_multiset());
                assert forall|t: int| 0 <= t < pos + 1 implies done.contains((#[trigger] order@[t]).2 as int) by {}
                assert forall|t: int| pos + 1 <= t < k implies cur <= (#[trigger] order@[t]).0 by {
                    assert(le3(order@[pos as int], order@[t]));
                }
                assert forall|j: int| #[trigger] done.contains(j) implies 0 <= j < n && s@[j] < e@[j]
                    && s@[j] <= cur by {
                    if j != row {
                        assert(old_done.contains(j));
                    }
                }
                assert forall|l2: int|
                    0 <= l2 < last.len() implies done.contains(#[trigger] last[l2]) && lanes@[last[l2]]
                    == l2 by {
                    if l2 != l {
                        assert(old_done.contains(old_last[l2]));
                    }
                }
                assert forall|j: int|
                    #[trigger] done.contains(j) implies lanes@[j] < last.len() && e@[j] <= e@[last[lanes@[j] as int]] by {
                    if j != row {
                        assert(old_done.contains(j));
                        if old_lanes[j] == lane {
                            assert(e@[j] <= e@[old_last[l]]);
                        }
                    }
                }
                assert forall|j: int, jj: int|
                    #[trigger] done.contains(j) && #[trigger] done.contains(jj) && j != jj && lanes@[j]
                        == lanes@[jj] implies !overlaps(s@, e@, j, jj) by {
                    if j == row {
                        assert(old_done.contains(jj));
                        assert(e@[jj] <= e@[old_last[l]]);
                    } else if jj == row {
                        assert(old_done.contains(j));
                        assert(e@[j] <= e@[old_last[l]]);
                    } else {
                        assert(old_done.contains(j) && old_done.contains(jj));
                    }
                }
            }
        } else {
            proof {
                // Every lane's latest interval still contains this start.
                assert forall|l: int| 0 <= l < old_last.len() implies e@[#[trigger] old_last[l]] > start by {
                    let x = lane_entries(e@, old_last)[l];
                    to_multiset_contains(lane_entries(e@, old_last), x);
                    to_multiset_contains(heap@, x);
                    let q = choose|q: int| 0 <= q < heap@.len() && heap@[q] == x;
                    lemma_root_is_min(heap@, q);
                }
                let seq = old_last.push(row as int);
                assert(seq.no_duplicates()) by {
                    assert forall|a: int, b: int| 0 <= a < b < seq.len() implies seq[a] != seq[b] by {
                        if b == old_last.len() {
                            assert(old_done.contains(old_last[a]));
                        } else {
                            assert(lanes@[old_last[a]] == a);
                            assert(lanes@[old_last[b]] == b);
                        }
                    }
                }
                seq.unique_seq_to_set();
                lemma_active_finite(s@, e@, start as int);
                assert(seq.to_set().subset_of(active_set(s@, e@, start as int))) by {
                    assert forall|j: int| seq.to_set().contains(j) implies active_set(s@, e@, start as int).contains(j) by {
                        let a = choose|a: int| 0 <= a < seq.len() && seq[a] == j;
                        if a < old_last.len() {
                            assert(old_done.contains(old_last[a]));
                        }
                    }
                }
                lemma_len_subset(seq.to_set(), active_set(s@, e@, start as int));
            }
            if heap.len() > 0xffff_ffff {
                proof {
                    let seq = old_last.push(row as int);
                    assert(seq.to_set().len() == seq.len());
                    assert(active_count(s@, e@, start as int) > 0x1_0000_0000);
                }
                return Err(IntervalError::TooManyLanes);
            }
            let lane = heap.len() as u32;
            lanes.set(row, lane);
            heap_push(&mut heap, (e[row], lane));
            proof {
                last = old_last.push(row as int);
                done = old_done.insert(row as int);
                cur = start as int;
                wx = start as int;
                assert(lane_entries(e@, last) =~= lane_entries(e@, old_last).push((e@[row as int], lane)));
                to_multiset_build(lane_entries(e@, old_last), (e@[row as int], lane));
                assert(heap@.to_multiset() =~= lane_entries(e@, last).to_multiset());
                assert forall|t: int| 0 <= t < pos + 1 implies done.contains((#[trigger] order@[t]).2 as int) by {}
                assert forall|t: int| pos + 1 <= t < k implies cur <= (#[trigger] order@[t]).0 by {
                    assert(le3(order@[pos as int], order@[t]));
                }
                assert forall|j: int| #[trigger] done.contains(j) implies 0 <= j < n && s@[j] < e@[j]
                    && s@[j] <= cur by {
                    if j != row {
                        assert(old_done.contains(j));
                    }
                }
                assert forall|l2: int|
                    0 <= l2 < last.len() implies done.contains(#[trigger] last[l2]) && lanes@[last[l2]]
                    == l2 by {
                    if l2 < old_last.len() {
                        assert(old_done.contains(old_last[l2]));
                    }
                }
                assert forall|j: int|
                    #[trigger] done.contains(j) implies lanes@[j] < last.len() && e@[j] <= e@[last[lanes@[j] as int]] by {
                    if j != row {
                        assert(old_done.contains(j));
                    }
                }
                assert forall|j: int, jj: int|
                    #[trigger] done.contains(j) && #[trigger] done.contains(jj) && j != jj && lanes@[j]
                        == lanes@[jj] implies !overlaps(s@, e@, j, jj) by {
                    if j == row {
                        assert(old_done.contains(jj));
                    } else if jj == row {
                        assert(old_done.contains(j));
                    } else {
                        assert(old_done.contains(j) && old_done.contains(jj));
                    }
                }
            }
        }
        pos += 1;
    }
    proof {
        let big_l = last.len() as int;
        // Every non-empty row has been assigned.
        assert forall|j: int| 0 <= j < n && s@[j] < e@[j] implies #[trigger] done.contains(j) by {
            let x = (s@[j], 0i128, j as usize);
            assert(raw@.contains(x));
            to_multiset_contains(raw@, x);
            to_multiset_contains(order@, x);
            let t = choose|t: int| 0 <= t < k && order@[t] == x;
            assert(done.contains(order@[t].2 as int));
        }
        // Overlapping rows get different lanes.
        assert forall|i1: int, j1: int|
            0 <= i1 < n && 0 <= j1 < n && i1 != j1 && #[trigger] overlaps(s@, e@, i1, j1) implies lanes@[i1]
            != lanes@[j1] by {
            assert(done.contains(i1) && done.contains(j1));
        }
        // The number of lanes.
        let total = if big_l == 0 {
            if n > 0 {
                1int
            } else {
                0int
            }
        } else {
            big_l
        };
        assert forall|j: int| 0 <= j < n implies #[trigger] lanes@[j] < total by {
            if done.contains(j) {
            }
        }
        if big_l > 0 {
            assert(lanes@[last[big_l - 1]] == big_l - 1);
            lemma_lane_count_exact(lanes@, n as int, total, last[big_l - 1]);
        } else if n > 0 {
            assert(!done.contains(0));
            lemma_lane_count_exact(lanes@, n as int, total, 0);
        }
        assert forall|l: int| 0 <= l < lane_count(lanes@) implies #[trigger] lane_used(lanes@, l) by {
            if big_l > 0 {
                assert(lanes@[last[l]] == l);
            } else {
                assert(!done.contains(0));
                assert(lanes@[0] == l);
            }
        }
        // No point is shared by more intervals than there are lanes.
        assert forall|x: int| #[trigger] active_count(s@, e@, x) <= lane_count(lanes@) by {
            lemma_lanes_at_least_concurrency(s@, e@, lanes@, x);
        }
        if exists|i: int| 0 <= i < n && s@[i] < e@[i] {
            let i = choose|i: int| 0 <= i < n && s@[i] < e@[i];
            assert(done.contains(i));
            assert(active_count(s@, e@, wx) <= lane_count(lanes@));
        }
    }
    Ok(lanes)
}

/// Assign intervals to the minimum number of non-overlapping lanes.
///
/// Intervals are half-open: `[start, end)`; touching endpoints do not overlap.
/// Returns contiguous `u32` lane IDs from zero, in original row order. The
/// number of lanes equals the largest number of non-empty intervals that share
/// a point; empty intervals receive lane zero, and a non-empty input of only
/// empty intervals uses one lane. Sorts the non-empty rows by start (ties by
/// row) and reuses the lane whose latest interval ends first, kept in a binary
/// min-heap of `(end, lane)`: `O(n log n)` time. The assignment returned is
/// exactly `assigned_lanes`, so it is the same for endpoints moved alike.
pub fn assign_lanes<T: Endpoint>(starts: &[T], ends: &[T]) -> (r: Result<Vec<u32>, IntervalError>)
    ensures
        starts.len() != ends.len() ==> r == Err::<Vec<u32>, IntervalError>(
            IntervalError::LengthMismatch { starts_len: starts.len(), ends_len: ends.len() },
        ),
        starts.len() == ends.len() ==> lanes_outcome(ordinals(starts@), ordinals(ends@), r),
{
    if starts.len() != ends.len() {
        return Err(IntervalError::LengthMismatch { starts_len: starts.len(), ends_len: ends.len() });
    }
    let s = ordinals_of(starts);
    let e = ordinals_of(ends);
    lanes_keys(&s, &e)
}

/// The lanes keep overlapping rows apart: one lane per row, and two rows that
/// overlap are on different lanes.
pub open spec fn separates(s: Seq<i128>, e: Seq<i128>, lanes: Seq<u32>) -> bool {
    &&& lanes.len() == s.len()
    &&& forall|i: int, j: int|
        0 <= i < s.len() && 0 <= j < s.len() && i != j && #[trigger] overlaps(s, e, i, j) ==> lanes[i]
            != lanes[j]
}

/// No assignment that keeps overlapping rows apart uses fewer lanes than the
/// number of intervals that share any one point; so the lane count of
/// `assign_lanes`, which equals the largest such number, is the minimum.
pub proof fn lemma_lanes_at_least_concurrency(s: Seq<i128>, e: Seq<i128>, lanes: Seq<u32>, x: int)
    requires
        s.len() == e.len(),
        separates(s, e, lanes),
    ensures
        active_count(s, e, x) <= lane_count(lanes),
{
    let n = s.len() as int;
    let total = lane_count(lanes);
    let act = active_set(s, e, x);
    lemma_active_finite(s, e, x);
    lemma_lane_count(lanes, n, 0x1_0000_0000);
    let f = |j: int| lanes[j] as int;
    assert(vstd::relations::injective_on(f, act)) by {
        assert forall|a: int, b: int| act.contains(a) && act.contains(b) && #[trigger] f(a) == #[trigger] f(b)
            implies a == b by {
            if a != b {
                assert(overlaps(s, e, a, b));
            }
        }
    }
    lemma_map_size(act, act.map(f), f);
    lemma_int_range(0, total);
    assert(act.map(f).subset_of(set_int_range(0, total))) by {
        assert forall|v: int| act.map(f).contains(v) implies set_int_range(0, total).contains(v) by {
            let j = choose|j: int| act.contains(j) && f(j) == v;
        }
    }
    lemma_len_subset(act.map(f), set_int_range(0, total));
}

// ----------------------------------------------------------------------------
// Moving every endpoint by the same amount.
// ----------------------------------------------------------------------------

/// Two lane results are the same: equal lanes, or equal errors.
pub open spec fn same_lanes(r1: Result<Vec<u32>, IntervalError>, r2: Result<Vec<u32>, IntervalError>) -> bool {
    match r1 {
        Ok(l1) => r2 matches Ok(l2) && l1@ == l2@,
        Err(x) => r2 matches Err(y) && x == y,
    }
}

/// A start record moved by `d`.
pub open spec fn shift_start(d: int) -> spec_fn(Triple) -> Triple {
    |t: Triple| ((t.0 + d) as i128, t.1, t.2)
}

proof fn lemma_shift_nonempty(s: Seq<i128>, e: Seq<i128>, d: int, j: int)
    requires
        s.len() == e.len(),
        shift_fits(s, d),
        shift_fits(e, d),
        0 <= j <= s.len(),
    ensures
        nonempty_rows(shifted(s, d), shifted(e, d), j) == nonempty_rows(s, e, j).map_values(shift_start(d)),
    decreases j,
{
    if j > 0 {
        lemma_shift_nonempty(s, e, d, j - 1);
        let prev = nonempty_rows(s, e, j - 1);
        let x = (s[j - 1], 0i128, (j - 1) as usize);
        assert(prev.push(x).map_values(shift_start(d)) =~= prev.map_values(shift_start(d)).push(shift_start(d)(x)));
    }
}

proof fn lemma_first_free_shift(e: Seq<i128>, d: int, last: Seq<int>, j: int)
    requires
        shift_fits(e, d),
        j <= last.len(),
        forall|l: int| 0 <= l < last.len() ==> 0 <= #[trigger] last[l] < e.len(),
    ensures
        first_free(shifted(e, d), last, j) == first_free(e, last, j),
    decreases j,
{
    if j > 1 {
        lemma_first_free_shift(e, d, last, j - 1);
        let b = first_free(e, last, j - 1);
        lemma_first_free(e, last, j - 1);
        assert(shifted(e, d)[last[j - 1]] == e[last[j - 1]] + d);
        assert(shifted(e, d)[last[b]] == e[last[b]] + d);
    }
}

proof fn lemma_replay_shift(e: Seq<i128>, d: int, order: Seq<Triple>, n: nat, p: int)
    requires
        e.len() == n,
        shift_fits(e, d),
        0 <= p <= order.len(),
        forall|q: int|
            0 <= q < order.len() ==> (#[trigger] order[q]).2 < n && i128::MIN <= order[q].0 + d <= i128::MAX,
    ensures
        replay(shifted(e, d), order.map_values(shift_start(d)), n, p) == replay(e, order, n, p),
        forall|l: int| 0 <= l < replay(e, order, n, p).0.len() ==> 0 <= #[trigger] replay(e, order, n, p).0[l] < n,
    decreases p,
{
    if p > 0 {
        lemma_replay_shift(e, d, order, n, p - 1);
        let prev = replay(e, order, n, p - 1);
        let t = order[p - 1];
        assert(order.map_values(shift_start(d))[p - 1] == shift_start(d)(t));
        let j = prev.0.len() as int;
        lemma_first_free_shift(e, d, prev.0, j);
        if j > 0 {
            lemma_first_free(e, prev.0, j);
            let f = first_free(e, prev.0, j);
            assert(shifted(e, d)[prev.0[f]] == e[prev.0[f]] + d);
        }
        let next = replay(e, order, n, p).0;
        assert forall|l: int| 0 <= l < next.len() implies 0 <= #[trigger] next[l] < n by {
            if l < j {
                if next[l] != prev.0[l] {
                    assert(next[l] == t.2);
                }
            }
        }
    }
}

/// The rows containing `x` are those containing `x + d` once every endpoint
/// moves by `d`.
proof fn lemma_active_shift(s: Seq<i128>, e: Seq<i128>, d: int, x: int)
    requires
        s.len() == e.len(),
        shift_fits(s, d),
        shift_fits(e, d),
    ensures
        active_count(shifted(s, d), shifted(e, d), x + d) == active_count(s, e, x),
{
    assert(active_set(shifted(s, d), shifted(e, d), x + d) =~= active_set(s, e, x)) by {
        assert forall|i: int| 0 <= i < s.len() implies (#[trigger] shifted(s, d)[i] <= x + d < shifted(e, d)[i]) == (s[i]
            <= x < e[i]) by {
            assert(shifted(s, d)[i] == s[i] + d && shifted(e, d)[i] == e[i] + d);
        }
    }
}

/// Moving every endpoint by the same amount changes nothing: lane assignment
/// gives the very same lanes, or the same error.
pub proof fn lemma_lanes_shift(
    s: Seq<i128>,
    e: Seq<i128>,
    d: int,
    r1: Result<Vec<u32>, IntervalError>,
    r2: Result<Vec<u32>, IntervalError>,
)
    requires
        s.len() == e.len(),
        s.len() <= usize::MAX,
        shift_fits(s, d),
        shift_fits(e, d),
        lanes_outcome(s, e, r1),
        lanes_outcome(shifted(s, d), shifted(e, d), r2),
    ensures
        same_lanes(r1, r2),
{
    let s2 = shifted(s, d);
    let e2 = shifted(e, d);
    let n = s.len() as int;
    assert forall|j: int| 0 <= j < n implies (#[trigger] s2[j] <= e2[j]) == (s[j] <= e[j]) && (s2[j] < e2[j]) == (
    s[j] < e[j]) by {
        assert(s2[j] == s[j] + d && e2[j] == e[j] + d);
    }
    assert(valid_rows(s2, e2) == valid_rows(s, e)) by {
        if valid_rows(s, e) {
            assert forall|j: int| 0 <= j < s2.len() implies #[trigger] s2[j] <= e2[j] by {
                assert(s[j] <= e[j]);
            }
        }
        if valid_rows(s2, e2) {
            assert forall|j: int| 0 <= j < s.len() implies #[trigger] s[j] <= e[j] by {
                assert(s2[j] <= e2[j]);
            }
        }
    }
    if valid_rows(s, e) {
        match r1 {
            Ok(l1) => {
                match r2 {
                    Ok(l2) => {
                        // Both are the replayed assignment of the same records.
                        let pr = nonempty_rows(s, e, n);
                        let order = sorted_of(pr);
                        lemma_nonempty_rows(s, e, n);
                        lemma_shift_nonempty(s, e, d, n);
                        lemma_sorted_of(pr);
                        lemma_sorted_of(nonempty_rows(s2, e2, n));
                        assert forall|q: int| 0 <= q < order.len() implies (#[trigger] order[q]).2 < n
                            && order[q].0 == s[order[q].2 as int] by {
                            broadcast use vstd::seq_lib::group_to_multiset_ensures;

                            to_multiset_contains(order, order[q]);
                            to_multiset_contains(pr, order[q]);
                            assert(order.contains(order[q]));
                            let k = choose|k: int| 0 <= k < pr.len() && pr[k] == order[q];
                        }
                        let moved = order.map_values(shift_start(d));
                        assert(sorted3(moved)) by {
                            assert forall|a: int, b: int| 0 <= a < b < moved.len() implies le3(
                                #[trigger] moved[a],
                                #[trigger] moved[b],
                            ) by {
                                assert(le3(order[a], order[b]));
                                assert(order[a].0 == s[order[a].2 as int]);
                                assert(order[b].0 == s[order[b].2 as int]);
                            }
                        }
                        crate::sort::lemma_map_same_items(order, pr, shift_start(d));
                        lemma_sorted_unique(moved, sorted_of(nonempty_rows(s2, e2, n)));
                        lemma_replay_shift(e, d, order, n as nat, order.len() as int);
                    },
                    Err(_) => {
                        let x = choose|x: int| #[trigger] active_count(s2, e2, x) > 0x1_0000_0000;
                        lemma_active_shift(s, e, d, x - d);
                        assert(active_count(s, e, x - d) <= lane_count(l1@));
                        lemma_lane_count(l1@, l1@.len() as int, 0x1_0000_0000);
                    },
                }
            },
            Err(_) => {
                if r2 is Ok {
                    let l2 = r2->Ok_0;
                    let x = choose|x: int| #[trigger] active_count(s, e, x) > 0x1_0000_0000;
                    lemma_active_shift(s, e, d, x);
                    assert(active_count(s2, e2, x + d) <= lane_count(l2@));
                    lemma_lane_count(l2@, l2@.len() as int, 0x1_0000_0000);
                }
            },
        }
    } else {
        let a = r1->Err_0->InvalidInterval_index;
        let b = r2->Err_0->InvalidInterval_index;
        assert(is_first_reversed(s, e, a as int));
        assert(is_first_reversed(s2, e2, b as int));
        assert(s2[a as int] > e2[a as int]);
        assert(s[b as int] > e[b as int]);
        if a < b {
            assert(s2[a as int] <= e2[a as int]);
        } else if b < a {
            assert(s[b as int] <= e[b as int]);
        }
    }
}

} // verus!
