//! The flow network of one overlap component, and min-cost flow on it.
//!
//! Vertices are the distinct endpoints of the component's rows, in increasing
//! order. A timeline arc of capacity `k` and cost zero joins each vertex to
//! the next, and each row adds a unit arc from its start to its end whose cost
//! is its negated weight. Arcs come in residual pairs: the partner of arc `e`
//! is `e ^ 1`. Sending `k` units of minimum cost from the first vertex to the
//! last selects a maximum-weight set of rows that never exceeds `k` at a point.
use vstd::prelude::*;
use vstd::multiset::group_multiset_axioms;
use vstd::multiset::Multiset;
use vstd::seq_lib::group_to_multiset_ensures;
use crate::sort::{Triple, le3, sorted3, sort_triples, count_below, sorted_values, count_values_below};
use crate::error::IntervalError;
use crate::heap::{Label, HeapItem, heap_ok, lemma_root_is_min, heap_push, heap_pop};
use vstd::set_lib::{set_int_range, lemma_int_range, lemma_len_subset};

verus! {

// ----------------------------------------------------------------------------
// Sums over index ranges.
// ----------------------------------------------------------------------------

/// Sum of `f(i)` for `0 <= i < j`.
pub open spec fn isum(f: spec_fn(int) -> int, j: int) -> int
    decreases j,
{
    if j <= 0 {
        0
    } else {
        isum(f, j - 1) + f(j - 1)
    }
}

/// Sums of functions that agree on the range are equal.
pub proof fn lemma_isum_ext(f: spec_fn(int) -> int, g: spec_fn(int) -> int, j: int)
    requires
        forall|i: int| 0 <= i < j ==> #[trigger] f(i) == g(i),
    ensures
        isum(f, j) == isum(g, j),
    decreases j,
{
    if j > 0 {
        lemma_isum_ext(f, g, j - 1);
    }
}

/// Changing one term changes the sum by the same amount.
pub proof fn lemma_isum_point(f: spec_fn(int) -> int, g: spec_fn(int) -> int, i: int, j: int)
    requires
        forall|x: int| 0 <= x < j && x != i ==> #[trigger] f(x) == g(x),
    ensures
        0 <= i < j ==> isum(g, j) == isum(f, j) + g(i) - f(i),
        !(0 <= i < j) ==> isum(g, j) == isum(f, j),
    decreases j,
{
    if j > 0 {
        lemma_isum_point(f, g, i, j - 1);
    }
}

/// A sum of nonnegative terms is nonnegative.
pub proof fn lemma_isum_nonneg(f: spec_fn(int) -> int, j: int)
    requires
        forall|i: int| 0 <= i < j ==> #[trigger] f(i) >= 0,
    ensures
        isum(f, j) >= 0,
    decreases j,
{
    if j > 0 {
        lemma_isum_nonneg(f, j - 1);
    }
}

/// The sum of `f + c * g` is the sum of `f` plus `c` times the sum of `g`.
pub proof fn lemma_isum_linear(f: spec_fn(int) -> int, g: spec_fn(int) -> int, h: spec_fn(int) -> int, c: int, j: int)
    requires
        forall|i: int| 0 <= i < j ==> #[trigger] h(i) == f(i) + c * g(i),
    ensures
        isum(h, j) == isum(f, j) + c * isum(g, j),
    decreases j,
{
    if j > 0 {
        lemma_isum_linear(f, g, h, c, j - 1);
        assert(c * isum(g, j) == c * isum(g, j - 1) + c * g(j - 1)) by (nonlinear_arith)
            requires
                isum(g, j) == isum(g, j - 1) + g(j - 1),
        ;
    }
}

/// Differences of consecutive values over `[a, b)` telescope.
pub proof fn lemma_isum_telescope(p: spec_fn(int) -> int, a: int, b: int, j: int)
    requires
        0 <= a <= b <= j,
    ensures
        isum(|t: int| if a <= t < b { p(t) - p(t + 1) } else { 0 }, j) == p(a) - p(b),
    decreases j,
{
    let f = |t: int| if a <= t < b { p(t) - p(t + 1) } else { 0 };
    if j > b {
        lemma_isum_telescope(p, a, b, j - 1);
    } else if j == b && b > a {
        lemma_isum_telescope(p, a, b - 1, j - 1);
        let g = |t: int| if a <= t < b - 1 { p(t) - p(t + 1) } else { 0 };
        lemma_isum_ext(f, g, j - 1);
    } else if j == b && b == a {
        lemma_isum_ext(f, |t: int| 0, j);
        lemma_isum_zero(j);
    }
}

/// A sum of zeros is zero.
pub proof fn lemma_isum_zero(j: int)
    ensures
        isum(|t: int| 0, j) == 0,
    decreases j,
{
    if j > 0 {
        lemma_isum_zero(j - 1);
    }
}

// ----------------------------------------------------------------------------
// Arc pairs.
// ----------------------------------------------------------------------------

/// The partner of arc `e` in its residual pair.
pub open spec fn mate(e: int) -> int {
    if e % 2 == 0 {
        e + 1
    } else {
        e - 1
    }
}

/// The partner of arc `e`: the arc with index `e ^ 1`.
fn partner(e: usize) -> (m: usize)
    requires
        e < usize::MAX,
    ensures
        m == mate(e as int),
{
    if e % 2 == 0 {
        e + 1
    } else {
        e - 1
    }
}

/// Adds two `i128` values, reporting overflow.
pub fn add(a: i128, b: i128) -> (r: Result<i128, IntervalError>)
    ensures
        i128::MIN <= a + b <= i128::MAX ==> r == Ok::<i128, IntervalError>((a + b) as i128),
        !(i128::MIN <= a + b <= i128::MAX) ==> r == Err::<i128, IntervalError>(IntervalError::WeightOverflow),
{
    match a.checked_add(b) {
        Some(v) => Ok(v),
        None => Err(IntervalError::WeightOverflow),
    }
}

// ----------------------------------------------------------------------------
// The network.
// ----------------------------------------------------------------------------

/// Residual arcs with their heads, capacities and costs, and the out-arcs of
/// each vertex as consecutive ranges of `adjacent`.
pub struct Network {
    pub to: Vec<usize>,
    pub capacity: Vec<usize>,
    pub cost: Vec<i128>,
    pub offsets: Vec<usize>,
    pub adjacent: Vec<usize>,
    /// Interval arc pairs follow the timeline pairs, in row order.
    pub interval_start: usize,
    /// The endpoint of each vertex.
    pub points: Ghost<Seq<i128>>,
}

impl Network {
    /// Number of vertices.
    pub open spec fn n(&self) -> int {
        self.offsets@.len() - 1
    }

    /// Number of arcs.
    pub open spec fn arcs(&self) -> int {
        self.to@.len() as int
    }

    /// Number of interval arc pairs.
    pub open spec fn rows(&self) -> int {
        (self.arcs() - self.interval_start) / 2
    }

    /// The vertex arc `e` leaves.
    pub open spec fn tail(&self, e: int) -> int {
        self.to@[mate(e)] as int
    }

    /// The forward arc of interval `j`.
    pub open spec fn fwd(&self, j: int) -> int {
        self.interval_start + 2 * j
    }

    /// The start vertex of interval `j`.
    pub open spec fn first(&self, j: int) -> int {
        self.to@[self.fwd(j) + 1] as int
    }

    /// The end vertex of interval `j`.
    pub open spec fn last(&self, j: int) -> int {
        self.to@[self.fwd(j)] as int
    }

    /// The weight of interval `j`.
    pub open spec fn gain(&self, j: int) -> int {
        self.cost@[self.fwd(j) + 1] as int
    }

    /// The reduced cost of arc `e` under potentials `p`.
    pub open spec fn reduced(&self, p: Seq<i128>, e: int) -> int {
        p[self.tail(e)] + self.cost@[e] - p[self.to@[e] as int]
    }

    /// The out-arcs of each vertex are listed exactly in its range of `adjacent`.
    pub open spec fn adjacency_ok(&self) -> bool {
        &&& self.offsets@.len() >= 1
        &&& self.offsets@[self.n()] == self.adjacent@.len()
        &&& forall|a: int, b: int|
            0 <= a <= b <= self.n() ==> #[trigger] self.offsets@[a] <= #[trigger] self.offsets@[b]
        &&& forall|v: int, q: int|
            #![trigger self.offsets@[v], self.adjacent@[q]]
            0 <= v < self.n() && self.offsets@[v] <= q < self.offsets@[v + 1] ==> {
                &&& self.adjacent@[q] < self.arcs()
                &&& self.tail(self.adjacent@[q] as int) == v
            }
        &&& forall|e: int| 0 <= e < self.arcs() ==> #[trigger] self.listed(e)
    }

    /// Arc `e` appears in the range of its tail.
    pub open spec fn listed(&self, e: int) -> bool {
        exists|q: int|
            #![trigger self.adjacent@[q]]
            self.offsets@[self.tail(e)] <= q < self.offsets@[self.tail(e) + 1] && self.adjacent@[q] == e
    }

    /// The fixed shape of any network: a timeline through increasing points,
    /// interval arcs that go forward with a positive weight, and adjacency.
    pub open spec fn wellformed(&self) -> bool {
        let n = self.n();
        &&& n >= 2
        &&& self.interval_start == 2 * (n - 1)
        &&& self.arcs() >= self.interval_start
        &&& self.arcs() % 2 == 0
        &&& self.arcs() < usize::MAX / 2
        &&& self.capacity@.len() == self.arcs()
        &&& self.cost@.len() == self.arcs()
        &&& self.points@.len() == n
        &&& forall|a: int, b: int| 0 <= a < b < n ==> #[trigger] self.points@[a] < #[trigger] self.points@[b]
        &&& forall|e: int| 0 <= e < self.arcs() ==> #[trigger] self.to@[e] < n
        &&& forall|t: int|
            0 <= t < n - 1 ==> {
                &&& #[trigger] self.to@[2 * t] == t + 1
                &&& self.to@[2 * t + 1] == t
                &&& self.cost@[2 * t] == 0
                &&& self.cost@[2 * t + 1] == 0
            }
        &&& forall|j: int| 0 <= j < self.rows() ==> #[trigger] self.interval_ok(j)
        &&& self.adjacency_ok()
    }

    /// Interval `j` goes forward and has a positive weight.
    pub open spec fn interval_ok(&self, j: int) -> bool {
        &&& 0 <= self.first(j) < self.last(j) < self.n()
        &&& self.cost@[self.fwd(j)] == -self.gain(j)
        &&& self.gain(j) > 0
    }

    /// Interval `j` joins the endpoints of row `rs[j]` and has its weight.
    pub open spec fn stands_for(&self, rs: Seq<Triple>, w: Seq<i128>, j: int) -> bool {
        &&& self.points@[self.first(j)] == rs[j].0
        &&& self.points@[self.last(j)] == rs[j].1
        &&& 0 <= rs[j].2 < w.len()
        &&& self.gain(j) == w[rs[j].2 as int]
    }

    /// The network built for rows `rs` with weights `w`.
    pub open spec fn shaped(&self, rs: Seq<Triple>, w: Seq<i128>) -> bool {
        &&& self.wellformed()
        &&& self.rows() == rs.len()
        &&& forall|j: int| 0 <= j < rs.len() ==> #[trigger] self.stands_for(rs, w, j)
    }

    /// Each residual pair holds its arc's original capacity.
    pub open spec fn bounded(&self, k: int) -> bool {
        &&& forall|t: int|
            0 <= t < self.n() - 1 ==> #[trigger] self.capacity@[2 * t] + self.capacity@[2 * t + 1] == k
        &&& forall|j: int|
            0 <= j < self.rows() ==> #[trigger] self.capacity@[self.fwd(j)] + self.capacity@[self.fwd(j)
                + 1] == 1
    }

    /// Flow on interval `j` where it spans the gap after vertex `t`.
    pub open spec fn crossing(&self, t: int) -> spec_fn(int) -> int {
        |j: int|
            if self.first(j) <= t < self.last(j) {
                self.capacity@[self.fwd(j) + 1] as int
            } else {
                0
            }
    }

    /// Flow on the intervals that span the gap after vertex `t`.
    pub open spec fn cover(&self, t: int) -> int {
        isum(self.crossing(t), self.rows())
    }

    /// Every gap between consecutive vertices carries `sent` units in total.
    pub open spec fn carries(&self, sent: int) -> bool {
        forall|t: int| 0 <= t < self.n() - 1 ==> #[trigger] self.capacity@[2 * t + 1] + self.cover(t) == sent
    }

    /// No residual arc has a negative reduced cost under `p`.
    pub open spec fn priced(&self, p: Seq<i128>) -> bool {
        &&& p.len() == self.n()
        &&& forall|e: int|
            0 <= e < self.arcs() && #[trigger] self.capacity@[e] > 0 ==> self.reduced(p, e) >= 0
    }

    /// The network is freshly built: every arc at its original capacity.
    pub open spec fn fresh(&self, k: int) -> bool {
        &&& forall|t: int|
            0 <= t < self.n() - 1 ==> #[trigger] self.capacity@[2 * t] == k && self.capacity@[2 * t + 1] == 0
        &&& forall|j: int|
            0 <= j < self.rows() ==> #[trigger] self.capacity@[self.fwd(j)] == 1 && self.capacity@[
                self.fwd(j) + 1] == 0
    }

    /// The selection takes pairwise disjoint intervals that all end by vertex `v`.
    pub open spec fn chain(&self, sel: Seq<bool>, v: int) -> bool {
        &&& sel.len() == self.rows()
        &&& forall|j: int| 0 <= j < sel.len() && #[trigger] sel[j] ==> self.last(j) <= v
        &&& forall|i: int, j: int|
            #![trigger sel[i], sel[j]]
            0 <= i < sel.len() && 0 <= j < sel.len() && i != j && sel[i] && sel[j] ==> self.last(i)
                <= self.first(j) || self.last(j) <= self.first(i)
    }

    /// Weight of the selected intervals.
    pub open spec fn picked(&self, sel: Seq<bool>) -> int {
        isum(|j: int| if sel[j] { self.gain(j) } else { 0 }, self.rows())
    }

    /// Some set of pairwise disjoint intervals weighs more than `i128::MAX`.
    pub open spec fn heavy(&self) -> bool {
        exists|sel: Seq<bool>| #[trigger] self.chain(sel, self.n() - 1) && self.picked(sel) > i128::MAX
    }

    /// Each vertex but the first is entered by a residual arc from a vertex of
    /// lower `order`, on which `p` is tight.
    pub open spec fn tree(&self, p: Seq<i128>, previous: Seq<usize>, order: Seq<int>) -> bool {
        &&& previous.len() == self.n()
        &&& order.len() == self.n()
        &&& forall|u: int| 0 <= u < self.n() ==> #[trigger] order[u] >= 0
        &&& forall|u: int|
            1 <= u < self.n() ==> {
                let e = #[trigger] previous[u] as int;
                &&& 0 <= e < self.arcs()
                &&& self.to@[e] == u
                &&& self.capacity@[e] > 0
                &&& order[self.tail(e)] < order[u]
                &&& self.reduced(p, e) == 0
            }
    }

    /// The same arcs, vertices and adjacency as `other`.
    pub open spec fn same_shape(&self, other: &Network) -> bool {
        &&& self.to@ == other.to@
        &&& self.cost@ == other.cost@
        &&& self.offsets@ == other.offsets@
        &&& self.adjacent@ == other.adjacent@
        &&& self.interval_start == other.interval_start
        &&& self.points@ == other.points@
        &&& self.capacity@.len() == other.capacity@.len()
    }
}


// ----------------------------------------------------------------------------
// Building the network.
// ----------------------------------------------------------------------------

/// The value occurs among the points.
pub open spec fn has_point(pts: Seq<i128>, x: i128) -> bool {
    exists|i: int| 0 <= i < pts.len() && pts[i] == x
}

proof fn lemma_same_elements(t: Seq<Triple>, u: Seq<Triple>, x: Triple)
    requires
        t.to_multiset() == u.to_multiset(),
        t.contains(x),
    ensures
        u.contains(x),
{
    broadcast use group_to_multiset_ensures;

    assert(t.to_multiset().count(x) > 0);
}

/// `x` is a start or an end of one of `rows[lo..hi]`.
pub open spec fn is_endpoint(rows: Seq<Triple>, lo: int, hi: int, x: i128) -> bool {
    exists|p: int| lo <= p < hi && ((#[trigger] rows[p]).0 == x || rows[p].1 == x)
}

/// Every point is a start or an end of one of `rows[lo..hi]`.
#[verifier::opaque]
pub open spec fn only_endpoints(pts: Seq<i128>, rows: Seq<Triple>, lo: int, hi: int) -> bool {
    forall|i: int| 0 <= i < pts.len() ==> is_endpoint(rows, lo, hi, #[trigger] pts[i])
}

/// The distinct starts and ends of `rows[lo..hi]`, in increasing order.
fn endpoints(rows: &Vec<Triple>, lo: usize, hi: usize) -> (pts: Vec<i128>)
    requires
        lo <= hi <= rows.len(),
        hi - lo < usize::MAX / 16,
    ensures
        pts.len() <= 2 * (hi - lo),
        forall|a: int, b: int| 0 <= a < b < pts.len() ==> #[trigger] pts@[a] < #[trigger] pts@[b],
        forall|p: int| lo <= p < hi ==> has_point(pts@, (#[trigger] rows@[p]).0) && has_point(pts@, rows@[p].1),
        only_endpoints(pts@, rows@, lo as int, hi as int),
{
    let mut raw: Vec<Triple> = Vec::new();
    let mut p: usize = lo;
    while p < hi
        invariant
            lo <= p <= hi <= rows.len(),
            hi - lo < usize::MAX / 16,
            raw.len() == 2 * (p - lo),
            forall|x: int|
                lo <= x < p ==> raw@[2 * (x - lo)] == ((#[trigger] rows@[x]).0, 0i128, 0usize)
                    && raw@[2 * (x - lo) + 1] == (rows@[x].1, 0i128, 0usize),
        decreases hi - p,
    {
        raw.push((rows[p].0, 0, 0));
        raw.push((rows[p].1, 0, 0));
        p += 1;
    }
    let sorted = sort_triples(&raw);
    let mut pts: Vec<i128> = Vec::new();
    let mut q: usize = 0;
    while q < sorted.len()
        invariant
            q <= sorted.len(),
            sorted3(sorted@),
            pts.len() <= q,
            forall|a: int, b: int| 0 <= a < b < pts.len() ==> #[trigger] pts@[a] < #[trigger] pts@[b],
            q > 0 ==> pts.len() > 0 && pts@[pts.len() - 1] == sorted@[q - 1].0,
            forall|x: int| 0 <= x < q ==> has_point(pts@, (#[trigger] sorted@[x]).0),
            forall|i: int| 0 <= i < pts.len() ==> exists|x: int| 0 <= x < q && (#[trigger] sorted@[x]).0 == #[trigger] pts@[i],
        decreases sorted.len() - q,
    {
        let x = sorted[q].0;
        let ghost old_pts = pts@;
        if pts.len() == 0 || pts[pts.len() - 1] < x {
            pts.push(x);
            proof {
                assert forall|y: int| 0 <= y < q + 1 implies has_point(pts@, (#[trigger] sorted@[y]).0) by {
                    if y < q {
                        assert(has_point(old_pts, sorted@[y].0));
                        let i = choose|i: int| 0 <= i < old_pts.len() && old_pts[i] == sorted@[y].0;
                        assert(pts@[i] == sorted@[y].0);
                    } else {
                        assert(pts@[pts.len() - 1] == x);
                    }
                }
                assert forall|a: int, b: int| 0 <= a < b < pts.len() implies #[trigger] pts@[a]
                    < #[trigger] pts@[b] by {
                    if b == pts.len() - 1 && a < b {
                        if a < pts.len() - 2 {
                            assert(pts@[a] < pts@[pts.len() - 2]);
                        }
                    }
                }
            }
        } else {
            proof {
                assert(le3(sorted@[q - 1], sorted@[q as int]));
                assert(pts@[pts.len() - 1] == x);
            }
        }
        q += 1;
    }
    proof {
        assert forall|i: int| 0 <= i < pts.len() implies is_endpoint(rows@, lo as int, hi as int, #[trigger] pts@[i]) by {
            let x = choose|x: int| 0 <= x < sorted.len() && (#[trigger] sorted@[x]).0 == pts@[i];
            lemma_same_elements(sorted@, raw@, sorted@[x]);
            let r = choose|r: int| 0 <= r < raw.len() && raw@[r] == sorted@[x];
            let p = lo + r / 2;
            assert(lo <= p < hi);
            if r % 2 == 0 {
                assert(r == 2 * (p - lo));
                assert(rows@[p].0 == pts@[i]);
            } else {
                assert(r == 2 * (p - lo) + 1);
                assert(rows@[p].1 == pts@[i]);
            }
        }
        reveal(only_endpoints);
        assert forall|p: int| lo <= p < hi implies has_point(pts@, (#[trigger] rows@[p]).0) && has_point(
            pts@,
            rows@[p].1,
        ) by {
            let a = raw@[2 * (p - lo)];
            let b = raw@[2 * (p - lo) + 1];
            assert(raw@.contains(a));
            assert(raw@.contains(b));
            lemma_same_elements(raw@, sorted@, a);
            lemma_same_elements(raw@, sorted@, b);
            let x = choose|x: int| 0 <= x < sorted.len() && sorted@[x] == a;
            let y = choose|y: int| 0 <= y < sorted.len() && sorted@[y] == b;
            assert(has_point(pts@, sorted@[x].0));
            assert(has_point(pts@, sorted@[y].0));
        }
    }
    pts
}

/// The position of a value among strictly increasing points.
fn locate(pts: &Vec<i128>, x: i128) -> (i: usize)
    requires
        forall|a: int, b: int| 0 <= a < b < pts.len() ==> #[trigger] pts@[a] < #[trigger] pts@[b],
        has_point(pts@, x),
    ensures
        i < pts.len(),
        pts@[i as int] == x,
{
    assert(sorted_values(pts@));
    let i = count_values_below(pts, x);
    proof {
        let j = choose|j: int| 0 <= j < pts.len() && pts@[j] == x;
        if j < i {
            assert(pts@[j] < x);
        }
        if j > i {
            assert(pts@[i as int] < pts@[j]);
            assert(pts@[i as int] >= x);
        }
    }
    i
}

/// The arc pair at `f` joins the vertices of `row`'s endpoints, with the
/// row's negated weight and one unit of capacity forward.
spec fn built_pair(
    to: Seq<usize>,
    cost: Seq<i128>,
    cap: Seq<usize>,
    points: Seq<i128>,
    row: Triple,
    w: Seq<i128>,
    f: int,
    n: int,
) -> bool {
    let a = to[f + 1] as int;
    let b = to[f] as int;
    &&& 0 <= a < b < n
    &&& points[a] == row.0
    &&& points[b] == row.1
    &&& 0 <= row.2 < w.len()
    &&& cost[f + 1] == w[row.2 as int]
    &&& cost[f] == -w[row.2 as int]
    &&& cap[f] == 1
    &&& cap[f + 1] == 0
}

/// The timeline arc pair of gap `t`, with capacity `k` forward.
spec fn built_step(to: Seq<usize>, cost: Seq<i128>, cap: Seq<usize>, t: int, k: int) -> bool {
    &&& to[2 * t] == t + 1
    &&& to[2 * t + 1] == t
    &&& cost[2 * t] == 0
    &&& cost[2 * t + 1] == 0
    &&& cap[2 * t] == k
    &&& cap[2 * t + 1] == 0
}

/// The arcs laid out by `Network::new` make a network of the given rows.
proof fn lemma_built(net: &Network, rows: Seq<Triple>, lo: int, hi: int, w: Seq<i128>, k: int)
    requires
        0 <= lo < hi <= rows.len(),
        net.n() >= 2,
        net.n() <= 2 * (hi - lo),
        net.interval_start == 2 * (net.n() - 1),
        net.to.len() == 2 * (net.n() - 1) + 2 * (hi - lo),
        net.to.len() < usize::MAX / 2,
        net.capacity.len() == net.to.len(),
        net.cost.len() == net.to.len(),
        net.points@.len() == net.n(),
        forall|a: int, b: int| 0 <= a < b < net.n() ==> #[trigger] net.points@[a] < #[trigger] net.points@[b],
        forall|e: int| 0 <= e < net.to.len() ==> #[trigger] net.to@[e] < net.n(),
        forall|x: int| lo <= x < hi ==> (#[trigger] rows[x]).0 < rows[x].1 && rows[x].2 < w.len() && w[rows[x].2 as int] > 0,
        forall|t: int|
            0 <= t < net.n() - 1 ==> #[trigger] built_step(net.to@, net.cost@, net.capacity@, t, k),
        forall|j: int|
            0 <= j < hi - lo ==> #[trigger] built_pair(
                net.to@,
                net.cost@,
                net.capacity@,
                net.points@,
                rows[lo + j],
                w,
                net.interval_start + 2 * j,
                net.n(),
            ),
        net.adjacency_ok(),
    ensures
        net.shaped(rows.subrange(lo, hi), w),
        net.fresh(k),
{
    let rs = rows.subrange(lo, hi);
    let n = net.n();
    assert(net.rows() == rs.len());
    assert forall|t: int| 0 <= t < n - 1 implies {
        &&& #[trigger] net.to@[2 * t] == t + 1
        &&& net.to@[2 * t + 1] == t
        &&& net.cost@[2 * t] == 0
        &&& net.cost@[2 * t + 1] == 0
    } by {
        assert(built_step(net.to@, net.cost@, net.capacity@, t, k));
    }
    assert forall|t: int| 0 <= t < n - 1 implies #[trigger] net.capacity@[2 * t] == k && net.capacity@[2 * t
        + 1] == 0 by {
        assert(built_step(net.to@, net.cost@, net.capacity@, t, k));
    }
    assert forall|j: int| 0 <= j < net.rows() implies #[trigger] net.capacity@[net.fwd(j)] == 1
        && net.capacity@[net.fwd(j) + 1] == 0 by {
        assert(built_pair(net.to@, net.cost@, net.capacity@, net.points@, rows[lo + j], w, net.interval_start + 2 * j, n));
    }
    assert forall|j: int| 0 <= j < net.rows() implies #[trigger] net.interval_ok(j) by {
        assert(built_pair(net.to@, net.cost@, net.capacity@, net.points@, rows[lo + j], w, net.interval_start + 2 * j, n));
        assert(rows[lo + j].0 < rows[lo + j].1);
    }
    assert(net.wellformed());
    assert forall|j: int| 0 <= j < rs.len() implies #[trigger] net.stands_for(rs, w, j) by {
        assert(rs[j] == rows[lo + j]);
        assert(built_pair(net.to@, net.cost@, net.capacity@, net.points@, rows[lo + j], w, net.interval_start + 2 * j, n));
    }
    assert(net.fresh(k));
}

impl Network {
    /// Appends the arc `from -> to` and its partner `to -> from` of capacity zero.
    fn add_edge(&mut self, from: usize, to: usize, capacity: usize, cost: i128)
        requires
            old(self).to.len() == old(self).capacity.len() == old(self).cost.len(),
            old(self).to.len() % 2 == 0,
            old(self).to.len() + 2 <= usize::MAX,
            cost > i128::MIN,
        ensures
            final(self).to@ == old(self).to@.push(to).push(from),
            final(self).capacity@ == old(self).capacity@.push(capacity).push(0),
            final(self).cost@ == old(self).cost@.push(cost).push(-cost as i128),
            final(self).offsets@ == old(self).offsets@,
            final(self).adjacent@ == old(self).adjacent@,
            final(self).interval_start == old(self).interval_start,
            final(self).points@ == old(self).points@,
    {
        self.to.push(to);
        self.capacity.push(capacity);
        self.cost.push(cost);
        self.to.push(from);
        self.capacity.push(0);
        self.cost.push(-cost);
    }

    /// Lists the out-arcs of every vertex, grouped by tail in increasing arc order.
    fn link(&mut self, n: usize)
        requires
            old(self).to.len() == old(self).capacity.len() == old(self).cost.len(),
            old(self).to.len() % 2 == 0,
            old(self).to.len() < usize::MAX / 2,
            n < usize::MAX / 2,
            forall|e: int| 0 <= e < old(self).to.len() ==> #[trigger] old(self).to@[e] < n,
        ensures
            final(self).to@ == old(self).to@,
            final(self).capacity@ == old(self).capacity@,
            final(self).cost@ == old(self).cost@,
            final(self).interval_start == old(self).interval_start,
            final(self).points@ == old(self).points@,
            final(self).n() == n,
            final(self).adjacency_ok(),
    {
        let m = self.to.len();
        let mut keyed: Vec<Triple> = Vec::new();
        let mut e: usize = 0;
        while e < m
            invariant
                m == self.to.len(),
                m % 2 == 0,
                m < usize::MAX / 2,
                e <= m,
                keyed.len() == e,
                forall|x: int|
                    0 <= x < e ==> #[trigger] keyed@[x] == (self.to@[mate(x)] as i128, x as i128, x as usize),
            decreases m - e,
        {
            let t = self.to[partner(e)];
            keyed.push((t as i128, e as i128, e));
            e += 1;
        }
        let sorted = sort_triples(&keyed);
        proof {
            assert forall|q: int| 0 <= q < sorted.len() implies {
                let x = (#[trigger] sorted@[q]).2 as int;
                &&& 0 <= x < m
                &&& sorted@[q] == (self.to@[mate(x)] as i128, x as i128, x as usize)
            } by {
                lemma_same_elements(sorted@, keyed@, sorted@[q]);
                let y = choose|y: int| 0 <= y < keyed.len() && keyed@[y] == sorted@[q];
                assert(keyed@[y] == sorted@[q]);
            }
        }
        let mut offsets: Vec<usize> = Vec::new();
        let mut v: usize = 0;
        while v <= n
            invariant
                v <= n + 1,
                n < usize::MAX / 2,
                offsets.len() == v,
                sorted3(sorted@),
                forall|u: int|
                    0 <= u < v ==> #[trigger] offsets@[u] <= sorted.len() && (forall|q: int|
                        0 <= q < offsets@[u] ==> #[trigger] sorted@[q].0 < u) && (forall|q: int|
                        offsets@[u] <= q < sorted.len() ==> #[trigger] sorted@[q].0 >= u),
            decreases n + 1 - v,
        {
            let c = count_below(&sorted, v as i128);
            offsets.push(c);
            v += 1;
        }
        let mut adjacent: Vec<usize> = Vec::new();
        let mut q: usize = 0;
        while q < sorted.len()
            invariant
                q <= sorted.len(),
                adjacent.len() == q,
                forall|x: int| 0 <= x < q ==> #[trigger] adjacent@[x] == sorted@[x].2,
            decreases sorted.len() - q,
        {
            adjacent.push(sorted[q].2);
            q += 1;
        }
        self.offsets = offsets;
        self.adjacent = adjacent;
        proof {
            let net = *self;
            assert(net.n() == n);
            assert forall|q: int| 0 <= q < sorted.len() implies (#[trigger] sorted@[q]).0 < n by {
                let x = sorted@[q].2 as int;
                assert(self.to@[mate(x)] < n);
            }
            if offsets@[n as int] < sorted.len() {
                assert(sorted@[offsets@[n as int] as int].0 >= n);
            }
            assert forall|a: int, b: int| 0 <= a <= b <= n implies #[trigger] offsets@[a] <= #[trigger] offsets@[b] by {
                if offsets@[a] > offsets@[b] {
                    assert(sorted@[offsets@[b] as int].0 >= b);
                }
            }
            assert forall|u: int, q: int|
                #![trigger offsets@[u], adjacent@[q]]
                0 <= u < n && offsets@[u] <= q < offsets@[u + 1] implies adjacent@[q] < m
                    && net.tail(adjacent@[q] as int) == u by {
                assert(sorted@[q].0 >= u);
                assert(sorted@[q].0 < u + 1);
            }
            assert forall|e: int| 0 <= e < m implies #[trigger] net.listed(e) by {
                assert(keyed@[e] == (self.to@[mate(e)] as i128, e as i128, e as usize));
                assert(keyed@.contains(keyed@[e]));
                lemma_same_elements(keyed@, sorted@, keyed@[e]);
                let q = choose|q: int| 0 <= q < sorted.len() && sorted@[q] == keyed@[e];
                let u = net.tail(e);
                assert(sorted@[q].0 == u);
                if q < offsets@[u] {
                    assert(sorted@[q].0 < u);
                }
                if q >= offsets@[u + 1] {
                    assert(sorted@[q].0 >= u + 1);
                }
                assert(net.adjacent@[q] == e);
                assert(net.offsets@[net.tail(e)] <= q < net.offsets@[net.tail(e) + 1]);
            }
        }
    }

    /// Builds the network of `rows[lo..hi]` with timeline capacity `capacity`.
    pub fn new(rows: &Vec<Triple>, lo: usize, hi: usize, w: &Vec<i128>, capacity: usize) -> (net: Self)
        requires
            lo < hi <= rows.len(),
            hi - lo < usize::MAX / 16,
            forall|p: int|
                lo <= p < hi ==> (#[trigger] rows@[p]).0 < rows@[p].1 && rows@[p].2 < w.len() && w@[rows@[p].2 as int]
                    > 0,
        ensures
            net.shaped(rows@.subrange(lo as int, hi as int), w@),
            net.fresh(capacity as int),
            net.n() <= 2 * (hi - lo),
            forall|x: i128| has_point(net.points@, x) <==> is_endpoint(rows@, lo as int, hi as int, x),
    {
        let points = endpoints(rows, lo, hi);
        let n = points.len();
        proof {
            let a = choose|i: int| 0 <= i < points.len() && points@[i] == rows@[lo as int].0;
            let b = choose|i: int| 0 <= i < points.len() && points@[i] == rows@[lo as int].1;
            assert(points@[a] == rows@[lo as int].0);
            assert(points@[b] == rows@[lo as int].1);
            assert(a != b);
        }
        let mut net = Network {
            to: Vec::new(),
            capacity: Vec::new(),
            cost: Vec::new(),
            offsets: Vec::new(),
            adjacent: Vec::new(),
            interval_start: 2 * (n - 1),
            points: Ghost(points@),
        };
        let mut v: usize = 0;
        while v + 1 < n
            invariant
                2 <= n <= 2 * (hi - lo),
                hi - lo < usize::MAX / 16,
                v + 1 <= n,
                net.to.len() == 2 * v,
                net.capacity.len() == 2 * v,
                net.cost.len() == 2 * v,
                net.interval_start == 2 * (n - 1),
                net.points@ == points@,
                forall|t: int|
                    0 <= t < v ==> #[trigger] built_step(net.to@, net.cost@, net.capacity@, t, capacity as int),
            decreases n - v,
        {
            let ghost (t0, c0, k0) = (net.to@, net.cost@, net.capacity@);
            net.add_edge(v, v + 1, capacity, 0);
            proof {
                assert forall|t: int| 0 <= t < v + 1 implies #[trigger] built_step(
                    net.to@,
                    net.cost@,
                    net.capacity@,
                    t,
                    capacity as int,
                ) by {
                    if t < v {
                        assert(built_step(t0, c0, k0, t, capacity as int));
                    }
                }
            }
            v += 1;
        }
        let mut p: usize = lo;
        while p < hi
            invariant
                2 <= n <= 2 * (hi - lo),
                lo <= p <= hi <= rows.len(),
                hi - lo < usize::MAX / 16,
                v + 1 == n,
                n == points.len(),
                forall|a: int, b: int| 0 <= a < b < points.len() ==> #[trigger] points@[a] < #[trigger] points@[b],
                forall|x: int|
                    lo <= x < hi ==> has_point(points@, (#[trigger] rows@[x]).0) && has_point(points@, rows@[x].1),
                forall|x: int|
                    lo <= x < hi ==> (#[trigger] rows@[x]).0 < rows@[x].1 && rows@[x].2 < w.len()
                        && w@[rows@[x].2 as int] > 0,
                net.to.len() == 2 * (n - 1) + 2 * (p - lo),
                net.capacity.len() == net.to.len(),
                net.cost.len() == net.to.len(),
                net.interval_start == 2 * (n - 1),
                net.points@ == points@,
                forall|t: int|
                    0 <= t < n - 1 ==> #[trigger] built_step(net.to@, net.cost@, net.capacity@, t, capacity as int),
                forall|j: int|
                    0 <= j < p - lo ==> #[trigger] built_pair(
                        net.to@,
                        net.cost@,
                        net.capacity@,
                        points@,
                        rows@[lo + j],
                        w@,
                        2 * (n - 1) + 2 * j,
                        n as int,
                    ),
            decreases hi - p,
        {
            let from = locate(&points, rows[p].0);
            let to = locate(&points, rows[p].1);
            proof {
                if from > to {
                    assert(points@[to as int] < points@[from as int]);
                }
            }
            let ghost (t0, c0, k0) = (net.to@, net.cost@, net.capacity@);
            net.add_edge(from, to, 1, -w[rows[p].2]);
            proof {
                assert forall|t: int| 0 <= t < n - 1 implies #[trigger] built_step(
                    net.to@,
                    net.cost@,
                    net.capacity@,
                    t,
                    capacity as int,
                ) by {
                    assert(built_step(t0, c0, k0, t, capacity as int));
                }
                assert forall|j: int| 0 <= j < p + 1 - lo implies #[trigger] built_pair(
                    net.to@,
                    net.cost@,
                    net.capacity@,
                    points@,
                    rows@[lo + j],
                    w@,
                    2 * (n - 1) + 2 * j,
                    n as int,
                ) by {
                    if j < p - lo {
                        assert(built_pair(t0, c0, k0, points@, rows@[lo + j], w@, 2 * (n - 1) + 2 * j, n as int));
                    }
                }
            }
            p += 1;
        }
        proof {
            assert(net.to.len() < usize::MAX / 2) by (nonlinear_arith)
                requires
                    net.to.len() == 2 * (n - 1) + 2 * (hi - lo),
                    n <= 2 * (hi - lo),
                    hi - lo < usize::MAX / 16,
            ;
            assert forall|e: int| 0 <= e < net.to.len() implies #[trigger] net.to@[e] < n by {
                if e < 2 * (n - 1) {
                    let t = e / 2;
                    assert(built_step(net.to@, net.cost@, net.capacity@, t, capacity as int));
                } else {
                    let j = (e - 2 * (n - 1)) / 2;
                    assert(built_pair(
                        net.to@,
                        net.cost@,
                        net.capacity@,
                        points@,
                        rows@[lo + j],
                        w@,
                        2 * (n - 1) + 2 * j,
                        n as int,
                    ));
                }
            }
        }
        net.link(n);
        proof {
            lemma_built(&net, rows@, lo as int, hi as int, w@, capacity as int);
            reveal(only_endpoints);
            assert forall|x: i128| has_point(net.points@, x) <==> is_endpoint(rows@, lo as int, hi as int, x) by {
                if is_endpoint(rows@, lo as int, hi as int, x) {
                    let p = choose|p: int| lo <= p < hi && ((#[trigger] rows@[p]).0 == x || rows@[p].1 == x);
                    assert(has_point(points@, rows@[p].0) && has_point(points@, rows@[p].1));
                }
                if has_point(net.points@, x) {
                    let i = choose|i: int| 0 <= i < points@.len() && points@[i] == x;
                    assert(is_endpoint(rows@, lo as int, hi as int, points@[i]));
                }
            }
        }
        net
    }
}


// ----------------------------------------------------------------------------
// Potentials on the fresh network.
// ----------------------------------------------------------------------------

/// The selection of no interval.
pub open spec fn no_rows(r: int) -> Seq<bool> {
    Seq::new(r as nat, |j: int| false)
}

impl Network {
    proof fn lemma_picked_none(&self)
        requires
            self.wellformed(),
        ensures
            self.picked(no_rows(self.rows())) == 0,
            self.chain(no_rows(self.rows()), 0),
    {
        let f = |j: int| if no_rows(self.rows())[j] { self.gain(j) } else { 0 };
        lemma_isum_ext(f, |t: int| 0, self.rows());
        lemma_isum_zero(self.rows());
    }

    proof fn lemma_picked_add(&self, sel: Seq<bool>, j: int)
        requires
            sel.len() == self.rows(),
            0 <= j < self.rows(),
            !sel[j],
        ensures
            self.picked(sel.update(j, true)) == self.picked(sel) + self.gain(j),
    {
        let f = |i: int| if sel[i] { self.gain(i) } else { 0 };
        let g = |i: int| if sel.update(j, true)[i] { self.gain(i) } else { 0 };
        lemma_isum_point(f, g, j, self.rows());
    }

    /// Extending a chain that ends by the start of interval `j` with `j`.
    proof fn lemma_chain_extend(&self, sel: Seq<bool>, j: int, v: int)
        requires
            self.wellformed(),
            0 <= j < self.rows(),
            self.chain(sel, v),
            v <= self.first(j),
        ensures
            !sel[j],
            self.chain(sel.update(j, true), self.last(j)),
            self.picked(sel.update(j, true)) == self.picked(sel) + self.gain(j),
    {
        assert(self.interval_ok(j));
        if sel[j] {
            assert(self.last(j) <= v);
        }
        self.lemma_picked_add(sel, j);
        let sel2 = sel.update(j, true);
        assert forall|a: int, b: int|
            #![trigger sel2[a], sel2[b]]
            0 <= a < sel2.len() && 0 <= b < sel2.len() && a != b && sel2[a] && sel2[b] implies self.last(a)
                <= self.first(b) || self.last(b) <= self.first(a) by {
            if a == j {
                assert(sel[b]);
            } else if b == j {
                assert(sel[a]);
            } else {
                assert(sel[a] && sel[b]);
            }
        }
        assert forall|i: int| 0 <= i < sel2.len() && #[trigger] sel2[i] implies self.last(i) <= self.last(j) by {
            if i != j {
                assert(sel[i]);
            }
        }
    }

    /// A chain that ends by `v` also ends by any later vertex.
    proof fn lemma_chain_later(&self, sel: Seq<bool>, v: int, u: int)
        requires
            self.chain(sel, v),
            v <= u,
        ensures
            self.chain(sel, u),
    {
        assert forall|i: int| 0 <= i < sel.len() && #[trigger] sel[i] implies self.last(i) <= u by {
        }
    }

    /// The state of the forward pass after settling the arcs out of vertices
    /// before `v`: labels are tight along `previous`, each label is the
    /// negated weight of a chain of intervals ending at its vertex.
    pub open spec fn forward_pass(
        &self,
        v: int,
        p: Seq<i128>,
        previous: Seq<usize>,
        wit: Seq<Seq<bool>>,
    ) -> bool {
        let n = self.n();
        &&& p.len() == n
        &&& previous.len() == n
        &&& wit.len() == n
        &&& p[0] == 0
        &&& previous[0] == usize::MAX
        &&& forall|u: int| 0 <= u < n ==> #[trigger] p[u] <= 0
        &&& forall|u: int| 0 <= u < n && #[trigger] previous[u] == usize::MAX ==> p[u] == 0
        &&& forall|u: int|
            0 <= u < n && (u == 0 || previous[u] != usize::MAX) ==> self.chain(#[trigger] wit[u], u)
                && self.picked(wit[u]) == -p[u]
        &&& forall|u: int|
            0 <= u < n && #[trigger] previous[u] != usize::MAX ==> {
                let e = previous[u] as int;
                &&& 0 <= e < self.arcs()
                &&& e % 2 == 0
                &&& self.to@[e] == u
                &&& self.tail(e) <= v
                &&& self.tail(e) < u
                &&& p[u] == p[self.tail(e)] + self.cost@[e]
            }
    }

    /// Arc `e` is settled: its head has a label no larger than through `e`.
    pub open spec fn settled(&self, p: Seq<i128>, previous: Seq<usize>, e: int) -> bool {
        &&& previous[self.to@[e] as int] != usize::MAX
        &&& p[self.to@[e] as int] <= p[self.tail(e)] + self.cost@[e]
    }

    /// Settles one residual arc out of vertex `v` in the forward pass.
    #[verifier::rlimit(40)]
    #[verifier::spinoff_prover]
    fn settle(
        &self,
        k: usize,
        v: usize,
        e: usize,
        potential: &mut Vec<i128>,
        previous: &mut Vec<usize>,
        wit: Ghost<Seq<Seq<bool>>>,
    ) -> (r: Result<Ghost<Seq<Seq<bool>>>, IntervalError>)
        requires
            self.wellformed(),
            self.fresh(k as int),
            k >= 1,
            v < self.n(),
            0 <= e < self.arcs(),
            self.tail(e as int) == v,
            self.capacity@[e as int] > 0,
            self.forward_pass(v as int, old(potential)@, old(previous)@, wit@),
            v == 0 || old(previous)@[v as int] != usize::MAX,
        ensures
            match r {
                Ok(w2) => {
                    &&& self.forward_pass(v as int, final(potential)@, final(previous)@, w2@)
                    &&& self.settled(final(potential)@, final(previous)@, e as int)
                    &&& forall|u: int|
                        0 <= u < self.n() ==> #[trigger] final(potential)@[u] <= old(potential)@[u]
                    &&& forall|u: int| 0 <= u <= v ==> #[trigger] final(potential)@[u] == old(potential)@[u]
                    &&& forall|u: int|
                        0 <= u < self.n() && #[trigger] old(previous)@[u] != usize::MAX ==> final(previous)@[u]
                            != usize::MAX
                },
                Err(err) => err == IntervalError::WeightOverflow && self.heavy(),
            },
    {
        let ghost n = self.n();
        let ghost j: int = (e - self.interval_start) / 2;
        proof {
            // Residual arcs of the fresh network are the forward arcs.
            if e % 2 == 1 {
                if e < self.interval_start {
                    let t = (e - 1) / 2;
                    assert(0 <= t < self.n() - 1);
                    assert(2 * t + 1 == e);
                    assert(self.capacity@[2 * t] == k);
                    assert(self.capacity@[2 * t + 1] == 0);
                } else {
                    let jj = (e - 1 - self.interval_start) / 2;
                    assert(0 <= jj < self.rows());
                    assert(self.fwd(jj) + 1 == e);
                    assert(self.capacity@[self.fwd(jj)] == 1);
                    assert(self.capacity@[self.fwd(jj) + 1] == 0);
                }
                assert(false);
            }
            if e < self.interval_start {
                let t = e / 2;
                assert(self.to@[2 * t] == t + 1);
                assert(self.cost@[2 * t] == 0);
            } else {
                assert(self.interval_ok(j));
                assert(self.fwd(j) == e);
            }
        }
        let ghost sel = wit@[v as int];
        let d = match self::add(potential[v], self.cost[e]) {
            Ok(d) => d,
            Err(err) => {
                proof {
                    self.lemma_chain_extend(sel, j, v as int);
                    self.lemma_chain_later(sel.update(j, true), self.last(j), n - 1);
                }
                return Err(err);
            },
        };
        let t = self.to[e];
        let ghost mut w2 = wit@;
        if previous[t] == usize::MAX || d < potential[t] {
            proof {
                if e >= self.interval_start {
                    self.lemma_chain_extend(sel, j, v as int);
                    w2 = wit@.update(t as int, sel.update(j, true));
                } else {
                    self.lemma_chain_later(sel, v as int, t as int);
                    w2 = wit@.update(t as int, sel);
                }
            }
            potential.set(t, d);
            previous.set(t, e);
        }
        Ok(Ghost(w2))
    }

    /// Shortest distances from the first vertex on the fresh network, whose
    /// residual arcs all go forward, computed in vertex order.
    fn initial_potentials(&self, k: usize) -> (r: Result<(Vec<i128>, Vec<usize>), IntervalError>)
        requires
            self.wellformed(),
            self.fresh(k as int),
            k >= 1,
        ensures
            match r {
                Ok((p, previous)) => {
                    &&& p.len() == self.n()
                    &&& self.priced(p@)
                    &&& self.tree(p@, previous@, Seq::new(self.n() as nat, |u: int| u))
                    &&& p@[0] == 0
                    &&& forall|u: int| 0 <= u < self.n() ==> #[trigger] p@[u] <= 0
                    &&& forall|u: int| 0 <= u < self.n() && #[trigger] p@[u] < -i128::MAX ==> self.heavy()
                },
                Err(e) => e == IntervalError::WeightOverflow && self.heavy(),
            },
    {
        let n = self.offsets.len() - 1;
        let mut potential: Vec<i128> = vec![0i128; n];
        let mut previous: Vec<usize> = vec![usize::MAX; n];
        let ghost r = self.rows();
        let ghost mut wit: Seq<Seq<bool>> = Seq::new(n as nat, |u: int| no_rows(r));
        proof {
            self.lemma_picked_none();
        }
        let mut v: usize = 0;
        while v < n
            invariant
                self.wellformed(),
                self.fresh(k as int),
                k >= 1,
                n == self.n(),
                v <= n,
                self.forward_pass(v as int, potential@, previous@, wit),
                forall|u: int| 1 <= u < v ==> #[trigger] previous@[u] != usize::MAX,
                forall|e: int|
                    0 <= e < self.arcs() && #[trigger] self.capacity@[e] > 0 && self.tail(e) < v ==> self.settled(
                        potential@,
                        previous@,
                        e,
                    ),
            decreases n - v,
        {
            let start = self.offsets[v];
            let end = self.offsets[v + 1];
            proof {
                if v > 0 {
                    let f = 2 * (v - 1);
                    assert(self.to@[f] == v);
                    assert(self.to@[f + 1] == v - 1);
                    assert(self.capacity@[f] == k);
                    assert(self.settled(potential@, previous@, f));
                }
            }
            let mut q: usize = start;
            while q < end
                invariant
                    self.wellformed(),
                    self.fresh(k as int),
                    k >= 1,
                    n == self.n(),
                    v < n,
                    start == self.offsets@[v as int],
                    end == self.offsets@[v + 1],
                    start <= q <= end,
                    self.forward_pass(v as int, potential@, previous@, wit),
                    v == 0 || previous@[v as int] != usize::MAX,
                    forall|u: int| 1 <= u < v ==> #[trigger] previous@[u] != usize::MAX,
                    forall|e: int|
                        0 <= e < self.arcs() && #[trigger] self.capacity@[e] > 0 && self.tail(e) < v ==> self.settled(
                            potential@,
                            previous@,
                            e,
                        ),
                    forall|x: int|
                        start <= x < q && #[trigger] self.capacity@[self.adjacent@[x] as int] > 0 ==> self.settled(
                            potential@,
                            previous@,
                            self.adjacent@[x] as int,
                        ),
                decreases end - q,
            {
                let e = self.adjacent[q];
                proof {
                    assert(self.offsets@[v as int] <= q < self.offsets@[v + 1]);
                    assert(self.tail(e as int) == v);
                }
                if self.capacity[e] > 0 {
                    let ghost (p0, prev0) = (potential@, previous@);
                    match self.settle(k, v, e, &mut potential, &mut previous, Ghost(wit)) {
                        Ok(w2) => {
                            proof {
                                wit = w2@;
                                assert forall|u: int| 1 <= u < v implies #[trigger] previous@[u] != usize::MAX by {
                                    assert(prev0[u] != usize::MAX);
                                }
                                if v > 0 {
                                    assert(prev0[v as int] != usize::MAX);
                                }
                                assert forall|f: int|
                                    0 <= f < self.arcs() && #[trigger] self.capacity@[f] > 0 && self.tail(f) < v
                                        implies self.settled(potential@, previous@, f) by {
                                    assert(self.settled(p0, prev0, f));
                                }
                                assert forall|x: int|
                                    start <= x < q + 1 && #[trigger] self.capacity@[self.adjacent@[x] as int] > 0
                                        implies self.settled(potential@, previous@, self.adjacent@[x] as int) by {
                                    if x < q {
                                        assert(self.settled(p0, prev0, self.adjacent@[x] as int));
                                        assert(self.offsets@[v as int] <= x < self.offsets@[v + 1]);
                                    }
                                }
                            }
                        },
                        Err(err) => {
                            return Err(err);
                        },
                    }
                }
                q += 1;
            }
            proof {
                assert forall|e: int|
                    0 <= e < self.arcs() && #[trigger] self.capacity@[e] > 0 && self.tail(e) < v + 1 implies self.settled(
                    potential@,
                    previous@,
                    e,
                ) by {
                    if self.tail(e) == v {
                        assert(self.listed(e));
                        let x = choose|x: int|
                            #![trigger self.adjacent@[x]]
                            self.offsets@[self.tail(e)] <= x < self.offsets@[self.tail(e) + 1] && self.adjacent@[x]
                                == e;
                        assert(self.adjacent@[x] == e);
                    }
                }
                if v + 1 < n {
                    assert(self.capacity@[2 * v as int] == k);
                    assert(self.to@[2 * v as int] == v + 1);
                    assert(self.tail(2 * v as int) == v);
                    assert(self.settled(potential@, previous@, 2 * v as int));
                }
            }
            v += 1;
        }
        proof {
            let order = Seq::new(n as nat, |u: int| u);
            assert forall|e: int| 0 <= e < self.arcs() && #[trigger] self.capacity@[e] > 0 implies self.reduced(
                potential@,
                e,
            ) >= 0 by {
                assert(self.to@[mate(e)] < n);
                assert(self.settled(potential@, previous@, e));
            }
            assert forall|u: int| 1 <= u < n implies {
                let e = #[trigger] previous@[u] as int;
                &&& 0 <= e < self.arcs()
                &&& self.to@[e] == u
                &&& self.capacity@[e] > 0
                &&& order[self.tail(e)] < order[u]
                &&& self.reduced(potential@, e) == 0
            } by {
                let e = previous@[u] as int;
                if e < self.interval_start {
                    let t = e / 2;
                    assert(self.capacity@[2 * t] == k);
                } else {
                    let j = (e - self.interval_start) / 2;
                    assert(self.capacity@[self.fwd(j)] == 1);
                }
            }
            assert forall|u: int| 0 <= u < n && #[trigger] potential@[u] < -i128::MAX implies self.heavy() by {
                assert(u != 0);
                assert(self.chain(wit[u], u));
                self.lemma_chain_later(wit[u], u, n - 1);
            }
        }
        Ok((potential, previous))
    }
}


// ----------------------------------------------------------------------------
// Augmenting along the predecessor tree.
// ----------------------------------------------------------------------------

/// What moving `a` units from vertex `x` to vertex `y` adds across the gap
/// after vertex `t`.
pub open spec fn moved(a: int, x: int, y: int, t: int) -> int {
    if x <= t && t < y {
        a
    } else if y <= t && t < x {
        -a
    } else {
        0
    }
}

impl Network {
    /// Partners have swapped ends and opposite costs.
    proof fn lemma_mate(&self, e: int)
        requires
            self.wellformed(),
            0 <= e < self.arcs(),
        ensures
            0 <= mate(e) < self.arcs(),
            mate(mate(e)) == e,
            self.tail(mate(e)) == self.to@[e],
            self.cost@[mate(e)] == -self.cost@[e],
            self.tail(e) < self.n(),
    {
        if e < self.interval_start {
            let t = e / 2;
            assert(self.to@[2 * t] == t + 1);
        } else {
            let j = (e - self.interval_start) / 2;
            assert(self.interval_ok(j));
        }
    }

    /// Moving `a` units across arc `e` shifts the flow over the gap after
    /// vertex `t` by `a` when `e` crosses it forward, and back when it crosses
    /// it backward.
    proof fn lemma_shift(&self, next: &Network, e: int, a: int)
        requires
            self.wellformed(),
            next.same_shape(self),
            0 <= e < self.arcs(),
            0 <= a <= self.capacity@[e],
            self.capacity@[mate(e)] + a <= usize::MAX,
            next.capacity@ == self.capacity@.update(e, (self.capacity@[e] - a) as usize).update(
                mate(e),
                (self.capacity@[mate(e)] + a) as usize,
            ),
        ensures
            forall|t: int|
                0 <= t < self.n() - 1 ==> #[trigger] next.capacity@[2 * t + 1] + next.cover(t) == self.capacity@[2
                    * t + 1] + self.cover(t) + moved(a, self.tail(e), self.to@[e] as int, t),
    {
        self.lemma_mate(e);
        let n = self.n();
        let r = self.rows();
        assert forall|t: int| 0 <= t < n - 1 implies #[trigger] next.capacity@[2 * t + 1] + next.cover(t)
            == self.capacity@[2 * t + 1] + self.cover(t) + moved(a, self.tail(e), self.to@[e] as int, t) by {
            let f = self.crossing(t);
            let g = next.crossing(t);
            if e < self.interval_start {
                let u = e / 2;
                assert(self.to@[2 * u] == u + 1);
                assert forall|j: int| 0 <= j < r implies #[trigger] f(j) == g(j) by {
                    assert(self.fwd(j) + 1 > e && self.fwd(j) + 1 > mate(e));
                }
                lemma_isum_ext(f, g, r);
                if e % 2 == 0 {
                    assert(mate(e) == 2 * u + 1);
                    if t == u {
                    } else {
                    }
                } else {
                    assert(e == 2 * u + 1);
                    if t == u {
                    } else {
                    }
                }
            } else {
                let j = (e - self.interval_start) / 2;
                assert(self.interval_ok(j));
                assert forall|x: int| 0 <= x < r && x != j implies #[trigger] f(x) == g(x) by {
                    assert(self.fwd(x) + 1 != e && self.fwd(x) + 1 != mate(e));
                }
                lemma_isum_point(f, g, j, r);
                assert(2 * t + 1 < self.interval_start);
                if e % 2 == 0 {
                    assert(e == self.fwd(j));
                    if self.first(j) <= t < self.last(j) {
                        assert(g(j) == f(j) + a);
                    } else {
                        assert(g(j) == f(j));
                    }
                } else {
                    assert(e == self.fwd(j) + 1);
                    if self.first(j) <= t < self.last(j) {
                        assert(g(j) == f(j) - a);
                    } else {
                        assert(g(j) == f(j));
                    }
                }
            }
        }
    }

    /// Each residual pair holds `k` on the timeline and one unit on intervals.
    proof fn lemma_pair(&self, k: int, e: int)
        requires
            self.wellformed(),
            self.bounded(k),
            0 <= e < self.arcs(),
        ensures
            self.capacity@[e] + self.capacity@[mate(e)] == if e < self.interval_start {
                k
            } else {
                1
            },
    {
        if e < self.interval_start {
            let t = e / 2;
            assert(self.capacity@[2 * t] + self.capacity@[2 * t + 1] == k);
        } else {
            let j = (e - self.interval_start) / 2;
            assert(self.capacity@[self.fwd(j)] + self.capacity@[self.fwd(j) + 1] == 1);
        }
    }

    /// Networks of the same shape are equally well formed.
    pub proof fn lemma_same_shape(&self, other: &Network)
        requires
            self.wellformed(),
            other.same_shape(self),
        ensures
            other.wellformed(),
            other.heavy() == self.heavy(),
            forall|rs: Seq<Triple>, w: Seq<i128>| #[trigger] self.shaped(rs, w) ==> other.shaped(rs, w),
    {
        assert forall|sel: Seq<bool>| #[trigger] self.chain(sel, self.n() - 1) == other.chain(sel, other.n() - 1)
            && self.picked(sel) == other.picked(sel) by {
            let f = |j: int| if sel[j] { self.gain(j) } else { 0 };
            let g = |j: int| if sel[j] { other.gain(j) } else { 0 };
            lemma_isum_ext(f, g, self.rows());
        }
        if self.heavy() {
            let sel = choose|sel: Seq<bool>| #[trigger] self.chain(sel, self.n() - 1) && self.picked(sel) > i128::MAX;
            assert(other.chain(sel, other.n() - 1));
        }
        if other.heavy() {
            let sel = choose|sel: Seq<bool>| #[trigger] other.chain(sel, other.n() - 1) && other.picked(sel) > i128::MAX;
            assert(self.chain(sel, self.n() - 1));
        }
        assert forall|j: int| 0 <= j < other.rows() implies #[trigger] other.interval_ok(j) by {
            assert(self.interval_ok(j));
        }
        assert forall|e: int| 0 <= e < other.arcs() implies #[trigger] other.listed(e) by {
            assert(self.listed(e));
        }
        assert(other.wellformed());
        assert forall|rs: Seq<Triple>, w: Seq<i128>| #[trigger] self.shaped(rs, w) implies other.shaped(rs, w) by {
            assert forall|j: int| 0 <= j < rs.len() implies #[trigger] other.stands_for(rs, w, j) by {
                assert(self.stands_for(rs, w, j));
            }
        }
    }

    /// Moving units within a residual pair keeps every pair's total.
    proof fn lemma_move_bounded(&self, next: &Network, e: int, a: int, k: int)
        requires
            self.wellformed(),
            self.bounded(k),
            next.same_shape(self),
            0 <= e < self.arcs(),
            0 <= a <= self.capacity@[e],
            self.capacity@[mate(e)] + a <= usize::MAX,
            next.capacity@ == self.capacity@.update(e, (self.capacity@[e] - a) as usize).update(
                mate(e),
                (self.capacity@[mate(e)] + a) as usize,
            ),
        ensures
            next.bounded(k),
    {
        self.lemma_mate(e);
        assert forall|t: int| 0 <= t < next.n() - 1 implies #[trigger] next.capacity@[2 * t] + next.capacity@[2
            * t + 1] == k by {
            assert(self.capacity@[2 * t] + self.capacity@[2 * t + 1] == k);
        }
        assert forall|j: int| 0 <= j < next.rows() implies #[trigger] next.capacity@[next.fwd(j)] + next.capacity@[
            next.fwd(j) + 1] == 1 by {
            assert(self.capacity@[self.fwd(j)] + self.capacity@[self.fwd(j) + 1] == 1);
        }
    }

    /// Moving units across a tight arc keeps every residual arc's reduced cost
    /// nonnegative.
    proof fn lemma_move_priced(&self, next: &Network, e: int, a: int, p: Seq<i128>)
        requires
            self.wellformed(),
            self.priced(p),
            self.reduced(p, e) == 0,
            next.same_shape(self),
            0 <= e < self.arcs(),
            0 <= a <= self.capacity@[e],
            self.capacity@[mate(e)] + a <= usize::MAX,
            next.capacity@ == self.capacity@.update(e, (self.capacity@[e] - a) as usize).update(
                mate(e),
                (self.capacity@[mate(e)] + a) as usize,
            ),
        ensures
            next.priced(p),
    {
        self.lemma_mate(e);
        assert forall|f: int| 0 <= f < next.arcs() && #[trigger] next.capacity@[f] > 0 implies next.reduced(p, f)
            >= 0 by {
            if f != mate(e) {
                assert(self.capacity@[f] > 0);
            }
        }
    }

    /// Step `i` of the path follows the predecessor arc of its vertex.
    pub open spec fn step(&self, previous: Seq<usize>, path: Seq<int>, i: int) -> bool {
        &&& path[i] != 0
        &&& path[i + 1] == self.tail(previous[path[i]] as int)
    }

    /// The path walks predecessor arcs back from the last vertex, in strictly
    /// decreasing `order`.
    pub open spec fn walk(&self, previous: Seq<usize>, order: Seq<int>, path: Seq<int>) -> bool {
        &&& path.len() >= 1
        &&& path[0] == self.n() - 1
        &&& forall|i: int| 0 <= i < path.len() ==> 0 <= #[trigger] path[i] < self.n()
        &&& forall|i: int| 0 <= i < path.len() - 1 ==> #[trigger] self.step(previous, path, i)
        &&& forall|a: int, b: int|
            0 <= a < b < path.len() ==> order[#[trigger] path[a]] > order[#[trigger] path[b]]
    }

    /// Later arcs of a path that visits distinct vertices are neither the arc
    /// of step `i` nor its partner, so moving units there leaves them alone.
    proof fn lemma_untouched(
        &self,
        start: &Network,
        before: &Network,
        previous: Seq<usize>,
        order: Seq<int>,
        path: Seq<int>,
        p: Seq<i128>,
        c0: Seq<usize>,
        i: int,
        e: int,
    )
        requires
            start.wellformed(),
            start.tree(p, previous, order),
            start.walk(previous, order, path),
            0 <= i < path.len() - 1,
            e == previous[path[i]],
            self.same_shape(start),
            forall|x: int|
                i <= x < path.len() - 1 ==> {
                    let f = previous[#[trigger] path[x]] as int;
                    &&& before.capacity@[f] == c0[f]
                    &&& before.capacity@[mate(f)] == c0[mate(f)]
                },
            forall|f: int|
                0 <= f < self.arcs() && f != e && f != mate(e) ==> #[trigger] self.capacity@[f] == before.capacity@[f],
        ensures
            forall|x: int|
                i + 1 <= x < path.len() - 1 ==> {
                    let f = previous[#[trigger] path[x]] as int;
                    &&& self.capacity@[f] == c0[f]
                    &&& self.capacity@[mate(f)] == c0[mate(f)]
                },
    {
        assert(start.step(previous, path, i));
        start.lemma_mate(e);
        assert forall|y: int| i + 1 <= y < path.len() - 1 implies {
            let f = previous[#[trigger] path[y]] as int;
            &&& self.capacity@[f] == c0[f]
            &&& self.capacity@[mate(f)] == c0[mate(f)]
        } by {
            let f = previous[path[y]] as int;
            assert(start.step(previous, path, y));
            assert(1 <= path[y] < start.n());
            assert(0 <= f < start.arcs());
            start.lemma_mate(f);
            assert(order[path[i]] > order[path[y]]);
            assert(order[path[i]] > order[path[y + 1]]);
            assert(before.capacity@[f] == c0[f]);
            if y > i + 1 {
                assert(order[path[i + 1]] > order[path[y]]);
            }
            if y == i + 1 {
                assert(order[path[i]] > order[path[y + 1]]);
            }
        }
    }

    /// Sends as much as the remaining demand and the path allow along the
    /// predecessor path from the first vertex to the last, and returns it.
    fn augment(
        &mut self,
        previous: &Vec<usize>,
        k: usize,
        sent: usize,
        p: Ghost<Seq<i128>>,
        order: Ghost<Seq<int>>,
    ) -> (amount: usize)
        requires
            old(self).wellformed(),
            old(self).bounded(k as int),
            old(self).carries(sent as int),
            sent < k,
            old(self).priced(p@),
            old(self).tree(p@, previous@, order@),
        ensures
            final(self).same_shape(old(self)),
            final(self).wellformed(),
            final(self).bounded(k as int),
            final(self).carries(sent + amount),
            1 <= amount <= k - sent,
            final(self).priced(p@),
    {
        let n = self.offsets.len() - 1;
        let mut amount = k - sent;
        let mut v = n - 1;
        let ghost mut path: Seq<int> = seq![(n - 1) as int];
        while v != 0
            invariant
                self.wellformed(),
                self.tree(p@, previous@, order@),
                n == self.n(),
                v < n,
                1 <= amount <= k - sent,
                self.walk(previous@, order@, path),
                path.last() == v,
                forall|i: int|
                    0 <= i < path.len() - 1 ==> amount <= self.capacity@[previous@[#[trigger] path[i]] as int],
            decreases order@[v as int],
        {
            let e = previous[v];
            if self.capacity[e] < amount {
                amount = self.capacity[e];
            }
            proof {
                assert(0 <= e < self.arcs());
            }
            let ghost old_path = path;
            v = self.to[partner(e)];
            proof {
                path = path.push(v as int);
                assert forall|i: int| 0 <= i < path.len() implies 0 <= #[trigger] path[i] < n by {
                    if i < old_path.len() {
                        assert(path[i] == old_path[i]);
                    } else {
                        self.lemma_mate(e as int);
                    }
                }
                assert forall|i: int| 0 <= i < path.len() - 1 implies #[trigger] self.step(previous@, path, i) by {
                    if i < old_path.len() - 1 {
                        assert(self.step(previous@, old_path, i));
                    }
                }
                assert forall|a: int, b: int| 0 <= a < b < path.len() implies order@[#[trigger] path[a]]
                    > order@[#[trigger] path[b]] by {
                    if b < old_path.len() {
                        assert(order@[old_path[a]] > order@[old_path[b]]);
                    } else if a < old_path.len() - 1 {
                        assert(order@[old_path[a]] > order@[old_path[old_path.len() - 1]]);
                    }
                }
                assert forall|i: int| 0 <= i < path.len() - 1 implies amount <= self.capacity@[previous@[
                    #[trigger] path[i]] as int] by {
                    assert(path[i] == old_path[i]);
                }
            }
        }
        let ghost start = *self;
        let ghost c0 = self.capacity@;
        let ghost len = path.len();
        proof {
            assert(path[len - 1] == 0);
        }
        v = n - 1;
        let ghost mut i: int = 0;
        while v != 0
            invariant
                start.wellformed(),
                start.tree(p@, previous@, order@),
                start.walk(previous@, order@, path),
                c0 == start.capacity@,
                len == path.len(),
                path[len - 1] == 0,
                self.same_shape(&start),
                self.bounded(k as int),
                self.priced(p@),
                n == self.n(),
                0 <= i < len,
                v == path[i],
                1 <= amount <= k - sent,
                forall|x: int| 0 <= x < len - 1 ==> amount <= c0[previous@[#[trigger] path[x]] as int],
                forall|x: int|
                    i <= x < len - 1 ==> {
                        let f = previous@[#[trigger] path[x]] as int;
                        &&& self.capacity@[f] == c0[f]
                        &&& self.capacity@[mate(f)] == c0[mate(f)]
                    },
                forall|t: int|
                    0 <= t < n - 1 ==> #[trigger] self.capacity@[2 * t + 1] + self.cover(t) == sent + if v <= t {
                        amount as int
                    } else {
                        0
                    },
            decreases order@[v as int],
        {
            let e = previous[v];
            proof {
                start.lemma_same_shape(self);
                assert(start.step(previous@, path, i));
                start.lemma_mate(e as int);
                self.lemma_pair(k as int, e as int);
            }
            let m = partner(e);
            let ghost before = *self;
            let c = self.capacity[e] - amount;
            self.capacity.set(e, c);
            let d = self.capacity[m] + amount;
            self.capacity.set(m, d);
            proof {
                let x = path[i + 1];
                before.lemma_shift(self, e as int, amount as int);
                before.lemma_move_bounded(self, e as int, amount as int, k as int);
                before.lemma_move_priced(self, e as int, amount as int, p@);
                assert forall|t: int| 0 <= t < n - 1 implies #[trigger] self.capacity@[2 * t + 1] + self.cover(t)
                    == sent + if x <= t {
                    amount as int
                } else {
                    0
                } by {
                    assert(before.capacity@[2 * t + 1] + before.cover(t) == sent + if path[i] <= t {
                        amount as int
                    } else {
                        0
                    });
                }
                self.lemma_untouched(&start, &before, previous@, order@, path, p@, c0, i, e as int);
            }
            v = self.to[m];
            proof {
                i = i + 1;
            }
        }
        proof {
            start.lemma_same_shape(self);
            assert forall|t: int| 0 <= t < n - 1 implies #[trigger] self.capacity@[2 * t + 1] + self.cover(t)
                == sent + amount by {
            }
        }
        amount
    }
}


// ----------------------------------------------------------------------------
// Shortest paths under reduced costs.
// ----------------------------------------------------------------------------

impl Network {
    /// Every residual arc out of `u` leads to a label within its reduced cost.
    pub open spec fn relaxed(&self, p: Seq<i128>, dist: Seq<u128>, u: int) -> bool {
        forall|e: int|
            0 <= e < self.arcs() && #[trigger] self.capacity@[e] > 0 && self.tail(e) == u ==> dist[self.to@[e] as int]
                <= dist[u] + self.reduced(p, e)
    }

    /// The state of the search: `done` holds the vertices settled so far, in
    /// `rank` order, each at most `floor`; the queue holds a current entry for
    /// every reached vertex not yet settled, and only entries no smaller than
    /// their vertex's label and `floor`; every reached vertex but the first is
    /// entered by a tight residual arc from a settled vertex; and every settled
    /// vertex other than `cur` is relaxed.
    #[verifier::opaque]
    pub open spec fn searching(
        &self,
        p: Seq<i128>,
        dist: Seq<u128>,
        previous: Seq<usize>,
        rank: Seq<int>,
        done: Set<int>,
        floor: int,
        queue: Seq<Label>,
        cur: int,
    ) -> bool {
        let n = self.n();
        &&& dist.len() == n
        &&& previous.len() == n
        &&& rank.len() == n
        &&& dist[0] == 0
        &&& done.subset_of(set_int_range(0, n))
        &&& done.finite()
        &&& heap_ok(queue)
        &&& forall|x: Label|
            #[trigger] queue.to_multiset().count(x) > 0 ==> {
                &&& x.1 < n
                &&& x.0 < u128::MAX
                &&& x.0 >= dist[x.1 as int]
                &&& x.0 >= floor
                &&& done.contains(x.1 as int) ==> x.0 > dist[x.1 as int]
            }
        &&& forall|u: int|
            0 <= u < n && #[trigger] dist[u] < u128::MAX && !done.contains(u) ==> queue.to_multiset().count(
                (dist[u], u as usize),
            ) > 0
        &&& forall|u: int| 0 <= u < n ==> queue.to_multiset().count((#[trigger] dist[u], u as usize)) <= 1
        &&& forall|u: int|
            #[trigger] done.contains(u) ==> dist[u] <= floor && dist[u] < u128::MAX && 0 <= rank[u] < done.len()
        &&& forall|u: int| 0 <= u < n ==> #[trigger] rank[u] >= 0
        &&& forall|u: int| #[trigger] done.contains(u) && u != cur ==> self.relaxed(p, dist, u)
        &&& forall|u: int|
            1 <= u < n && #[trigger] dist[u] < u128::MAX ==> {
                let e = previous[u] as int;
                &&& 0 <= e < self.arcs()
                &&& self.to@[e] == u
                &&& self.capacity@[e] > 0
                &&& done.contains(self.tail(e))
                &&& dist[u] == dist[self.tail(e)] + self.reduced(p, e)
                &&& done.contains(u) ==> rank[self.tail(e)] < rank[u]
            }
    }

    /// Potentials fall along the timeline while it has room forward.
    pub open spec fn falling(&self, p: Seq<i128>) -> bool {
        &&& p.len() == self.n()
        &&& p[0] == 0
        &&& forall|u: int| 0 <= u < self.n() ==> #[trigger] p[u] <= 0
        &&& forall|a: int, b: int| 0 <= a <= b < self.n() ==> #[trigger] p[a] >= #[trigger] p[b]
    }

    /// While fewer than `k` units are sent, every forward timeline arc has room,
    /// so potentials with no negative reduced cost fall along the timeline.
    proof fn lemma_falling(&self, k: int, sent: int, p: Seq<i128>)
        requires
            self.wellformed(),
            self.bounded(k),
            self.carries(sent),
            0 <= sent < k,
            self.priced(p),
            p[0] == 0,
        ensures
            self.falling(p),
            forall|t: int| 0 <= t < self.n() - 1 ==> #[trigger] self.capacity@[2 * t] > 0,
    {
        let n = self.n();
        assert forall|t: int| 0 <= t < n - 1 implies #[trigger] self.capacity@[2 * t] > 0 by {
            assert(self.capacity@[2 * t + 1] + self.cover(t) == sent);
            assert(self.capacity@[2 * t] + self.capacity@[2 * t + 1] == k);
            lemma_isum_nonneg(self.crossing(t), self.rows());
        }
        assert forall|t: int| 0 <= t < n - 1 implies #[trigger] p[t] >= p[t + 1] by {
            assert(self.capacity@[2 * t] > 0);
            assert(self.to@[2 * t] == t + 1);
            assert(self.reduced(p, 2 * t) >= 0);
        }
        assert forall|a: int, b: int| 0 <= a <= b < n implies #[trigger] p[a] >= #[trigger] p[b] by {
            lemma_descend(p, a, b);
        }
    }
}

/// A sequence that falls step by step falls between any two positions.
proof fn lemma_descend(p: Seq<i128>, a: int, b: int)
    requires
        0 <= a <= b < p.len(),
        forall|t: int| 0 <= t < p.len() - 1 ==> #[trigger] p[t] >= p[t + 1],
    ensures
        p[a] >= p[b],
    decreases b - a,
{
    if a < b {
        lemma_descend(p, a, b - 1);
        assert(p[b - 1] >= p[b]);
    }
}


impl Network {
    /// With potentials no lower than `-i128::MAX`, every reduced cost of a
    /// residual arc, and its partial sum, fits in `i128`.
    proof fn lemma_reduced_fits(&self, p: Seq<i128>, e: int)
        requires
            self.wellformed(),
            self.priced(p),
            self.falling(p),
            forall|u: int| 0 <= u < self.n() ==> #[trigger] p[u] >= -i128::MAX,
            0 <= e < self.arcs(),
            self.capacity@[e] > 0,
        ensures
            i128::MIN <= p[self.tail(e)] + self.cost@[e] <= i128::MAX,
            0 <= self.reduced(p, e) <= i128::MAX,
    {
        self.lemma_mate(e);
        let a = self.tail(e);
        let b = self.to@[e] as int;
        assert(p[a] >= -i128::MAX && p[b] >= -i128::MAX);
        if e < self.interval_start {
            let t = e / 2;
            assert(self.to@[2 * t] == t + 1);
            if e % 2 == 1 {
                assert(p[t] >= p[t + 1]);
            }
        } else {
            let j = (e - self.interval_start) / 2;
            assert(self.interval_ok(j));
            if e % 2 == 1 {
                assert(p[self.first(j)] >= p[self.last(j)]);
            }
        }
    }

    /// Relaxes arc `e` out of the settled vertex `v`, whose label is `d`.
    #[verifier::rlimit(40)]
    #[verifier::spinoff_prover]
    fn relax(
        &self,
        k: usize,
        sent: usize,
        p: &Vec<i128>,
        v: usize,
        d: u128,
        e: usize,
        dist: &mut Vec<u128>,
        previous: &mut Vec<usize>,
        queue: &mut Vec<Label>,
        rank: Ghost<Seq<int>>,
        done: Ghost<Set<int>>,
        floor: Ghost<int>,
    ) -> (r: Result<(), IntervalError>)
        requires
            self.wellformed(),
            self.priced(p@),
            self.falling(p@),
            forall|u: int| 0 <= u < self.n() && #[trigger] p@[u] < -i128::MAX ==> self.heavy(),
            self.searching(p@, old(dist)@, old(previous)@, rank@, done@, floor@, old(queue)@, v as int),
            done@.contains(v as int),
            old(dist)@[v as int] == d,
            d == floor@,
            0 <= e < self.arcs(),
            self.tail(e as int) == v,
        ensures
            match r {
                Ok(()) => {
                    &&& self.searching(p@, final(dist)@, final(previous)@, rank@, done@, floor@, final(queue)@, v as int)
                    &&& self.capacity@[e as int] > 0 ==> final(dist)@[self.to@[e as int] as int] <= d + self.reduced(
                        p@,
                        e as int,
                    )
                    &&& forall|u: int| 0 <= u < self.n() ==> #[trigger] final(dist)@[u] <= old(dist)@[u]
                    &&& final(dist)@[v as int] == d
                },
                Err(err) => err == IntervalError::WeightOverflow && self.heavy(),
            },
    {
        reveal(Network::searching);
        broadcast use group_multiset_axioms;

        if self.capacity[e] == 0 {
            return Ok(());
        }
        proof {
            self.lemma_mate(e as int);
        }
        let t = self.to[e];
        let x = match self::add(p[v], self.cost[e]) {
            Ok(x) => x,
            Err(err) => {
                proof {
                    if !self.heavy() {
                        self.lemma_reduced_fits(p@, e as int);
                    }
                }
                return Err(err);
            },
        };
        let reduced = match x.checked_sub(p[t]) {
            Some(y) => y,
            None => {
                proof {
                    if !self.heavy() {
                        self.lemma_reduced_fits(p@, e as int);
                    }
                }
                return Err(IntervalError::WeightOverflow);
            },
        };
        proof {
            assert(reduced == self.reduced(p@, e as int));
            assert(reduced >= 0);
        }
        let candidate = d.saturating_add(reduced as u128);
        if candidate < dist[t] {
            let ghost (d0, q0) = (dist@, queue@);
            proof {
                assert(candidate == d + reduced);
                if done@.contains(t as int) {
                    assert(d0[t as int] <= floor@);
                }
                assert(t != 0);
                assert(queue@.to_multiset().count((candidate, t)) == 0) by {
                    if queue@.to_multiset().count((candidate, t)) > 0 {
                        assert(candidate >= d0[t as int]);
                    }
                }
            }
            dist.set(t, candidate);
            previous.set(t, e);
            heap_push(queue, (candidate, t));
            proof {
                let n = self.n();
                let m0 = q0.to_multiset();
                let m1 = queue@.to_multiset();
                assert(m1 == m0.insert((candidate, t)));
                assert forall|y: Label| #[trigger] m1.count(y) > 0 implies {
                    &&& y.1 < n
                    &&& y.0 < u128::MAX
                    &&& y.0 >= dist@[y.1 as int]
                    &&& y.0 >= floor@
                    &&& done@.contains(y.1 as int) ==> y.0 > dist@[y.1 as int]
                } by {
                    if y != (candidate, t) {
                        assert(m0.count(y) > 0);
                    }
                }
                assert forall|u: int|
                    0 <= u < n && #[trigger] dist@[u] < u128::MAX && !done@.contains(u) implies m1.count(
                    (dist@[u], u as usize),
                ) > 0 by {
                    if u != t {
                        assert(m0.count((d0[u], u as usize)) > 0);
                    }
                }
                assert forall|u: int| 0 <= u < n implies m1.count((#[trigger] dist@[u], u as usize)) <= 1 by {
                    if u != t {
                        assert(m0.count((d0[u], u as usize)) <= 1);
                        assert((d0[u], u as usize) != (candidate, t));
                    }
                }
                assert forall|u: int| #[trigger] done@.contains(u) && u != v implies self.relaxed(p@, dist@, u) by {
                    assert(self.relaxed(p@, d0, u));
                    assert forall|f: int|
                        0 <= f < self.arcs() && #[trigger] self.capacity@[f] > 0 && self.tail(f) == u implies dist@[
                        self.to@[f] as int] <= dist@[u] + self.reduced(p@, f) by {
                        assert(d0[self.to@[f] as int] <= d0[u] + self.reduced(p@, f));
                    }
                }
                assert forall|u: int| 1 <= u < n && #[trigger] dist@[u] < u128::MAX implies {
                    let f = previous@[u] as int;
                    &&& 0 <= f < self.arcs()
                    &&& self.to@[f] == u
                    &&& self.capacity@[f] > 0
                    &&& done@.contains(self.tail(f))
                    &&& dist@[u] == dist@[self.tail(f)] + self.reduced(p@, f)
                    &&& done@.contains(u) ==> rank@[self.tail(f)] < rank@[u]
                } by {
                    if u != t {
                        assert(d0[u] < u128::MAX);
                        let f = previous@[u] as int;
                        assert(done@.contains(self.tail(f)));
                    }
                }
            }
        }
        Ok(())
    }

    /// With no entry left, every vertex is reached along the timeline and its
    /// label is at most its potential's negation.
    proof fn lemma_reach(&self, k: int, sent: int, p: Seq<i128>, dist: Seq<u128>, done: Set<int>, t: int)
        requires
            self.wellformed(),
            self.bounded(k),
            self.carries(sent),
            0 <= sent < k,
            self.priced(p),
            self.falling(p),
            dist.len() == self.n(),
            dist[0] == 0,
            forall|u: int| 0 <= u < self.n() && #[trigger] dist[u] < u128::MAX ==> done.contains(u),
            forall|u: int| #[trigger] done.contains(u) ==> self.relaxed(p, dist, u),
            0 <= t < self.n(),
        ensures
            dist[t] + p[t] <= 0,
        decreases t,
    {
        if t > 0 {
            self.lemma_reach(k, sent, p, dist, done, t - 1);
            self.lemma_falling(k, sent, p);
            assert(self.capacity@[2 * (t - 1)] > 0);
            assert(self.to@[2 * (t - 1)] == t);
            assert(self.tail(2 * (t - 1)) == t - 1);
            assert(dist[t - 1] < u128::MAX);
            assert(self.relaxed(p, dist, t - 1));
        }
    }

    /// The settled set of a search is a finite set of vertices.
    proof fn lemma_searching_basics(
        &self,
        p: Seq<i128>,
        dist: Seq<u128>,
        previous: Seq<usize>,
        rank: Seq<int>,
        done: Set<int>,
        floor: int,
        queue: Seq<Label>,
        cur: int,
    )
        requires
            self.searching(p, dist, previous, rank, done, floor, queue, cur),
        ensures
            done.finite(),
            done.len() <= self.n(),
            dist.len() == self.n(),
            previous.len() == self.n(),
            heap_ok(queue),
            queue.len() > 0 ==> queue[0].1 < self.n(),
    {
        reveal(Network::searching);
        broadcast use group_to_multiset_ensures;

        lemma_int_range(0, self.n());
        lemma_len_subset(done, set_int_range(0, self.n()));
        if queue.len() > 0 {
            assert(queue.contains(queue[0]));
            assert(queue.to_multiset().count(queue[0]) > 0);
        }
    }

    /// Removing a stale entry keeps the search state.
    proof fn lemma_pop_stale(
        &self,
        p: Seq<i128>,
        dist: Seq<u128>,
        previous: Seq<usize>,
        rank: Seq<int>,
        done: Set<int>,
        floor: int,
        q0: Seq<Label>,
        q1: Seq<Label>,
    )
        requires
            self.searching(p, dist, previous, rank, done, floor, q0, self.n()),
            q0.len() > 0,
            heap_ok(q1),
            q1.to_multiset() == q0.to_multiset().remove(q0[0]),
            q0[0].0 != dist[q0[0].1 as int],
        ensures
            self.searching(p, dist, previous, rank, done, floor, q1, self.n()),
    {
        reveal(Network::searching);
        broadcast use group_multiset_axioms;

        let n = self.n();
        let x = q0[0];
        assert forall|y: Label| #[trigger] q1.to_multiset().count(y) > 0 implies {
            &&& y.1 < n
            &&& y.0 < u128::MAX
            &&& y.0 >= dist[y.1 as int]
            &&& y.0 >= floor
            &&& done.contains(y.1 as int) ==> y.0 > dist[y.1 as int]
        } by {
            assert(q0.to_multiset().count(y) > 0);
        }
        assert forall|u: int|
            0 <= u < n && #[trigger] dist[u] < u128::MAX && !done.contains(u) implies q1.to_multiset().count(
            (dist[u], u as usize),
        ) > 0 by {
            assert(q0.to_multiset().count((dist[u], u as usize)) > 0);
        }
        assert forall|u: int| 0 <= u < n implies q1.to_multiset().count((#[trigger] dist[u], u as usize)) <= 1 by {
            assert(q0.to_multiset().count((dist[u], u as usize)) <= 1);
        }
    }

    /// Removing the least entry, when it is current, settles its vertex.
    proof fn lemma_pop_settle(
        &self,
        p: Seq<i128>,
        dist: Seq<u128>,
        previous: Seq<usize>,
        rank: Seq<int>,
        done: Set<int>,
        floor: int,
        q0: Seq<Label>,
        q1: Seq<Label>,
    )
        requires
            self.searching(p, dist, previous, rank, done, floor, q0, self.n()),
            q0.len() > 0,
            heap_ok(q0),
            heap_ok(q1),
            q1.to_multiset() == q0.to_multiset().remove(q0[0]),
            q0[0].0 == dist[q0[0].1 as int],
        ensures
            !done.contains(q0[0].1 as int),
            done.insert(q0[0].1 as int).len() == done.len() + 1,
            self.searching(
                p,
                dist,
                previous,
                rank.update(q0[0].1 as int, done.len() as int),
                done.insert(q0[0].1 as int),
                q0[0].0 as int,
                q1,
                q0[0].1 as int,
            ),
    {
        reveal(Network::searching);
        broadcast use group_multiset_axioms;
        broadcast use group_to_multiset_ensures;

        let n = self.n();
        let x = q0[0];
        let v = x.1 as int;
        let d = x.0;
        assert(q0.contains(q0[0]));
        assert(q0.to_multiset().count(x) > 0);
        let rank2 = rank.update(v, done.len() as int);
        let done2 = done.insert(v);
        let floor2 = d as int;
        assert(!done.contains(v));
        assert(q0.to_multiset().count((dist[v], v as usize)) <= 1);
        assert forall|y: Label| #[trigger] q1.to_multiset().count(y) > 0 implies {
            &&& y.1 < n
            &&& y.0 < u128::MAX
            &&& y.0 >= dist[y.1 as int]
            &&& y.0 >= floor2
            &&& done2.contains(y.1 as int) ==> y.0 > dist[y.1 as int]
        } by {
            assert(q0.to_multiset().count(y) > 0);
            assert(q0.contains(y));
            let i = choose|i: int| 0 <= i < q0.len() && q0[i] == y;
            lemma_root_is_min(q0, i);
        }
        assert forall|u: int|
            0 <= u < n && #[trigger] dist[u] < u128::MAX && !done2.contains(u) implies q1.to_multiset().count(
            (dist[u], u as usize),
        ) > 0 by {
            assert(q0.to_multiset().count((dist[u], u as usize)) > 0);
        }
        assert forall|u: int| 0 <= u < n implies q1.to_multiset().count((#[trigger] dist[u], u as usize)) <= 1 by {
            assert(q0.to_multiset().count((dist[u], u as usize)) <= 1);
        }
        assert forall|u: int| #[trigger] done2.contains(u) implies dist[u] <= floor2 && dist[u] < u128::MAX && 0
            <= rank2[u] < done2.len() by {
            if u != v {
                assert(done.contains(u));
            }
        }
        assert forall|u: int| 1 <= u < n && #[trigger] dist[u] < u128::MAX implies {
            let f = previous[u] as int;
            &&& 0 <= f < self.arcs()
            &&& self.to@[f] == u
            &&& self.capacity@[f] > 0
            &&& done2.contains(self.tail(f))
            &&& dist[u] == dist[self.tail(f)] + self.reduced(p, f)
            &&& done2.contains(u) ==> rank2[self.tail(f)] < rank2[u]
        } by {
            let f = previous[u] as int;
            assert(done.contains(self.tail(f)));
        }
        assert forall|u: int| #[trigger] done2.contains(u) && u != v implies self.relaxed(p, dist, u) by {
            assert(done.contains(u));
        }
        assert forall|u: int| 0 <= u < n implies #[trigger] rank2[u] >= 0 by {
            assert(rank[u] >= 0);
        }
    }

    /// A vertex all of whose listed arcs are relaxed is relaxed.
    proof fn lemma_relaxed_listed(&self, p: Seq<i128>, dist: Seq<u128>, v: int)
        requires
            self.wellformed(),
            0 <= v < self.n(),
            forall|x: int|
                self.offsets@[v] <= x < self.offsets@[v + 1] && #[trigger] self.capacity@[self.adjacent@[x] as int]
                    > 0 ==> dist[self.to@[self.adjacent@[x] as int] as int] <= dist[v] + self.reduced(
                    p,
                    self.adjacent@[x] as int,
                ),
        ensures
            self.relaxed(p, dist, v),
    {
        assert forall|f: int|
            0 <= f < self.arcs() && #[trigger] self.capacity@[f] > 0 && self.tail(f) == v implies dist[self.to@[f] as int]
            <= dist[v] + self.reduced(p, f) by {
            assert(self.listed(f));
            let x = choose|x: int|
                #![trigger self.adjacent@[x]]
                self.offsets@[self.tail(f)] <= x < self.offsets@[self.tail(f) + 1] && self.adjacent@[x] == f;
            assert(self.adjacent@[x] == f);
        }
    }

    /// Once the current vertex is relaxed, no settled vertex is pending.
    proof fn lemma_finish_vertex(
        &self,
        p: Seq<i128>,
        dist: Seq<u128>,
        previous: Seq<usize>,
        rank: Seq<int>,
        done: Set<int>,
        floor: int,
        queue: Seq<Label>,
        v: int,
    )
        requires
            self.searching(p, dist, previous, rank, done, floor, queue, v),
            self.relaxed(p, dist, v),
        ensures
            self.searching(p, dist, previous, rank, done, floor, queue, self.n()),
    {
        reveal(Network::searching);
    }

    /// When the queue runs empty, every vertex is settled and labeled within
    /// its negated potential, and the new potentials are tight on the tree.
    proof fn lemma_search_done(
        &self,
        k: int,
        sent: int,
        p: Seq<i128>,
        dist: Seq<u128>,
        previous: Seq<usize>,
        rank: Seq<int>,
        done: Set<int>,
        floor: int,
        queue: Seq<Label>,
    )
        requires
            self.wellformed(),
            self.bounded(k),
            self.carries(sent),
            0 <= sent < k,
            self.priced(p),
            self.falling(p),
            self.searching(p, dist, previous, rank, done, floor, queue, self.n()),
            queue.len() == 0,
        ensures
            forall|u: int| 0 <= u < self.n() ==> #[trigger] dist[u] + p[u] <= 0,
            forall|u: int| 0 <= u < self.n() ==> #[trigger] self.relaxed(p, dist, u),
            self.tree(Seq::new(self.n() as nat, |u: int| (p[u] + dist[u]) as i128), previous, rank),
    {
        reveal(Network::searching);
        broadcast use group_multiset_axioms;
        broadcast use group_to_multiset_ensures;

        let n = self.n();
        assert(queue.to_multiset() =~= Multiset::empty());
        assert forall|u: int| 0 <= u < n && #[trigger] dist[u] < u128::MAX implies done.contains(u) by {
            if !done.contains(u) {
                assert(queue.to_multiset().count((dist[u], u as usize)) > 0);
            }
        }
        assert forall|u: int| #[trigger] done.contains(u) implies self.relaxed(p, dist, u) by {
        }
        assert forall|u: int| 0 <= u < n implies #[trigger] dist[u] + p[u] <= 0 by {
            self.lemma_reach(k, sent, p, dist, done, u);
        }
        assert forall|u: int| 0 <= u < n implies #[trigger] self.relaxed(p, dist, u) by {
            assert(dist[u] + p[u] <= 0);
            assert(dist[u] < u128::MAX);
        }
        let p2 = Seq::new(n as nat, |u: int| (p[u] + dist[u]) as i128);
        assert forall|u: int| 1 <= u < n implies {
            let e = #[trigger] previous[u] as int;
            &&& 0 <= e < self.arcs()
            &&& self.to@[e] == u
            &&& self.capacity@[e] > 0
            &&& rank[self.tail(e)] < rank[u]
            &&& self.reduced(p2, e) == 0
        } by {
            assert(dist[u] + p[u] <= 0);
            assert(dist[u] < u128::MAX);
            let e = previous[u] as int;
            self.lemma_mate(e);
            assert(done.contains(u));
            let x = self.tail(e);
            assert(dist[x] + p[x] <= 0);
        }
    }

    /// Shortest distances from the first vertex under the reduced costs of
    /// `p`, by Dijkstra's algorithm with a binary heap, with a tight shortest
    /// path tree whose arcs go from earlier to later settled vertices.
    fn search(&self, k: usize, sent: usize, p: &Vec<i128>) -> (r: Result<
        (Vec<u128>, Vec<usize>, Ghost<Seq<int>>),
        IntervalError,
    >)
        requires
            self.wellformed(),
            self.bounded(k as int),
            self.carries(sent as int),
            sent < k,
            self.priced(p@),
            p@[0] == 0,
            forall|u: int| 0 <= u < self.n() && #[trigger] p@[u] < -i128::MAX ==> self.heavy(),
        ensures
            match r {
                Ok((dist, previous, rank)) => {
                    &&& dist.len() == self.n()
                    &&& dist@[0] == 0
                    &&& forall|u: int| 0 <= u < self.n() ==> #[trigger] dist@[u] + p@[u] <= 0
                    &&& forall|u: int| 0 <= u < self.n() ==> #[trigger] self.relaxed(p@, dist@, u)
                    &&& self.tree(
                        Seq::new(self.n() as nat, |u: int| (p@[u] + dist@[u]) as i128),
                        previous@,
                        rank@,
                    )
                },
                Err(err) => err == IntervalError::WeightOverflow && self.heavy(),
            },
    {
        broadcast use group_multiset_axioms;

        proof {
            self.lemma_falling(k as int, sent as int, p@);
        }
        let n = self.offsets.len() - 1;
        let mut dist: Vec<u128> = vec![u128::MAX; n];
        let mut previous: Vec<usize> = vec![usize::MAX; n];
        dist.set(0, 0);
        let mut queue: Vec<Label> = Vec::new();
        proof {
            broadcast use group_to_multiset_ensures;

            assert(queue@.to_multiset() =~= Multiset::empty());
        }
        heap_push(&mut queue, (0u128, 0usize));
        let ghost mut rank: Seq<int> = Seq::new(n as nat, |u: int| 0);
        let ghost mut done: Set<int> = Set::empty();
        let ghost mut floor: int = 0;
        proof {
            assert forall|u: int| 0 <= u < n implies queue@.to_multiset().count((#[trigger] dist@[u], u as usize))
                <= 1 by {
            }
            assert(done.subset_of(set_int_range(0, n as int)));
            reveal(Network::searching);
            assert(self.searching(p@, dist@, previous@, rank, done, floor, queue@, n as int));
        }
        while queue.len() > 0
            invariant
                self.wellformed(),
                self.bounded(k as int),
                self.carries(sent as int),
                sent < k,
                self.priced(p@),
                self.falling(p@),
                forall|u: int| 0 <= u < self.n() && #[trigger] p@[u] < -i128::MAX ==> self.heavy(),
                n == self.n(),
                self.searching(p@, dist@, previous@, rank, done, floor, queue@, n as int),
            decreases n - done.len(), queue.len(),
        {
            proof {
                self.lemma_searching_basics(p@, dist@, previous@, rank, done, floor, queue@, n as int);
            }
            let ghost q0 = queue@;
            let (d, v) = heap_pop(&mut queue);
            if d == dist[v] {
                proof {
                    self.lemma_pop_settle(p@, dist@, previous@, rank, done, floor, q0, queue@);
                    rank = rank.update(v as int, done.len() as int);
                    done = done.insert(v as int);
                    floor = d as int;
                }
                let start = self.offsets[v];
                let end = self.offsets[v + 1];
                let mut q: usize = start;
                while q < end
                    invariant
                        self.wellformed(),
                        self.priced(p@),
                        self.falling(p@),
                        forall|u: int| 0 <= u < self.n() && #[trigger] p@[u] < -i128::MAX ==> self.heavy(),
                        n == self.n(),
                        v < n,
                        start == self.offsets@[v as int],
                        end == self.offsets@[v + 1],
                        start <= q <= end,
                        self.searching(p@, dist@, previous@, rank, done, floor, queue@, v as int),
                        done.contains(v as int),
                        dist@[v as int] == d,
                        d == floor,
                        forall|x: int|
                            start <= x < q && #[trigger] self.capacity@[self.adjacent@[x] as int] > 0 ==> dist@[
                                self.to@[self.adjacent@[x] as int] as int] <= d + self.reduced(
                                p@,
                                self.adjacent@[x] as int,
                            ),
                    decreases end - q,
                {
                    let e = self.adjacent[q];
                    proof {
                        assert(self.offsets@[v as int] <= q < self.offsets@[v + 1]);
                    }
                    let ghost d0 = dist@;
                    match self.relax(
                        k,
                        sent,
                        p,
                        v,
                        d,
                        e,
                        &mut dist,
                        &mut previous,
                        &mut queue,
                        Ghost(rank),
                        Ghost(done),
                        Ghost(floor),
                    ) {
                        Ok(()) => {},
                        Err(err) => {
                            return Err(err);
                        },
                    }
                    proof {
                        assert forall|x: int|
                            start <= x < q + 1 && #[trigger] self.capacity@[self.adjacent@[x] as int] > 0 implies dist@[
                            self.to@[self.adjacent@[x] as int] as int] <= d + self.reduced(
                            p@,
                            self.adjacent@[x] as int,
                        ) by {
                            if x < q {
                                assert(d0[self.to@[self.adjacent@[x] as int] as int] <= d + self.reduced(
                                    p@,
                                    self.adjacent@[x] as int,
                                ));
                            }
                        }
                    }
                    q += 1;
                }
                proof {
                    self.lemma_relaxed_listed(p@, dist@, v as int);
                    self.lemma_finish_vertex(p@, dist@, previous@, rank, done, floor, queue@, v as int);
                    self.lemma_searching_basics(p@, dist@, previous@, rank, done, floor, queue@, n as int);
                }
            } else {
                proof {
                    self.lemma_pop_stale(p@, dist@, previous@, rank, done, floor, q0, queue@);
                }
            }
        }
        proof {
            self.lemma_search_done(k as int, sent as int, p@, dist@, previous@, rank, done, floor, queue@);
        }
        Ok((dist, previous, Ghost(rank)))
    }
}


// ----------------------------------------------------------------------------
// Minimum-cost flow.
// ----------------------------------------------------------------------------

impl Network {
    /// A fresh network holds its original capacities and carries nothing.
    proof fn lemma_fresh(&self, k: int)
        requires
            self.wellformed(),
            self.fresh(k),
        ensures
            self.bounded(k),
            self.carries(0),
    {
        assert forall|t: int| 0 <= t < self.n() - 1 implies #[trigger] self.capacity@[2 * t] + self.capacity@[2 * t
            + 1] == k by {
            assert(self.capacity@[2 * t] == k);
        }
        assert forall|j: int| 0 <= j < self.rows() implies #[trigger] self.capacity@[self.fwd(j)] + self.capacity@[
            self.fwd(j) + 1] == 1 by {
            assert(self.capacity@[self.fwd(j)] == 1);
        }
        assert forall|t: int| 0 <= t < self.n() - 1 implies #[trigger] self.capacity@[2 * t + 1] + self.cover(t)
            == 0 by {
            assert(self.capacity@[2 * t] == k);
            assert forall|j: int| 0 <= j < self.rows() implies #[trigger] self.crossing(t)(j) == 0 by {
                assert(self.capacity@[self.fwd(j)] == 1);
            }
            lemma_isum_ext(self.crossing(t), |j: int| 0, self.rows());
            lemma_isum_zero(self.rows());
        }
    }

    /// Adds the labels of a search to the potentials.
    fn reprice(&self, p: &Vec<i128>, dist: &Vec<u128>) -> (r: Result<Vec<i128>, IntervalError>)
        requires
            self.wellformed(),
            p.len() == self.n(),
            dist.len() == self.n(),
            forall|u: int| 0 <= u < self.n() ==> #[trigger] dist@[u] + p@[u] <= 0,
            forall|u: int| 0 <= u < self.n() && #[trigger] p@[u] < -i128::MAX ==> self.heavy(),
        ensures
            match r {
                Ok(p2) => p2@ == Seq::new(self.n() as nat, |u: int| (p@[u] + dist@[u]) as i128),
                Err(err) => err == IntervalError::WeightOverflow && self.heavy(),
            },
    {
        let n = p.len();
        let mut next: Vec<i128> = Vec::new();
        let mut u: usize = 0;
        while u < n
            invariant
                n == p.len() == dist.len() == self.n(),
                u <= n,
                forall|x: int| 0 <= x < n ==> #[trigger] dist@[x] + p@[x] <= 0,
                forall|x: int| 0 <= x < n && #[trigger] p@[x] < -i128::MAX ==> self.heavy(),
                next@ == Seq::new(u as nat, |x: int| (p@[x] + dist@[x]) as i128),
            decreases n - u,
        {
            if dist[u] > i128::MAX as u128 {
                proof {
                    assert(p@[u as int] < -i128::MAX);
                }
                return Err(IntervalError::WeightOverflow);
            }
            let d = dist[u] as i128;
            let x = match self::add(p[u], d) {
                Ok(x) => x,
                Err(err) => {
                    proof {
                        assert(false);
                    }
                    return Err(err);
                },
            };
            next.push(x);
            u += 1;
            proof {
                assert(next@ =~= Seq::new(u as nat, |x: int| (p@[x] + dist@[x]) as i128));
            }
        }
        Ok(next)
    }

    /// Sends `k` units at minimum cost from the first vertex to the last by
    /// successive shortest paths: potentials from the acyclic fresh network,
    /// then, while demand remains, augmentation along the tight tree path and
    /// a search under reduced costs to reprice. Stops with a weight overflow
    /// when some set of disjoint intervals outweighs `i128::MAX`.
    pub fn solve(&mut self, capacity: usize) -> (r: Result<(), IntervalError>)
        requires
            old(self).wellformed(),
            old(self).fresh(capacity as int),
            capacity >= 1,
        ensures
            final(self).same_shape(old(self)),
            final(self).wellformed(),
            match r {
                Ok(()) => {
                    &&& final(self).bounded(capacity as int)
                    &&& final(self).carries(capacity as int)
                    &&& exists|p: Seq<i128>| #[trigger] final(self).priced(p)
                },
                Err(err) => err == IntervalError::WeightOverflow && old(self).heavy(),
            },
    {
        proof {
            self.lemma_fresh(capacity as int);
        }
        let n = self.offsets.len() - 1;
        let (mut potential, mut previous) = match self.initial_potentials(capacity) {
            Ok(x) => x,
            Err(err) => {
                return Err(err);
            },
        };
        let ghost mut order: Seq<int> = Seq::new(n as nat, |u: int| u);
        let mut sent: usize = 0;
        loop
            invariant_except_break
                sent < capacity,
                self.tree(potential@, previous@, order),
            invariant
                old(self).wellformed(),
                self.same_shape(old(self)),
                self.wellformed(),
                n == self.n(),
                self.bounded(capacity as int),
                self.carries(sent as int),
                sent <= capacity,
                self.priced(potential@),
                potential@[0] == 0,
                forall|u: int| 0 <= u < n ==> #[trigger] potential@[u] <= 0,
                forall|u: int| 0 <= u < n && #[trigger] potential@[u] < -i128::MAX ==> old(self).heavy(),
            ensures
                sent == capacity,
                self.same_shape(old(self)),
                self.wellformed(),
                self.bounded(capacity as int),
                self.carries(sent as int),
                self.priced(potential@),
            decreases capacity - sent,
        {
            let ghost before = *self;
            let amount = self.augment(&previous, capacity, sent, Ghost(potential@), Ghost(order));
            proof {
                before.lemma_same_shape(self);
                old(self).lemma_same_shape(self);
            }
            sent = sent + amount;
            if sent == capacity {
                break;
            }
            let (dist, tree, rank) = match self.search(capacity, sent, &potential) {
                Ok(x) => x,
                Err(err) => {
                    return Err(err);
                },
            };
            let next = match self.reprice(&potential, &dist) {
                Ok(x) => x,
                Err(err) => {
                    return Err(err);
                },
            };
            proof {
                assert forall|e: int| 0 <= e < self.arcs() && #[trigger] self.capacity@[e] > 0 implies self.reduced(
                    next@,
                    e,
                ) >= 0 by {
                    self.lemma_mate(e);
                    assert(self.relaxed(potential@, dist@, self.tail(e)));
                }
                assert forall|u: int| 0 <= u < n implies #[trigger] next@[u] <= 0 by {
                    assert(dist@[u] + potential@[u] <= 0);
                }
                assert forall|u: int| 0 <= u < n && #[trigger] next@[u] < -i128::MAX implies old(self).heavy() by {
                    assert(potential@[u] < -i128::MAX);
                }
                order = rank@;
            }
            potential = next;
            previous = tree;
        }
        Ok(())
    }
}


// ----------------------------------------------------------------------------
// Optimality.
// ----------------------------------------------------------------------------

/// The difference of two sums is the sum of the differences.
proof fn lemma_isum_sub(f: spec_fn(int) -> int, g: spec_fn(int) -> int, h: spec_fn(int) -> int, j: int)
    requires
        forall|i: int| 0 <= i < j ==> #[trigger] h(i) == f(i) - g(i),
    ensures
        isum(h, j) == isum(f, j) - isum(g, j),
{
    lemma_isum_linear(f, g, h, -1, j);
}

impl Network {
    /// Flow on interval `j`: one when the interval is selected.
    pub open spec fn flow(&self, j: int) -> int {
        self.capacity@[self.fwd(j) + 1] as int
    }

    /// Sum of `y` over the intervals that span the gap after vertex `t`.
    pub open spec fn load(&self, y: Seq<int>, t: int) -> int {
        isum(|j: int| if self.first(j) <= t < self.last(j) { y[j] } else { 0 }, self.rows())
    }

    /// Sum of `y` over the first `m` intervals that span the gap after vertex `t`.
    pub open spec fn load_upto(&self, y: Seq<int>, t: int, m: int) -> int {
        isum(|j: int| if self.first(j) <= t < self.last(j) { y[j] } else { 0 }, m)
    }

    /// Total weight of the intervals, each counted `y` times.
    pub open spec fn worth(&self, y: Seq<int>) -> int {
        isum(|j: int| y[j] * self.gain(j), self.rows())
    }

    /// The flows on the intervals.
    pub open spec fn flows(&self) -> Seq<int> {
        Seq::new(self.rows() as nat, |j: int| self.flow(j))
    }

    /// Exchanging the order of summation: potential drops across intervals,
    /// weighted by `d`, sum to the drops across gaps weighted by the load of `d`.
    proof fn lemma_exchange(&self, p: Seq<i128>, d: Seq<int>, m: int)
        requires
            self.wellformed(),
            p.len() == self.n(),
            0 <= m <= self.rows(),
        ensures
            isum(|j: int| d[j] * (p[self.first(j)] - p[self.last(j)]), m) == isum(
                |t: int| (p[t] - p[t + 1]) * self.load_upto(d, t, m),
                self.n() - 1,
            ),
        decreases m,
    {
        let tt = self.n() - 1;
        let pf = |t: int| p[t] as int;
        if m == 0 {
            let f0 = |t: int| (p[t] - p[t + 1]) * self.load_upto(d, t, 0);
            assert forall|t: int| 0 <= t < tt implies #[trigger] f0(t) == 0 by {
                assert(self.load_upto(d, t, 0) == 0);
            }
            lemma_isum_ext(f0, |t: int| 0, tt);
            lemma_isum_zero(tt);
        } else {
            let j = m - 1;
            self.lemma_exchange(p, d, j);
            assert(self.interval_ok(j));
            let a = self.first(j);
            let b = self.last(j);
            let f = |t: int| (p[t] - p[t + 1]) * self.load_upto(d, t, j);
            let g = |t: int| if a <= t < b { pf(t) - pf(t + 1) } else { 0 };
            let h = |t: int| (p[t] - p[t + 1]) * self.load_upto(d, t, m);
            assert forall|t: int| 0 <= t < tt implies #[trigger] h(t) == f(t) + d[j] * g(t) by {
                let x = (p[t] - p[t + 1]) as int;
                let lj = self.load_upto(d, t, j);
                let lm = self.load_upto(d, t, m);
                let c = if a <= t < b { d[j] } else { 0 };
                assert(lm == lj + c);
                assert(x * lm == x * lj + d[j] * (if a <= t < b { x } else { 0 })) by (nonlinear_arith)
                    requires
                        lm == lj + c,
                        c == if a <= t < b { d[j] } else { 0 },
                ;
            }
            lemma_isum_linear(f, g, h, d[j], tt);
            lemma_isum_telescope(pf, a, b, tt);
        }
    }

    /// A minimum-cost flow of value `k` selects intervals of maximum weight
    /// among all selections whose load on every gap is at most `k`: reduced
    /// costs certify it through complementary slackness.
    pub proof fn lemma_optimal(&self, k: int, p: Seq<i128>, y: Seq<int>)
        requires
            self.wellformed(),
            self.bounded(k),
            self.carries(k),
            self.priced(p),
            y.len() == self.rows(),
            forall|j: int| 0 <= j < y.len() ==> #[trigger] y[j] == 0 || y[j] == 1,
            forall|t: int| 0 <= t < self.n() - 1 ==> #[trigger] self.load(y, t) <= k,
        ensures
            self.worth(y) <= self.worth(self.flows()),
    {
        let r = self.rows();
        let tt = self.n() - 1;
        let x = self.flows();
        let d = Seq::new(r as nat, |j: int| y[j] - x[j]);
        let rc = |j: int| p[self.first(j)] - self.gain(j) - p[self.last(j)];
        let drop = |j: int| p[self.first(j)] - p[self.last(j)];
        let gap = |t: int| p[t] - p[t + 1];
        // Each interval: (x - y) * gain == d * rc - d * drop.
        let s1 = |j: int| d[j] * rc(j);
        let sd = |j: int| d[j] * (p[self.first(j)] - p[self.last(j)]);
        let diff = |j: int| (x[j] - y[j]) * self.gain(j);
        assert forall|j: int| 0 <= j < r implies #[trigger] diff(j) == s1(j) - sd(j) by {
            assert(diff(j) == s1(j) - sd(j)) by (nonlinear_arith)
                requires
                    d[j] == y[j] - x[j],
                    rc(j) == p[self.first(j)] - self.gain(j) - p[self.last(j)],
                    diff(j) == (x[j] - y[j]) * self.gain(j),
                    s1(j) == d[j] * rc(j),
                    sd(j) == d[j] * (p[self.first(j)] - p[self.last(j)]),
            ;
        }
        lemma_isum_sub(s1, sd, diff, r);
        // Exchange the sum of drops for a sum over gaps.
        self.lemma_exchange(p, d, r);
        let ld = |t: int| (p[t] - p[t + 1]) * self.load_upto(d, t, r);
        let s2 = |t: int| (p[t] - p[t + 1]) * (self.load(x, t) - self.load(y, t));
        assert forall|t: int| 0 <= t < tt implies #[trigger] ld(t) == 0 - s2(t) by {
            let fy = |j: int| if self.first(j) <= t < self.last(j) { y[j] } else { 0 };
            let fx = |j: int| if self.first(j) <= t < self.last(j) { x[j] } else { 0 };
            let fd = |j: int| if self.first(j) <= t < self.last(j) { d[j] } else { 0 };
            lemma_isum_sub(fy, fx, fd, r);
            assert(self.load_upto(d, t, r) == self.load(y, t) - self.load(x, t));
            assert(ld(t) == 0 - s2(t)) by (nonlinear_arith)
                requires
                    self.load_upto(d, t, r) == self.load(y, t) - self.load(x, t),
                    ld(t) == (p[t] - p[t + 1]) * self.load_upto(d, t, r),
                    s2(t) == (p[t] - p[t + 1]) * (self.load(x, t) - self.load(y, t)),
            ;
        }
        lemma_isum_sub(|t: int| 0, s2, ld, tt);
        lemma_isum_zero(tt);
        // Every term is nonnegative.
        assert forall|j: int| 0 <= j < r implies #[trigger] s1(j) >= 0 by {
            assert(self.interval_ok(j));
            assert(self.capacity@[self.fwd(j)] + self.capacity@[self.fwd(j) + 1] == 1);
            self.lemma_mate(self.fwd(j));
            self.lemma_mate(self.fwd(j) + 1);
            assert(x[j] == self.capacity@[self.fwd(j) + 1]);
            if y[j] == 1 && x[j] == 0 {
                assert(self.capacity@[self.fwd(j)] > 0);
                assert(self.reduced(p, self.fwd(j)) >= 0);
                assert(self.reduced(p, self.fwd(j)) == rc(j));
                assert(d[j] == 1);
                assert(s1(j) >= 0) by (nonlinear_arith)
                    requires
                        d[j] == 1,
                        rc(j) >= 0,
                        s1(j) == d[j] * rc(j),
                ;
            } else if y[j] == 0 && x[j] == 1 {
                assert(self.capacity@[self.fwd(j) + 1] > 0);
                assert(mate(self.fwd(j)) == self.fwd(j) + 1);
                assert(self.reduced(p, self.fwd(j) + 1) >= 0);
                assert(self.reduced(p, self.fwd(j) + 1) == -rc(j));
                assert(d[j] == -1);
                assert(s1(j) >= 0) by (nonlinear_arith)
                    requires
                        d[j] == -1,
                        rc(j) <= 0,
                        s1(j) == d[j] * rc(j),
                ;
            } else {
                assert(d[j] == 0);
                assert(s1(j) == 0) by (nonlinear_arith)
                    requires
                        d[j] == 0,
                        s1(j) == d[j] * rc(j),
                ;
            }
        }
        lemma_isum_nonneg(s1, r);
        assert forall|t: int| 0 <= t < tt implies #[trigger] s2(t) >= 0 by {
            assert(self.to@[2 * t] == t + 1);
            assert(self.capacity@[2 * t] + self.capacity@[2 * t + 1] == k);
            assert(self.capacity@[2 * t + 1] + self.cover(t) == k);
            lemma_isum_ext(self.crossing(t), |j: int| if self.first(j) <= t < self.last(j) { x[j] } else { 0 }, r);
            assert(self.cover(t) == self.load(x, t));
            assert(self.load(y, t) <= k);
            lemma_isum_nonneg(|j: int| if self.first(j) <= t < self.last(j) { y[j] } else { 0 }, r);
            let lx = self.load(x, t);
            let ly = self.load(y, t);
            if lx > ly {
                assert(self.capacity@[2 * t] > 0);
                assert(self.reduced(p, 2 * t) >= 0);
                assert(s2(t) >= 0) by (nonlinear_arith)
                    requires
                        p[t] - p[t + 1] >= 0,
                        lx > ly,
                        s2(t) == (p[t] - p[t + 1]) * (lx - ly),
                ;
            } else if lx < ly {
                assert(self.capacity@[2 * t + 1] > 0);
                assert(self.reduced(p, 2 * t + 1) >= 0);
                assert(s2(t) >= 0) by (nonlinear_arith)
                    requires
                        p[t + 1] - p[t] >= 0,
                        lx < ly,
                        s2(t) == (p[t] - p[t + 1]) * (lx - ly),
                ;
            } else {
                assert(s2(t) == 0) by (nonlinear_arith)
                    requires
                        lx == ly,
                        s2(t) == (p[t] - p[t + 1]) * (lx - ly),
                ;
            }
        }
        lemma_isum_nonneg(s2, tt);
        // Worth difference.
        let wx = |j: int| x[j] * self.gain(j);
        let wy = |j: int| y[j] * self.gain(j);
        assert forall|j: int| 0 <= j < r implies #[trigger] diff(j) == wx(j) - wy(j) by {
            assert(diff(j) == wx(j) - wy(j)) by (nonlinear_arith)
                requires
                    diff(j) == (x[j] - y[j]) * self.gain(j),
                    wx(j) == x[j] * self.gain(j),
                    wy(j) == y[j] * self.gain(j),
            ;
        }
        lemma_isum_sub(|j: int| x[j] * self.gain(j), |j: int| y[j] * self.gain(j), diff, r);
        lemma_isum_ext(|j: int| x[j] * self.gain(j), |j: int| self.flows()[j] * self.gain(j), r);
    }
}


impl Network {
    /// Marks each row of `rows[lo..hi]` as selected exactly when its interval
    /// arc carries flow, leaving other rows of the mask alone.
    pub fn reconstruct(&self, rows: &Vec<Triple>, lo: usize, hi: usize, mask: &mut Vec<bool>)
        requires
            self.wellformed(),
            lo <= hi <= rows.len(),
            self.rows() == hi - lo,
            forall|q: int| lo <= q < hi ==> (#[trigger] rows@[q]).2 < old(mask).len(),
            forall|a: int, b: int| lo <= a < b < hi ==> (#[trigger] rows@[a]).2 != (#[trigger] rows@[b]).2,
        ensures
            final(mask).len() == old(mask).len(),
            forall|j: int|
                0 <= j < hi - lo ==> final(mask)@[(#[trigger] rows@[lo + j]).2 as int] == (self.capacity@[self.fwd(
                    j,
                )] == 0),
            forall|i: int|
                0 <= i < old(mask).len() && (forall|q: int| lo <= q < hi ==> (#[trigger] rows@[q]).2 != i)
                    ==> final(mask)@[i] == old(mask)@[i],
    {
        let mut j: usize = 0;
        while j < hi - lo
            invariant
                self.wellformed(),
                lo <= hi <= rows.len(),
                self.rows() == hi - lo,
                j <= hi - lo,
                mask.len() == old(mask).len(),
                forall|q: int| lo <= q < hi ==> (#[trigger] rows@[q]).2 < old(mask).len(),
                forall|a: int, b: int| lo <= a < b < hi ==> (#[trigger] rows@[a]).2 != (#[trigger] rows@[b]).2,
                forall|x: int|
                    0 <= x < j ==> mask@[(#[trigger] rows@[lo + x]).2 as int] == (self.capacity@[self.fwd(x)]
                        == 0),
                forall|i: int|
                    0 <= i < old(mask).len() && (forall|q: int| lo <= q < lo + j ==> (#[trigger] rows@[q]).2 != i)
                        ==> mask@[i] == old(mask)@[i],
            decreases hi - lo - j,
        {
            let f = self.interval_start + 2 * j;
            let row = rows[lo + j].2;
            mask.set(row, self.capacity[f] == 0);
            proof {
                assert forall|x: int| 0 <= x < j + 1 implies mask@[(#[trigger] rows@[lo + x]).2 as int] == (
                self.capacity@[self.fwd(x)] == 0) by {
                    if x < j {
                        assert(rows@[lo + x].2 != rows@[lo + j].2);
                    }
                }
                assert forall|i: int|
                    0 <= i < old(mask).len() && (forall|q: int| lo <= q < lo + j + 1 ==> (#[trigger] rows@[q]).2
                        != i) implies mask@[i] == old(mask)@[i] by {
                    assert(rows@[lo + j].2 != i);
                }
            }
            j += 1;
        }
    }
}

} // verus!
