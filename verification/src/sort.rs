//! Sorting of keyed rows, binary searches, and sums over sequences.
use vstd::prelude::*;
use vstd::multiset::group_multiset_axioms;
use vstd::seq_lib::group_to_multiset_ensures;
use vstd::seq_lib::lemma_multiset_commutative;
use vstd::seq_lib::to_multiset_build;

verus! {

/// A sort record: a primary key, a secondary key, and a row index.
pub type Triple = (i128, i128, usize);

/// Lexicographic order on records.
pub open spec fn le3(a: Triple, b: Triple) -> bool {
    a.0 < b.0 || (a.0 == b.0 && (a.1 < b.1 || (a.1 == b.1 && a.2 <= b.2)))
}

/// The records are in lexicographic order.
pub open spec fn sorted3(s: Seq<Triple>) -> bool {
    forall|i: int, j: int| 0 <= i < j < s.len() ==> le3(#[trigger] s[i], #[trigger] s[j])
}

/// The values are in nondecreasing order.
pub open spec fn sorted_values(s: Seq<i128>) -> bool {
    forall|i: int, j: int| 0 <= i < j < s.len() ==> #[trigger] s[i] <= #[trigger] s[j]
}

/// Sum of `f` over the elements of `s`.
pub open spec fn seq_sum<A>(s: Seq<A>, f: spec_fn(A) -> int) -> int
    decreases s.len(),
{
    if s.len() == 0 {
        0
    } else {
        seq_sum(s.drop_last(), f) + f(s.last())
    }
}

/// Indicator of a record whose primary key is below `x`.
pub open spec fn below(x: i128) -> spec_fn(Triple) -> int {
    |t: Triple| if t.0 < x { 1int } else { 0int }
}

/// Indicator of a record whose primary key is at most `x`.
pub open spec fn at_most(x: i128) -> spec_fn(Triple) -> int {
    |t: Triple| if t.0 <= x { 1int } else { 0int }
}

fn le3_exec(a: Triple, b: Triple) -> (r: bool)
    ensures
        r == le3(a, b),
{
    a.0 < b.0 || (a.0 == b.0 && (a.1 < b.1 || (a.1 == b.1 && a.2 <= b.2)))
}

proof fn lemma_sorted_push(s: Seq<Triple>, x: Triple)
    requires
        sorted3(s),
        s.len() > 0 ==> le3(s.last(), x),
    ensures
        sorted3(s.push(x)),
{
    let t = s.push(x);
    assert forall|i: int, j: int| 0 <= i < j < t.len() implies le3(#[trigger] t[i], #[trigger] t[j]) by {
        if j == s.len() {
            if i < s.len() - 1 {
                assert(le3(s[i], s[s.len() - 1]));
            }
        } else {
            assert(le3(s[i], s[j]));
        }
    }
}

fn merge(a: Vec<Triple>, b: Vec<Triple>) -> (r: Vec<Triple>)
    requires
        sorted3(a@),
        sorted3(b@),
    ensures
        sorted3(r@),
        r@.to_multiset() == a@.to_multiset().add(b@.to_multiset()),
{
    broadcast use group_to_multiset_ensures, group_multiset_axioms;

    let mut r: Vec<Triple> = Vec::new();
    let mut i: usize = 0;
    let mut j: usize = 0;
    while i < a.len() || j < b.len()
        invariant
            i <= a.len(),
            j <= b.len(),
            sorted3(a@),
            sorted3(b@),
            sorted3(r@),
            r@.to_multiset() == a@.take(i as int).to_multiset().add(b@.take(j as int).to_multiset()),
            r.len() > 0 && i < a.len() ==> le3(r@.last(), a@[i as int]),
            r.len() > 0 && j < b.len() ==> le3(r@.last(), b@[j as int]),
        decreases a.len() + b.len() - i - j,
    {
        if j >= b.len() || (i < a.len() && le3_exec(a[i], b[j])) {
            let x = a[i];
            proof {
                lemma_sorted_push(r@, x);
                assert(a@.take(i + 1) =~= a@.take(i as int).push(x));
                let ma = a@.take(i as int).to_multiset();
                let mb = b@.take(j as int).to_multiset();
                to_multiset_build(r@, x);
                assert(a@.take(i + 1).to_multiset() == a@.take(i as int).push(x).to_multiset());
                to_multiset_build(a@.take(i as int), x);
                assert(a@.take(i + 1).to_multiset() == ma.insert(x));
                assert(ma.insert(x).add(mb) =~= ma.add(mb).insert(x));
                if i + 1 < a.len() {
                    assert(le3(a@[i as int], a@[i + 1]));
                }
            }
            r.push(x);
            i += 1;
        } else {
            let x = b[j];
            proof {
                lemma_sorted_push(r@, x);
                assert(b@.take(j + 1) =~= b@.take(j as int).push(x));
                let ma = a@.take(i as int).to_multiset();
                let mb = b@.take(j as int).to_multiset();
                to_multiset_build(r@, x);
                assert(b@.take(j + 1).to_multiset() == b@.take(j as int).push(x).to_multiset());
                to_multiset_build(b@.take(j as int), x);
                assert(b@.take(j + 1).to_multiset() == mb.insert(x));
                assert(ma.add(mb.insert(x)) =~= ma.add(mb).insert(x));
                if j + 1 < b.len() {
                    assert(le3(b@[j as int], b@[j + 1]));
                }
            }
            r.push(x);
            j += 1;
        }
    }
    proof {
        assert(a@.take(a.len() as int) =~= a@);
        assert(b@.take(b.len() as int) =~= b@);
    }
    r
}

fn sort_range(v: &Vec<Triple>, lo: usize, hi: usize) -> (r: Vec<Triple>)
    requires
        lo <= hi <= v.len(),
    ensures
        sorted3(r@),
        r@.to_multiset() == v@.subrange(lo as int, hi as int).to_multiset(),
    decreases hi - lo,
{
    if hi - lo <= 1 {
        let mut r: Vec<Triple> = Vec::new();
        if hi - lo == 1 {
            r.push(v[lo]);
        }
        proof {
            assert(r@ =~= v@.subrange(lo as int, hi as int));
        }
        r
    } else {
        let mid = lo + (hi - lo) / 2;
        let a = sort_range(v, lo, mid);
        let b = sort_range(v, mid, hi);
        proof {
            assert(v@.subrange(lo as int, hi as int) =~= v@.subrange(lo as int, mid as int)
                + v@.subrange(mid as int, hi as int));
            lemma_multiset_commutative(
                v@.subrange(lo as int, mid as int),
                v@.subrange(mid as int, hi as int),
            );
        }
        merge(a, b)
    }
}

/// Sorts records lexicographically: the result is a permutation of the input
/// in nondecreasing order.
pub fn sort_triples(v: &Vec<Triple>) -> (r: Vec<Triple>)
    ensures
        sorted3(r@),
        r@.to_multiset() == v@.to_multiset(),
        r.len() == v.len(),
{
    broadcast use group_to_multiset_ensures;

    let r = sort_range(v, 0, v.len());
    proof {
        assert(v@.subrange(0, v.len() as int) =~= v@);
        assert(r@.to_multiset().len() == v@.to_multiset().len());
    }
    r
}

/// Number of leading records whose primary key is below `x`.
pub fn count_below(s: &Vec<Triple>, x: i128) -> (p: usize)
    requires
        sorted3(s@),
    ensures
        p <= s.len(),
        forall|k: int| 0 <= k < p ==> #[trigger] s@[k].0 < x,
        forall|k: int| p <= k < s.len() ==> #[trigger] s@[k].0 >= x,
{
    let mut lo: usize = 0;
    let mut hi: usize = s.len();
    while lo < hi
        invariant
            lo <= hi <= s.len(),
            sorted3(s@),
            forall|k: int| 0 <= k < lo ==> #[trigger] s@[k].0 < x,
            forall|k: int| hi <= k < s.len() ==> #[trigger] s@[k].0 >= x,
        decreases hi - lo,
    {
        let mid = lo + (hi - lo) / 2;
        if s[mid].0 < x {
            assert forall|k: int| 0 <= k < mid + 1 implies #[trigger] s@[k].0 < x by {
                if k < mid {
                    assert(le3(s@[k], s@[mid as int]));
                }
            }
            lo = mid + 1;
        } else {
            assert forall|k: int| mid <= k < s.len() implies #[trigger] s@[k].0 >= x by {
                if k > mid {
                    assert(le3(s@[mid as int], s@[k]));
                }
            }
            hi = mid;
        }
    }
    lo
}

/// Number of leading records whose primary key is at most `x`.
pub fn count_at_most(s: &Vec<Triple>, x: i128) -> (p: usize)
    requires
        sorted3(s@),
    ensures
        p <= s.len(),
        forall|k: int| 0 <= k < p ==> #[trigger] s@[k].0 <= x,
        forall|k: int| p <= k < s.len() ==> #[trigger] s@[k].0 > x,
{
    let mut lo: usize = 0;
    let mut hi: usize = s.len();
    while lo < hi
        invariant
            lo <= hi <= s.len(),
            sorted3(s@),
            forall|k: int| 0 <= k < lo ==> #[trigger] s@[k].0 <= x,
            forall|k: int| hi <= k < s.len() ==> #[trigger] s@[k].0 > x,
        decreases hi - lo,
    {
        let mid = lo + (hi - lo) / 2;
        if s[mid].0 <= x {
            assert forall|k: int| 0 <= k < mid + 1 implies #[trigger] s@[k].0 <= x by {
                if k < mid {
                    assert(le3(s@[k], s@[mid as int]));
                }
            }
            lo = mid + 1;
        } else {
            assert forall|k: int| mid <= k < s.len() implies #[trigger] s@[k].0 > x by {
                if k > mid {
                    assert(le3(s@[mid as int], s@[k]));
                }
            }
            hi = mid;
        }
    }
    lo
}

/// Number of leading values below `x` in a nondecreasing vector.
pub fn count_values_below(s: &Vec<i128>, x: i128) -> (p: usize)
    requires
        sorted_values(s@),
    ensures
        p <= s.len(),
        forall|k: int| 0 <= k < p ==> #[trigger] s@[k] < x,
        forall|k: int| p <= k < s.len() ==> #[trigger] s@[k] >= x,
{
    let mut lo: usize = 0;
    let mut hi: usize = s.len();
    while lo < hi
        invariant
            lo <= hi <= s.len(),
            sorted_values(s@),
            forall|k: int| 0 <= k < lo ==> #[trigger] s@[k] < x,
            forall|k: int| hi <= k < s.len() ==> #[trigger] s@[k] >= x,
        decreases hi - lo,
    {
        let mid = lo + (hi - lo) / 2;
        if s[mid] < x {
            assert forall|k: int| 0 <= k < mid + 1 implies #[trigger] s@[k] < x by {
                if k < mid {
                    assert(s@[k] <= s@[mid as int]);
                }
            }
            lo = mid + 1;
        } else {
            assert forall|k: int| mid <= k < s.len() implies #[trigger] s@[k] >= x by {
                if k > mid {
                    assert(s@[mid as int] <= s@[k]);
                }
            }
            hi = mid;
        }
    }
    lo
}

/// Summing over a concatenation adds the two sums.
pub proof fn lemma_seq_sum_append<A>(a: Seq<A>, b: Seq<A>, f: spec_fn(A) -> int)
    ensures
        seq_sum(a + b, f) == seq_sum(a, f) + seq_sum(b, f),
    decreases b.len(),
{
    if b.len() == 0 {
        assert(a + b =~= a);
    } else {
        lemma_seq_sum_append(a, b.drop_last(), f);
        assert((a + b).drop_last() =~= a + b.drop_last());
    }
}

/// Removing one element removes its term from the sum.
pub proof fn lemma_seq_sum_remove<A>(s: Seq<A>, k: int, f: spec_fn(A) -> int)
    requires
        0 <= k < s.len(),
    ensures
        seq_sum(s, f) == seq_sum(s.remove(k), f) + f(s[k]),
{
    let pre = s.take(k);
    let post = s.skip(k + 1);
    assert(s =~= pre.push(s[k]) + post);
    assert(s.remove(k) =~= pre + post);
    lemma_seq_sum_append(pre.push(s[k]), post, f);
    lemma_seq_sum_append(pre, post, f);
    assert(pre.push(s[k]).drop_last() =~= pre);
}

/// Sequences with the same multiset have the same sum.
pub proof fn lemma_seq_sum_multiset<A>(s: Seq<A>, t: Seq<A>, f: spec_fn(A) -> int)
    requires
        s.to_multiset() == t.to_multiset(),
    ensures
        seq_sum(s, f) == seq_sum(t, f),
    decreases s.len(),
{
    broadcast use group_to_multiset_ensures, group_multiset_axioms;

    if s.len() == 0 {
        assert(t.to_multiset().len() == 0);
        assert(t.len() == 0);
    } else {
        let x = s.last();
        assert(s =~= s.drop_last().push(x));
        assert(s.to_multiset().count(x) > 0);
        assert(t.contains(x));
        let k = choose|k: int| 0 <= k < t.len() && t[k] == x;
        assert(t.remove(k).to_multiset() =~= t.to_multiset().remove(x));
        assert(s.drop_last().to_multiset() =~= s.to_multiset().remove(x));
        lemma_seq_sum_multiset(s.drop_last(), t.remove(k), f);
        lemma_seq_sum_remove(t, k, f);
    }
}

/// A sum of an indicator that holds exactly on a prefix of length `p` is `p`.
pub proof fn lemma_seq_sum_prefix<A>(s: Seq<A>, f: spec_fn(A) -> int, p: int)
    requires
        0 <= p <= s.len(),
        forall|k: int| 0 <= k < p ==> f(#[trigger] s[k]) == 1,
        forall|k: int| p <= k < s.len() ==> f(#[trigger] s[k]) == 0,
    ensures
        seq_sum(s, f) == p,
    decreases s.len(),
{
    if s.len() > 0 {
        let t = s.drop_last();
        if p == s.len() {
            assert(f(s[s.len() - 1]) == 1);
            lemma_seq_sum_prefix(t, f, p - 1);
        } else {
            assert(f(s[s.len() - 1]) == 0);
            lemma_seq_sum_prefix(t, f, p);
        }
    }
}

/// Sorting records whose row indices are strictly increasing keeps every
/// record and keeps the row indices distinct.
pub proof fn lemma_sorted_rows_distinct(t: Seq<Triple>, u: Seq<Triple>)
    requires
        t.to_multiset() == u.to_multiset(),
        forall|a: int, b: int| 0 <= a < b < u.len() ==> (#[trigger] u[a]).2 < (#[trigger] u[b]).2,
    ensures
        t.len() == u.len(),
        forall|p: int| 0 <= p < t.len() ==> u.contains(#[trigger] t[p]),
        forall|p: int, q: int| 0 <= p < q < t.len() ==> (#[trigger] t[p]).2 != (#[trigger] t[q]).2,
{
    broadcast use group_to_multiset_ensures, group_multiset_axioms;

    assert(t.to_multiset().len() == u.to_multiset().len());
    assert(t.len() == t.to_multiset().len());
    assert(u.len() == u.to_multiset().len());
    assert forall|p: int| 0 <= p < t.len() implies u.contains(#[trigger] t[p]) by {
        assert(t.contains(t[p]));
        assert(t.to_multiset().count(t[p]) > 0);
    }
    assert(u.no_duplicates()) by {
        assert forall|a: int, b: int| 0 <= a < u.len() && 0 <= b < u.len() && a != b implies u[a]
            != u[b] by {
            if a < b {
                assert(u[a].2 < u[b].2);
            } else {
                assert(u[b].2 < u[a].2);
            }
        }
    }
    u.lemma_multiset_has_no_duplicates();
    assert forall|x: Triple| t.to_multiset().contains(x) implies t.to_multiset().count(x) == 1 by {
    }
    t.lemma_multiset_has_no_duplicates_conv();
    assert forall|p: int, q: int| 0 <= p < q < t.len() implies (#[trigger] t[p]).2 != (
    #[trigger] t[q]).2 by {
        if t[p].2 == t[q].2 {
            let a = choose|a: int| 0 <= a < u.len() && u[a] == t[p];
            let b = choose|b: int| 0 <= b < u.len() && u[b] == t[q];
            if a < b {
                assert(u[a].2 < u[b].2);
            } else if b < a {
                assert(u[b].2 < u[a].2);
            }
            assert(t[p] == t[q]);
        }
    }
}

/// Two sequences of records in lexicographic order that hold the same records
/// are equal: sorting has exactly one result.
pub proof fn lemma_sorted_unique(a: Seq<Triple>, b: Seq<Triple>)
    requires
        sorted3(a),
        sorted3(b),
        a.to_multiset() == b.to_multiset(),
    ensures
        a == b,
    decreases a.len(),
{
    broadcast use group_to_multiset_ensures, group_multiset_axioms;

    assert(a.len() == a.to_multiset().len());
    assert(b.len() == b.to_multiset().len());
    if a.len() > 0 {
        let n = a.len() - 1;
        let x = a[n];
        let y = b[n];
        vstd::seq_lib::to_multiset_contains(a, y);
        vstd::seq_lib::to_multiset_contains(b, y);
        vstd::seq_lib::to_multiset_contains(a, x);
        vstd::seq_lib::to_multiset_contains(b, x);
        assert(b.contains(y));
        assert(a.contains(y));
        assert(b.contains(x));
        let i = choose|i: int| 0 <= i < a.len() && a[i] == y;
        let j = choose|j: int| 0 <= j < b.len() && b[j] == x;
        if i < n {
            assert(le3(a[i], a[n]));
        }
        if j < n {
            assert(le3(b[j], b[n]));
        }
        assert(x == y);
        let a0 = a.drop_last();
        let b0 = b.drop_last();
        assert(a =~= a0.push(x));
        assert(b =~= b0.push(x));
        vstd::seq_lib::to_multiset_build(a0, x);
        vstd::seq_lib::to_multiset_build(b0, x);
        assert(a0.to_multiset() =~= a.to_multiset().remove(x));
        assert(b0.to_multiset() =~= b.to_multiset().remove(x));
        assert(sorted3(a0)) by {
            assert forall|p: int, q: int| 0 <= p < q < a0.len() implies le3(#[trigger] a0[p], #[trigger] a0[q]) by {
                assert(a0[p] == a[p] && a0[q] == a[q]);
            }
        }
        assert(sorted3(b0)) by {
            assert forall|p: int, q: int| 0 <= p < q < b0.len() implies le3(#[trigger] b0[p], #[trigger] b0[q]) by {
                assert(b0[p] == b[p] && b0[q] == b[q]);
            }
        }
        lemma_sorted_unique(a0, b0);
    } else {
        assert(a =~= b);
    }
}

/// Lexicographic order on records, as a relation.
pub open spec fn le3_order() -> spec_fn(Triple, Triple) -> bool {
    |a: Triple, b: Triple| le3(a, b)
}

/// The records of `v` in lexicographic order.
pub open spec fn sorted_of(v: Seq<Triple>) -> Seq<Triple> {
    v.sort_by(le3_order())
}

/// `sorted_of` sorts: its result is in order and holds the same records.
pub proof fn lemma_sorted_of(v: Seq<Triple>)
    ensures
        sorted3(sorted_of(v)),
        sorted_of(v).to_multiset() == v.to_multiset(),
{
    let r = le3_order();
    assert(vstd::relations::total_ordering(r)) by {
        assert forall|a: Triple, b: Triple, c: Triple| #[trigger] r(a, b) && #[trigger] r(b, c) implies r(a, c) by {}
        assert forall|a: Triple, b: Triple| #[trigger] r(a, b) && #[trigger] r(b, a) implies a == b by {}
        assert forall|a: Triple| #[trigger] r(a, a) by {}
        assert forall|a: Triple, b: Triple| #[trigger] r(a, b) || #[trigger] r(b, a) by {}
    }
    v.lemma_sort_by_ensures(r);
    assert forall|i: int, j: int| 0 <= i < j < sorted_of(v).len() implies le3(
        #[trigger] sorted_of(v)[i],
        #[trigger] sorted_of(v)[j],
    ) by {
        assert(r(sorted_of(v)[i], sorted_of(v)[j]));
    }
}

/// Applying a function to the items of two sequences with the same items
/// gives two sequences with the same items.
pub proof fn lemma_map_same_items<A, B>(a: Seq<A>, b: Seq<A>, f: spec_fn(A) -> B)
    requires
        a.to_multiset() == b.to_multiset(),
    ensures
        a.map_values(f).to_multiset() == b.map_values(f).to_multiset(),
    decreases a.len(),
{
    broadcast use group_to_multiset_ensures, group_multiset_axioms;

    assert(a.len() == a.to_multiset().len());
    assert(b.len() == b.to_multiset().len());
    if a.len() == 0 {
        assert(a.map_values(f) =~= b.map_values(f));
    } else {
        let x = a.last();
        let a0 = a.drop_last();
        assert(a =~= a0.push(x));
        vstd::seq_lib::to_multiset_build(a0, x);
        vstd::seq_lib::to_multiset_contains(a, x);
        vstd::seq_lib::to_multiset_contains(b, x);
        assert(a.contains(x)) by {
            assert(a[a.len() - 1] == x);
        }
        let i = choose|i: int| 0 <= i < b.len() && b[i] == x;
        let b0 = b.remove(i);
        vstd::seq_lib::to_multiset_remove(b, i);
        assert(a0.to_multiset() =~= a.to_multiset().remove(x));
        lemma_map_same_items(a0, b0, f);
        assert(a.map_values(f) =~= a0.map_values(f).push(f(x)));
        vstd::seq_lib::to_multiset_build(a0.map_values(f), f(x));
        assert(b.map_values(f).remove(i) =~= b0.map_values(f));
        vstd::seq_lib::to_multiset_remove(b.map_values(f), i);
        vstd::seq_lib::to_multiset_contains(b.map_values(f), f(x));
        assert(b.map_values(f).contains(f(x))) by {
            assert(b.map_values(f)[i] == f(x));
        }
        assert(b.map_values(f).to_multiset() =~= b0.map_values(f).to_multiset().insert(f(x)));
    }
}

} // verus!
