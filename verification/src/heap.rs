//! A binary min-heap kept in a vector, over any totally preordered item.
use vstd::prelude::*;
use vstd::multiset::group_multiset_axioms;
use vstd::seq_lib::group_to_multiset_ensures;
use vstd::seq_lib::to_multiset_update;

verus! {

/// An item with a total preorder, compared by `le`.
pub trait HeapItem: Sized {
    /// The item comes no later than `other`.
    spec fn le(self, other: Self) -> bool;

    /// The item comes strictly before `other`.
    fn precedes(&self, other: &Self) -> (r: bool)
        ensures
            r == !other.le(*self),
    ;

    /// Any two items are comparable.
    proof fn lemma_total(a: Self, b: Self)
        ensures
            a.le(b) || b.le(a),
    ;

    /// The order is transitive.
    proof fn lemma_trans(a: Self, b: Self, c: Self)
        requires
            a.le(b),
            b.le(c),
        ensures
            a.le(c),
    ;
}

/// A lane entry: the latest end on a lane, and the lane.
pub type Entry = (i128, u32);

/// Lexicographic order on lane entries.
pub open spec fn entry_le(a: Entry, b: Entry) -> bool {
    a.0 < b.0 || (a.0 == b.0 && a.1 <= b.1)
}

impl HeapItem for (i128, u32) {
    open spec fn le(self, other: Self) -> bool {
        entry_le(self, other)
    }

    fn precedes(&self, other: &Self) -> (r: bool) {
        self.0 < other.0 || (self.0 == other.0 && self.1 < other.1)
    }

    proof fn lemma_total(a: Self, b: Self) {
    }

    proof fn lemma_trans(a: Self, b: Self, c: Self) {
    }
}

/// A search entry: a tentative distance, and the vertex.
pub type Label = (u128, usize);

impl HeapItem for (u128, usize) {
    open spec fn le(self, other: Self) -> bool {
        self.0 < other.0 || (self.0 == other.0 && self.1 <= other.1)
    }

    fn precedes(&self, other: &Self) -> (r: bool) {
        self.0 < other.0 || (self.0 == other.0 && self.1 < other.1)
    }

    proof fn lemma_total(a: Self, b: Self) {
    }

    proof fn lemma_trans(a: Self, b: Self, c: Self) {
    }
}

/// Every item is at least its parent.
pub open spec fn heap_ok<T: HeapItem>(h: Seq<T>) -> bool {
    forall|i: int| 0 < i < h.len() ==> (#[trigger] h[(i - 1) / 2]).le(h[i])
}

/// The root is a least item of a heap.
pub proof fn lemma_root_is_min<T: HeapItem>(h: Seq<T>, j: int)
    requires
        heap_ok(h),
        0 <= j < h.len(),
    ensures
        h[0].le(h[j]),
    decreases j,
{
    if j > 0 {
        let p = (j - 1) / 2;
        assert(h[p].le(h[j]));
        lemma_root_is_min(h, p);
        T::lemma_trans(h[0], h[p], h[j]);
    } else {
        T::lemma_total(h[0], h[0]);
    }
}

proof fn lemma_swap_multiset<T>(s: Seq<T>, i: int, j: int)
    requires
        0 <= i < s.len(),
        0 <= j < s.len(),
    ensures
        s.update(i, s[j]).update(j, s[i]).to_multiset() == s.to_multiset(),
{
    broadcast use group_multiset_axioms;

    let t = s.update(i, s[j]);
    to_multiset_update(s, i, s[j]);
    to_multiset_update(t, j, s[i]);
    if i == j {
        assert(t.update(j, s[i]) =~= s);
    } else {
        assert(t[j] == s[j]);
        vstd::seq_lib::to_multiset_contains(s, s[j]);
        vstd::seq_lib::to_multiset_contains(s, s[i]);
        assert(s.contains(s[j]));
        assert(s.contains(s[i]));
        assert(s.to_multiset().insert(s[j]).remove(s[i]).insert(s[i]).remove(s[j]) =~= s.to_multiset());
    }
}

fn swap_items<T: HeapItem + Copy>(h: &mut Vec<T>, i: usize, j: usize)
    requires
        i < old(h).len(),
        j < old(h).len(),
    ensures
        final(h)@ == old(h)@.update(i as int, old(h)@[j as int]).update(j as int, old(h)@[i as int]),
        final(h)@.to_multiset() == old(h)@.to_multiset(),
{
    proof {
        lemma_swap_multiset(h@, i as int, j as int);
    }
    let a = h[i];
    let b = h[j];
    h.set(i, b);
    h.set(j, a);
}

/// Restores the heap after the item at `k` may have become too small.
fn sift_up<T: HeapItem + Copy>(h: &mut Vec<T>, k: usize)
    requires
        k < old(h).len(),
        forall|i: int| 0 < i < old(h).len() && i != k ==> (#[trigger] old(h)@[(i - 1) / 2]).le(old(h)@[i]),
        k > 0 ==> forall|c: int| 0 < c < old(h).len() && (c - 1) / 2 == k ==> old(h)@[(k - 1) / 2].le(
            #[trigger] old(h)@[c],
        ),
    ensures
        heap_ok(final(h)@),
        final(h)@.to_multiset() == old(h)@.to_multiset(),
        final(h)@.len() == old(h)@.len(),
{
    let mut k = k;
    while k > 0 && h[k].precedes(&h[(k - 1) / 2])
        invariant
            k < h.len(),
            h@.to_multiset() == old(h)@.to_multiset(),
            h@.len() == old(h)@.len(),
            forall|i: int| 0 < i < h.len() && i != k ==> (#[trigger] h@[(i - 1) / 2]).le(h@[i]),
            k > 0 ==> forall|c: int| 0 < c < h.len() && (c - 1) / 2 == k ==> h@[(k - 1) / 2].le(
                #[trigger] h@[c],
            ),
        decreases k,
    {
        let p = (k - 1) / 2;
        let ghost before = h@;
        proof {
            T::lemma_total(before[k as int], before[p as int]);
        }
        swap_items(h, k, p);
        proof {
            assert forall|i: int| 0 < i < h.len() && i != p implies (#[trigger] h@[(i - 1) / 2]).le(
                h@[i],
            ) by {
                if i == k {
                } else if (i - 1) / 2 == k {
                    assert(before[(k - 1) / 2].le(before[i]));
                    T::lemma_trans(before[k as int], before[p as int], before[i]);
                } else if (i - 1) / 2 == p {
                    assert(before[p as int].le(before[i]));
                    T::lemma_trans(before[k as int], before[p as int], before[i]);
                } else if i != p {
                    assert(before[(i - 1) / 2].le(before[i]));
                }
            }
            if p > 0 {
                assert forall|c: int| 0 < c < h.len() && (c - 1) / 2 == p implies h@[(p - 1) / 2].le(
                    #[trigger] h@[c],
                ) by {
                    assert(before[(p - 1) / 2].le(before[p as int]));
                    if c != k {
                        assert(before[p as int].le(before[c]));
                        T::lemma_trans(before[(p - 1) / 2], before[p as int], before[c]);
                    }
                }
            }
        }
        k = p;
    }
}

/// Restores the heap after the item at `k` may have become too large.
fn sift_down<T: HeapItem + Copy>(h: &mut Vec<T>, k: usize)
    requires
        k < old(h).len(),
        forall|i: int| 0 < i < old(h).len() && (i - 1) / 2 != k ==> (#[trigger] old(h)@[(i - 1)
            / 2]).le(old(h)@[i]),
        k > 0 ==> forall|c: int| 0 < c < old(h).len() && (c - 1) / 2 == k ==> old(h)@[(k - 1) / 2].le(
            #[trigger] old(h)@[c],
        ),
    ensures
        heap_ok(final(h)@),
        final(h)@.to_multiset() == old(h)@.to_multiset(),
        final(h)@.len() == old(h)@.len(),
{
    let n = h.len();
    let mut k = k;
    loop
        invariant
            n == h.len(),
            k < n,
            h@.to_multiset() == old(h)@.to_multiset(),
            h@.len() == old(h)@.len(),
            forall|i: int| 0 < i < h.len() && (i - 1) / 2 != k ==> (#[trigger] h@[(i - 1) / 2]).le(
                h@[i],
            ),
            k > 0 ==> forall|c: int| 0 < c < h.len() && (c - 1) / 2 == k ==> h@[(k - 1) / 2].le(
                #[trigger] h@[c],
            ),
        ensures
            heap_ok(h@),
            h@.to_multiset() == old(h)@.to_multiset(),
            h@.len() == old(h)@.len(),
        decreases n - k,
    {
        if n < 2 || k > (n - 2) / 2 {
            proof {
                assert forall|i: int| 0 < i < h.len() implies (#[trigger] h@[(i - 1) / 2]).le(h@[i]) by {
                    assert((i - 1) / 2 != k);
                }
            }
            break;
        }
        let left = 2 * k + 1;
        let right = left + 1;
        let m = if right < n && h[right].precedes(&h[left]) {
            right
        } else {
            left
        };
        proof {
            T::lemma_total(h@[m as int], h@[k as int]);
            if right < n {
                T::lemma_total(h@[right as int], h@[left as int]);
            }
        }
        if !h[m].precedes(&h[k]) {
            proof {
                assert forall|i: int| 0 < i < h.len() implies (#[trigger] h@[(i - 1) / 2]).le(h@[i]) by {
                    if (i - 1) / 2 == k {
                        assert(i == left || i == right);
                        if i != m {
                            T::lemma_trans(h@[k as int], h@[m as int], h@[i]);
                        }
                    }
                }
            }
            break;
        }
        let ghost before = h@;
        swap_items(h, k, m);
        proof {
            assert forall|i: int| 0 < i < h.len() && (i - 1) / 2 != m implies (#[trigger] h@[(i - 1)
                / 2]).le(h@[i]) by {
                if i == m {
                } else if (i - 1) / 2 == k {
                    assert(i == left || i == right);
                } else if i == k {
                    assert(before[(k - 1) / 2].le(before[m as int]));
                } else {
                    assert(before[(i - 1) / 2].le(before[i]));
                }
            }
            assert forall|c: int| 0 < c < h.len() && (c - 1) / 2 == m implies h@[(m - 1) / 2].le(
                #[trigger] h@[c],
            ) by {
                assert(before[m as int].le(before[c]));
            }
        }
        k = m;
    }
}

/// Adds an item to the heap.
pub fn heap_push<T: HeapItem + Copy>(h: &mut Vec<T>, x: T)
    requires
        heap_ok(old(h)@),
    ensures
        heap_ok(final(h)@),
        final(h)@.to_multiset() == old(h)@.to_multiset().insert(x),
        final(h)@.len() == old(h)@.len() + 1,
{
    broadcast use group_to_multiset_ensures;

    let ghost before = h@;
    h.push(x);
    let k = h.len() - 1;
    proof {
        assert(h@ == before.push(x));
        if k > 0 {
            assert forall|c: int| 0 < c < h.len() && (c - 1) / 2 == k implies h@[(k - 1) / 2].le(
                #[trigger] h@[c],
            ) by {
                assert(c > k);
            }
        }
    }
    sift_up(h, k);
}

/// Replaces the root of a non-empty heap with an item.
pub fn heap_replace_root<T: HeapItem + Copy>(h: &mut Vec<T>, x: T)
    requires
        heap_ok(old(h)@),
        0 < old(h).len(),
    ensures
        heap_ok(final(h)@),
        final(h)@.to_multiset() == old(h)@.to_multiset().insert(x).remove(old(h)@[0]),
        final(h)@.len() == old(h)@.len(),
{
    let ghost before = h@;
    h.set(0, x);
    proof {
        to_multiset_update(before, 0, x);
        assert forall|i: int| 0 < i < h.len() && (i - 1) / 2 != 0 implies (#[trigger] h@[(i - 1)
            / 2]).le(h@[i]) by {
            assert(before[(i - 1) / 2].le(before[i]));
        }
    }
    sift_down(h, 0);
}

/// Removes and returns a least item of a non-empty heap.
pub fn heap_pop<T: HeapItem + Copy>(h: &mut Vec<T>) -> (x: T)
    requires
        heap_ok(old(h)@),
        0 < old(h).len(),
    ensures
        x == old(h)@[0],
        heap_ok(final(h)@),
        final(h)@.to_multiset() == old(h)@.to_multiset().remove(x),
        final(h)@.len() == old(h)@.len() - 1,
{
    broadcast use group_to_multiset_ensures;
    broadcast use group_multiset_axioms;

    let ghost before = h@;
    let top = h[0];
    let last = h.pop().unwrap();
    proof {
        assert(before == h@.push(last));
        assert(before.drop_last() == h@);
    }
    if h.len() > 0 {
        proof {
            assert forall|i: int| 0 < i < h.len() implies (#[trigger] h@[(i - 1) / 2]).le(h@[i]) by {
                assert(before[(i - 1) / 2].le(before[i]));
            }
            assert(h@[0] == top);
            vstd::seq_lib::to_multiset_contains(h@, top);
            assert(h@.contains(h@[0]));
        }
        heap_replace_root(h, last);
        proof {
            assert(h@.to_multiset() =~= before.to_multiset().remove(top));
        }
    } else {
        proof {
            assert(h@.to_multiset() =~= before.to_multiset().remove(top));
        }
    }
    top
}

} // verus!
