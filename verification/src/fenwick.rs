//! A reversed Fenwick tree answering suffix minima of optional records.
use vstd::prelude::*;

verus! {

/// An optional record `(cost, count, tie)`, ordered lexicographically, where
/// `None` is worse than every record.
pub type Best = Option<(i128, usize, usize)>;

/// Lexicographic order on records.
pub open spec fn lex_le(a: (i128, usize, usize), b: (i128, usize, usize)) -> bool {
    a.0 < b.0 || (a.0 == b.0 && (a.1 < b.1 || (a.1 == b.1 && a.2 <= b.2)))
}

/// `a` is at least as good as `b`.
pub open spec fn best_le(a: Best, b: Best) -> bool {
    match b {
        None => true,
        Some(y) => match a {
            None => false,
            Some(x) => lex_le(x, y),
        },
    }
}

/// The better of two optional records; the first on a tie.
pub open spec fn better_spec(a: Best, b: Best) -> Best {
    match a {
        None => b,
        Some(x) => match b {
            None => a,
            Some(y) => if lex_le(x, y) {
                a
            } else {
                b
            },
        },
    }
}

/// The best record among `vals[lo..hi]`.
pub open spec fn seg_min(vals: Seq<Best>, lo: int, hi: int) -> Best
    decreases hi - lo,
{
    if hi <= lo {
        None
    } else {
        better_spec(seg_min(vals, lo, hi - 1), vals[hi - 1])
    }
}

/// Returns the better of two optional records, the first on a tie.
pub fn better(a: Best, b: Best) -> (r: Best)
    ensures
        r == better_spec(a, b),
{
    match a {
        None => b,
        Some(x) => match b {
            None => a,
            Some(y) => {
                if x.0 < y.0 || (x.0 == y.0 && (x.1 < y.1 || (x.1 == y.1 && x.2 <= y.2))) {
                    a
                } else {
                    b
                }
            },
        },
    }
}

fn same_best(a: Best, b: Best) -> (r: bool)
    ensures
        r == (a == b),
{
    match a {
        None => b.is_none(),
        Some(x) => match b {
            None => false,
            Some(y) => x.0 == y.0 && x.1 == y.1 && x.2 == y.2,
        },
    }
}

pub proof fn lemma_better_props(a: Best, b: Best, c: Best)
    ensures
        better_spec(better_spec(a, b), c) == better_spec(a, better_spec(b, c)),
        better_spec(a, b) == better_spec(b, a),
        best_le(better_spec(a, b), a),
        best_le(better_spec(a, b), b),
        better_spec(a, None) == a,
        best_le(a, a),
        best_le(a, b) && best_le(b, c) ==> best_le(a, c),
        best_le(a, b) <==> better_spec(a, b) == a,
        better_spec(a, b) == a || better_spec(a, b) == b,
{
}

/// The lowest set bit of `i`.
pub open spec fn lowbit(i: u64) -> u64 {
    i & !((i - 1) as u64)
}

proof fn lemma_lowbit_basics(i: u64)
    requires
        i > 0,
    ensures
        0 < lowbit(i) <= i,
        i & ((i - 1) as u64) == i - lowbit(i),
{
    assert(0 < i & !((i - 1) as u64) <= i) by (bit_vector)
        requires
            i > 0,
    ;
    assert(i & ((i - 1) as u64) == i - (i & !((i - 1) as u64))) by (bit_vector)
        requires
            i > 0,
    ;
}

proof fn lemma_lowbit_next(i: u64, k: u64)
    requires
        0 < i < k,
        k - lowbit(k) < i,
        k < 0x4000_0000_0000_0000u64,
    ensures
        i + lowbit(i) <= k,
{
    assert(i + (i & !((i - 1) as u64)) <= k) by (bit_vector)
        requires
            0 < i < k,
            k - (k & !((k - 1) as u64)) < i,
            k < 0x4000_0000_0000_0000u64,
    ;
}

proof fn lemma_lowbit_parent(i: u64)
    requires
        0 < i < 0x4000_0000_0000_0000u64,
    ensures
        (i + lowbit(i)) as u64 - lowbit((i + lowbit(i)) as u64) <= i - lowbit(i),
{
    let j = (i + (i & !((i - 1) as u64))) as u64;
    assert(j - (j & !((j - 1) as u64)) <= i - (i & !((i - 1) as u64))) by (bit_vector)
        requires
            0 < i < 0x4000_0000_0000_0000u64,
            j == (i + (i & !((i - 1) as u64))) as u64,
    ;
}

proof fn lemma_lowbit_laminar(i: u64, k: u64, x: u64)
    requires
        0 < i <= k < 0x4000_0000_0000_0000u64,
        k - lowbit(k) < x <= k,
        i - lowbit(i) < x <= i,
    ensures
        k - lowbit(k) <= i - lowbit(i),
{
    assert(k - (k & !((k - 1) as u64)) <= i - (i & !((i - 1) as u64))) by (bit_vector)
        requires
            0 < i <= k < 0x4000_0000_0000_0000u64,
            k - (k & !((k - 1) as u64)) < x <= k,
            i - (i & !((i - 1) as u64)) < x <= i,
    ;
}


proof fn lemma_seg_split(vals: Seq<Best>, lo: int, mid: int, hi: int)
    requires
        lo <= mid <= hi,
    ensures
        better_spec(seg_min(vals, lo, mid), seg_min(vals, mid, hi)) == seg_min(vals, lo, hi),
    decreases hi - mid,
{
    if hi > mid {
        lemma_seg_split(vals, lo, mid, hi - 1);
        lemma_better_props(seg_min(vals, lo, mid), seg_min(vals, mid, hi - 1), vals[hi - 1]);
    } else {
        lemma_better_props(seg_min(vals, lo, mid), None, None);
    }
}

proof fn lemma_seg_outside(vals: Seq<Best>, c: int, x: Best, lo: int, hi: int)
    requires
        0 <= c < vals.len(),
        0 <= lo,
        hi <= vals.len(),
        !(lo <= c < hi),
    ensures
        seg_min(vals.update(c, x), lo, hi) == seg_min(vals, lo, hi),
    decreases hi - lo,
{
    if hi > lo {
        lemma_seg_outside(vals, c, x, lo, hi - 1);
    }
}

proof fn lemma_seg_update(vals: Seq<Best>, c: int, v: Best, lo: int, hi: int)
    requires
        0 <= lo <= c < hi <= vals.len(),
    ensures
        seg_min(vals.update(c, better_spec(vals[c], v)), lo, hi) == better_spec(
            seg_min(vals, lo, hi),
            v,
        ),
    decreases hi - lo,
{
    let nv = vals.update(c, better_spec(vals[c], v));
    if hi - 1 == c {
        lemma_seg_outside(vals, c, better_spec(vals[c], v), lo, c);
        lemma_better_props(seg_min(vals, lo, c), vals[c], v);
    } else {
        lemma_seg_update(vals, c, v, lo, hi - 1);
        let a = seg_min(vals, lo, hi - 1);
        lemma_better_props(a, v, vals[hi - 1]);
        lemma_better_props(a, vals[hi - 1], v);
        lemma_better_props(v, vals[hi - 1], a);
    }
}

/// The best record of a range is at least as good as that of any subrange.
pub proof fn lemma_seg_within(vals: Seq<Best>, lo: int, lo2: int, hi2: int, hi: int)
    requires
        lo <= lo2 <= hi2 <= hi,
    ensures
        best_le(seg_min(vals, lo, hi), seg_min(vals, lo2, hi2)),
{
    lemma_seg_split(vals, lo, lo2, hi);
    lemma_seg_split(vals, lo2, hi2, hi);
    let a = seg_min(vals, lo, lo2);
    let b = seg_min(vals, lo2, hi2);
    let c = seg_min(vals, hi2, hi);
    lemma_better_props(b, c, a);
    lemma_better_props(a, better_spec(b, c), b);
    lemma_better_props(better_spec(b, c), a, b);
    lemma_better_props(better_spec(better_spec(b, c), a), better_spec(b, c), b);
}

/// The best record of a range is at least as good as each of its records, and
/// is one of them unless it is `None`.
pub proof fn lemma_seg_is_min(vals: Seq<Best>, lo: int, hi: int)
    requires
        0 <= lo <= hi <= vals.len(),
    ensures
        forall|p: int| lo <= p < hi ==> best_le(seg_min(vals, lo, hi), #[trigger] vals[p]),
        seg_min(vals, lo, hi) is None || exists|p: int|
            lo <= p < hi && #[trigger] vals[p] == seg_min(vals, lo, hi),
        seg_min(vals, lo, hi) is None ==> forall|p: int| lo <= p < hi ==> #[trigger] vals[p] is None,
    decreases hi - lo,
{
    if hi > lo {
        lemma_seg_is_min(vals, lo, hi - 1);
        let a = seg_min(vals, lo, hi - 1);
        let v = vals[hi - 1];
        lemma_better_props(a, v, None);
        assert forall|p: int| lo <= p < hi implies best_le(seg_min(vals, lo, hi), #[trigger] vals[p]) by {
            if p < hi - 1 {
                lemma_better_props(better_spec(a, v), a, vals[p]);
            }
        }
    }
}

proof fn lemma_seg_none(n: nat, lo: int, hi: int)
    requires
        0 <= lo,
        hi <= n,
    ensures
        seg_min(Seq::new(n, |i: int| None::<(i128, usize, usize)>), lo, hi) is None,
    decreases hi - lo,
{
    if hi > lo {
        lemma_seg_none(n, lo, hi - 1);
    }
}

/// A tree over reversed coordinates: node `i` holds the best record of the
/// coordinates `[n - i, n - i + lowbit(i))`, so that walking down from node
/// `n - c` collects the suffix that starts at coordinate `c`.
pub struct Fenwick {
    tree: Vec<Best>,
    vals: Ghost<Seq<Best>>,
}

impl Fenwick {
    /// The records held, one per coordinate.
    pub closed spec fn view(&self) -> Seq<Best> {
        self.vals@
    }

    /// Every node holds the best record of its range.
    pub closed spec fn wf(&self) -> bool {
        let n = self.vals@.len();
        &&& self.tree.len() == n + 1
        &&& n < 0x4000_0000_0000_0000
        &&& forall|i: int|
            1 <= i <= n ==> #[trigger] self.tree@[i] == seg_min(
                self.vals@,
                n - i,
                n - i + lowbit(i as u64),
            )
    }

    /// A tree of `len` coordinates, none of which holds a record yet.
    pub fn new(len: usize) -> (f: Self)
        requires
            len < 0x4000_0000_0000_0000,
        ensures
            f.wf(),
            f.view() == Seq::new(len as nat, |i: int| None::<(i128, usize, usize)>),
    {
        let mut tree: Vec<Best> = Vec::new();
        tree.push(None);
        let mut i: usize = 0;
        while i < len
            invariant
                i <= len,
                len < 0x4000_0000_0000_0000,
                tree.len() == i + 1,
                forall|j: int| 0 <= j <= i ==> #[trigger] tree@[j] is None,
            decreases len - i,
        {
            tree.push(None);
            i += 1;
        }
        let f = Fenwick { tree, vals: Ghost(Seq::new(len as nat, |i: int| None::<(i128, usize, usize)>)) };
        proof {
            assert forall|i: int| 1 <= i <= len implies #[trigger] f.tree@[i] == seg_min(
                f.vals@,
                len - i,
                len - i + lowbit(i as u64),
            ) by {
                lemma_lowbit_basics(i as u64);
                lemma_seg_none(len as nat, len - i, len - i + lowbit(i as u64));
            }
        }
        f
    }

    /// Offers `value` at `coordinate`: the coordinate keeps the better record.
    pub fn update(&mut self, coordinate: usize, value: Best)
        requires
            old(self).wf(),
            coordinate < old(self).view().len(),
        ensures
            final(self).wf(),
            final(self).view() == old(self).view().update(
                coordinate as int,
                better_spec(old(self).view()[coordinate as int], value),
            ),
    {
        let ghost ov = self.vals@;
        let ghost n = ov.len() as int;
        let ghost c = coordinate as int;
        let ghost nv = ov.update(c, better_spec(ov[c], value));
        let ghost x = (n - c) as u64;
        let ghost old_tree = self.tree@;
        self.vals = Ghost(nv);
        let len = self.tree.len() - 1;
        let mut i: usize = len - coordinate;
        proof {
            lemma_lowbit_basics(x);
        }
        loop
            invariant_except_break
                1 <= i <= n,
                i - lowbit(i as u64) < x <= i,
                forall|k: int| 1 <= k <= n && !(k - lowbit(k as u64) < x <= k) ==> #[trigger] self.tree@[k] == seg_min(ov, n - k, n - k + lowbit(k as u64)),
                forall|k: int| 1 <= k <= n && (k - lowbit(k as u64) < x <= k) && k < i ==> #[trigger] self.tree@[k] == seg_min(nv, n - k, n - k + lowbit(k as u64)),
                forall|k: int| 1 <= k <= n && (k - lowbit(k as u64) < x <= k) && k >= i ==> #[trigger] self.tree@[k] == seg_min(ov, n - k, n - k + lowbit(k as u64)),
            invariant
                len == n == nv.len() == ov.len(),
                self.vals@ == nv,
                nv == ov.update(c, better_spec(ov[c], value)),
                0 <= c < n,
                x == n - c,
                n < 0x4000_0000_0000_0000,
                self.tree.len() == n + 1,
            ensures
                forall|k: int| 1 <= k <= n ==> #[trigger] self.tree@[k] == seg_min(nv, n - k, n - k + lowbit(k as u64)),
            decreases n + 1 - i,
        {
            let cur = self.tree[i];
            let b = better(cur, value);
            proof {
                lemma_lowbit_basics(i as u64);
                lemma_seg_update(ov, c, value, n - i, n - i + lowbit(i as u64));
            }
            if same_best(b, cur) {
                proof {
                    lemma_better_props(cur, value, None);
                    assert forall|k: int| 1 <= k <= n implies #[trigger] self.tree@[k] == seg_min(nv, n - k, n - k + lowbit(k as u64)) by {
                        lemma_lowbit_basics(k as u64);
                        if !(k - lowbit(k as u64) < x <= k) {
                            lemma_seg_outside(ov, c, better_spec(ov[c], value), n - k, n - k + lowbit(k as u64));
                        } else if k >= i {
                            lemma_lowbit_laminar(i as u64, k as u64, x);
                            lemma_seg_update(ov, c, value, n - k, n - k + lowbit(k as u64));
                            lemma_seg_within(ov, n - k, n - i, n - i + lowbit(i as u64), n - k + lowbit(k as u64));
                            let sk = seg_min(ov, n - k, n - k + lowbit(k as u64));
                            lemma_better_props(sk, cur, value);
                            lemma_better_props(sk, value, None);
                        }
                    }
                }
                break;
            }
            self.tree.set(i, b);
            let iu = i as u64;
            let next = iu + (iu & !(iu - 1));
            proof {
                lemma_lowbit_parent(iu);
                assert forall|k: int| #![trigger self.tree@[k]] 1 <= k <= n && (k - lowbit(k as u64) < x <= k) && i < k < next implies false by {
                    lemma_lowbit_basics(k as u64);
                    lemma_lowbit_laminar(i as u64, k as u64, x);
                    lemma_lowbit_next(i as u64, k as u64);
                }
                assert forall|k: int| 1 <= k <= n && !(k - lowbit(k as u64) < x <= k) implies #[trigger] self.tree@[k] == seg_min(nv, n - k, n - k + lowbit(k as u64)) by {
                    lemma_lowbit_basics(k as u64);
                    lemma_seg_outside(ov, c, better_spec(ov[c], value), n - k, n - k + lowbit(k as u64));
                }
            }
            if next > len as u64 {
                break;
            }
            i = next as usize;
        }
    }

    /// The best record among the coordinates `coordinate..`.
    pub fn suffix(&self, coordinate: usize) -> (r: Best)
        requires
            self.wf(),
            coordinate <= self.view().len(),
        ensures
            r == seg_min(self.view(), coordinate as int, self.view().len() as int),
    {
        let ghost n = self.vals@.len() as int;
        let len = self.tree.len() - 1;
        let mut i: u64 = (len - coordinate) as u64;
        let mut best: Best = None;
        while i > 0
            invariant
                self.wf(),
                n == len,
                self.tree.len() == n + 1,
                0 <= coordinate <= n,
                i <= n - coordinate,
                best == seg_min(self.vals@, coordinate as int, n - i),
            decreases i,
        {
            proof {
                lemma_lowbit_basics(i);
                lemma_seg_split(self.vals@, coordinate as int, n - i, n - i + lowbit(i));
            }
            best = better(best, self.tree[i as usize]);
            i = i & (i - 1);
        }
        best
    }
}

// ----------------------------------------------------------------------------
// A sequence of offers.
// ----------------------------------------------------------------------------

/// The records that `n` coordinates hold after the offers `ups`, each a
/// coordinate and a record, are made in order to a new tree.
pub open spec fn offered(n: nat, ups: Seq<(int, Best)>) -> Seq<Best>
    decreases ups.len(),
{
    if ups.len() == 0 {
        Seq::new(n, |i: int| None::<(i128, usize, usize)>)
    } else {
        let prev = offered(n, ups.drop_last());
        let c = ups.last().0;
        prev.update(c, better_spec(prev[c], ups.last().1))
    }
}

/// The best record offered at a coordinate from `l` on, or `None`.
pub open spec fn best_offer(ups: Seq<(int, Best)>, l: int) -> Best
    decreases ups.len(),
{
    if ups.len() == 0 {
        None
    } else {
        better_spec(best_offer(ups.drop_last(), l), if ups.last().0 >= l { ups.last().1 } else { None })
    }
}

/// Offering `x` at coordinate `c` changes the best record of `[l, hi)` only
/// when `c` lies in it, and then to the better of it and `x`.
proof fn lemma_seg_offer(v: Seq<Best>, c: int, x: Best, l: int, hi: int)
    requires
        0 <= c < v.len(),
        0 <= l,
        hi <= v.len(),
    ensures
        seg_min(v.update(c, better_spec(v[c], x)), l, hi) == if l <= c < hi {
            better_spec(seg_min(v, l, hi), x)
        } else {
            seg_min(v, l, hi)
        },
    decreases hi - l,
{
    let v2 = v.update(c, better_spec(v[c], x));
    if hi > l {
        lemma_seg_offer(v, c, x, l, hi - 1);
        let s = seg_min(v, l, hi - 1);
        if hi - 1 == c {
            lemma_better_props(s, v[c], x);
        } else if l <= c < hi - 1 {
            lemma_better_props(s, x, v[hi - 1]);
            lemma_better_props(s, v[hi - 1], x);
            lemma_better_props(x, v[hi - 1], x);
        }
    }
}

/// After a new tree of `n` coordinates has been offered the records `ups` in
/// order, its suffix minimum from `l` is the best record offered at a
/// coordinate from `l` on: `Fenwick::new` holds `offered(n, [])`, each
/// `update` moves to the next `offered`, and `suffix` returns `seg_min`.
pub proof fn lemma_fenwick_offers(n: nat, ups: Seq<(int, Best)>, l: int)
    requires
        forall|j: int| 0 <= j < ups.len() ==> 0 <= (#[trigger] ups[j]).0 < n,
        0 <= l <= n,
    ensures
        offered(n, ups).len() == n,
        seg_min(offered(n, ups), l, n as int) == best_offer(ups, l),
    decreases ups.len(),
{
    if ups.len() == 0 {
        lemma_seg_none(n, l, n as int);
    } else {
        let init = ups.drop_last();
        assert forall|j: int| 0 <= j < init.len() implies 0 <= (#[trigger] init[j]).0 < n by {
            assert(init[j] == ups[j]);
        }
        lemma_fenwick_offers(n, init, l);
        let last = ups[ups.len() - 1];
        lemma_seg_offer(offered(n, init), last.0, last.1, l, n as int);
        lemma_better_props(best_offer(init, l), None, None);
    }
}

} // verus!
