//! Shared row predicates: validity of intervals and the first reversed row.
use vstd::prelude::*;

verus! {

/// Rows `i` and `j` overlap: both are non-empty and each starts before the other ends.
pub open spec fn overlaps(s: Seq<i128>, e: Seq<i128>, i: int, j: int) -> bool {
    s[i] < e[i] && s[j] < e[j] && s[i] < e[j] && s[j] < e[i]
}

/// Every row is a valid interval: its start does not exceed its end.
pub open spec fn valid_rows(s: Seq<i128>, e: Seq<i128>) -> bool {
    forall|j: int| 0 <= j < s.len() ==> #[trigger] s[j] <= e[j]
}

/// Row `k` is the first row whose start exceeds its end.
pub open spec fn is_first_reversed(s: Seq<i128>, e: Seq<i128>, k: int) -> bool {
    &&& 0 <= k < s.len()
    &&& s[k] > e[k]
    &&& forall|j: int| 0 <= j < k ==> #[trigger] s[j] <= e[j]
}


/// The endpoints moved by `d`.
pub open spec fn shifted(s: Seq<i128>, d: int) -> Seq<i128> {
    Seq::new(s.len(), |i: int| (s[i] + d) as i128)
}

/// Every endpoint moved by `d` stays within `i128`.
pub open spec fn shift_fits(s: Seq<i128>, d: int) -> bool {
    forall|i: int| 0 <= i < s.len() ==> i128::MIN <= #[trigger] s[i] + d <= i128::MAX
}

} // verus!
