//! Predicates on half-open intervals `[start, end)` of byte offsets.

use std::ops::Range;
use vstd::prelude::*;

verus! {

/// `q` lies inside `r`.
pub open spec fn has_point(r: Range<u64>, q: u64) -> bool {
    r.start <= q && q < r.end
}

/// `inner` lies entirely inside `outer`.
pub open spec fn range_contains(outer: Range<u64>, inner: Range<u64>) -> bool {
    outer.start <= inner.start && inner.end <= outer.end
}

/// Neither interval ends before the other begins.
pub open spec fn range_overlaps(a: Range<u64>, b: Range<u64>) -> bool {
    !(a.end <= b.start || b.end <= a.start)
}

/// The interval is not empty.
pub open spec fn range_valid(r: Range<u64>) -> bool {
    r.start < r.end
}

/// Interval predicates as methods of a range.
pub trait RangeOps {
    /// Whether `other` lies entirely inside `self`.
    fn contains_range(&self, other: &Range<u64>) -> (inside: bool);

    /// Whether `self` and `other` share at least one offset.
    fn overlaps_range(&self, other: &Range<u64>) -> (shared: bool);
}

impl RangeOps for Range<u64> {
    fn contains_range(&self, other: &Range<u64>) -> (inside: bool)
        ensures
            inside == range_contains(*self, *other),
    {
        (self.start <= other.start) && (other.end <= self.end)
    }

    fn overlaps_range(&self, other: &Range<u64>) -> (shared: bool)
        ensures
            shared == range_overlaps(*self, *other),
    {
        !((self.end <= other.start) || (other.end <= self.start))
    }
}

/// Two non-empty intervals overlap exactly when some offset between the
/// smaller of their starts and the larger of their ends lies in both.
pub proof fn lemma_overlap_has_witness(a: Range<u64>, b: Range<u64>)
    requires
        range_valid(a),
        range_valid(b),
    ensures
        range_overlaps(a, b) <==> exists|q: u64|
            (if a.start <= b.start { a.start } else { b.start }) <= q
            && q < (if a.end >= b.end { a.end } else { b.end })
            && #[trigger] has_point(a, q) && has_point(b, q),
{
    if range_overlaps(a, b) {
        let q: u64 = if a.start <= b.start { b.start } else { a.start };
        assert(has_point(a, q) && has_point(b, q));
    }
}

} // verus!
