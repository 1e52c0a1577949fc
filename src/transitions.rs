use vstd::prelude::*;

verus! {

/// The five easing shapes that schedule how a target force is approached
/// over one segment of a transition schedule.
#[derive(Clone, Copy, Debug, PartialEq, Eq, Structural)]
pub enum TransitionCurve {
    Linear,
    Quadratic,
    Cubic,
    Plateau,
    QuarticBump,
}

impl TransitionCurve {
    /// What the shape's formula gives at progress 1: exactly 1 for the
    /// ease-in-out shapes, exactly 0 for the two bumps, which return to 0 at
    /// both ends.
    pub open spec fn spec_end_value(self) -> nat {
        match self {
            TransitionCurve::Linear => 1,
            TransitionCurve::Quadratic => 1,
            TransitionCurve::Cubic => 1,
            TransitionCurve::Plateau => 0,
            TransitionCurve::QuarticBump => 0,
        }
    }

    /// The shape's value at progress 1, the part of a segment's target that
    /// is still held once the segment is over.
    pub fn end_value(&self) -> (r: u8)
        ensures
            r == self.spec_end_value(),
    {
        match self {
            TransitionCurve::Linear => 1,
            TransitionCurve::Quadratic => 1,
            TransitionCurve::Cubic => 1,
            TransitionCurve::Plateau => 0,
            TransitionCurve::QuarticBump => 0,
        }
    }
}

/// The first index at which `holds` is true, scanning from the start: the
/// segment of a schedule whose interval holds a query time, or the pair of
/// path points at which the running distance reaches a query. `None` where it
/// holds nowhere.
pub fn first_containing<F: Fn(usize) -> bool>(len: usize, holds: F) -> (r: Option<usize>)
    requires
        forall|i: usize| i < len ==> holds.requires((i,)),
    ensures
        match r {
            Some(k) => {
                &&& k < len
                &&& holds.ensures((k,), true)
                &&& forall|j: usize| j < k ==> #[trigger] holds.ensures((j,), false)
            },
            None => forall|j: usize| j < len ==> #[trigger] holds.ensures((j,), false),
        },
{
    let mut i: usize = 0;
    while i < len
        invariant
            i <= len,
            forall|i: usize| i < len ==> holds.requires((i,)),
            forall|j: usize| j < i ==> #[trigger] holds.ensures((j,), false),
        decreases len - i,
    {
        if holds(i) {
            return Some(i);
        }
        i = i + 1;
    }
    None
}

/// Locates the segment of a schedule that holds a query time, by binary search.
///
/// `starts_at_or_before(i)` tells whether segment `i` starts at or before the
/// query. The result is a boundary of that predicate: a segment for which it
/// holds and after which comes none or one for which it fails; or `0` where it
/// fails on the first segment. Where segment starts are in ascending order this
/// is the last segment that starts at or before the query.
pub fn find_range_index<F: Fn(usize) -> bool>(len: usize, starts_at_or_before: F) -> (r: usize)
    requires
        len > 0,
        forall|i: usize| i < len ==> starts_at_or_before.requires((i,)),
    ensures
        r < len,
        starts_at_or_before.ensures((r,), true) && (r + 1 == len
            || starts_at_or_before.ensures(((r + 1) as usize,), false)) || r == 0
            && starts_at_or_before.ensures((0usize,), false),
{
    let mut low: usize = 0;
    let mut high: usize = len;
    while low < high
        invariant
            low <= high <= len,
            forall|i: usize| i < len ==> starts_at_or_before.requires((i,)),
            low > 0 ==> starts_at_or_before.ensures(((low - 1) as usize,), true),
            high < len ==> starts_at_or_before.ensures((high,), false),
        decreases high - low,
    {
        let mid = low + (high - low) / 2;
        if starts_at_or_before(mid) {
            low = mid + 1;
        } else {
            high = mid;
        }
    }
    if low == 0 {
        0
    } else {
        low - 1
    }
}

} // verus!
