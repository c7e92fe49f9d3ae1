//! A single closed interval.

use std::cmp::Ordering;
use vstd::prelude::*;
use vstd::std_specs::cmp::PartialOrdSpecImpl;
use vstd::std_specs::convert::FromSpecImpl;
use crate::error::SegError;
use crate::model::{
    Bounds, all_part_of, all_ranges, any_touches, clip, covers, greater, is_range, is_vacant, join,
    lower, meet, precedes, sorted, span_len, touches, touches_envelope, upper,
};
use crate::schain::SChain;
use crate::utils::{Seg, SegT};

verus! {

/// A closed interval `[start, end]` of positions, with `start <= end`.
///
/// The segment whose two bounds are both `u32::MAX` stands for "no range":
/// it is what [`Default`] gives, and [`Seg::start`] and [`Seg::end`] report
/// no bound for it.
#[derive(Clone, Copy, Debug, PartialEq, Eq, Structural)]
pub struct Segment {
    start: u32,
    end: u32,
}

impl View for Segment {
    type V = Bounds;

    /// The pair of bounds.
    closed spec fn view(&self) -> Bounds {
        (self.start, self.end)
    }
}

/// The bounds of an optional segment.
pub open spec fn bounds_of(s: Option<Segment>) -> Option<Bounds> {
    match s {
        Some(x) => Some(x@),
        None => None,
    }
}

impl Segment {
    #[verifier::type_invariant]
    pub(crate) open spec fn ordered(&self) -> bool {
        is_range(self@)
    }

    /// Two segments with the same bounds are the same segment.
    pub proof fn lemma_view_determines(a: Segment, b: Segment)
        requires
            a@ == b@,
        ensures
            a == b,
    {
    }

    /// Builds `[start, end]`, or refuses with `InvalidRange` when
    /// `start > end`.
    pub fn new(start: u32, end: u32) -> (made: Result<Segment, SegError>)
        ensures
            start <= end ==> made is Ok && made->Ok_0@ == (start, end),
            start > end ==> made == Err::<Segment, SegError>(SegError::InvalidRange),
    {
        if start > end {
            return Err(SegError::InvalidRange);
        }
        Ok(Segment { start, end })
    }

    /// The pair `(start, end)`, whose start never exceeds its end.
    pub fn bounds(&self) -> (b: Bounds)
        ensures
            b == self@,
            is_range(b),
    {
        proof {
            use_type_invariant(self);
        }
        (self.start, self.end)
    }

    /// Replaces the start, or refuses with `InvalidRange` when the new start
    /// lies beyond the end; a refusal changes nothing.
    pub fn set_start(&mut self, start: u32) -> (done: Result<(), SegError>)
        ensures
            start <= old(self)@.1 ==> done is Ok && final(self)@ == (start, old(self)@.1),
            start > old(self)@.1 ==> done == Err::<(), SegError>(SegError::InvalidRange)
                && final(self)@ == old(self)@,
    {
        if start > self.end {
            return Err(SegError::InvalidRange);
        }
        self.start = start;
        Ok(())
    }

    /// Replaces the end, or refuses with `InvalidRange` when the new end lies
    /// before the start; a refusal changes nothing.
    pub fn set_end(&mut self, end: u32) -> (done: Result<(), SegError>)
        ensures
            old(self)@.0 <= end ==> done is Ok && final(self)@ == (old(self)@.0, end),
            old(self)@.0 > end ==> done == Err::<(), SegError>(SegError::InvalidRange)
                && final(self)@ == old(self)@,
    {
        if self.start > end {
            return Err(SegError::InvalidRange);
        }
        self.end = end;
        Ok(())
    }

    /// The number of positions in the segment, `end - start + 1`. The one
    /// length that does not fit, that of the whole position space, is
    /// reported as `u32::MAX`.
    pub fn slen(&self) -> (n: u32)
        ensures
            span_len(self@) <= u32::MAX ==> n == span_len(self@),
            span_len(self@) > u32::MAX ==> n == u32::MAX,
    {
        proof {
            use_type_invariant(self);
        }
        (self.end - self.start).saturating_add(1)
    }
}

impl Default for Segment {
    /// The segment that stands for "no range".
    fn default() -> (made: Segment)
        ensures
            made@ == (u32::MAX, u32::MAX),
            is_vacant(made@),
    {
        Segment { start: u32::MAX, end: u32::MAX }
    }
}

impl From<Segment> for (u32, u32) {
    /// The pair `(start, end)`.
    fn from(seg: Segment) -> (pair: (u32, u32)) {
        (seg.start, seg.end)
    }
}

impl FromSpecImpl<Segment> for (u32, u32) {
    open spec fn obeys_from_spec() -> bool {
        true
    }

    open spec fn from_spec(seg: Segment) -> (u32, u32) {
        seg@
    }
}

impl PartialOrd for Segment {
    /// Segments are ordered by start, and by end where the starts agree.
    fn partial_cmp(&self, other: &Segment) -> (order: Option<Ordering>) {
        if self.start < other.start {
            Some(Ordering::Less)
        } else if self.start > other.start {
            Some(Ordering::Greater)
        } else if self.end < other.end {
            Some(Ordering::Less)
        } else if self.end > other.end {
            Some(Ordering::Greater)
        } else {
            Some(Ordering::Equal)
        }
    }
}

impl PartialOrdSpecImpl for Segment {
    open spec fn obeys_partial_cmp_spec() -> bool {
        true
    }

    open spec fn partial_cmp_spec(&self, other: &Segment) -> Option<Ordering> {
        if precedes(self@, other@) {
            Some(Ordering::Less)
        } else if precedes(other@, self@) {
            Some(Ordering::Greater)
        } else {
            Some(Ordering::Equal)
        }
    }
}

impl Seg for Segment {
    open spec fn covers(&self, pos: u32) -> bool {
        covers(self@, pos)
    }

    open spec fn lower(&self) -> Option<u32> {
        lower(self@)
    }

    open spec fn upper(&self) -> Option<u32> {
        upper(self@)
    }

    open spec fn vacant(&self) -> bool {
        is_vacant(self@)
    }

    /// True exactly when `start <= value <= end`.
    fn contains(&self, value: u32) -> (found: bool)
        ensures
            found == (self@.0 <= value && value <= self@.1),
    {
        value >= self.start && value <= self.end
    }

    fn start(&self) -> (bound: Option<u32>)
        ensures
            bound == lower(self@),
    {
        if self.empty() { None } else { Some(self.start) }
    }

    fn end(&self) -> (bound: Option<u32>)
        ensures
            bound == upper(self@),
    {
        if self.empty() { None } else { Some(self.end) }
    }

    fn empty(&self) -> (none: bool)
        ensures
            none == is_vacant(self@),
    {
        self.end == self.start && self.start == u32::MAX
    }

    /// As [`Segment::set_start`].
    fn set_start(&mut self, start: u32) -> (done: Result<(), SegError>)
        ensures
            start <= old(self)@.1 ==> done is Ok && final(self)@ == (start, old(self)@.1),
            start > old(self)@.1 ==> done == Err::<(), SegError>(SegError::InvalidRange)
                && final(self)@ == old(self)@,
    {
        Segment::set_start(self, start)
    }

    /// As [`Segment::set_end`].
    fn set_end(&mut self, end: u32) -> (done: Result<(), SegError>)
        ensures
            old(self)@.0 <= end ==> done is Ok && final(self)@ == (old(self)@.0, end),
            old(self)@.0 > end ==> done == Err::<(), SegError>(SegError::InvalidRange)
                && final(self)@ == old(self)@,
    {
        Segment::set_end(self, end)
    }
}

impl SegT<Segment> for Segment {
    type Output = Segment;

    /// The common part `[max(start, start'), min(end, end')]`, absent when
    /// that start exceeds that end.
    fn intersect(&self, other: &Segment) -> (shared: Option<Segment>)
        ensures
            bounds_of(shared) == meet(self@, other@),
    {
        let start = if self.start >= other.start { self.start } else { other.start };
        let end = if self.end <= other.end { self.end } else { other.end };
        if start <= end {
            Some(Segment { start, end })
        } else {
            None
        }
    }

    /// The span `[min(start, start'), max(end, end')]` when the two overlap,
    /// absent when they do not.
    fn union(&self, other: &Segment) -> (joined: Option<Segment>)
        ensures
            bounds_of(joined) == join(self@, other@),
    {
        proof {
            use_type_invariant(self);
            use_type_invariant(other);
        }
        if self.overlap(other) {
            let start = if self.start <= other.start { self.start } else { other.start };
            let end = if self.end >= other.end { self.end } else { other.end };
            Some(Segment { start, end })
        } else {
            None
        }
    }

    /// Closed-interval overlap: `start <= end'` and `start' <= end`, where
    /// touching endpoints count. A vacant `other` overlaps nothing.
    fn overlap(&self, other: &Segment) -> (hit: bool)
        ensures
            hit == touches(self@, other@),
    {
        let os: u32 = match other.start() {
            Some(os) => os,
            None => { return false; },
        };
        let oe: u32 = match other.end() {
            Some(oe) => oe,
            None => { return false; },
        };
        self.start <= oe && os <= self.end
    }

    /// The same test as [`SegT::overlap`]: a segment has no parts to be
    /// strict about.
    fn strict_overlap(&self, other: &Segment) -> (hit: bool)
        ensures
            hit == touches(self@, other@),
    {
        proof {
            use_type_invariant(self);
            use_type_invariant(other);
            if touches(self@, other@) {
                let p = greater(self@.0, other@.0);
                assert(self.covers(p) && other.covers(p));
            }
        }
        self.overlap(other)
    }
}

impl SegT<SChain> for Segment {
    type Output = SChain;

    /// The one-sided sweep of `other` against this segment: what
    /// `other.intersect(self)` gives.
    fn intersect(&self, other: &SChain) -> (shared: Option<SChain>)
        ensures
            match shared {
                Some(c) => c@ == clip(other@, self@, 0, Seq::empty()) && c@.len() > 0,
                None => clip(other@, self@, 0, Seq::empty()).len() == 0,
            },
            shared matches Some(c) ==> sorted(c@) && all_ranges(c@),
            shared matches Some(c) ==> all_part_of(c@, other@) && all_part_of(c@, seq![self@]),
    {
        other.intersect(self)
    }

    /// Always absent: the union of a segment and a chain is not defined.
    fn union(&self, other: &SChain) -> (joined: Option<SChain>)
        ensures
            joined is None,
    {
        None
    }

    /// The loose test: whether this segment overlaps the outer bounds of
    /// `other`, whatever gaps the chain has. False when the chain reports no
    /// bounds.
    fn overlap(&self, other: &SChain) -> (hit: bool)
        ensures
            hit == touches_envelope(self@, other@),
    {
        let os: u32 = match other.start() {
            Some(os) => os,
            None => { return false; },
        };
        let oe: u32 = match other.end() {
            Some(oe) => oe,
            None => { return false; },
        };
        self.start <= oe && os <= self.end
    }

    /// The precise test: whether some segment of `other` overlaps this one.
    fn strict_overlap(&self, other: &SChain) -> (hit: bool)
        ensures
            hit == any_touches(other@, self@),
    {
        other.strict_overlap(self)
    }
}

} // verus!
