//! An ordered chain of segments.

use std::cmp::Ordering;
use vstd::prelude::*;
use vstd::std_specs::cmp::{PartialEqSpecImpl, PartialOrdSpecImpl};
use crate::error::SegError;
use crate::laws::{lemma_clip_parts, lemma_part_covers, lemma_sweep_parts};
use crate::model::{
    Bounds, accepts, all_part_of, all_ranges, any_covers, any_in_envelope, any_pair_touches,
    any_touches, bound_before, chain_precedes, clip, covers, envelope_touches, first_lower,
    first_start_at_least, greater, is_range, keep, last_end_at_most, last_upper, precedes, sorted,
    sweep, touches, with_end, with_start,
};
use crate::segment::{Segment, bounds_of};
use crate::utils::{Seg, SegT};

verus! {

/// A sequence of segments in non-decreasing `(start, end)` order.
///
/// The order is enforced: a chain grows only by [`SChain::push`], which
/// refuses a segment that compares less than the last one. Segments of a
/// chain may still overlap one another.
#[derive(Debug)]
pub struct SChain {
    chain: Vec<Segment>,
}

impl View for SChain {
    type V = Seq<Bounds>;

    /// The bounds of the segments, in their order.
    closed spec fn view(&self) -> Seq<Bounds> {
        views(self.chain@)
    }
}

/// The bounds of each segment of a sequence.
spec fn views(items: Seq<Segment>) -> Seq<Bounds> {
    Seq::new(items.len(), |i: int| items[i]@)
}

impl SChain {
    #[verifier::type_invariant]
    spec fn well_formed(&self) -> bool {
        sorted(self@) && all_ranges(self@)
    }

    /// The empty chain.
    pub fn new() -> (made: SChain)
        ensures
            made@ == Seq::<Bounds>::empty(),
    {
        let made = SChain { chain: Vec::new() };
        assert(made@ =~= Seq::<Bounds>::empty());
        made
    }

    /// Appends `seg`, or refuses with `OutOfOrder` when the chain is not
    /// empty and `seg` comes strictly before its last segment; a refusal
    /// changes nothing.
    pub fn push(&mut self, seg: Segment) -> (done: Result<(), SegError>)
        ensures
            accepts(old(self)@, seg@) ==> done is Ok && final(self)@ == old(self)@.push(seg@),
            !accepts(old(self)@, seg@) ==> done == Err::<(), SegError>(SegError::OutOfOrder)
                && final(self)@ == old(self)@,
    {
        proof {
            use_type_invariant(&*self);
            use_type_invariant(&seg);
        }
        let n = self.chain.len();
        if n > 0 {
            let last = self.chain[n - 1];
            assert(last@ == self@.last());
            if seg < last {
                return Err(SegError::OutOfOrder);
            }
        }
        let ghost before = self@;
        let mut items: Vec<Segment> = Vec::new();
        std::mem::swap(&mut items, &mut self.chain);
        items.push(seg);
        assert(views(items@) =~= before.push(seg@));
        self.chain = items;
        Ok(())
    }

    /// Whether the chain holds no segment.
    pub fn is_empty(&self) -> (none: bool)
        ensures
            none == (self@.len() == 0),
    {
        self.chain.is_empty()
    }

    /// The number of segments.
    pub fn len(&self) -> (n: usize)
        ensures
            n == self@.len(),
    {
        self.chain.len()
    }

    /// The bounds of the segments, in their order. Each is an interval, and
    /// none comes before an earlier one.
    pub fn bounds(&self) -> (all: Vec<Bounds>)
        ensures
            all@ == self@,
            sorted(self@),
            all_ranges(self@),
    {
        proof {
            use_type_invariant(self);
        }
        let mut all: Vec<Bounds> = Vec::new();
        let mut i: usize = 0;
        while i < self.chain.len()
            invariant
                i <= self.chain.len(),
                all@ == self@.take(i as int),
            decreases self.chain.len() - i,
        {
            let b = self.chain[i].bounds();
            all.push(b);
            assert(all@ =~= self@.take(i + 1));
            i += 1;
        }
        assert(all@ =~= self@);
        all
    }
}

impl Default for SChain {
    /// The empty chain.
    fn default() -> (made: SChain)
        ensures
            made@ == Seq::<Bounds>::empty(),
    {
        SChain::new()
    }
}

impl SChain {
    /// Whether the two chains hold the same segments in the same order.
    pub fn same(&self, other: &SChain) -> (equal: bool)
        ensures
            equal == (self@ == other@),
    {
        if self.chain.len() != other.chain.len() {
            assert(self@.len() != other@.len());
            return false;
        }
        let mut i: usize = 0;
        while i < self.chain.len()
            invariant
                i <= self.chain.len(),
                self.chain.len() == other.chain.len(),
                forall|k: int| 0 <= k < i ==> self@[k] == other@[k],
            decreases self.chain.len() - i,
        {
            if self.chain[i] != other.chain[i] {
                proof {
                    if self@[i as int] == other@[i as int] {
                        Segment::lemma_view_determines(self.chain[i as int], other.chain[i as int]);
                    }
                }
                return false;
            }
            i += 1;
        }
        assert(self@ =~= other@);
        true
    }

    /// Whether this chain comes strictly before `other` when the two are
    /// compared segment by segment.
    pub fn before(&self, other: &SChain) -> (less: bool)
        ensures
            less == chain_precedes(self@, other@, 0),
    {
        let mut i: usize = 0;
        while i < self.chain.len() && i < other.chain.len()
            invariant
                i <= self.chain.len(),
                i <= other.chain.len(),
                chain_precedes(self@, other@, 0) == chain_precedes(self@, other@, i as int),
            decreases self.chain.len() - i,
        {
            let a = self.chain[i];
            let b = other.chain[i];
            assert(a@ == self@[i as int] && b@ == other@[i as int]);
            if a < b {
                return true;
            }
            if b < a {
                return false;
            }
            i += 1;
        }
        i < other.chain.len()
    }
}

impl PartialEq for SChain {
    /// Chains are equal when they hold the same segments in the same order.
    fn eq(&self, other: &SChain) -> (equal: bool) {
        self.same(other)
    }
}

impl PartialEqSpecImpl for SChain {
    open spec fn obeys_eq_spec() -> bool {
        true
    }

    open spec fn eq_spec(&self, other: &SChain) -> bool {
        self@ == other@
    }
}

impl PartialOrd for SChain {
    /// Chains are ordered segment by segment; a chain that is a proper
    /// prefix of another comes before it.
    fn partial_cmp(&self, other: &SChain) -> (order: Option<Ordering>) {
        if self.before(other) {
            Some(Ordering::Less)
        } else if other.before(self) {
            Some(Ordering::Greater)
        } else {
            Some(Ordering::Equal)
        }
    }
}

impl PartialOrdSpecImpl for SChain {
    open spec fn obeys_partial_cmp_spec() -> bool {
        true
    }

    open spec fn partial_cmp_spec(&self, other: &SChain) -> Option<Ordering> {
        if chain_precedes(self@, other@, 0) {
            Some(Ordering::Less)
        } else if chain_precedes(other@, self@, 0) {
            Some(Ordering::Greater)
        } else {
            Some(Ordering::Equal)
        }
    }
}

impl PartialEq<Segment> for SChain {
    /// A chain equals a segment when that segment is all it holds.
    fn eq(&self, other: &Segment) -> (equal: bool) {
        assert(self@.len() == self.chain@.len());
        if self.chain.len() != 1 {
            return false;
        }
        proof {
            if self@[0] == other@ {
                Segment::lemma_view_determines(self.chain[0], *other);
            }
        }
        self.chain[0] == *other
    }
}

impl PartialEqSpecImpl<Segment> for SChain {
    open spec fn obeys_eq_spec() -> bool {
        true
    }

    open spec fn eq_spec(&self, other: &Segment) -> bool {
        self@.len() == 1 && self@[0] == other@
    }
}

impl PartialOrd<Segment> for SChain {
    /// A chain compares with a segment as its first segment does; the empty
    /// chain comes before every segment.
    fn partial_cmp(&self, other: &Segment) -> (order: Option<Ordering>) {
        if self.chain.len() == 0 {
            Some(Ordering::Less)
        } else {
            self.chain[0].partial_cmp(other)
        }
    }
}

impl PartialOrdSpecImpl<Segment> for SChain {
    open spec fn obeys_partial_cmp_spec() -> bool {
        true
    }

    open spec fn partial_cmp_spec(&self, other: &Segment) -> Option<Ordering> {
        if self@.len() == 0 || precedes(self@[0], other@) {
            Some(Ordering::Less)
        } else if precedes(other@, self@[0]) {
            Some(Ordering::Greater)
        } else {
            Some(Ordering::Equal)
        }
    }
}

impl Seg for SChain {
    open spec fn covers(&self, pos: u32) -> bool {
        any_covers(self@, pos)
    }

    open spec fn lower(&self) -> Option<u32> {
        first_lower(self@)
    }

    open spec fn upper(&self) -> Option<u32> {
        last_upper(self@)
    }

    open spec fn vacant(&self) -> bool {
        self@.len() == 0
    }

    /// True exactly when some segment of the chain contains `value`.
    fn contains(&self, value: u32) -> (found: bool)
        ensures
            found == any_covers(self@, value),
    {
        let mut i: usize = 0;
        while i < self.chain.len()
            invariant
                i <= self.chain.len(),
                forall|k: int| 0 <= k < i ==> !covers(#[trigger] self@[k], value),
            decreases self.chain.len() - i,
        {
            if self.chain[i].contains(value) {
                assert(covers(self@[i as int], value));
                return true;
            }
            i += 1;
        }
        false
    }

    /// The start of the first segment; absent for the empty chain.
    fn start(&self) -> (bound: Option<u32>)
        ensures
            bound == first_lower(self@),
    {
        if self.chain.len() == 0 {
            None
        } else {
            self.chain[0].start()
        }
    }

    /// The end of the last segment; absent for the empty chain.
    fn end(&self) -> (bound: Option<u32>)
        ensures
            bound == last_upper(self@),
    {
        let n = self.chain.len();
        if n == 0 {
            None
        } else {
            self.chain[n - 1].end()
        }
    }

    /// Whether the chain holds no segment.
    fn empty(&self) -> (none: bool)
        ensures
            none == (self@.len() == 0),
    {
        self.chain.is_empty()
    }

    /// Moves the start of the chain to `new_start`, as [`with_start`] says.
    ///
    /// The request is refused with `InvalidRange`, and nothing changes, when
    /// the chain reports no start or no end or `new_start` lies beyond its
    /// end. A `new_start` at or before the current start extends the first
    /// segment down to it. Any other drops the leading segments that start
    /// before `new_start`, whole: a segment that reaches across `new_start`
    /// is removed, not shortened. Afterwards no position below `new_start`
    /// is covered.
    fn set_start(&mut self, new_start: u32) -> (done: Result<(), SegError>)
        ensures
            match with_start(old(self)@, new_start) {
                Some(s) => done is Ok && final(self)@ == s,
                None => done == Err::<(), SegError>(SegError::InvalidRange) && final(self)@ == old(
                    self,
                )@,
            },
            done is Ok && first_lower(old(self)@) is Some && new_start <= first_lower(
                old(self)@,
            )->Some_0 ==> first_lower(final(self)@) == Some(new_start),
            done is Ok ==> forall|p: u32| any_covers(final(self)@, p) ==> new_start <= p,
    {
        proof {
            use_type_invariant(&*self);
        }
        let ghost before = self@;
        let hi: u32 = match self.end() {
            Some(e) => e,
            None => { return Err(SegError::InvalidRange); },
        };
        let lo: u32 = match self.start() {
            Some(s) => s,
            None => { return Err(SegError::InvalidRange); },
        };
        if new_start > hi {
            return Err(SegError::InvalidRange);
        }
        let mut items: Vec<Segment> = Vec::new();
        std::mem::swap(&mut items, &mut self.chain);
        assert(views(items@) == before);
        if new_start <= lo {
            let mut first = items[0];
            assert(first@ == before[0]);
            let _ = first.set_start(new_start);
            items.set(0, first);
            assert(views(items@) =~= before.update(0, (new_start, before[0].1)));
            self.chain = items;
            assert forall|p: u32| any_covers(self@, p) implies new_start <= p by {
                let i = choose|i: int| 0 <= i < self@.len() && covers(#[trigger] self@[i], p);
                assert(!precedes(self@[i], self@[0]) || i == 0);
            }
        } else {
            let mut k: usize = 0;
            while k < items.len() && items[k].bounds().0 < new_start
                invariant
                    k <= items.len(),
                    views(items@) == before,
                    first_start_at_least(before, new_start, 0) == first_start_at_least(
                        before,
                        new_start,
                        k as int,
                    ),
                decreases items.len() - k,
            {
                k += 1;
            }
            let ghost cut = k as int;
            assert(first_start_at_least(before, new_start, 0) == cut);
            let mut kept: Vec<Segment> = Vec::new();
            while k < items.len()
                invariant
                    0 <= cut <= k <= items.len(),
                    items.len() == before.len(),
                    views(items@) == before,
                    views(kept@) == before.subrange(cut, k as int),
                decreases items.len() - k,
            {
                assert(views(kept@).len() == k - cut);
                kept.push(items[k]);
                assert(views(kept@) =~= before.subrange(cut, k + 1));
                k += 1;
            }
            assert(before.subrange(cut, before.len() as int) =~= before.skip(cut));
            self.chain = kept;
            assert forall|p: u32| any_covers(self@, p) implies new_start <= p by {
                let i = choose|i: int| 0 <= i < self@.len() && covers(#[trigger] self@[i], p);
                assert(self@[i] == before[cut + i]);
                assert(!precedes(before[cut + i], before[cut]) || i == 0);
            }
        }
        Ok(())
    }

    /// Moves the end of the chain to `new_end`, as [`with_end`] says: the
    /// mirror image of [`Seg::set_start`].
    ///
    /// The request is refused with `InvalidRange`, and nothing changes, when
    /// the chain reports no start or no end or `new_end` lies before its
    /// start. A `new_end` at or after the current end extends the last
    /// segment up to it. Any other drops the trailing segments that end after
    /// `new_end`, whole.
    fn set_end(&mut self, new_end: u32) -> (done: Result<(), SegError>)
        ensures
            match with_end(old(self)@, new_end) {
                Some(s) => done is Ok && final(self)@ == s,
                None => done == Err::<(), SegError>(SegError::InvalidRange) && final(self)@ == old(
                    self,
                )@,
            },
            done is Ok && last_upper(old(self)@) is Some && new_end >= last_upper(
                old(self)@,
            )->Some_0 ==> last_upper(final(self)@) == Some(new_end),
    {
        proof {
            use_type_invariant(&*self);
        }
        let ghost before = self@;
        let hi: u32 = match self.end() {
            Some(e) => e,
            None => { return Err(SegError::InvalidRange); },
        };
        let lo: u32 = match self.start() {
            Some(s) => s,
            None => { return Err(SegError::InvalidRange); },
        };
        if new_end < lo {
            return Err(SegError::InvalidRange);
        }
        let mut items: Vec<Segment> = Vec::new();
        std::mem::swap(&mut items, &mut self.chain);
        assert(views(items@) == before);
        let n = items.len();
        if new_end >= hi {
            let mut last = items[n - 1];
            assert(last@ == before.last());
            let _ = last.set_end(new_end);
            items.set(n - 1, last);
            assert(views(items@) =~= before.update(
                n - 1,
                (before.last().0, new_end),
            ));
            self.chain = items;
        } else {
            let mut k: usize = n;
            while k > 0 && items[k - 1].bounds().1 > new_end
                invariant
                    k <= n,
                    n == items.len(),
                    views(items@) == before,
                    last_end_at_most(before, new_end, n as int) == last_end_at_most(
                        before,
                        new_end,
                        k as int,
                    ),
                decreases k,
            {
                k -= 1;
            }
            assert(last_end_at_most(before, new_end, n as int) == k);
            items.truncate(k);
            assert(views(items@) =~= before.take(k as int));
            self.chain = items;
        }
        Ok(())
    }
}

impl SChain {
    /// Appends `piece` where there is one and the order admits it.
    fn keep(&mut self, piece: Option<Segment>)
        ensures
            final(self)@ == keep(old(self)@, bounds_of(piece)),
    {
        match piece {
            Some(x) => {
                let _ = self.push(x);
            },
            None => {},
        }
    }
}

impl SegT<SChain> for SChain {
    type Output = SChain;

    /// The two-cursor sweep over both chains, as [`sweep`] says.
    ///
    /// One cursor walks each chain. At every step the common part of the two
    /// segments under the cursors, where there is one, is appended to the
    /// result; then the cursor whose segment ends first moves on, the
    /// right-hand one when the ends agree. The sweep stops when either chain
    /// is used up. A common part that would break the order of the result is
    /// left out; that cannot happen for chains whose segments end in
    /// non-decreasing order. The result is absent when nothing was
    /// collected, and is in order otherwise.
    fn intersect(&self, other: &SChain) -> (shared: Option<SChain>)
        ensures
            match shared {
                Some(c) => c@ == sweep(self@, other@, 0, 0, Seq::empty()) && c@.len() > 0,
                None => sweep(self@, other@, 0, 0, Seq::empty()).len() == 0,
            },
            shared matches Some(c) ==> sorted(c@) && all_ranges(c@),
            shared matches Some(c) ==> all_part_of(c@, self@) && all_part_of(c@, other@),
    {
        let mut result = SChain::new();
        let mut i: usize = 0;
        let mut j: usize = 0;
        while i < self.chain.len() && j < other.chain.len()
            invariant
                i <= self.chain.len(),
                j <= other.chain.len(),
                sweep(self@, other@, i as int, j as int, result@) == sweep(
                    self@,
                    other@,
                    0,
                    0,
                    Seq::empty(),
                ),
            decreases self.chain.len() - i + other.chain.len() - j,
        {
            let seg1 = self.chain[i];
            let seg2 = other.chain[j];
            assert(seg1@ == self@[i as int] && seg2@ == other@[j as int]);
            result.keep(seg1.intersect(&seg2));
            if bound_lt(seg1.end(), seg2.end()) {
                i += 1;
            } else {
                j += 1;
            }
        }
        proof {
            use_type_invariant(&result);
            lemma_sweep_parts(self@, other@, 0, 0, Seq::empty());
            assert forall|p: u32| any_covers(result@, p) implies any_covers(self@, p)
                && any_covers(other@, p) by {
                let k = choose|k: int| 0 <= k < result@.len() && covers(#[trigger] result@[k], p);
                lemma_part_covers(result@[k], self@, p);
                lemma_part_covers(result@[k], other@, p);
            }
        }
        if result.is_empty() {
            None
        } else {
            Some(result)
        }
    }

    /// Always absent: the union of two chains is not defined.
    fn union(&self, other: &SChain) -> (joined: Option<SChain>)
        ensures
            joined is None,
    {
        None
    }

    /// True exactly when some segment of this chain overlaps the outer bounds
    /// of `other`, tested as [`envelope_touches`] says.
    fn overlap(&self, other: &SChain) -> (hit: bool)
        ensures
            hit == any_in_envelope(self@, other@),
    {
        let mut i: usize = 0;
        while i < self.chain.len()
            invariant
                i <= self.chain.len(),
                forall|k: int| 0 <= k < i ==> !envelope_touches(other@, #[trigger] self@[k]),
            decreases self.chain.len() - i,
        {
            if other.overlap(&self.chain[i]) {
                assert(envelope_touches(other@, self@[i as int]));
                return true;
            }
            i += 1;
        }
        false
    }

    /// True exactly when some segment of this chain overlaps some segment of
    /// `other`.
    fn strict_overlap(&self, other: &SChain) -> (hit: bool)
        ensures
            hit == any_pair_touches(self@, other@),
    {
        let mut i: usize = 0;
        while i < self.chain.len()
            invariant
                i <= self.chain.len(),
                forall|k: int| 0 <= k < i ==> !any_touches(other@, #[trigger] self@[k]),
            decreases self.chain.len() - i,
        {
            if other.strict_overlap(&self.chain[i]) {
                assert(any_touches(other@, self@[i as int]));
                return true;
            }
            i += 1;
        }
        false
    }
}

impl SegT<Segment> for SChain {
    type Output = SChain;

    /// The one-sided sweep of the chain against `other`, as [`clip`] says.
    ///
    /// The chain is walked from its first segment. The common part of each
    /// segment with `other`, where there is one, is appended to the result.
    /// The walk goes on while the segment at hand ends before `other` does,
    /// and stops after the first one that does not. A common part that would
    /// break the order of the result is left out; that cannot happen for a
    /// chain whose segments end in non-decreasing order. The result is absent
    /// when nothing was collected, and is in order otherwise.
    fn intersect(&self, other: &Segment) -> (shared: Option<SChain>)
        ensures
            match shared {
                Some(c) => c@ == clip(self@, other@, 0, Seq::empty()) && c@.len() > 0,
                None => clip(self@, other@, 0, Seq::empty()).len() == 0,
            },
            shared matches Some(c) ==> sorted(c@) && all_ranges(c@),
            shared matches Some(c) ==> all_part_of(c@, self@) && all_part_of(c@, seq![other@]),
    {
        let mut result = SChain::new();
        let mut i: usize = 0;
        while i < self.chain.len()
            invariant_except_break
                i <= self.chain.len(),
                clip(self@, other@, i as int, result@) == clip(self@, other@, 0, Seq::empty()),
            ensures
                result@ == clip(self@, other@, 0, Seq::empty()),
            decreases self.chain.len() - i,
        {
            let seg = self.chain[i];
            assert(seg@ == self@[i as int]);
            result.keep(seg.intersect(other));
            if bound_lt(seg.end(), other.end()) {
                i += 1;
            } else {
                break;
            }
        }
        proof {
            use_type_invariant(&result);
            lemma_clip_parts(self@, other@, 0, Seq::empty());
            assert forall|p: u32| any_covers(result@, p) implies any_covers(self@, p) && covers(
                other@,
                p,
            ) by {
                let k = choose|k: int| 0 <= k < result@.len() && covers(#[trigger] result@[k], p);
                lemma_part_covers(result@[k], self@, p);
                lemma_part_covers(result@[k], seq![other@], p);
            }
        }
        if result.is_empty() {
            None
        } else {
            Some(result)
        }
    }

    /// Always absent: the union of a chain and a segment is not defined.
    fn union(&self, other: &Segment) -> (joined: Option<SChain>)
        ensures
            joined is None,
    {
        None
    }

    /// The loose test: whether the outer bounds of the chain overlap
    /// `other`, whatever gaps the chain has. False when either side reports
    /// no bounds.
    fn overlap(&self, other: &Segment) -> (hit: bool)
        ensures
            hit == envelope_touches(self@, other@),
    {
        let os: u32 = match other.start() {
            Some(os) => os,
            None => { return false; },
        };
        let oe: u32 = match other.end() {
            Some(oe) => oe,
            None => { return false; },
        };
        let ss: u32 = match self.start() {
            Some(ss) => ss,
            None => { return false; },
        };
        let se: u32 = match self.end() {
            Some(se) => se,
            None => { return false; },
        };
        ss <= oe && os <= se
    }

    /// The precise test: whether some segment of the chain overlaps `other`.
    fn strict_overlap(&self, other: &Segment) -> (hit: bool)
        ensures
            hit == any_touches(self@, other@),
    {
        proof {
            use_type_invariant(self);
            use_type_invariant(other);
        }
        let mut i: usize = 0;
        while i < self.chain.len()
            invariant
                i <= self.chain.len(),
                forall|k: int| 0 <= k < i ==> !touches(#[trigger] self@[k], other@),
                all_ranges(self@),
                is_range(other@),
            decreases self.chain.len() - i,
        {
            if self.chain[i].overlap(other) {
                assert(touches(self@[i as int], other@));
                proof {
                    let p = greater(self@[i as int].0, other@.0);
                    assert(covers(self@[i as int], p) && covers(other@, p));
                    assert(self.covers(p) && other.covers(p));
                }
                return true;
            }
            i += 1;
        }
        false
    }
}

/// Whether `x` is strictly smaller than `y`, an absent bound being smaller
/// than every present one.
fn bound_lt(x: Option<u32>, y: Option<u32>) -> (less: bool)
    ensures
        less == bound_before(x, y),
{
    match (x, y) {
        (None, Some(_)) => true,
        (Some(p), Some(q)) => p < q,
        _ => false,
    }
}

} // verus!
