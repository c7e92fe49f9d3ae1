//! A chain of segments with a constructor that reports a result.

use vstd::prelude::*;
use vstd::std_specs::cmp::PartialEqSpecImpl;
use crate::error::SegError;
use crate::model::{Bounds, accepts, all_ranges, any_covers, covers, sorted};
use crate::segment::Segment;
use crate::utils::Seg;

verus! {

/// A sequence of segments in non-decreasing `(start, end)` order.
///
/// The order is enforced: a chain grows only by [`Chain::push`], which
/// refuses a segment that compares less than the last one.
/// [`crate::schain::SChain`] keeps the same order and adds the algebra of
/// chains.
#[derive(Debug)]
pub struct Chain {
    chain: Vec<Segment>,
}

impl View for Chain {
    type V = Seq<Bounds>;

    /// The bounds of the segments, in their order.
    closed spec fn view(&self) -> Seq<Bounds> {
        Seq::new(self.chain@.len(), |i: int| self.chain@[i]@)
    }
}

impl Default for Chain {
    /// The empty chain.
    fn default() -> (made: Chain)
        ensures
            made@ == Seq::<Bounds>::empty(),
    {
        let made = Chain { chain: Vec::new() };
        assert(made@ =~= Seq::<Bounds>::empty());
        made
    }
}

impl Chain {
    #[verifier::type_invariant]
    spec fn well_formed(&self) -> bool {
        sorted(self@) && all_ranges(self@)
    }

    /// The empty chain. This never fails.
    pub fn new() -> (made: Result<Chain, SegError>)
        ensures
            made is Ok,
            made->Ok_0@ == Seq::<Bounds>::empty(),
    {
        let made = Chain { chain: Vec::new() };
        assert(made@ =~= Seq::<Bounds>::empty());
        Ok(made)
    }

    /// Appends `seg`, or refuses with `OutOfOrder` when the chain is not
    /// empty and `seg` comes strictly before its last segment; a refusal
    /// changes nothing.
    pub fn push(&mut self, seg: Segment) -> (done: Result<(), SegError>)
        ensures
            accepts(old(self)@, seg@) ==> done is Ok && final(self)@ == old(self)@.push(seg@),
            !accepts(old(self)@, seg@) ==> done == Err::<(), SegError>(SegError::OutOfOrder)
                && final(self)@ == old(self)@,
    {
        proof {
            use_type_invariant(&*self);
            use_type_invariant(&seg);
        }
        let n = self.chain.len();
        if n > 0 {
            let last = self.chain[n - 1];
            assert(last@ == self@.last());
            if seg < last {
                return Err(SegError::OutOfOrder);
            }
        }
        let ghost before = self@;
        let mut items: Vec<Segment> = Vec::new();
        std::mem::swap(&mut items, &mut self.chain);
        items.push(seg);
        assert(Seq::new(items@.len(), |i: int| items@[i]@) =~= before.push(seg@));
        self.chain = items;
        Ok(())
    }

    /// The bounds of the segments, in their order. Each is an interval, and
    /// none comes before an earlier one.
    pub fn bounds(&self) -> (all: Vec<Bounds>)
        ensures
            all@ == self@,
            sorted(self@),
            all_ranges(self@),
    {
        proof {
            use_type_invariant(self);
        }
        let mut all: Vec<Bounds> = Vec::new();
        let mut i: usize = 0;
        while i < self.chain.len()
            invariant
                i <= self.chain.len(),
                all@ == self@.take(i as int),
            decreases self.chain.len() - i,
        {
            let b = self.chain[i].bounds();
            all.push(b);
            assert(all@ =~= self@.take(i + 1));
            i += 1;
        }
        assert(all@ =~= self@);
        all
    }

    /// The number of segments.
    pub fn len(&self) -> (n: usize)
        ensures
            n == self@.len(),
    {
        self.chain.len()
    }

    /// True exactly when some segment of the chain contains `value`.
    pub fn contains(&self, value: u32) -> (found: bool)
        ensures
            found == any_covers(self@, value),
    {
        let mut i: usize = 0;
        while i < self.chain.len()
            invariant
                i <= self.chain.len(),
                forall|k: int| 0 <= k < i ==> !covers(#[trigger] self@[k], value),
            decreases self.chain.len() - i,
        {
            if self.chain[i].contains(value) {
                assert(covers(self@[i as int], value));
                return true;
            }
            i += 1;
        }
        false
    }
}

impl PartialEq for Chain {
    /// Chains are equal when they hold the same segments in the same order.
    fn eq(&self, other: &Chain) -> (equal: bool) {
        if self.chain.len() != other.chain.len() {
            assert(self@.len() != other@.len());
            return false;
        }
        let mut i: usize = 0;
        while i < self.chain.len()
            invariant
                i <= self.chain.len(),
                self.chain.len() == other.chain.len(),
                forall|k: int| 0 <= k < i ==> self@[k] == other@[k],
            decreases self.chain.len() - i,
        {
            if self.chain[i] != other.chain[i] {
                proof {
                    if self@[i as int] == other@[i as int] {
                        Segment::lemma_view_determines(self.chain[i as int], other.chain[i as int]);
                    }
                }
                return false;
            }
            i += 1;
        }
        assert(self@ =~= other@);
        true
    }
}

impl PartialEqSpecImpl for Chain {
    open spec fn obeys_eq_spec() -> bool {
        true
    }

    open spec fn eq_spec(&self, other: &Chain) -> bool {
        self@ == other@
    }
}

} // verus!
