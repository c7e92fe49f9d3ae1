//! The capabilities shared by segments and chains.

use vstd::prelude::*;
use crate::error::SegError;

verus! {

/// What every range-like value offers, whatever it is made of.
pub trait Seg {
    /// The value covers `pos`.
    spec fn covers(&self, pos: u32) -> bool;

    /// The start that [`Seg::start`] reports.
    spec fn lower(&self) -> Option<u32>;

    /// The end that [`Seg::end`] reports.
    spec fn upper(&self) -> Option<u32>;

    /// The value stands for no range at all.
    spec fn vacant(&self) -> bool;

    /// Whether `pos` is covered.
    fn contains(&self, pos: u32) -> (found: bool)
        ensures
            found == self.covers(pos),
    ;

    /// The first position, absent when there is no range.
    fn start(&self) -> (bound: Option<u32>)
        ensures
            bound == self.lower(),
    ;

    /// The last position, absent when there is no range.
    fn end(&self) -> (bound: Option<u32>)
        ensures
            bound == self.upper(),
    ;

    /// Moves the start. After success a start that is reported is not below
    /// the one asked for; after a refusal the value has the bounds and the
    /// coverage that it had before.
    fn set_start(&mut self, start: u32) -> (done: Result<(), SegError>)
        ensures
            done is Ok ==> (final(self).lower() matches Some(s) ==> start <= s),
            done is Err ==> final(self).lower() == old(self).lower(),
            done is Err ==> final(self).upper() == old(self).upper(),
            done is Err ==> forall|p: u32| final(self).covers(p) == old(self).covers(p),
    ;

    /// Moves the end. After success an end that is reported is not above the
    /// one asked for; after a refusal the value has the bounds and the
    /// coverage that it had before.
    fn set_end(&mut self, end: u32) -> (done: Result<(), SegError>)
        ensures
            done is Ok ==> (final(self).upper() matches Some(e) ==> e <= end),
            done is Err ==> final(self).lower() == old(self).lower(),
            done is Err ==> final(self).upper() == old(self).upper(),
            done is Err ==> forall|p: u32| final(self).covers(p) == old(self).covers(p),
    ;

    /// Whether the value stands for no range.
    fn empty(&self) -> (none: bool)
        ensures
            none == self.vacant(),
    ;
}

/// The algebra of a range-like value against a right-hand operand of type `T`.
pub trait SegT<T: Seg>: Seg {
    /// What an intersection or a union is made of.
    type Output: Seg;

    /// The part shared with `other`, absent when nothing is shared. Whatever
    /// the result covers is covered by both operands.
    fn intersect(&self, other: &T) -> (shared: Option<Self::Output>)
        ensures
            shared matches Some(out) ==> forall|p: u32|
                out.covers(p) ==> self.covers(p) && other.covers(p),
    ;

    /// The two operands as one value, absent where that is not defined. A
    /// result covers exactly what either operand covers.
    fn union(&self, other: &T) -> (joined: Option<Self::Output>)
        ensures
            joined matches Some(out) ==> forall|p: u32|
                out.covers(p) == (self.covers(p) || other.covers(p)),
    ;

    /// Whether the outer bounds of the two operands overlap.
    fn overlap(&self, other: &T) -> bool;

    /// Whether the operands overlap piece by piece. When they do, some
    /// position is covered by both.
    fn strict_overlap(&self, other: &T) -> (hit: bool)
        ensures
            hit ==> exists|p: u32| self.covers(p) && other.covers(p),
    ;
}

} // verus!
