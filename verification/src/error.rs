use vstd::prelude::*;

verus! {

/// Why a constructor or a mutator refused its input.
#[derive(Clone, Copy, Debug, PartialEq, Eq, Structural)]
pub enum SegError {
    /// The bounds asked for would have `start > end`, or there is no range to
    /// take a bound from.
    InvalidRange,
    /// The segment offered to a chain compares less than the chain's last one.
    OutOfOrder,
}

impl SegError {
    /// A short description of the error.
    pub fn message(&self) -> (text: &'static str)
        ensures
            text@ == match *self {
                SegError::InvalidRange => "start > end"@,
                SegError::OutOfOrder => "seg < chain.last"@,
            },
    {
        match self {
            SegError::InvalidRange => "start > end",
            SegError::OutOfOrder => "seg < chain.last",
        }
    }
}

} // verus!
