//! Closed integer intervals and ordered chains of them.
//!
//! A [`Segment`] is one closed range `[start, end]` of `u32` positions. An
//! [`SChain`] is a sequence of segments kept in non-decreasing `(start, end)`
//! order. Both answer membership, intersection, union and overlap queries;
//! every operation carries a contract over the plain pairs of bounds.

pub mod chain;
pub mod error;
pub mod laws;
pub mod model;
pub mod schain;
pub mod segment;
pub mod utils;

pub use chain::Chain;
pub use error::SegError;
pub use schain::SChain;
pub use segment::Segment;
pub use utils::{Seg, SegT};
