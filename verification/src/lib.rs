use vstd::prelude::*;

pub mod buffer;
pub mod laws;
pub mod oracle;
pub mod recompose;
pub mod sink;
pub mod text;

pub use oracle::Oracle;
pub use recompose::{new_canonical, new_compatible, Recompositions};
pub use sink::{CharSink, VecSink};
pub use text::BoundedText;

verus! {

/// The typed, recoverable failure raised when a fixed-capacity buffer
/// could not hold required content.
#[derive(Clone, Copy, Debug, PartialEq, Eq, Structural)]
pub struct BufferOverflow;

} // verus!
