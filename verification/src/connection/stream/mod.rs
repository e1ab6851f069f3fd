//! Streams: ordered byte flows in each direction, their reassembly and
//! their scheduling.
use vstd::prelude::*;

pub mod recv;
pub mod send;
pub mod state;





verus! {

/// Error indicating that a stream has not been opened or has already been
/// finished or reset
#[derive(Debug, Clone, Copy, PartialEq, Eq, Structural)]
pub struct ClosedStream;

impl ClosedStream {
    /// The message the error is shown with.
    pub fn to_string(&self) -> (r: String)
        ensures
            r@ == "closed stream"@,
    {
        "closed stream".to_owned()
    }
}

} // verus!
