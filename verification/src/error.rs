use vstd::prelude::*;

verus! {

/// The ways in which a call can fail.
#[derive(Clone, Copy, Debug, PartialEq, Eq, Structural)]
pub enum Error {
    /// A cell was looked up that the graph does not contain.
    OutOfBounds,
    /// No chain of edges leads from the start to the goal.
    NoPathFound,
    /// A queue was popped while it held nothing.
    EmptyQueue,
    /// A cost was offered that is infinite or not a number.
    NonFiniteCost,
}

} // verus!
