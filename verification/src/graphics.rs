//! The status of an interactive solving session: whether the driver loop
//! is currently stepping the solver or pausing it.

use vstd::prelude::*;

verus! {

/// Whether the driver is currently stepping the solver.
#[derive(Debug, Clone, Copy, PartialEq, Eq, Structural)]
pub enum SolvingStatus {
    /// The driver steps the solver between frames.
    Going,
    /// The driver leaves the board as it is.
    Stopped,
}

impl SolvingStatus {
    /// The opposite status: going becomes stopped, stopped becomes going.
    pub fn toggled(&self) -> (r: SolvingStatus)
        ensures
            *self is Going <==> r is Stopped,
    {
        match self {
            SolvingStatus::Going => SolvingStatus::Stopped,
            SolvingStatus::Stopped => SolvingStatus::Going,
        }
    }
}

} // verus!
