use vstd::prelude::*;
use crate::requirement::Requirement;

verus! {

/// What can go wrong when a session is asked for.
#[derive(Debug, PartialEq, Eq)]
pub enum GymError {
    /// The requirement cannot be met with the plates and bars of the gym, or
    /// cannot be reached from the states that meet the requirements before
    /// it.
    ImpossibleRequirement(Requirement),
    /// The text is no requirement.
    InvalidRequirement(String),
    /// The text is no weight.
    InvalidWeight(String),
    /// The text names no kind of bar.
    InvalidBarKind(String),
}

} // verus!
