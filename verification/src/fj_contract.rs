use vstd::prelude::*;

verus! {

/// Represent actions that an agent takes in the FJ contracting model.
#[derive(Copy, Clone, Debug, PartialEq, Eq, Structural)]
pub enum AgentAction {
    /// The agent chooses an initial opinion from his action set. The index of this opinion is given.
    Deterministic(usize),
    /// The agent randomizes.
    Random,
}

} // verus!
