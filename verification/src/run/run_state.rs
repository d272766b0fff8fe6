//! The run states that a node of the execution tree can be in.

use vstd::prelude::*;

verus! {

/// The outcome of executing a node, as far as it is known.
///
/// `PredicateSuccessful(false)` says more than that a predicate was evaluated:
/// the branch it guards was not taken, so what follows it in the order of
/// stacks, up to the next recorded node, has not run.
#[derive(Copy, Clone, Eq, PartialEq, Debug, Structural)]
pub enum RunState {
    NotRun,
    Running,
    Successful,
    PredicateSuccessful(bool),
    Failed,
}

} // verus!
