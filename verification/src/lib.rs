//! Execution-trace state tracking: call stacks that name the nodes of a running
//! program, the history of the run states those nodes reached, and the
//! distribution of run-state updates to observers that watch parts of the tree.

pub mod library;
pub mod run;
