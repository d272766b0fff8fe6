//! The run-state tracker of one logical thread of execution.

pub mod backfill;
pub mod call_stack;
pub mod frame;
pub mod history;
pub mod observer;
pub mod order;
pub mod run_state;
pub mod thread_run_state;

pub use call_stack::CallStack;
pub use frame::{NestedBlock, StackFrame};
pub use observer::{Observer, Registry};
pub use run_state::RunState;
pub use thread_run_state::ThreadRunState;
