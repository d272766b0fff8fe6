use serpent_automation_executor::library::FunctionId;
use serpent_automation_executor::run::{CallStack, NestedBlock, RunState, StackFrame, ThreadRunState};

fn stack(frames: &[StackFrame]) -> CallStack {
    let mut stack = CallStack::new();
    for frame in frames {
        stack.push(*frame);
    }
    stack
}

fn call(id: usize) -> StackFrame {
    StackFrame::Call(FunctionId::new(id))
}

fn predicate(index: usize) -> StackFrame {
    StackFrame::NestedBlock(index, NestedBlock::Predicate)
}

fn body(index: usize) -> StackFrame {
    StackFrame::NestedBlock(index, NestedBlock::Body)
}

fn statement(index: usize) -> StackFrame {
    StackFrame::Statement(index)
}

#[test]
fn fresh_thread_has_run_nothing() {
    let state = ThreadRunState::new();
    assert!(state.current().is_empty());
    assert!(state.history().is_empty());
    assert!(!state.can_pop());
    assert_eq!(state.run_state(&stack(&[call(1)])), RunState::NotRun);
    assert_eq!(state.run_state(&stack(&[statement(0), call(1)])), RunState::NotRun);
    // Execution is at the root, so the root is in progress.
    assert_eq!(state.run_state(&stack(&[])), RunState::Running);
    let default = ThreadRunState::default();
    assert!(default.current().is_empty());
    assert!(default.history().is_empty());
}

#[test]
fn push_emits_running_for_nodes_only() {
    let mut state = ThreadRunState::new();
    assert_eq!(state.push(call(1)), Some((stack(&[call(1)]), RunState::Running)));
    assert_eq!(state.push(statement(0)), None);
    assert_eq!(state.push(StackFrame::Argument(0)), None);
    assert_eq!(
        state.push(call(2)),
        Some((stack(&[call(1), statement(0), StackFrame::Argument(0), call(2)]), RunState::Running))
    );
    assert_eq!(state.push(body(0)), None);
    assert_eq!(
        state.push(predicate(1)),
        Some((
            stack(&[call(1), statement(0), StackFrame::Argument(0), call(2), body(0), predicate(1)]),
            RunState::Running
        ))
    );
    assert_eq!(state.current().len(), 6);
    assert!(state.history().is_empty());
}

#[test]
fn call_runs_then_succeeds() {
    let mut state = ThreadRunState::new();
    let f1 = stack(&[call(1)]);
    let never = stack(&[call(1), call(2)]);

    state.push(call(1));
    assert_eq!(state.run_state(&f1), RunState::Running);

    assert!(state.can_pop());
    let update = state.pop_success();
    assert_eq!(update, Some((f1.clone(), RunState::Successful)));
    assert_eq!(state.run_state(&f1), RunState::Successful);
    assert_eq!(state.run_state(&never), RunState::NotRun);
    assert!(state.current().is_empty());
    assert_eq!(state.history(), &vec![(f1, RunState::Successful)]);
}

#[test]
fn false_predicate_leaves_a_gap() {
    let mut state = ThreadRunState::new();
    state.push(predicate(0));
    assert!(state.can_pop());
    let update = state.pop_predicate_success(false);
    assert_eq!(update, Some((stack(&[predicate(0)]), RunState::PredicateSuccessful(false))));

    assert_eq!(state.run_state(&stack(&[predicate(0)])), RunState::PredicateSuccessful(false));
    assert_eq!(state.run_state(&stack(&[body(0), statement(0)])), RunState::NotRun);
    assert_eq!(state.run_state(&stack(&[body(0), statement(0), call(1)])), RunState::NotRun);
    assert_eq!(state.run_state(&stack(&[predicate(0), call(1)])), RunState::NotRun);
    assert_eq!(state.run_state(&stack(&[predicate(1)])), RunState::NotRun);
}

#[test]
fn true_predicate_state_is_inherited_by_later_stacks() {
    let mut state = ThreadRunState::new();
    state.push(predicate(0));
    state.pop_predicate_success(true);
    assert_eq!(state.run_state(&stack(&[predicate(0)])), RunState::PredicateSuccessful(true));
    // No entry of its own and after the predicate: the predicate's state holds on.
    assert_eq!(state.run_state(&stack(&[body(0), statement(0)])), RunState::PredicateSuccessful(true));
    // Before the predicate in the order: not reached.
    assert_eq!(state.run_state(&stack(&[predicate(0), call(1)])), RunState::NotRun);
    assert_eq!(state.run_state(&stack(&[call(7)])), RunState::NotRun);
}

#[test]
fn failed_call_is_recorded() {
    let mut state = ThreadRunState::new();
    state.push(call(1));
    state.push(statement(0));
    state.push(call(2));
    let update = state.pop_failed();
    let inner = stack(&[call(1), statement(0), call(2)]);
    assert_eq!(update, Some((inner.clone(), RunState::Failed)));
    assert_eq!(state.run_state(&inner), RunState::Failed);
    assert_eq!(state.run_state(&stack(&[call(1)])), RunState::Running);
    assert_eq!(state.run_state(&stack(&[])), RunState::Running);
    assert_eq!(state.current(), &stack(&[call(1), statement(0)]));
}

#[test]
fn popping_a_waypoint_records_nothing() {
    let mut state = ThreadRunState::new();
    state.push(call(1));
    state.push(statement(0));
    assert!(state.can_pop());
    assert_eq!(state.pop_success(), None);
    assert!(state.history().is_empty());
    assert_eq!(state.current(), &stack(&[call(1)]));
    state.push(statement(1));
    assert_eq!(state.pop_failed(), None);
    state.push(body(0));
    assert_eq!(state.pop_predicate_success(true), None);
    assert!(state.history().is_empty());
}

#[test]
fn strict_prefixes_of_current_are_running() {
    let mut state = ThreadRunState::new();
    state.push(call(1));
    state.push(statement(0));
    state.push(call(2));
    state.pop_success();
    state.pop_success();
    state.push(statement(1));
    state.push(StackFrame::Argument(0));
    state.push(call(3));
    let current = state.current().clone();
    let mut prefix = CallStack::new();
    for frame in current.frames() {
        assert_eq!(state.run_state(&prefix), RunState::Running);
        prefix.push(*frame);
    }
    assert_eq!(state.run_state(&current), RunState::Running);
    assert_eq!(state.run_state(&stack(&[call(1), statement(0), call(2)])), RunState::Successful);
}

#[test]
fn repeated_state_is_compacted_away() {
    let mut state = ThreadRunState::new();
    state.push(call(0));
    state.push(statement(0));
    state.push(call(1));
    state.pop_success();
    state.pop_success();
    state.push(statement(1));
    state.push(call(2));
    // Same state as the entry before, which is no false predicate: not recorded.
    let update = state.pop_success();
    assert_eq!(update, Some((stack(&[call(0), statement(1), call(2)]), RunState::Successful)));
    assert_eq!(state.history(), &vec![(stack(&[call(0), statement(0), call(1)]), RunState::Successful)]);
    // The query answers as if the entry were there.
    assert_eq!(state.run_state(&stack(&[call(0), statement(1), call(2)])), RunState::Successful);
    assert_eq!(state.run_state(&stack(&[call(0), statement(0), call(1)])), RunState::Successful);
    assert_eq!(state.run_state(&stack(&[call(0), statement(0), call(0)])), RunState::NotRun);

    state.pop_success();
    state.push(statement(2));
    state.push(call(3));
    state.pop_failed();
    assert_eq!(
        state.history(),
        &vec![
            (stack(&[call(0), statement(0), call(1)]), RunState::Successful),
            (stack(&[call(0), statement(2), call(3)]), RunState::Failed),
        ]
    );
    assert_eq!(state.run_state(&stack(&[call(0), statement(1), call(2)])), RunState::Successful);
    assert_eq!(state.run_state(&stack(&[call(0), statement(2), call(3)])), RunState::Failed);
}

#[test]
fn entry_after_a_false_predicate_is_always_kept() {
    let mut state = ThreadRunState::new();
    state.push(call(0));
    state.push(statement(0));
    state.push(predicate(0));
    state.pop_predicate_success(false);
    state.push(predicate(1));
    // The same state again, but behind a false predicate: kept, it ends the gap.
    state.pop_predicate_success(false);
    assert_eq!(
        state.history(),
        &vec![
            (stack(&[call(0), statement(0), predicate(0)]), RunState::PredicateSuccessful(false)),
            (stack(&[call(0), statement(0), predicate(1)]), RunState::PredicateSuccessful(false)),
        ]
    );
    state.push(predicate(2));
    state.pop_predicate_success(true);
    state.push(body(2));
    state.push(statement(0));
    state.push(call(5));
    state.pop_success();
    assert_eq!(state.history().len(), 4);
    assert_eq!(
        state.run_state(&stack(&[call(0), statement(0), body(0), statement(0), call(9)])),
        RunState::NotRun
    );
    assert_eq!(
        state.run_state(&stack(&[call(0), statement(0), body(1), statement(0), call(9)])),
        RunState::NotRun
    );
    assert_eq!(
        state.run_state(&stack(&[call(0), statement(0), predicate(2)])),
        RunState::PredicateSuccessful(true)
    );
    assert_eq!(
        state.run_state(&stack(&[call(0), statement(0), body(2), statement(0), call(5)])),
        RunState::Successful
    );
}

#[test]
fn history_stays_sorted() {
    let mut state = ThreadRunState::new();
    state.push(call(0));
    for index in 0..4 {
        state.push(statement(index));
        state.push(StackFrame::Argument(0));
        state.push(call(index));
        if index % 2 == 0 {
            state.pop_success();
        } else {
            state.pop_failed();
        }
        state.pop_success();
        state.push(call(10 + index));
        assert!(state.can_pop());
        if index % 2 == 0 {
            state.pop_failed();
        } else {
            state.pop_success();
        }
        state.pop_success();
    }
    assert!(state.can_pop());
    state.pop_success();
    // Of the nine nodes finalized, four repeat the state of the node before them.
    let history = state.history();
    assert_eq!(history.len(), 5);
    for pair in history.windows(2) {
        assert!(pair[0].0 < pair[1].0);
    }
    for entry in history {
        assert!(entry.0.is_node());
    }
    assert_eq!(history[4], (stack(&[call(0), statement(3), call(13)]), RunState::Successful));
    assert_eq!(state.run_state(&stack(&[call(0)])), RunState::Successful);
    assert_eq!(state.run_state(&stack(&[call(0), statement(1), call(11)])), RunState::Successful);
    assert_eq!(
        state.run_state(&stack(&[call(0), statement(1), StackFrame::Argument(0), call(1)])),
        RunState::Failed
    );
}

#[test]
fn cannot_pop_the_root_or_out_of_order() {
    let mut state = ThreadRunState::new();
    assert!(!state.can_pop());
    state.push(call(5));
    assert!(state.can_pop());
    state.pop_success();
    assert!(!state.can_pop());
    // A node that sorts before the last recorded one cannot be finalized.
    state.push(call(4));
    assert!(!state.can_pop());
    assert_eq!(state.history().len(), 1);
    assert_eq!(state.run_state(&stack(&[call(4)])), RunState::Running);
}

#[test]
fn waypoint_may_be_left_in_any_order() {
    let mut state = ThreadRunState::new();
    state.push(call(5));
    state.pop_success();
    state.push(statement(0));
    // A position that names no node records nothing, so the order does not matter.
    assert!(state.can_pop());
    assert_eq!(state.pop_success(), None);
    assert_eq!(state.history().len(), 1);
}
