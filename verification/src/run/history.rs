//! The history of finalized nodes as a mathematical sequence, and the point
//! query on it.
//!
//! A history is a sequence of entries, each a stack with the state in which
//! its node ended, in strictly increasing order of the stacks. A stack without
//! an entry of its own takes its state from the nearest entry before it.

use vstd::prelude::*;
use crate::run::call_stack::is_node_stack;
use crate::run::frame::StackFrame;
use crate::run::order::{
    lemma_descendant_comes_first, lemma_order_is_total, lemma_order_is_transitive, stack_lt,
};
use crate::run::run_state::RunState;

verus! {

/// The entries stand in strictly increasing order of their stacks.
pub open spec fn is_sorted(history: Seq<(Seq<StackFrame>, RunState)>) -> bool {
    forall|i: int, j: int| 0 <= i < j < history.len() ==> stack_lt(history[i].0, history[j].0)
}

/// Every entry belongs to a trace node.
pub open spec fn holds_nodes_only(history: Seq<(Seq<StackFrame>, RunState)>) -> bool {
    forall|i: int| 0 <= i < history.len() ==> is_node_stack(#[trigger] history[i].0)
}

/// What an entry says of a stack that does not come before it: its own state
/// where it is the stack's entry; otherwise the stack lies in the gap behind
/// the entry, where nothing has run if the entry is a predicate that came out
/// false, and where the entry's state still holds if it is anything else.
pub open spec fn settled_by(entry: (Seq<StackFrame>, RunState), stack: Seq<StackFrame>) -> RunState {
    if entry.0 == stack {
        entry.1
    } else if entry.1 == RunState::PredicateSuccessful(false) {
        RunState::NotRun
    } else {
        entry.1
    }
}

/// The state that the history records for a stack: the last entry that does
/// not come after the stack settles it, and a stack before all entries has not
/// run.
pub open spec fn recorded_state(
    history: Seq<(Seq<StackFrame>, RunState)>,
    stack: Seq<StackFrame>,
) -> RunState
    decreases history.len(),
{
    if history.len() == 0 {
        RunState::NotRun
    } else if stack_lt(stack, history.last().0) {
        recorded_state(history.drop_last(), stack)
    } else {
        settled_by(history.last(), stack)
    }
}

/// The run state of a stack: running while execution is at or below it,
/// otherwise what the history records.
pub open spec fn run_state_of(
    current: Seq<StackFrame>,
    history: Seq<(Seq<StackFrame>, RunState)>,
    stack: Seq<StackFrame>,
) -> RunState {
    if stack.is_prefix_of(current) {
        RunState::Running
    } else {
        recorded_state(history, stack)
    }
}

/// Whether a new entry with this state tells more than the history already
/// does: it is the first entry, or it ends the gap behind a predicate that
/// came out false, or its state differs from the last one recorded.
pub open spec fn is_informative(history: Seq<(Seq<StackFrame>, RunState)>, state: RunState) -> bool {
    ||| history.len() == 0
    ||| history.last().1 == RunState::PredicateSuccessful(false)
    ||| history.last().1 != state
}

/// The history after a node has been finalized.
pub open spec fn with_finalized(
    history: Seq<(Seq<StackFrame>, RunState)>,
    stack: Seq<StackFrame>,
    state: RunState,
) -> Seq<(Seq<StackFrame>, RunState)> {
    if is_informative(history, state) {
        history.push((stack, state))
    } else {
        history
    }
}

/// The update that is emitted when a position is entered: a node is running
/// from then on, and any other position emits nothing.
pub open spec fn update_on_entering(position: Seq<StackFrame>) -> Option<
    (Seq<StackFrame>, RunState),
> {
    if is_node_stack(position) {
        Some((position, RunState::Running))
    } else {
        None
    }
}

/// The history after the current position has been left in the given state:
/// a position that names a node is finalized, any other leaves no entry.
pub open spec fn history_after_leaving(
    current: Seq<StackFrame>,
    history: Seq<(Seq<StackFrame>, RunState)>,
    state: RunState,
) -> Seq<(Seq<StackFrame>, RunState)> {
    if is_node_stack(current) {
        with_finalized(history, current, state)
    } else {
        history
    }
}

/// The update that is emitted when the current position is left in the given
/// state: one for a node, with the stack as it was before the frame was removed.
pub open spec fn update_on_leaving(current: Seq<StackFrame>, state: RunState) -> Option<
    (Seq<StackFrame>, RunState),
> {
    if is_node_stack(current) {
        Some((current, state))
    } else {
        None
    }
}

/// `count` entries do not come after the stack, and all others do.
pub open spec fn splits_at(
    history: Seq<(Seq<StackFrame>, RunState)>,
    stack: Seq<StackFrame>,
    count: int,
) -> bool {
    &&& 0 <= count <= history.len()
    &&& forall|i: int| 0 <= i < count ==> !stack_lt(stack, #[trigger] history[i].0)
    &&& forall|i: int| count <= i < history.len() ==> stack_lt(stack, #[trigger] history[i].0)
}

/// An entry after the last one of a sorted history keeps the history sorted.
pub proof fn lemma_push_keeps_sorted(
    history: Seq<(Seq<StackFrame>, RunState)>,
    stack: Seq<StackFrame>,
    state: RunState,
)
    requires
        is_sorted(history),
        history.len() > 0 ==> stack_lt(history.last().0, stack),
    ensures
        is_sorted(history.push((stack, state))),
{
    let longer = history.push((stack, state));
    assert forall|i: int, j: int| 0 <= i < j < longer.len() implies stack_lt(
        longer[i].0,
        longer[j].0,
    ) by {
        if j == history.len() && i < history.len() - 1 {
            lemma_order_is_transitive(history[i].0, history.last().0, stack);
        }
    }
}

/// In a sorted history the query is settled by the entry at which the history
/// splits: the last one that does not come after the stack.
pub proof fn lemma_recorded_state_at_split(
    history: Seq<(Seq<StackFrame>, RunState)>,
    stack: Seq<StackFrame>,
    count: int,
)
    requires
        splits_at(history, stack, count),
    ensures
        recorded_state(history, stack) == (if count == 0 {
            RunState::NotRun
        } else {
            settled_by(history[count - 1], stack)
        }),
    decreases history.len(),
{
    if history.len() > 0 && count < history.len() {
        let shorter = history.drop_last();
        assert(splits_at(shorter, stack, count)) by {
            assert forall|i: int| 0 <= i < count implies !stack_lt(stack, #[trigger] shorter[i].0) by {
                assert(shorter[i] == history[i]);
            }
        }
        lemma_recorded_state_at_split(shorter, stack, count);
    }
}

/// A sorted history splits at some entry for every stack.
pub proof fn lemma_split_exists(history: Seq<(Seq<StackFrame>, RunState)>, stack: Seq<StackFrame>) -> (count: int)
    requires
        is_sorted(history),
    ensures
        splits_at(history, stack, count),
    decreases history.len(),
{
    if history.len() == 0 {
        0
    } else if stack_lt(stack, history.last().0) {
        let shorter = history.drop_last();
        let count = lemma_split_exists(shorter, stack);
        assert forall|i: int| 0 <= i < count implies !stack_lt(stack, #[trigger] history[i].0) by {
            assert(shorter[i] == history[i]);
        }
        assert forall|i: int| count <= i < history.len() implies stack_lt(
            stack,
            #[trigger] history[i].0,
        ) by {
            if i < shorter.len() {
                assert(shorter[i] == history[i]);
            }
        }
        count
    } else {
        let last = history.len() - 1;
        assert forall|i: int| 0 <= i < history.len() implies !stack_lt(
            stack,
            #[trigger] history[i].0,
        ) by {
            if i < last && stack_lt(stack, history[i].0) {
                lemma_order_is_transitive(stack, history[i].0, history[last].0);
            }
        }
        history.len() as int
    }
}

/// A stack with an entry of its own in a sorted history has that entry's state.
pub proof fn lemma_own_entry_settles(
    history: Seq<(Seq<StackFrame>, RunState)>,
    i: int,
)
    requires
        is_sorted(history),
        0 <= i < history.len(),
    ensures
        recorded_state(history, history[i].0) == history[i].1,
    decreases history.len(),
{
    let stack = history[i].0;
    lemma_order_is_total(stack, history.last().0);
    if i < history.len() - 1 {
        let shorter = history.drop_last();
        assert(shorter[i] == history[i]);
        lemma_own_entry_settles(shorter, i);
    }
}

/// A stack that comes before every entry has not run.
pub proof fn lemma_before_all_entries(
    history: Seq<(Seq<StackFrame>, RunState)>,
    stack: Seq<StackFrame>,
)
    requires
        forall|i: int| 0 <= i < history.len() ==> stack_lt(stack, #[trigger] history[i].0),
    ensures
        recorded_state(history, stack) == RunState::NotRun,
{
    lemma_recorded_state_at_split(history, stack, 0);
}

/// A node that is finalized after the entries of a sorted history comes after
/// each of them in the order, whether or not an entry is recorded for it, and
/// the history stays sorted: what was finalized earlier has the lesser stack.
pub proof fn lemma_finalized_in_order(
    history: Seq<(Seq<StackFrame>, RunState)>,
    stack: Seq<StackFrame>,
    state: RunState,
)
    requires
        is_sorted(history),
        history.len() > 0 ==> stack_lt(history.last().0, stack),
    ensures
        is_sorted(with_finalized(history, stack, state)),
        forall|i: int| 0 <= i < history.len() ==> stack_lt(#[trigger] history[i].0, stack),
{
    lemma_push_keeps_sorted(history, stack, state);
    let longer = history.push((stack, state));
    assert forall|i: int| 0 <= i < history.len() implies stack_lt(#[trigger] history[i].0, stack) by {
        assert(longer[i] == history[i]);
        assert(longer[history.len() as int].0 == stack);
    }
}

/// Every stack that is a strict prefix of the current one is running.
pub proof fn lemma_ancestors_of_current_are_running(
    current: Seq<StackFrame>,
    history: Seq<(Seq<StackFrame>, RunState)>,
    stack: Seq<StackFrame>,
)
    requires
        stack.len() < current.len(),
        stack.is_prefix_of(current),
    ensures
        run_state_of(current, history, stack) == RunState::Running,
{
}

/// Leaving out an entry that repeats the state of the entry before it changes
/// the answer to no query, unless that state is a predicate that came out
/// false.
pub proof fn lemma_compaction_changes_no_query(
    current: Seq<StackFrame>,
    history: Seq<(Seq<StackFrame>, RunState)>,
    stack: Seq<StackFrame>,
    state: RunState,
    query: Seq<StackFrame>,
)
    requires
        history.len() > 0,
        stack_lt(history.last().0, stack),
        history.last().1 == state,
        state != RunState::PredicateSuccessful(false),
    ensures
        with_finalized(history, stack, state) == history,
        run_state_of(current, history, query) == run_state_of(
            current,
            history.push((stack, state)),
            query,
        ),
{
    let longer = history.push((stack, state));
    assert(longer.drop_last() =~= history);
    assert(longer.last() == (stack, state));
    if !stack_lt(query, stack) {
        lemma_order_is_total(query, stack);
        lemma_order_is_total(query, history.last().0);
        if stack_lt(query, history.last().0) {
            lemma_order_is_transitive(query, history.last().0, stack);
        }
        if query != stack {
            lemma_order_is_transitive(history.last().0, stack, query);
        }
    }
}

/// A stack in the gap behind a predicate that came out false has not run: the
/// entry before it is such a predicate, it has no entry of its own, and
/// execution is not at or below it.
pub proof fn lemma_nothing_runs_behind_a_false_predicate(
    current: Seq<StackFrame>,
    history: Seq<(Seq<StackFrame>, RunState)>,
    i: int,
    query: Seq<StackFrame>,
)
    requires
        is_sorted(history),
        0 <= i < history.len(),
        history[i].1 == RunState::PredicateSuccessful(false),
        stack_lt(history[i].0, query),
        i + 1 < history.len() ==> stack_lt(query, history[i + 1].0),
        !query.is_prefix_of(current),
    ensures
        run_state_of(current, history, query) == RunState::NotRun,
{
    lemma_order_is_total(query, history[i].0);
    assert forall|k: int| 0 <= k < i + 1 implies !stack_lt(query, #[trigger] history[k].0) by {
        if k < i && stack_lt(query, history[k].0) {
            lemma_order_is_transitive(query, history[k].0, history[i].0);
        }
    }
    assert forall|k: int| i + 1 <= k < history.len() implies stack_lt(
        query,
        #[trigger] history[k].0,
    ) by {
        if i + 1 < k {
            lemma_order_is_transitive(query, history[i + 1].0, history[k].0);
        }
    }
    lemma_recorded_state_at_split(history, query, i + 1);
}

/// Where all that is recorded is one predicate that came out false, every
/// other stack that execution is not at or below has not run.
pub proof fn lemma_only_a_false_predicate(
    current: Seq<StackFrame>,
    predicate: Seq<StackFrame>,
    query: Seq<StackFrame>,
)
    requires
        query != predicate,
        !query.is_prefix_of(current),
    ensures
        run_state_of(current, seq![(predicate, RunState::PredicateSuccessful(false))], query)
            == RunState::NotRun,
{
    let history = seq![(predicate, RunState::PredicateSuccessful(false))];
    assert(history.last() == (predicate, RunState::PredicateSuccessful(false)));
    assert(history.drop_last() =~= Seq::<(Seq<StackFrame>, RunState)>::empty());
    assert(recorded_state(history.drop_last(), query) == RunState::NotRun);
}

/// In a sorted history every stack is settled by the nearest entry that does
/// not come after it, or has not run where there is none.
pub proof fn lemma_nearest_entry_settles(
    history: Seq<(Seq<StackFrame>, RunState)>,
    stack: Seq<StackFrame>,
) -> (count: int)
    requires
        is_sorted(history),
    ensures
        splits_at(history, stack, count),
        recorded_state(history, stack) == (if count == 0 {
            RunState::NotRun
        } else {
            settled_by(history[count - 1], stack)
        }),
{
    let count = lemma_split_exists(history, stack);
    lemma_recorded_state_at_split(history, stack, count);
    count
}

/// A node that has been finalized has the state in which it ended, whether or
/// not an entry was recorded for it.
pub proof fn lemma_finalized_state_is_recorded(
    history: Seq<(Seq<StackFrame>, RunState)>,
    stack: Seq<StackFrame>,
    state: RunState,
)
    requires
        history.len() > 0 ==> stack_lt(history.last().0, stack),
    ensures
        recorded_state(with_finalized(history, stack, state), stack) == state,
{
    lemma_order_is_total(stack, stack);
    if is_informative(history, state) {
        let longer = history.push((stack, state));
        assert(longer.last() == (stack, state));
    } else {
        lemma_order_is_total(stack, history.last().0);
    }
}

/// Finalizing a node changes nothing for the stacks before it: what was
/// recorded stays as it was.
pub proof fn lemma_finalizing_keeps_earlier_states(
    history: Seq<(Seq<StackFrame>, RunState)>,
    stack: Seq<StackFrame>,
    state: RunState,
    earlier: Seq<StackFrame>,
)
    requires
        stack_lt(earlier, stack),
    ensures
        recorded_state(with_finalized(history, stack, state), earlier) == recorded_state(
            history,
            earlier,
        ),
        history.is_prefix_of(with_finalized(history, stack, state)),
{
    let longer = history.push((stack, state));
    assert(longer.drop_last() =~= history);
    assert(longer.last() == (stack, state));
    assert(history.is_prefix_of(longer));
    assert(history.is_prefix_of(history));
}

/// Where everything recorded comes before the current position, it still does
/// after the position has been left: a node sorts after all that lies below
/// it, so execution that goes on from the parent never falls behind the
/// history.
pub proof fn lemma_leaving_keeps_order(
    current: Seq<StackFrame>,
    history: Seq<(Seq<StackFrame>, RunState)>,
    state: RunState,
)
    requires
        current.len() > 0,
        history.len() > 0 ==> stack_lt(history.last().0, current),
    ensures
        stack_lt(current, current.drop_last()),
        ({
            let after = history_after_leaving(current, history, state);
            after.len() > 0 ==> stack_lt(after.last().0, current.drop_last())
        }),
{
    let parent = current.drop_last();
    assert(parent.is_prefix_of(current)) by {
        assert(parent =~= current.subrange(0, parent.len() as int));
    }
    lemma_descendant_comes_first(parent, current);
    if history.len() > 0 {
        lemma_order_is_transitive(history.last().0, current, parent);
    }
    let longer = history.push((current, state));
    assert(longer.last() == (current, state));
}

} // verus!
