//! The run state of one logical thread of execution: where execution stands,
//! and how the nodes it has left ended.

use vstd::prelude::*;
use crate::run::backfill::{
    backfill, finalized_children, lemma_children_lie_together, lemma_finalized_children_concat,
    lemma_finalized_children_in_range, running_chain, running_descendants,
};
use crate::run::call_stack::{is_node_stack, CallStack};
use crate::run::frame::StackFrame;
use crate::run::history::{
    history_after_leaving, holds_nodes_only, is_sorted, lemma_push_keeps_sorted,
    lemma_recorded_state_at_split, run_state_of, splits_at, update_on_entering,
    update_on_leaving,
};
use crate::run::observer::{is_forwarded, Registry};
use crate::run::order::{lemma_order_is_transitive, stack_lt};
use crate::run::run_state::RunState;

verus! {

/// The mathematical content of a list of entries.
pub open spec fn entries_of(entries: Seq<(CallStack, RunState)>) -> Seq<(Seq<StackFrame>, RunState)> {
    Seq::new(entries.len(), |i: int| (entries[i].0@, entries[i].1))
}

/// The mathematical content of an update that may be absent.
pub open spec fn update_of(update: Option<(CallStack, RunState)>) -> Option<(Seq<StackFrame>, RunState)> {
    match update {
        Some(update) => Some((update.0@, update.1)),
        None => None,
    }
}

/// What a `ThreadRunState` holds, as plain mathematical values.
pub struct ThreadRunStateView {
    /// The stack of the frames that are being executed.
    pub current: Seq<StackFrame>,
    /// The finalized nodes with their states, in the order of their stacks.
    pub history: Seq<(Seq<StackFrame>, RunState)>,
    /// The open nodes of each observer, by the observer's number.
    pub observers: Map<usize, Set<Seq<StackFrame>>>,
}

/// The live position of a thread of execution, the history of the nodes that
/// it has finalized, and the observers that watch it.
///
/// The history is kept in strictly increasing order of the stacks and holds
/// trace nodes only.
pub struct ThreadRunState {
    history: Vec<(CallStack, RunState)>,
    current: CallStack,
    observers: Registry,
}

impl View for ThreadRunState {
    type V = ThreadRunStateView;

    closed spec fn view(&self) -> ThreadRunStateView {
        ThreadRunStateView {
            current: self.current@,
            history: entries_of(self.history@),
            observers: self.observers@,
        }
    }
}

impl Default for ThreadRunState {
    fn default() -> (state: ThreadRunState)
        ensures
            state.well_formed(),
            state@.current == Seq::<StackFrame>::empty(),
            state@.history == Seq::<(Seq<StackFrame>, RunState)>::empty(),
            state@.observers == Map::<usize, Set<Seq<StackFrame>>>::empty(),
    {
        ThreadRunState::new()
    }
}

impl ThreadRunState {
    /// The history stands in strictly increasing order of its stacks and holds
    /// trace nodes only. Every constructor establishes this and every method
    /// keeps it.
    pub closed spec fn well_formed(self) -> bool {
        &&& is_sorted(self@.history)
        &&& holds_nodes_only(self@.history)
        &&& self.observers.well_formed()
    }

    /// The history of a well-formed state is sorted and holds nodes only.
    pub proof fn lemma_history_is_sorted(self)
        requires
            self.well_formed(),
        ensures
            is_sorted(self@.history),
            holds_nodes_only(self@.history),
    {
    }

    /// Whether the node at the current position may be left: there is a frame
    /// to remove, and where the position names a node, its stack comes after
    /// the last one recorded.
    pub open spec fn may_pop(self) -> bool {
        &&& self@.current.len() > 0
        &&& is_node_stack(self@.current) && self@.history.len() > 0 ==> stack_lt(
            self@.history.last().0,
            self@.current,
        )
    }

    /// A thread that has not begun: the current stack is the root and nothing
    /// is recorded.
    pub fn new() -> (state: ThreadRunState)
        ensures
            state.well_formed(),
            state@.current == Seq::<StackFrame>::empty(),
            state@.history == Seq::<(Seq<StackFrame>, RunState)>::empty(),
            state@.observers == Map::<usize, Set<Seq<StackFrame>>>::empty(),
    {
        let state = ThreadRunState {
            history: Vec::new(),
            current: CallStack::new(),
            observers: Registry::new(),
        };
        assert(state@.history =~= Seq::<(Seq<StackFrame>, RunState)>::empty());
        state
    }

    /// The stack of the frames that are being executed.
    pub fn current(&self) -> (current: &CallStack)
        ensures
            current@ == self@.current,
    {
        &self.current
    }

    /// The recorded entries, in strictly increasing order of their stacks.
    pub fn history(&self) -> (history: &Vec<(CallStack, RunState)>)
        ensures
            entries_of(history@) == self@.history,
    {
        &self.history
    }

    /// The number of entries that do not come after the stack; the history is
    /// sorted, so they are the first ones.
    fn count_not_after(&self, stack: &CallStack) -> (count: usize)
        requires
            self.well_formed(),
        ensures
            splits_at(self@.history, stack@, count as int),
    {
        let ghost history = self@.history;
        let mut low: usize = 0;
        let mut high: usize = self.history.len();
        while low < high
            invariant
                history == self@.history,
                is_sorted(history),
                0 <= low <= high <= history.len(),
                forall|i: int| 0 <= i < low ==> !stack_lt(stack@, #[trigger] history[i].0),
                forall|i: int| high <= i < history.len() ==> stack_lt(stack@, #[trigger] history[i].0),
            decreases high - low,
        {
            let middle = low + (high - low) / 2;
            assert(history[middle as int].0 == self.history@[middle as int].0@);
            if *stack < self.history[middle].0 {
                assert forall|i: int| middle <= i < history.len() implies stack_lt(
                    stack@,
                    #[trigger] history[i].0,
                ) by {
                    if middle < i {
                        lemma_order_is_transitive(stack@, history[middle as int].0, history[i].0);
                    }
                }
                high = middle;
            } else {
                assert forall|i: int| 0 <= i < middle + 1 implies !stack_lt(
                    stack@,
                    #[trigger] history[i].0,
                ) by {
                    if i < middle && stack_lt(stack@, history[i].0) {
                        lemma_order_is_transitive(stack@, history[i].0, history[middle as int].0);
                    }
                }
                low = middle + 1;
            }
        }
        low
    }

    /// The run state of the node that the stack names.
    ///
    /// A stack at or above the current position is running. Otherwise the
    /// stack's own entry tells its state; without one, the nearest entry before
    /// the stack does: nothing has run behind a predicate that came out false,
    /// and behind any other entry its state still holds. A stack before all
    /// entries has not run.
    pub fn run_state(&self, stack: &CallStack) -> (state: RunState)
        requires
            self.well_formed(),
        ensures
            state == run_state_of(self@.current, self@.history, stack@),
    {
        if self.current.starts_with(stack) {
            return RunState::Running;
        }
        let count = self.count_not_after(stack);
        proof {
            lemma_recorded_state_at_split(self@.history, stack@, count as int);
        }
        if count == 0 {
            RunState::NotRun
        } else {
            let entry = &self.history[count - 1];
            assert(self@.history[count - 1] == (entry.0@, entry.1));
            if entry.0 == *stack {
                entry.1
            } else {
                match entry.1 {
                    RunState::PredicateSuccessful(false) => RunState::NotRun,
                    state => state,
                }
            }
        }
    }

    /// Enters a frame. Where the new position names a node, the update that
    /// says it is running is returned.
    pub fn push(&mut self, item: StackFrame) -> (update: Option<(CallStack, RunState)>)
        requires
            old(self).well_formed(),
        ensures
            final(self).well_formed(),
            final(self)@.current == old(self)@.current.push(item),
            final(self)@.history == old(self)@.history,
            final(self)@.observers == old(self)@.observers,
            update_of(update) == update_on_entering(old(self)@.current.push(item)),
    {
        self.current.push(item);
        if self.current.is_node() {
            Some((self.current.clone(), RunState::Running))
        } else {
            None
        }
    }

    /// Whether `pop_success`, `pop_failed` and `pop_predicate_success` may be
    /// called.
    pub fn can_pop(&self) -> (ok: bool)
        ensures
            ok == self.may_pop(),
    {
        if self.current.is_empty() {
            return false;
        }
        if !self.current.is_node() || self.history.len() == 0 {
            return true;
        }
        let last = &self.history[self.history.len() - 1];
        assert(self@.history.last() == (last.0@, last.1));
        last.0 < self.current
    }

    /// Leaves the current position, whose node has succeeded.
    pub fn pop_success(&mut self) -> (update: Option<(CallStack, RunState)>)
        requires
            old(self).well_formed(),
            old(self).may_pop(),
        ensures
            final(self).well_formed(),
            final(self)@.current == old(self)@.current.drop_last(),
            final(self)@.observers == old(self)@.observers,
            final(self)@.history == history_after_leaving(
                old(self)@.current,
                old(self)@.history,
                RunState::Successful,
            ),
            update_of(update) == update_on_leaving(old(self)@.current, RunState::Successful),
    {
        self.pop(RunState::Successful)
    }

    /// Leaves the current position, whose node has failed.
    pub fn pop_failed(&mut self) -> (update: Option<(CallStack, RunState)>)
        requires
            old(self).well_formed(),
            old(self).may_pop(),
        ensures
            final(self).well_formed(),
            final(self)@.current == old(self)@.current.drop_last(),
            final(self)@.observers == old(self)@.observers,
            final(self)@.history == history_after_leaving(
                old(self)@.current,
                old(self)@.history,
                RunState::Failed,
            ),
            update_of(update) == update_on_leaving(old(self)@.current, RunState::Failed),
    {
        self.pop(RunState::Failed)
    }

    /// Leaves the current position, whose predicate has been evaluated to `result`.
    pub fn pop_predicate_success(&mut self, result: bool) -> (update: Option<(CallStack, RunState)>)
        requires
            old(self).well_formed(),
            old(self).may_pop(),
        ensures
            final(self).well_formed(),
            final(self)@.current == old(self)@.current.drop_last(),
            final(self)@.observers == old(self)@.observers,
            final(self)@.history == history_after_leaving(
                old(self)@.current,
                old(self)@.history,
                RunState::PredicateSuccessful(result),
            ),
            update_of(update) == update_on_leaving(
                old(self)@.current,
                RunState::PredicateSuccessful(result),
            ),
    {
        self.pop(RunState::PredicateSuccessful(result))
    }

    /// Finalizes the node at the current position, if it names one, and removes
    /// the last frame. The entry is recorded only where it is informative.
    fn pop(&mut self, run_state: RunState) -> (update: Option<(CallStack, RunState)>)
        requires
            old(self).well_formed(),
            old(self).may_pop(),
        ensures
            final(self).well_formed(),
            final(self)@.current == old(self)@.current.drop_last(),
            final(self)@.observers == old(self)@.observers,
            final(self)@.history == history_after_leaving(
                old(self)@.current,
                old(self)@.history,
                run_state,
            ),
            update_of(update) == update_on_leaving(old(self)@.current, run_state),
    {
        let mut update: Option<(CallStack, RunState)> = None;
        if self.current.is_node() {
            let ghost before = self@.history;
            let informative = match self.history.last() {
                None => true,
                Some(last) => {
                    assert(before.last() == (last.0@, last.1));
                    match last.1 {
                        RunState::PredicateSuccessful(false) => true,
                        state => state != run_state,
                    }
                },
            };
            if informative {
                let entry = (self.current.clone(), run_state);
                proof {
                    let after = before.push((self.current@, run_state));
                    lemma_push_keeps_sorted(before, self.current@, run_state);
                    assert(entries_of(self.history@.push(entry)) =~= after);
                    assert forall|i: int| 0 <= i < after.len() implies is_node_stack(
                        #[trigger] after[i].0,
                    ) by {
                        if i < before.len() {
                            assert(after[i] == before[i]);
                        }
                    }
                }
                self.history.push(entry);
            }
            update = Some((self.current.clone(), run_state));
        }
        self.current.pop();
        update
    }

    /// The running nodes strictly below `node`, the deepest first.
    fn running_below(&self, node: &CallStack) -> (states: Vec<(CallStack, RunState)>)
        ensures
            entries_of(states@) == running_descendants(self@.current, node@),
    {
        let mut states: Vec<(CallStack, RunState)> = Vec::new();
        let ghost current = self@.current;
        let ghost floor = node@.len() as int;
        assert(entries_of(states@) =~= Seq::<(Seq<StackFrame>, RunState)>::empty());
        if self.current.starts_with(node) {
            let mut walker = self.current.clone();
            assert(current.take(current.len() as int) =~= current);
            while walker.len() > node.len()
                invariant
                    current == self@.current,
                    floor == node@.len(),
                    floor <= walker@.len() <= current.len(),
                    walker@ == current.take(walker@.len() as int),
                    entries_of(states@) + running_chain(current, floor, walker@.len() as int)
                        == running_chain(current, floor, current.len() as int),
                decreases walker@.len(),
            {
                let ghost len = walker@.len() as int;
                let ghost told = entries_of(states@);
                if walker.is_node() {
                    let entry = (walker.clone(), RunState::Running);
                    assert(entries_of(states@.push(entry)) =~= told + seq![(walker@, RunState::Running)]);
                    states.push(entry);
                    assert(entries_of(states@) + running_chain(current, floor, len - 1) =~= told
                        + running_chain(current, floor, len));
                }
                walker.pop();
                assert(walker@ =~= current.take(len - 1));
            }
            assert(entries_of(states@) + running_chain(current, floor, floor) =~= entries_of(
                states@,
            ));
        }
        states
    }

    /// The entries of the history whose parent is `node`, the latest first.
    ///
    /// The descendants of a node lie together in a sorted history, directly
    /// before the place of the node itself, so only they are looked at.
    fn finalized_below(&self, node: &CallStack) -> (states: Vec<(CallStack, RunState)>)
        requires
            self.well_formed(),
        ensures
            entries_of(states@) == finalized_children(self@.history, node@),
    {
        let count = self.count_not_after(node);
        let ghost history = self@.history;
        let mut states: Vec<(CallStack, RunState)> = Vec::new();
        let mut low = count;
        assert(entries_of(states@) =~= Seq::<(Seq<StackFrame>, RunState)>::empty());
        assert(history.subrange(count as int, count as int) =~= Seq::<
            (Seq<StackFrame>, RunState),
        >::empty());
        while low > 0 && self.history[low - 1].0.starts_with(node)
            invariant
                history == self@.history,
                low <= count <= history.len(),
                entries_of(states@) == finalized_children(
                    history.subrange(low as int, count as int),
                    node@,
                ),
            decreases low,
        {
            let ghost told = entries_of(states@);
            let ghost rest = history.subrange(low as int, count as int);
            low -= 1;
            let entry = &self.history[low];
            assert(history[low as int] == (entry.0@, entry.1));
            let is_child = match entry.0.parent() {
                Some(parent) => parent == *node,
                None => false,
            };
            proof {
                let one = seq![history[low as int]];
                assert(history.subrange(low as int, count as int) =~= one + rest);
                lemma_finalized_children_concat(one, rest, node@);
                assert(one.drop_last() =~= Seq::<(Seq<StackFrame>, RunState)>::empty());
                assert(one.last() == history[low as int]);
                assert(finalized_children(one.drop_last(), node@) =~= Seq::<
                    (Seq<StackFrame>, RunState),
                >::empty());
            }
            if is_child {
                let copy = (entry.0.clone(), entry.1);
                assert(entries_of(states@.push(copy)) =~= told + seq![history[low as int]]);
                states.push(copy);
                assert(finalized_children(seq![history[low as int]], node@) =~= seq![
                    history[low as int],
                ]);
            } else {
                assert(finalized_children(seq![history[low as int]], node@) =~= Seq::<
                    (Seq<StackFrame>, RunState),
                >::empty());
                assert(told + Seq::<(Seq<StackFrame>, RunState)>::empty() =~= told);
            }
        }
        proof {
            if low > 0 {
                let edge = &self.history@[low - 1];
                assert(history[low - 1] == (edge.0@, edge.1));
            }
            lemma_children_lie_together(history, node@, low as int, count as int);
            lemma_finalized_children_in_range(history, node@, low as int, count as int);
        }
        states
    }

    /// The states, as they stand, of what lies below `node`: the running nodes
    /// on the way from the current position up to `node`, the deepest first,
    /// then the finalized children of `node`, the latest first.
    pub fn child_states(&self, node: &CallStack) -> (states: Vec<(CallStack, RunState)>)
        requires
            self.well_formed(),
        ensures
            entries_of(states@) == backfill(self@.current, self@.history, node@),
    {
        let mut states = self.running_below(node);
        let mut finalized = self.finalized_below(node);
        let ghost first = states@;
        let ghost second = finalized@;
        states.append(&mut finalized);
        assert(entries_of(first + second) =~= entries_of(first) + entries_of(second));
        states
    }

    /// Registers an observer that has nothing open, and returns the number
    /// under which it is known from now on: the least one that is not in use.
    pub fn subscribe(&mut self) -> (id: usize)
        requires
            old(self).well_formed(),
        ensures
            final(self).well_formed(),
            final(self)@.current == old(self)@.current,
            final(self)@.history == old(self)@.history,
            !old(self)@.observers.contains_key(id),
            forall|lower: usize| lower < id ==> old(self)@.observers.contains_key(lower),
            final(self)@.observers == old(self)@.observers.insert(id, Set::empty()),
    {
        self.observers.subscribe()
    }

    /// Removes the observer that is registered under the number, and says
    /// whether there was one.
    pub fn unsubscribe(&mut self, id: usize) -> (removed: bool)
        requires
            old(self).well_formed(),
        ensures
            final(self).well_formed(),
            final(self)@.current == old(self)@.current,
            final(self)@.history == old(self)@.history,
            removed == old(self)@.observers.contains_key(id),
            final(self)@.observers == old(self)@.observers.remove(id),
    {
        self.observers.unsubscribe(id)
    }

    /// Whether an observer is registered under the number.
    pub fn is_subscribed(&self, id: usize) -> (subscribed: bool)
        ensures
            subscribed == self@.observers.contains_key(id),
    {
        self.observers.is_subscribed(id)
    }

    /// Opens a node for an observer. The observer is told how things stand
    /// below the node, and from now on receives the updates for the node's
    /// children. Under a number that no observer has, nothing happens and
    /// nothing is returned.
    pub fn open_node(&mut self, id: usize, node: CallStack) -> (states: Option<
        Vec<(CallStack, RunState)>,
    >)
        requires
            old(self).well_formed(),
        ensures
            final(self).well_formed(),
            final(self)@.current == old(self)@.current,
            final(self)@.history == old(self)@.history,
            states is Some <==> old(self)@.observers.contains_key(id),
            match states {
                Some(states) => {
                    &&& entries_of(states@) == backfill(
                        old(self)@.current,
                        old(self)@.history,
                        node@,
                    )
                    &&& final(self)@.observers == old(self)@.observers.insert(
                        id,
                        old(self)@.observers[id].insert(node@),
                    )
                },
                None => final(self)@.observers == old(self)@.observers,
            },
    {
        if !self.observers.is_subscribed(id) {
            return None;
        }
        let states = self.child_states(&node);
        self.observers.open(id, node);
        Some(states)
    }

    /// Whether the observer that is registered under the number has the node open.
    pub fn is_open(&self, id: usize, node: &CallStack) -> (open: bool)
        ensures
            open == (self@.observers.contains_key(id) && self@.observers[id].contains(node@)),
    {
        self.observers.is_open(id, node)
    }

    /// Whether an update for the stack is to be sent to the observer that is
    /// registered under the number: whether the observer has the parent of
    /// the stack open.
    pub fn forwards(&self, id: usize, stack: &CallStack) -> (forwarded: bool)
        ensures
            forwarded == (self@.observers.contains_key(id) && is_forwarded(
                self@.observers[id],
                stack@,
            )),
    {
        self.observers.forwards(id, stack)
    }

    /// The numbers of the observers to which an update for the stack is to be
    /// sent, in increasing order.
    pub fn recipients(&self, stack: &CallStack) -> (ids: Vec<usize>)
        ensures
            forall|i: int, j: int| 0 <= i < j < ids@.len() ==> ids@[i] < ids@[j],
            forall|id: usize|
                ids@.contains(id) <==> (self@.observers.contains_key(id) && is_forwarded(
                    self@.observers[id],
                    stack@,
                )),
    {
        self.observers.recipients(stack)
    }
}

} // verus!
