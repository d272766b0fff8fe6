//! What an observer is told when it opens a node: the states, as they stand,
//! of the nodes below it that are running, and of its children that have been
//! finalized.

use vstd::prelude::*;
use crate::run::call_stack::{is_node_stack, lemma_parent_is_enclosing_node, parent_stack};
use crate::run::frame::StackFrame;
use crate::run::history::is_sorted;
use crate::run::order::{
    is_strict_prefix, lemma_descendant_comes_first, lemma_descendants_are_contiguous,
    lemma_order_is_asymmetric, lemma_order_is_total, lemma_prefix_by_frames, stack_lt,
};
use crate::run::run_state::RunState;

verus! {

/// The nodes among the prefixes of `current` with more than `floor` and at
/// most `len` frames, each as running, the longest first.
pub open spec fn running_chain(current: Seq<StackFrame>, floor: int, len: int) -> Seq<
    (Seq<StackFrame>, RunState),
>
    decreases len - floor,
{
    if len <= floor {
        Seq::empty()
    } else {
        let rest = running_chain(current, floor, len - 1);
        if is_node_stack(current.take(len)) {
            seq![(current.take(len), RunState::Running)] + rest
        } else {
            rest
        }
    }
}

/// The running nodes strictly below `node`: the nodes on the way from the
/// current position up to `node`, the deepest first. There are none where
/// execution is not at or below `node`.
pub open spec fn running_descendants(current: Seq<StackFrame>, node: Seq<StackFrame>) -> Seq<
    (Seq<StackFrame>, RunState),
> {
    if node.is_prefix_of(current) {
        running_chain(current, node.len() as int, current.len() as int)
    } else {
        Seq::empty()
    }
}

/// The entries of the history whose parent is `node`, the latest first.
pub open spec fn finalized_children(
    history: Seq<(Seq<StackFrame>, RunState)>,
    node: Seq<StackFrame>,
) -> Seq<(Seq<StackFrame>, RunState)>
    decreases history.len(),
{
    if history.len() == 0 {
        Seq::empty()
    } else {
        let rest = finalized_children(history.drop_last(), node);
        if parent_stack(history.last().0) == Some(node) {
            seq![history.last()] + rest
        } else {
            rest
        }
    }
}

/// What is replayed when `node` is opened: first the running nodes below it,
/// then its finalized children.
pub open spec fn backfill(
    current: Seq<StackFrame>,
    history: Seq<(Seq<StackFrame>, RunState)>,
    node: Seq<StackFrame>,
) -> Seq<(Seq<StackFrame>, RunState)> {
    running_descendants(current, node) + finalized_children(history, node)
}

/// The children found in two histories laid end to end are those of the second,
/// then those of the first.
pub proof fn lemma_finalized_children_concat(
    first: Seq<(Seq<StackFrame>, RunState)>,
    second: Seq<(Seq<StackFrame>, RunState)>,
    node: Seq<StackFrame>,
)
    ensures
        finalized_children(first + second, node) == finalized_children(second, node)
            + finalized_children(first, node),
    decreases second.len(),
{
    if second.len() == 0 {
        assert(first + second =~= first);
        assert(finalized_children(second, node) + finalized_children(first, node)
            =~= finalized_children(first, node));
    } else {
        assert((first + second).drop_last() =~= first + second.drop_last());
        assert((first + second).last() == second.last());
        lemma_finalized_children_concat(first, second.drop_last(), node);
        let rest = finalized_children(second.drop_last(), node) + finalized_children(first, node);
        if parent_stack(second.last().0) == Some(node) {
            assert(seq![second.last()] + rest =~= (seq![second.last()] + finalized_children(
                second.drop_last(),
                node,
            )) + finalized_children(first, node));
        }
    }
}

/// A history without a child of `node` yields none.
pub proof fn lemma_no_finalized_children(
    history: Seq<(Seq<StackFrame>, RunState)>,
    node: Seq<StackFrame>,
)
    requires
        forall|i: int| 0 <= i < history.len() ==> parent_stack(#[trigger] history[i].0) != Some(node),
    ensures
        finalized_children(history, node) == Seq::<(Seq<StackFrame>, RunState)>::empty(),
    decreases history.len(),
{
    if history.len() > 0 {
        let shorter = history.drop_last();
        assert forall|i: int| 0 <= i < shorter.len() implies parent_stack(#[trigger] shorter[i].0)
            != Some(node) by {
            assert(shorter[i] == history[i]);
        }
        lemma_no_finalized_children(shorter, node);
        assert(history.last() == history[history.len() - 1]);
    }
}

/// Where all children of `node` lie between two positions of the history, the
/// part between them yields what the whole history yields.
pub proof fn lemma_finalized_children_in_range(
    history: Seq<(Seq<StackFrame>, RunState)>,
    node: Seq<StackFrame>,
    low: int,
    high: int,
)
    requires
        0 <= low <= high <= history.len(),
        forall|i: int|
            (0 <= i < low || high <= i < history.len()) ==> parent_stack(#[trigger] history[i].0)
                != Some(node),
    ensures
        finalized_children(history, node) == finalized_children(history.subrange(low, high), node),
{
    let head = history.subrange(0, low);
    let middle = history.subrange(low, high);
    let tail = history.subrange(high, history.len() as int);
    assert(history =~= (head + middle) + tail);
    lemma_finalized_children_concat(head + middle, tail, node);
    lemma_finalized_children_concat(head, middle, node);
    assert forall|i: int| 0 <= i < head.len() implies parent_stack(#[trigger] head[i].0) != Some(
        node,
    ) by {
        assert(head[i] == history[i]);
    }
    assert forall|i: int| 0 <= i < tail.len() implies parent_stack(#[trigger] tail[i].0) != Some(
        node,
    ) by {
        assert(tail[i] == history[high + i]);
    }
    lemma_no_finalized_children(head, node);
    lemma_no_finalized_children(tail, node);
    assert(finalized_children(history, node) =~= finalized_children(middle, node));
}

/// In a sorted history the children of `node` lie together: none stands before
/// an entry that is below `count`, comes before `node` and is no descendant of
/// it, and none stands at or after `count`, where the entries after `node` begin.
pub proof fn lemma_children_lie_together(
    history: Seq<(Seq<StackFrame>, RunState)>,
    node: Seq<StackFrame>,
    low: int,
    count: int,
)
    requires
        is_sorted(history),
        0 <= low <= count <= history.len(),
        forall|i: int| 0 <= i < count ==> !stack_lt(node, #[trigger] history[i].0),
        forall|i: int| count <= i < history.len() ==> stack_lt(node, #[trigger] history[i].0),
        low > 0 ==> !node.is_prefix_of(history[low - 1].0),
    ensures
        forall|i: int|
            (0 <= i < low || count <= i < history.len()) ==> parent_stack(#[trigger] history[i].0)
                != Some(node),
{
    assert forall|i: int| (0 <= i < low || count <= i < history.len()) implies parent_stack(
        #[trigger] history[i].0,
    ) != Some(node) by {
        let stack = history[i].0;
        if parent_stack(stack) == Some(node) {
            lemma_parent_is_enclosing_node(stack);
            lemma_descendant_comes_first(node, stack);
            lemma_order_is_asymmetric(node, stack);
            if i < low {
                let edge = history[low - 1].0;
                assert(i < low - 1);
                assert(stack_lt(stack, edge));
                lemma_order_is_total(edge, node);
                assert(edge != node) by {
                    lemma_prefix_by_frames(node, node);
                }
                lemma_descendants_are_contiguous(node, stack, edge);
            }
        }
    }
}

/// An entry is among the finalized children of `node` exactly if the history
/// holds it and its parent is `node`.
pub proof fn lemma_finalized_children_are_the_children(
    history: Seq<(Seq<StackFrame>, RunState)>,
    node: Seq<StackFrame>,
    entry: (Seq<StackFrame>, RunState),
)
    ensures
        finalized_children(history, node).contains(entry) <==> (history.contains(entry)
            && parent_stack(entry.0) == Some(node)),
    decreases history.len(),
{
    let children = finalized_children(history, node);
    if history.len() > 0 {
        let shorter = history.drop_last();
        let rest = finalized_children(shorter, node);
        let last = history.last();
        lemma_finalized_children_are_the_children(shorter, node, entry);
        if history.contains(entry) {
            let i = choose|i: int| 0 <= i < history.len() && history[i] == entry;
            if i < history.len() - 1 {
                assert(shorter[i] == entry);
            }
        }
        if shorter.contains(entry) {
            let i = choose|i: int| 0 <= i < shorter.len() && shorter[i] == entry;
            assert(history[i] == entry);
        }
        assert(history[history.len() - 1] == last);
        if parent_stack(last.0) == Some(node) {
            let head = seq![last];
            assert(children == head + rest);
            if children.contains(entry) {
                let i = choose|i: int| 0 <= i < children.len() && children[i] == entry;
                if i > 0 {
                    assert(rest[i - 1] == entry);
                }
            }
            if rest.contains(entry) {
                let i = choose|i: int| 0 <= i < rest.len() && rest[i] == entry;
                assert(children[i + 1] == entry);
            }
            if entry == last {
                assert(children[0] == entry);
            }
        }
    }
}

/// An entry is in the running chain exactly if it says that a node is running
/// which is a prefix of the current stack with more than `floor` and at most
/// `len` frames.
pub proof fn lemma_running_chain_holds_the_nodes(
    current: Seq<StackFrame>,
    floor: int,
    len: int,
    entry: (Seq<StackFrame>, RunState),
)
    requires
        0 <= floor,
        len <= current.len(),
    ensures
        running_chain(current, floor, len).contains(entry) <==> {
            &&& entry.1 == RunState::Running
            &&& is_node_stack(entry.0)
            &&& floor < entry.0.len() <= len
            &&& entry.0.is_prefix_of(current)
        },
    decreases len - floor,
{
    let chain = running_chain(current, floor, len);
    if len > floor {
        let rest = running_chain(current, floor, len - 1);
        let longest = current.take(len);
        lemma_running_chain_holds_the_nodes(current, floor, len - 1, entry);
        lemma_prefix_by_frames(entry.0, current);
        if entry.0.len() == len && entry.0.is_prefix_of(current) {
            assert(entry.0 =~= longest);
        }
        lemma_prefix_by_frames(longest, current);
        if is_node_stack(longest) {
            let head = seq![(longest, RunState::Running)];
            assert(chain == head + rest);
            if chain.contains(entry) {
                let i = choose|i: int| 0 <= i < chain.len() && chain[i] == entry;
                if i > 0 {
                    assert(rest[i - 1] == entry);
                }
            }
            if rest.contains(entry) {
                let i = choose|i: int| 0 <= i < rest.len() && rest[i] == entry;
                assert(chain[i + 1] == entry);
            }
            if entry == (longest, RunState::Running) {
                assert(chain[0] == entry);
            }
        }
    }
}

/// Opening a node replays the states of all its children that are known: a
/// child of `node` is replayed with a state exactly if it is running, and the
/// state says so, or the history holds it with that state.
pub proof fn lemma_backfill_is_complete(
    current: Seq<StackFrame>,
    history: Seq<(Seq<StackFrame>, RunState)>,
    node: Seq<StackFrame>,
    child: Seq<StackFrame>,
    state: RunState,
)
    requires
        parent_stack(child) == Some(node),
    ensures
        backfill(current, history, node).contains((child, state)) <==> {
            ||| child.is_prefix_of(current) && is_node_stack(child) && state == RunState::Running
            ||| history.contains((child, state))
        },
{
    let entry = (child, state);
    let running = running_descendants(current, node);
    let finalized = finalized_children(history, node);
    let both = running + finalized;
    lemma_finalized_children_are_the_children(history, node, entry);
    lemma_parent_is_enclosing_node(child);
    lemma_prefix_by_frames(node, child);
    lemma_prefix_by_frames(child, current);
    lemma_prefix_by_frames(node, current);
    if node.is_prefix_of(current) {
        lemma_running_chain_holds_the_nodes(current, node.len() as int, current.len() as int, entry);
    }
    if both.contains(entry) {
        let i = choose|i: int| 0 <= i < both.len() && both[i] == entry;
        if i < running.len() {
            assert(running[i] == entry);
        } else {
            assert(finalized[i - running.len()] == entry);
        }
    }
    if running.contains(entry) {
        let i = choose|i: int| 0 <= i < running.len() && running[i] == entry;
        assert(both[i] == entry);
    }
    if finalized.contains(entry) {
        let i = choose|i: int| 0 <= i < finalized.len() && finalized[i] == entry;
        assert(both[running.len() + i] == entry);
    }
}

/// Everything that is replayed when a node is opened lies strictly below the
/// opened node, and is a running node on the way to the current position or
/// a finalized child of the opened node.
pub proof fn lemma_backfill_lies_below(
    current: Seq<StackFrame>,
    history: Seq<(Seq<StackFrame>, RunState)>,
    node: Seq<StackFrame>,
    entry: (Seq<StackFrame>, RunState),
)
    requires
        backfill(current, history, node).contains(entry),
    ensures
        is_strict_prefix(node, entry.0),
        ({
            ||| entry.1 == RunState::Running && is_node_stack(entry.0) && entry.0.is_prefix_of(current)
            ||| history.contains(entry) && parent_stack(entry.0) == Some(node)
        }),
{
    let running = running_descendants(current, node);
    let finalized = finalized_children(history, node);
    let both = running + finalized;
    let i = choose|i: int| 0 <= i < both.len() && both[i] == entry;
    if i < running.len() {
        assert(running[i] == entry);
        lemma_running_chain_holds_the_nodes(current, node.len() as int, current.len() as int, entry);
        lemma_prefix_by_frames(node, current);
        lemma_prefix_by_frames(entry.0, current);
        lemma_prefix_by_frames(node, entry.0);
    } else {
        assert(finalized[i - running.len()] == entry);
        lemma_finalized_children_are_the_children(history, node, entry);
        lemma_parent_is_enclosing_node(entry.0);
    }
}

} // verus!
