//! Call stacks: the paths that name the nodes of the execution tree.

use vstd::prelude::*;
use std::cmp::Ordering;
use vstd::std_specs::cmp::{PartialEqSpecImpl, PartialOrdSpecImpl};
use crate::run::frame::{frame_lt, frame_precedes, NestedBlock, StackFrame};
use crate::run::order::{
    differ_first_at, is_strict_prefix, lemma_first_difference_decides, lemma_order_is_total,
    lemma_prefix_by_frames, stack_lt,
};

verus! {

/// Whether the stack names a trace node: the root, a call, or the predicate of
/// a conditional branch. Statements and arguments are waypoints only.
pub open spec fn is_node_stack(stack: Seq<StackFrame>) -> bool {
    stack.len() == 0 || stack.last().is_node_frame()
}

/// The longest prefix of the stack, the stack itself included, that names a node.
pub open spec fn nearest_node(stack: Seq<StackFrame>) -> Seq<StackFrame>
    decreases stack.len(),
{
    if is_node_stack(stack) {
        stack
    } else {
        nearest_node(stack.drop_last())
    }
}

/// The nearest enclosing node of the stack; the root has none.
pub open spec fn parent_stack(stack: Seq<StackFrame>) -> Option<Seq<StackFrame>> {
    if stack.len() == 0 {
        None
    } else {
        Some(nearest_node(stack.drop_last()))
    }
}

/// How two stacks compare.
pub open spec fn ordering_of(a: Seq<StackFrame>, b: Seq<StackFrame>) -> Ordering {
    if stack_lt(a, b) {
        Ordering::Less
    } else if a == b {
        Ordering::Equal
    } else {
        Ordering::Greater
    }
}

/// The nearest node of a stack is a node and a prefix of the stack, and no
/// longer prefix of the stack is a node.
pub proof fn lemma_nearest_node(stack: Seq<StackFrame>)
    ensures
        is_node_stack(nearest_node(stack)),
        nearest_node(stack).is_prefix_of(stack),
        forall|n: int|
            nearest_node(stack).len() < n <= stack.len() ==> !is_node_stack(#[trigger] stack.take(n)),
    decreases stack.len(),
{
    if is_node_stack(stack) {
        assert(stack =~= stack.subrange(0, stack.len() as int));
    } else {
        let shorter = stack.drop_last();
        lemma_nearest_node(shorter);
        lemma_prefix_by_frames(nearest_node(shorter), shorter);
        lemma_prefix_by_frames(nearest_node(shorter), stack);
        assert forall|n: int| nearest_node(stack).len() < n <= stack.len() implies !is_node_stack(
            #[trigger] stack.take(n),
        ) by {
            if n == stack.len() {
                assert(stack.take(n) =~= stack);
            } else {
                assert(stack.take(n) =~= shorter.take(n));
            }
        }
    }
}

/// The parent of a stack is a node and a strict prefix of the stack.
pub proof fn lemma_parent_is_enclosing_node(stack: Seq<StackFrame>)
    requires
        stack.len() > 0,
    ensures
        is_node_stack(parent_stack(stack).unwrap()),
        is_strict_prefix(parent_stack(stack).unwrap(), stack),
{
    let shorter = stack.drop_last();
    lemma_nearest_node(shorter);
    lemma_prefix_by_frames(nearest_node(shorter), shorter);
    lemma_prefix_by_frames(nearest_node(shorter), stack);
}

/// A path from the root of the execution tree to a position in it.
#[derive(Debug, Eq, Hash)]
pub struct CallStack(Vec<StackFrame>);

impl View for CallStack {
    type V = Seq<StackFrame>;

    closed spec fn view(&self) -> Seq<StackFrame> {
        self.0@
    }
}

impl Default for CallStack {
    fn default() -> (stack: CallStack)
        ensures
            stack@ == Seq::<StackFrame>::empty(),
    {
        CallStack(Vec::new())
    }
}

impl Clone for CallStack {
    fn clone(&self) -> (stack: CallStack)
        ensures
            stack@ == self@,
    {
        let mut frames: Vec<StackFrame> = Vec::new();
        let mut i: usize = 0;
        while i < self.0.len()
            invariant
                i <= self.0.len(),
                frames@ == self.0@.take(i as int),
            decreases self.0.len() - i,
        {
            frames.push(self.0[i]);
            i += 1;
        }
        assert(self.0@.take(i as int) =~= self.0@);
        CallStack(frames)
    }
}

impl PartialEq for CallStack {
    fn eq(&self, other: &CallStack) -> (r: bool) {
        let i = self.first_difference(other);
        i == self.0.len() && i == other.0.len()
    }
}

impl PartialEqSpecImpl for CallStack {
    open spec fn obeys_eq_spec() -> bool {
        true
    }

    open spec fn eq_spec(&self, other: &CallStack) -> bool {
        self@ == other@
    }
}

impl PartialOrd for CallStack {
    fn partial_cmp(&self, other: &CallStack) -> (r: Option<Ordering>) {
        Some(self.cmp(other))
    }
}

impl PartialOrdSpecImpl for CallStack {
    open spec fn obeys_partial_cmp_spec() -> bool {
        true
    }

    open spec fn partial_cmp_spec(&self, other: &CallStack) -> Option<Ordering> {
        Some(ordering_of(self@, other@))
    }
}

impl CallStack {
    /// The empty stack, which names the root.
    pub fn new() -> (stack: CallStack)
        ensures
            stack@ == Seq::<StackFrame>::empty(),
    {
        CallStack(Vec::new())
    }

    /// The number of leading frames that the two stacks share.
    fn first_difference(&self, other: &CallStack) -> (i: usize)
        ensures
            i <= self@.len(),
            i <= other@.len(),
            forall|j: int| 0 <= j < i ==> self@[j] == other@[j],
            i < self@.len() && i < other@.len() ==> {
                &&& self@[i as int] != other@[i as int]
                &&& stack_lt(self@, other@) <==> frame_lt(self@[i as int], other@[i as int])
                &&& stack_lt(other@, self@) <==> frame_lt(other@[i as int], self@[i as int])
            },
            i == other@.len() <==> other@.is_prefix_of(self@),
            i == self@.len() <==> self@.is_prefix_of(other@),
            (i == self@.len() && i == other@.len()) <==> self@ == other@,
    {
        let mut i: usize = 0;
        while i < self.0.len() && i < other.0.len() && self.0[i] == other.0[i]
            invariant
                i <= self.0.len(),
                i <= other.0.len(),
                forall|j: int| 0 <= j < i ==> self.0@[j] == other.0@[j],
            decreases self.0.len() - i,
        {
            i += 1;
        }
        proof {
            lemma_prefix_by_frames(self@, other@);
            lemma_prefix_by_frames(other@, self@);
            if i < self@.len() && i < other@.len() {
                assert(differ_first_at(self@, other@, i as int));
                lemma_first_difference_decides(self@, other@, i as int);
            }
            if i == self@.len() && i == other@.len() {
                assert(self@ =~= other@);
            }
        }
        i
    }

    /// Whether `other` is a prefix of this stack: whether the position that this
    /// stack names lies at or below the one that `other` names.
    pub fn starts_with(&self, other: &CallStack) -> (r: bool)
        ensures
            r == other@.is_prefix_of(self@),
    {
        self.first_difference(other) == other.0.len()
    }

    pub fn len(&self) -> (n: usize)
        ensures
            n == self@.len(),
    {
        self.0.len()
    }

    #[must_use]
    pub fn is_empty(&self) -> (r: bool)
        ensures
            r == (self@.len() == 0),
    {
        self.0.len() == 0
    }

    /// The frames of the stack, from the root down.
    pub fn frames(&self) -> (frames: &Vec<StackFrame>)
        ensures
            frames@ == self@,
    {
        &self.0
    }

    /// The nearest enclosing node: one frame is removed, then more until the
    /// rest names a node. The root has no parent.
    pub fn parent(&self) -> (r: Option<CallStack>)
        ensures
            match r {
                Some(parent) => parent_stack(self@) == Some(parent@),
                None => parent_stack(self@) is None,
            },
    {
        if self.0.len() == 0 {
            return None;
        }
        let mut parent = self.clone();
        parent.0.pop();
        while !parent.is_node()
            invariant
                nearest_node(parent@) == nearest_node(self@.drop_last()),
            decreases parent@.len(),
        {
            parent.0.pop();
        }
        Some(parent)
    }

    /// The last frame, if there is one.
    pub fn top(&self) -> (r: Option<StackFrame>)
        ensures
            r == (if self@.len() == 0 {
                None
            } else {
                Some(self@.last())
            }),
    {
        if self.0.len() == 0 {
            None
        } else {
            Some(self.0[self.0.len() - 1])
        }
    }

    /// Whether the stack names a trace node.
    pub fn is_node(&self) -> (r: bool)
        ensures
            r == is_node_stack(self@),
    {
        match self.top() {
            None => true,
            Some(StackFrame::Call(_)) => true,
            Some(StackFrame::NestedBlock(_, NestedBlock::Predicate)) => true,
            _ => false,
        }
    }

    pub fn push(&mut self, item: StackFrame)
        ensures
            final(self)@ == old(self)@.push(item),
    {
        self.0.push(item)
    }

    /// A copy of the stack with one more frame; the stack itself stays as it is.
    pub fn push_cloned(&self, item: StackFrame) -> (stack: CallStack)
        ensures
            stack@ == self@.push(item),
    {
        let mut clone = self.clone();
        clone.push(item);
        clone
    }

    /// Removes the last frame. The empty stack stays empty.
    pub fn pop(&mut self)
        ensures
            final(self)@ == (if old(self)@.len() == 0 {
                old(self)@
            } else {
                old(self)@.drop_last()
            }),
    {
        self.0.pop();
    }

    /// Compares the stacks frame by frame. The first difference decides; where
    /// one stack is a strict prefix of the other, the shorter one is the greater.
    pub fn cmp(&self, other: &CallStack) -> (r: Ordering)
        ensures
            r == ordering_of(self@, other@),
    {
        let i = self.first_difference(other);
        proof {
            lemma_order_is_total(self@, other@);
        }
        if i < self.0.len() && i < other.0.len() {
            if frame_precedes(self.0[i], other.0[i]) {
                Ordering::Less
            } else {
                Ordering::Greater
            }
        } else if i < self.0.len() {
            Ordering::Less
        } else if i < other.0.len() {
            Ordering::Greater
        } else {
            Ordering::Equal
        }
    }
}

} // verus!
