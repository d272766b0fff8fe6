//! The frames that make up a call stack, and their order.

use vstd::prelude::*;
use std::cmp::Ordering;
use vstd::std_specs::cmp::PartialOrdSpecImpl;
use crate::library::FunctionId;

verus! {

/// Which part of a conditional branch a nested block is.
#[derive(Debug, Copy, Clone, Eq, PartialEq, Ord, Hash, Structural)]
pub enum NestedBlock {
    Predicate,
    Body,
}

/// One level of nesting in the execution tree.
///
/// The order of the variants matters: frames that execute later at the same
/// level of the tree compare greater than earlier ones.
#[derive(Debug, Copy, Clone, Eq, PartialEq, Ord, Hash, Structural)]
pub enum StackFrame {
    Statement(usize),
    Argument(usize),
    Call(FunctionId),
    NestedBlock(usize, NestedBlock),
}

impl NestedBlock {
    /// The position of the kind in the order: the predicate comes before the body.
    pub open spec fn rank(self) -> nat {
        match self {
            NestedBlock::Predicate => 0,
            NestedBlock::Body => 1,
        }
    }
}

impl StackFrame {
    /// The key by which frames are ordered: the position of the variant, then
    /// the payload (for a nested block its index, then its kind).
    pub open spec fn key(self) -> (nat, nat, nat) {
        match self {
            StackFrame::Statement(index) => (0, index as nat, 0),
            StackFrame::Argument(index) => (1, index as nat, 0),
            StackFrame::Call(function) => (2, function@, 0),
            StackFrame::NestedBlock(index, kind) => (3, index as nat, kind.rank()),
        }
    }

    /// Whether a stack that ends in this frame names a trace node.
    pub open spec fn is_node_frame(self) -> bool {
        match self {
            StackFrame::Call(_) => true,
            StackFrame::NestedBlock(_, NestedBlock::Predicate) => true,
            _ => false,
        }
    }
}

/// The lexicographic order on keys.
pub open spec fn key_lt(a: (nat, nat, nat), b: (nat, nat, nat)) -> bool {
    a.0 < b.0 || (a.0 == b.0 && (a.1 < b.1 || (a.1 == b.1 && a.2 < b.2)))
}

/// The strict total order on frames.
pub open spec fn frame_lt(a: StackFrame, b: StackFrame) -> bool {
    key_lt(a.key(), b.key())
}

/// Frames with the same key are the same frame.
pub proof fn lemma_key_is_injective(a: StackFrame, b: StackFrame)
    requires
        a.key() == b.key(),
    ensures
        a == b,
{
    broadcast use FunctionId::lemma_number_is_injective;

}

/// Of two different frames exactly one is less than the other, and the order
/// is transitive.
pub proof fn lemma_frame_order_is_total(a: StackFrame, b: StackFrame, c: StackFrame)
    ensures
        !frame_lt(a, a),
        a != b ==> (frame_lt(a, b) <==> !frame_lt(b, a)),
        a == b ==> !frame_lt(a, b),
        frame_lt(a, b) && frame_lt(b, c) ==> frame_lt(a, c),
{
    if a != b && !frame_lt(a, b) && !frame_lt(b, a) {
        lemma_key_is_injective(a, b);
    }
}

impl PartialOrd for NestedBlock {
    fn partial_cmp(&self, other: &NestedBlock) -> (r: Option<Ordering>) {
        match (self, other) {
            (NestedBlock::Predicate, NestedBlock::Body) => Some(Ordering::Less),
            (NestedBlock::Body, NestedBlock::Predicate) => Some(Ordering::Greater),
            _ => Some(Ordering::Equal),
        }
    }
}

impl PartialOrdSpecImpl for NestedBlock {
    open spec fn obeys_partial_cmp_spec() -> bool {
        true
    }

    open spec fn partial_cmp_spec(&self, other: &NestedBlock) -> Option<Ordering> {
        if self.rank() < other.rank() {
            Some(Ordering::Less)
        } else if self.rank() == other.rank() {
            Some(Ordering::Equal)
        } else {
            Some(Ordering::Greater)
        }
    }
}

impl PartialOrd for StackFrame {
    fn partial_cmp(&self, other: &StackFrame) -> (r: Option<Ordering>) {
        if frame_precedes(*self, *other) {
            Some(Ordering::Less)
        } else if frame_precedes(*other, *self) {
            Some(Ordering::Greater)
        } else {
            proof {
                lemma_frame_order_is_total(*self, *other, *self);
            }
            Some(Ordering::Equal)
        }
    }
}

impl PartialOrdSpecImpl for StackFrame {
    open spec fn obeys_partial_cmp_spec() -> bool {
        true
    }

    open spec fn partial_cmp_spec(&self, other: &StackFrame) -> Option<Ordering> {
        if frame_lt(*self, *other) {
            Some(Ordering::Less)
        } else if *self == *other {
            Some(Ordering::Equal)
        } else {
            Some(Ordering::Greater)
        }
    }
}

/// Whether `a` comes strictly before `b` in the order on frames.
pub fn frame_precedes(a: StackFrame, b: StackFrame) -> (r: bool)
    ensures
        r == frame_lt(a, b),
{
    match (a, b) {
        (StackFrame::Statement(i), StackFrame::Statement(j)) => i < j,
        (StackFrame::Statement(_), _) => true,
        (StackFrame::Argument(_), StackFrame::Statement(_)) => false,
        (StackFrame::Argument(i), StackFrame::Argument(j)) => i < j,
        (StackFrame::Argument(_), _) => true,
        (StackFrame::Call(f), StackFrame::Call(g)) => f.index() < g.index(),
        (StackFrame::Call(_), StackFrame::NestedBlock(_, _)) => true,
        (StackFrame::Call(_), _) => false,
        (StackFrame::NestedBlock(i, k), StackFrame::NestedBlock(j, l)) => {
            i < j || (i == j && matches!((k, l), (NestedBlock::Predicate, NestedBlock::Body)))
        },
        (StackFrame::NestedBlock(_, _), _) => false,
    }
}

} // verus!
