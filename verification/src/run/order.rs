//! The total order on call stacks and what follows from it.
//!
//! Stacks are compared frame by frame; the first difference decides. Where one
//! stack is a strict prefix of the other, the shorter stack is the greater one,
//! so that a node sorts after all of its descendants.

use vstd::prelude::*;
use crate::run::frame::{frame_lt, lemma_frame_order_is_total, StackFrame};

verus! {

/// `shorter` is a prefix of `longer` and has fewer frames.
pub open spec fn is_strict_prefix(shorter: Seq<StackFrame>, longer: Seq<StackFrame>) -> bool {
    shorter.len() < longer.len() && shorter.is_prefix_of(longer)
}

/// The two stacks have the same frames below position `i` and different frames at it.
pub open spec fn differ_first_at(a: Seq<StackFrame>, b: Seq<StackFrame>, i: int) -> bool {
    &&& 0 <= i < a.len()
    &&& i < b.len()
    &&& a[i] != b[i]
    &&& forall|j: int| 0 <= j < i ==> a[j] == b[j]
}

/// The strict order on stacks: `a` comes before `b`.
pub open spec fn stack_lt(a: Seq<StackFrame>, b: Seq<StackFrame>) -> bool {
    ||| is_strict_prefix(b, a)
    ||| exists|i: int| #[trigger] differ_first_at(a, b, i) && frame_lt(a[i], b[i])
}

/// A prefix agrees with the longer stack frame by frame, and the other way round.
pub proof fn lemma_prefix_by_frames(prefix: Seq<StackFrame>, stack: Seq<StackFrame>)
    ensures
        prefix.is_prefix_of(stack) <==> (prefix.len() <= stack.len() && forall|j: int|
            0 <= j < prefix.len() ==> prefix[j] == stack[j]),
{
    if prefix.len() <= stack.len() {
        let head = stack.subrange(0, prefix.len() as int);
        if prefix.is_prefix_of(stack) {
            assert forall|j: int| 0 <= j < prefix.len() implies prefix[j] == stack[j] by {
                assert(head[j] == stack[j]);
            }
        }
        if forall|j: int| 0 <= j < prefix.len() ==> prefix[j] == stack[j] {
            assert(prefix =~= head);
        }
    }
}

/// Two stacks differ first at one position only.
pub proof fn lemma_first_difference_is_unique(
    a: Seq<StackFrame>,
    b: Seq<StackFrame>,
    i: int,
    j: int,
)
    requires
        differ_first_at(a, b, i),
        differ_first_at(a, b, j),
    ensures
        i == j,
{
}

/// Stacks that agree below `i` are equal, or one comes before the other.
proof fn lemma_comparable_from(a: Seq<StackFrame>, b: Seq<StackFrame>, i: int)
    requires
        0 <= i <= a.len(),
        i <= b.len(),
        forall|j: int| 0 <= j < i ==> a[j] == b[j],
    ensures
        a == b || stack_lt(a, b) || stack_lt(b, a),
    decreases a.len() - i,
{
    lemma_prefix_by_frames(a, b);
    lemma_prefix_by_frames(b, a);
    if i == a.len() || i == b.len() {
        if a.len() == b.len() {
            assert(a =~= b);
        }
    } else if a[i] != b[i] {
        lemma_frame_order_is_total(a[i], b[i], a[i]);
        assert(differ_first_at(a, b, i));
        assert(differ_first_at(b, a, i));
    } else {
        lemma_comparable_from(a, b, i + 1);
    }
}

/// No stack comes before itself, and of two stacks at most one comes before the other.
pub proof fn lemma_order_is_asymmetric(a: Seq<StackFrame>, b: Seq<StackFrame>)
    ensures
        !stack_lt(a, a),
        !(stack_lt(a, b) && stack_lt(b, a)),
{
    lemma_prefix_by_frames(a, b);
    lemma_prefix_by_frames(b, a);
    if stack_lt(a, b) && stack_lt(b, a) {
        if is_strict_prefix(b, a) {
            let k = choose|k: int| #[trigger] differ_first_at(b, a, k) && frame_lt(b[k], a[k]);
            assert(false);
        } else if is_strict_prefix(a, b) {
            let k = choose|k: int| #[trigger] differ_first_at(a, b, k) && frame_lt(a[k], b[k]);
            assert(false);
        } else {
            let i = choose|i: int| #[trigger] differ_first_at(a, b, i) && frame_lt(a[i], b[i]);
            let k = choose|k: int| #[trigger] differ_first_at(b, a, k) && frame_lt(b[k], a[k]);
            assert(differ_first_at(a, b, k));
            lemma_first_difference_is_unique(a, b, i, k);
            lemma_frame_order_is_total(a[i], b[i], a[i]);
        }
    }
}

/// Of two different stacks exactly one comes before the other.
pub proof fn lemma_order_is_total(a: Seq<StackFrame>, b: Seq<StackFrame>)
    ensures
        a == b ==> !stack_lt(a, b) && !stack_lt(b, a),
        a != b ==> (stack_lt(a, b) <==> !stack_lt(b, a)),
{
    lemma_order_is_asymmetric(a, b);
    lemma_comparable_from(a, b, 0);
}

/// The order is transitive.
pub proof fn lemma_order_is_transitive(
    a: Seq<StackFrame>,
    b: Seq<StackFrame>,
    c: Seq<StackFrame>,
)
    requires
        stack_lt(a, b),
        stack_lt(b, c),
    ensures
        stack_lt(a, c),
{
    lemma_prefix_by_frames(b, a);
    lemma_prefix_by_frames(c, b);
    lemma_prefix_by_frames(c, a);
    if is_strict_prefix(b, a) {
        if !is_strict_prefix(c, b) {
            let k = choose|k: int| #[trigger] differ_first_at(b, c, k) && frame_lt(b[k], c[k]);
            assert(differ_first_at(a, c, k));
        }
    } else {
        let i = choose|i: int| #[trigger] differ_first_at(a, b, i) && frame_lt(a[i], b[i]);
        if is_strict_prefix(c, b) {
            if i < c.len() {
                assert(differ_first_at(a, c, i));
            }
        } else {
            let k = choose|k: int| #[trigger] differ_first_at(b, c, k) && frame_lt(b[k], c[k]);
            if i < k {
                assert(differ_first_at(a, c, i));
            } else if i == k {
                lemma_frame_order_is_total(a[i], b[i], c[i]);
                assert(differ_first_at(a, c, i));
            } else {
                assert(differ_first_at(a, c, k));
            }
        }
    }
}

/// A stack comes before each of its strict prefixes: a descendant sorts before
/// its ancestors.
pub proof fn lemma_descendant_comes_first(ancestor: Seq<StackFrame>, descendant: Seq<StackFrame>)
    requires
        is_strict_prefix(ancestor, descendant),
    ensures
        stack_lt(descendant, ancestor),
{
}

/// Where neither stack is a prefix of the other, the frames at the first
/// difference decide the order, and one of the two stacks comes first.
pub proof fn lemma_first_difference_decides(a: Seq<StackFrame>, b: Seq<StackFrame>, i: int)
    requires
        differ_first_at(a, b, i),
    ensures
        stack_lt(a, b) <==> frame_lt(a[i], b[i]),
        stack_lt(b, a) <==> frame_lt(b[i], a[i]),
        stack_lt(a, b) <==> !stack_lt(b, a),
{
    lemma_prefix_by_frames(a, b);
    lemma_prefix_by_frames(b, a);
    lemma_frame_order_is_total(a[i], b[i], a[i]);
    assert(differ_first_at(b, a, i));
    if stack_lt(a, b) {
        let k = choose|k: int| #[trigger] differ_first_at(a, b, k) && frame_lt(a[k], b[k]);
        lemma_first_difference_is_unique(a, b, i, k);
    }
    if stack_lt(b, a) {
        let k = choose|k: int| #[trigger] differ_first_at(b, a, k) && frame_lt(b[k], a[k]);
        lemma_first_difference_is_unique(b, a, i, k);
    }
}

/// Stacks of which neither is a prefix of the other differ first at some position.
pub proof fn lemma_unrelated_stacks_differ(a: Seq<StackFrame>, b: Seq<StackFrame>) -> (i: int)
    requires
        !a.is_prefix_of(b),
        !b.is_prefix_of(a),
    ensures
        differ_first_at(a, b, i),
{
    lemma_prefix_by_frames(a, b);
    lemma_prefix_by_frames(b, a);
    lemma_order_is_total(a, b);
    if stack_lt(a, b) {
        choose|k: int| #[trigger] differ_first_at(a, b, k) && frame_lt(a[k], b[k])
    } else {
        assert(a != b) by {
            if a == b {
                assert(a.is_prefix_of(b));
            }
        }
        let k = choose|k: int| #[trigger] differ_first_at(b, a, k) && frame_lt(b[k], a[k]);
        assert(differ_first_at(a, b, k));
        k
    }
}

/// Of two stacks of which neither is a prefix of the other, exactly one comes
/// before the other, and it is the one with the lesser frame where the two
/// first differ: the path that is executed first is the lesser one.
pub proof fn lemma_unrelated_stacks_are_ordered(a: Seq<StackFrame>, b: Seq<StackFrame>)
    requires
        !a.is_prefix_of(b),
        !b.is_prefix_of(a),
    ensures
        stack_lt(a, b) <==> !stack_lt(b, a),
        exists|i: int|
            {
                &&& #[trigger] differ_first_at(a, b, i)
                &&& stack_lt(a, b) <==> frame_lt(a[i], b[i])
                &&& stack_lt(b, a) <==> frame_lt(b[i], a[i])
            },
{
    let i = lemma_unrelated_stacks_differ(a, b);
    lemma_first_difference_decides(a, b, i);
}

/// The descendants of a node lie together in the order, directly before the
/// node: what sorts between a descendant and the node is a descendant too.
pub proof fn lemma_descendants_are_contiguous(
    node: Seq<StackFrame>,
    descendant: Seq<StackFrame>,
    between: Seq<StackFrame>,
)
    requires
        node.is_prefix_of(descendant),
        stack_lt(descendant, between),
        stack_lt(between, node),
    ensures
        is_strict_prefix(node, between),
{
    lemma_prefix_by_frames(node, descendant);
    lemma_prefix_by_frames(node, between);
    lemma_prefix_by_frames(between, descendant);
    lemma_order_is_asymmetric(descendant, between);
    if !is_strict_prefix(node, between) {
        let i = choose|i: int| #[trigger] differ_first_at(between, node, i) && frame_lt(between[i], node[i]);
        assert(differ_first_at(between, descendant, i));
        assert(stack_lt(between, descendant));
    }
}

/// Below one node, what lies under an earlier frame comes before what lies
/// under a later frame: subtrees sort in the order in which they are executed.
pub proof fn lemma_later_sibling_comes_after(
    node: Seq<StackFrame>,
    earlier: StackFrame,
    later: StackFrame,
    under_earlier: Seq<StackFrame>,
    under_later: Seq<StackFrame>,
)
    requires
        frame_lt(earlier, later),
        node.push(earlier).is_prefix_of(under_earlier),
        node.push(later).is_prefix_of(under_later),
    ensures
        stack_lt(under_earlier, under_later),
{
    lemma_prefix_by_frames(node.push(earlier), under_earlier);
    lemma_prefix_by_frames(node.push(later), under_later);
    lemma_frame_order_is_total(earlier, later, earlier);
    let at = node.len() as int;
    assert(node.push(earlier)[at] == earlier);
    assert(node.push(later)[at] == later);
    assert forall|j: int| 0 <= j < at implies under_earlier[j] == under_later[j] by {
        assert(node.push(earlier)[j] == node[j]);
        assert(node.push(later)[j] == node[j]);
    }
    assert(differ_first_at(under_earlier, under_later, at));
}

} // verus!
