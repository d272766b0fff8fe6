use std::cmp::Ordering;

use serpent_automation_executor::library::FunctionId;
use serpent_automation_executor::run::frame::frame_precedes;
use serpent_automation_executor::run::{CallStack, NestedBlock, StackFrame};

fn stack(frames: &[StackFrame]) -> CallStack {
    let mut stack = CallStack::new();
    for frame in frames {
        stack.push(*frame);
    }
    stack
}

fn call(id: usize) -> StackFrame {
    StackFrame::Call(FunctionId::new(id))
}

fn predicate(index: usize) -> StackFrame {
    StackFrame::NestedBlock(index, NestedBlock::Predicate)
}

fn body(index: usize) -> StackFrame {
    StackFrame::NestedBlock(index, NestedBlock::Body)
}

#[test]
fn function_id_keeps_its_number() {
    assert_eq!(FunctionId::new(7).index(), 7);
    assert_eq!(FunctionId::new(7), FunctionId::new(7));
    assert_ne!(FunctionId::new(7), FunctionId::new(8));
    assert!(FunctionId::new(7) < FunctionId::new(8));
    assert_eq!(FunctionId::new(8).partial_cmp(&FunctionId::new(7)), Some(Ordering::Greater));
    assert_eq!(FunctionId::new(8).cmp(&FunctionId::new(8)), Ordering::Equal);
}

#[test]
fn frame_variants_order_as_listed() {
    let big = usize::MAX;
    assert!(StackFrame::Statement(big) < StackFrame::Argument(0));
    assert!(StackFrame::Argument(big) < call(0));
    assert!(call(big) < predicate(0));
    assert!(StackFrame::Statement(big) < predicate(0));
    assert!(!(predicate(0) < StackFrame::Statement(big)));
    assert!(frame_precedes(StackFrame::Statement(big), StackFrame::Argument(0)));
    assert!(!frame_precedes(StackFrame::Argument(0), StackFrame::Statement(big)));
}

#[test]
fn frames_of_one_variant_order_by_payload() {
    assert!(StackFrame::Statement(1) < StackFrame::Statement(2));
    assert!(StackFrame::Argument(0) < StackFrame::Argument(5));
    assert!(call(3) < call(4));
    assert!(predicate(0) < body(0));
    assert!(body(0) < predicate(1));
    assert!(predicate(1) > body(0));
    assert!(!(body(2) < body(2)));
    assert_eq!(body(2).partial_cmp(&body(2)), Some(Ordering::Equal));
    assert_eq!(predicate(2).partial_cmp(&body(1)), Some(Ordering::Greater));
    assert_eq!(NestedBlock::Predicate.partial_cmp(&NestedBlock::Body), Some(Ordering::Less));
    assert_eq!(NestedBlock::Body.partial_cmp(&NestedBlock::Predicate), Some(Ordering::Greater));
    assert_eq!(NestedBlock::Body.partial_cmp(&NestedBlock::Body), Some(Ordering::Equal));
}

#[test]
fn frame_order_agrees_with_derived_total_order() {
    let frames = [
        StackFrame::Statement(0),
        StackFrame::Statement(3),
        StackFrame::Argument(0),
        StackFrame::Argument(2),
        call(0),
        call(9),
        predicate(0),
        body(0),
        predicate(1),
        body(1),
    ];
    for (i, a) in frames.iter().enumerate() {
        for (j, b) in frames.iter().enumerate() {
            assert_eq!(a.partial_cmp(b), Some(a.cmp(b)));
            assert_eq!(a.cmp(b), i.cmp(&j));
            assert_eq!(frame_precedes(*a, *b), i < j);
        }
    }
}

#[test]
fn new_stack_is_empty_root() {
    let stack = CallStack::new();
    assert!(stack.is_empty());
    assert_eq!(stack.len(), 0);
    assert_eq!(stack.top(), None);
    assert!(stack.is_node());
    assert!(stack.parent().is_none());
    assert_eq!(stack, CallStack::default());
    assert!(stack.frames().is_empty());
}

#[test]
fn push_and_pop_change_the_tail() {
    let mut stack = CallStack::new();
    stack.push(call(1));
    stack.push(StackFrame::Statement(2));
    assert_eq!(stack.len(), 2);
    assert!(!stack.is_empty());
    assert_eq!(stack.top(), Some(StackFrame::Statement(2)));
    assert_eq!(stack.frames(), &vec![call(1), StackFrame::Statement(2)]);
    stack.pop();
    assert_eq!(stack.top(), Some(call(1)));
    assert_eq!(stack.len(), 1);
    stack.pop();
    assert!(stack.is_empty());
    stack.pop();
    assert!(stack.is_empty());
    assert_eq!(stack, CallStack::new());
}

#[test]
fn push_cloned_leaves_receiver_unchanged() {
    let base = stack(&[call(1), StackFrame::Statement(0)]);
    let first = base.push_cloned(StackFrame::Argument(0));
    let second = base.push_cloned(call(2));
    assert_eq!(base, stack(&[call(1), StackFrame::Statement(0)]));
    assert_eq!(first, stack(&[call(1), StackFrame::Statement(0), StackFrame::Argument(0)]));
    assert_eq!(second, stack(&[call(1), StackFrame::Statement(0), call(2)]));
    assert_ne!(first, second);
}

#[test]
fn clone_is_equal_and_independent() {
    let first = stack(&[call(1), predicate(0)]);
    let mut copy = first.clone();
    assert_eq!(copy, first);
    copy.push(call(2));
    assert_ne!(copy, first);
    assert_eq!(first.len(), 2);
}

#[test]
fn equality_is_structural() {
    assert_eq!(stack(&[call(1), body(0)]), stack(&[call(1), body(0)]));
    assert_ne!(stack(&[call(1), body(0)]), stack(&[call(1), predicate(0)]));
    assert_ne!(stack(&[call(1)]), stack(&[call(1), body(0)]));
    assert_ne!(stack(&[call(1), body(0)]), stack(&[call(1)]));
    assert_ne!(stack(&[]), stack(&[call(1)]));
}

#[test]
fn starts_with_is_a_prefix_test() {
    let long = stack(&[call(1), StackFrame::Statement(0), call(2)]);
    assert!(long.starts_with(&stack(&[])));
    assert!(long.starts_with(&stack(&[call(1)])));
    assert!(long.starts_with(&stack(&[call(1), StackFrame::Statement(0)])));
    assert!(long.starts_with(&long));
    assert!(!long.starts_with(&stack(&[call(2)])));
    assert!(!long.starts_with(&stack(&[call(1), StackFrame::Statement(1)])));
    assert!(!stack(&[call(1)]).starts_with(&long));
    assert!(!long.starts_with(&long.push_cloned(StackFrame::Argument(0))));
}

#[test]
fn nodes_are_root_calls_and_predicates() {
    assert!(stack(&[]).is_node());
    assert!(stack(&[call(0)]).is_node());
    assert!(stack(&[call(0), predicate(3)]).is_node());
    assert!(!stack(&[call(0), body(3)]).is_node());
    assert!(!stack(&[call(0), StackFrame::Statement(0)]).is_node());
    assert!(!stack(&[call(0), StackFrame::Argument(0)]).is_node());
    assert!(!stack(&[StackFrame::Statement(0)]).is_node());
}

#[test]
fn parent_skips_waypoints() {
    assert_eq!(stack(&[call(0)]).parent(), Some(stack(&[])));
    assert_eq!(stack(&[StackFrame::Statement(0)]).parent(), Some(stack(&[])));
    assert_eq!(
        stack(&[call(0), StackFrame::Statement(1), call(2)]).parent(),
        Some(stack(&[call(0)]))
    );
    assert_eq!(
        stack(&[call(0), StackFrame::Statement(1), StackFrame::Argument(0), call(2)]).parent(),
        Some(stack(&[call(0)]))
    );
    assert_eq!(
        stack(&[call(0), predicate(0), StackFrame::Argument(0), call(2)]).parent(),
        Some(stack(&[call(0), predicate(0)]))
    );
    assert_eq!(
        stack(&[call(0), body(0), StackFrame::Statement(0), call(2)]).parent(),
        Some(stack(&[call(0)]))
    );
    assert_eq!(stack(&[StackFrame::Statement(0), StackFrame::Argument(1)]).parent(), Some(stack(&[])));
    assert_eq!(stack(&[]).parent(), None);
}

#[test]
fn first_difference_decides_the_order() {
    let a = stack(&[call(1), StackFrame::Statement(0), call(9)]);
    let b = stack(&[call(1), StackFrame::Statement(1)]);
    assert_eq!(a.cmp(&b), Ordering::Less);
    assert_eq!(b.cmp(&a), Ordering::Greater);
    assert!(a < b);
    assert!(b > a);
    assert!(a <= b);
    assert!(!(b <= a));
    assert_eq!(a.partial_cmp(&b), Some(Ordering::Less));

    let c = stack(&[call(1), predicate(0), call(4)]);
    let d = stack(&[call(1), body(0)]);
    assert_eq!(c.cmp(&d), Ordering::Less);
    assert_eq!(d.cmp(&c), Ordering::Greater);
}

#[test]
fn ancestor_is_greater_than_descendant() {
    let parent = stack(&[call(1)]);
    let child = stack(&[call(1), StackFrame::Statement(0), call(2)]);
    assert_eq!(child.cmp(&parent), Ordering::Less);
    assert_eq!(parent.cmp(&child), Ordering::Greater);
    assert!(child < parent);
    assert!(parent > child);
    assert_eq!(stack(&[]).cmp(&parent), Ordering::Greater);
    assert_eq!(parent.cmp(&stack(&[])), Ordering::Less);
    assert!(child < stack(&[]));
}

#[test]
fn equal_stacks_compare_equal() {
    let a = stack(&[call(1), predicate(2)]);
    assert_eq!(a.cmp(&a.clone()), Ordering::Equal);
    assert_eq!(a.partial_cmp(&a.clone()), Some(Ordering::Equal));
    assert!(!(a < a.clone()));
    assert!(a <= a.clone());
    assert!(a >= a.clone());
    assert_eq!(stack(&[]).cmp(&stack(&[])), Ordering::Equal);
}

#[test]
fn order_is_antisymmetric_and_transitive_on_samples() {
    let samples = [
        stack(&[call(0), StackFrame::Statement(0), call(1)]),
        stack(&[call(0), StackFrame::Statement(0)]),
        stack(&[call(0), StackFrame::Statement(1), StackFrame::Argument(0), call(2)]),
        stack(&[call(0), StackFrame::Statement(1), call(3)]),
        stack(&[call(0), StackFrame::Statement(2), predicate(0)]),
        stack(&[call(0), StackFrame::Statement(2), body(0), StackFrame::Statement(0), call(1)]),
        stack(&[call(0), StackFrame::Statement(2), body(0)]),
        stack(&[call(0), StackFrame::Statement(2), predicate(1)]),
        stack(&[call(0)]),
        stack(&[call(1)]),
        stack(&[]),
    ];
    for (i, a) in samples.iter().enumerate() {
        for (j, b) in samples.iter().enumerate() {
            assert_eq!(a.cmp(b), i.cmp(&j));
            assert_eq!(a.cmp(b), b.cmp(a).reverse());
            assert_eq!(a == b, i == j);
            for c in samples.iter() {
                if a < b && b < c {
                    assert!(a < c);
                }
            }
        }
    }
}
