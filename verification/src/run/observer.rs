//! Observers and the nodes they have open.
//!
//! An observer watches the children of the nodes that it has opened: an update
//! for a node is forwarded to it exactly if the node's parent is open.

use vstd::prelude::*;
use crate::run::call_stack::{parent_stack, CallStack};
use crate::run::frame::StackFrame;

verus! {

/// Whether an update for `stack` goes to an observer with these open nodes:
/// whether the stack has a parent and the parent is open.
pub open spec fn is_forwarded(open: Set<Seq<StackFrame>>, stack: Seq<StackFrame>) -> bool {
    match parent_stack(stack) {
        Some(parent) => open.contains(parent),
        None => false,
    }
}

/// The set of nodes that one observer has open.
pub struct Observer {
    open_nodes: Vec<CallStack>,
}

impl View for Observer {
    type V = Set<Seq<StackFrame>>;

    closed spec fn view(&self) -> Set<Seq<StackFrame>> {
        Set::new(|stack: Seq<StackFrame>| self.holds(stack))
    }
}

impl Observer {
    /// Some stored stack is `stack`.
    spec fn holds(self, stack: Seq<StackFrame>) -> bool {
        exists|i: int| 0 <= i < self.open_nodes@.len() && (#[trigger] self.open_nodes@[i])@ == stack
    }

    /// No node is stored twice.
    pub closed spec fn well_formed(self) -> bool {
        forall|i: int, j: int|
            0 <= i < j < self.open_nodes@.len() ==> (#[trigger] self.open_nodes@[i])@ != (
            #[trigger] self.open_nodes@[j])@
    }

    /// An observer that has nothing open.
    pub fn new() -> (observer: Observer)
        ensures
            observer.well_formed(),
            observer@ == Set::<Seq<StackFrame>>::empty(),
    {
        let observer = Observer { open_nodes: Vec::new() };
        assert(observer@ =~= Set::<Seq<StackFrame>>::empty());
        observer
    }

    /// Whether the observer has the node open.
    pub fn is_open(&self, node: &CallStack) -> (open: bool)
        ensures
            open == self@.contains(node@),
    {
        let mut i: usize = 0;
        while i < self.open_nodes.len()
            invariant
                i <= self.open_nodes@.len(),
                forall|j: int| 0 <= j < i ==> (#[trigger] self.open_nodes@[j])@ != node@,
            decreases self.open_nodes@.len() - i,
        {
            if self.open_nodes[i] == *node {
                return true;
            }
            i += 1;
        }
        false
    }

    /// Opens the node. A node that is open already stays open.
    pub fn open(&mut self, node: CallStack)
        requires
            old(self).well_formed(),
        ensures
            final(self).well_formed(),
            final(self)@ == old(self)@.insert(node@),
    {
        if !self.is_open(&node) {
            let ghost before = *self;
            self.open_nodes.push(node);
            assert forall|stack: Seq<StackFrame>| self.holds(stack) <==> (before.holds(stack)
                || stack == node@) by {
                if before.holds(stack) {
                    let i = choose|i: int|
                        0 <= i < before.open_nodes@.len() && (#[trigger] before.open_nodes@[i])@
                            == stack;
                    assert(self.open_nodes@[i]@ == stack);
                }
                if stack == node@ {
                    assert(self.open_nodes@[before.open_nodes@.len() as int]@ == stack);
                }
            }
            assert(self@ =~= before@.insert(node@));
        } else {
            assert(self@ =~= self@.insert(node@));
        }
    }

    /// Whether an update for the stack is to be sent to the observer.
    pub fn forwards(&self, stack: &CallStack) -> (forwarded: bool)
        ensures
            forwarded == is_forwarded(self@, stack@),
    {
        match stack.parent() {
            Some(parent) => self.is_open(&parent),
            None => false,
        }
    }
}

/// The observers of one thread of execution, each under the number that it was
/// given when it subscribed.
pub struct Registry {
    slots: Vec<Option<Observer>>,
}

impl View for Registry {
    type V = Map<usize, Set<Seq<StackFrame>>>;

    closed spec fn view(&self) -> Map<usize, Set<Seq<StackFrame>>> {
        Map::new(
            |id: usize| id < self.slots@.len() && self.slots@[id as int] is Some,
            |id: usize| self.slots@[id as int].unwrap()@,
        )
    }
}

impl Registry {
    /// Every observer in the registry is well formed.
    pub closed spec fn well_formed(self) -> bool {
        forall|i: int|
            0 <= i < self.slots@.len() ==> match #[trigger] self.slots@[i] {
                Some(observer) => observer.well_formed(),
                None => true,
            }
    }

    /// A registry without observers.
    pub fn new() -> (registry: Registry)
        ensures
            registry.well_formed(),
            registry@ == Map::<usize, Set<Seq<StackFrame>>>::empty(),
    {
        let registry = Registry { slots: Vec::new() };
        assert(registry@ =~= Map::<usize, Set<Seq<StackFrame>>>::empty());
        registry
    }

    /// Whether an observer is registered under the number.
    pub fn is_subscribed(&self, id: usize) -> (subscribed: bool)
        ensures
            subscribed == self@.contains_key(id),
    {
        id < self.slots.len() && self.slots[id].is_some()
    }

    /// Registers an observer that has nothing open, under the least number
    /// that is not in use.
    pub fn subscribe(&mut self) -> (id: usize)
        requires
            old(self).well_formed(),
        ensures
            final(self).well_formed(),
            !old(self)@.contains_key(id),
            forall|lower: usize| lower < id ==> old(self)@.contains_key(lower),
            final(self)@ == old(self)@.insert(id, Set::empty()),
    {
        let ghost before = *self;
        let mut id: usize = 0;
        while id < self.slots.len() && self.slots[id].is_some()
            invariant
                *self == before,
                id <= self.slots@.len(),
                forall|lower: usize| lower < id ==> before@.contains_key(lower),
            decreases self.slots@.len() - id,
        {
            id += 1;
        }
        let observer = Observer::new();
        if id < self.slots.len() {
            self.slots[id] = Some(observer);
        } else {
            self.slots.push(Some(observer));
        }
        assert(self@ =~= before@.insert(id, Set::empty()));
        id
    }

    /// Removes the observer that is registered under the number, and says
    /// whether there was one.
    pub fn unsubscribe(&mut self, id: usize) -> (removed: bool)
        requires
            old(self).well_formed(),
        ensures
            final(self).well_formed(),
            removed == old(self)@.contains_key(id),
            final(self)@ == old(self)@.remove(id),
    {
        let ghost before = *self;
        if id < self.slots.len() && self.slots[id].is_some() {
            self.slots[id] = None;
            assert(self@ =~= before@.remove(id));
            true
        } else {
            assert(self@ =~= before@.remove(id));
            false
        }
    }

    /// Opens the node for the observer that is registered under the number,
    /// and says whether there is one. Without one nothing changes.
    pub fn open(&mut self, id: usize, node: CallStack) -> (opened: bool)
        requires
            old(self).well_formed(),
        ensures
            final(self).well_formed(),
            opened == old(self)@.contains_key(id),
            final(self)@ == (if opened {
                old(self)@.insert(id, old(self)@[id].insert(node@))
            } else {
                old(self)@
            }),
    {
        let ghost before = *self;
        if id >= self.slots.len() {
            return false;
        }
        match self.slots[id].take() {
            Some(mut observer) => {
                observer.open(node);
                self.slots[id] = Some(observer);
                assert(self@ =~= before@.insert(id, before@[id].insert(node@)));
                true
            },
            None => {
                assert(self.slots@ =~= before.slots@);
                false
            },
        }
    }

    /// Whether the observer that is registered under the number has the node open.
    pub fn is_open(&self, id: usize, node: &CallStack) -> (open: bool)
        ensures
            open == (self@.contains_key(id) && self@[id].contains(node@)),
    {
        if id >= self.slots.len() {
            return false;
        }
        match &self.slots[id] {
            Some(observer) => observer.is_open(node),
            None => false,
        }
    }

    /// Whether an update for the stack is to be sent to the observer that is
    /// registered under the number.
    pub fn forwards(&self, id: usize, stack: &CallStack) -> (forwarded: bool)
        ensures
            forwarded == (self@.contains_key(id) && is_forwarded(self@[id], stack@)),
    {
        if id >= self.slots.len() {
            return false;
        }
        match &self.slots[id] {
            Some(observer) => observer.forwards(stack),
            None => false,
        }
    }

    /// The numbers of the observers to which an update for the stack is to be
    /// sent, in increasing order.
    pub fn recipients(&self, stack: &CallStack) -> (ids: Vec<usize>)
        ensures
            forall|i: int, j: int| 0 <= i < j < ids@.len() ==> ids@[i] < ids@[j],
            forall|id: usize|
                ids@.contains(id) <==> (self@.contains_key(id) && is_forwarded(self@[id], stack@)),
    {
        let mut ids: Vec<usize> = Vec::new();
        let parent = match stack.parent() {
            Some(parent) => parent,
            None => {
                return ids;
            },
        };
        let mut id: usize = 0;
        while id < self.slots.len()
            invariant
                id <= self.slots@.len(),
                parent_stack(stack@) == Some(parent@),
                forall|i: int, j: int| 0 <= i < j < ids@.len() ==> ids@[i] < ids@[j],
                forall|i: int| 0 <= i < ids@.len() ==> ids@[i] < id,
                forall|other: usize|
                    ids@.contains(other) <==> (other < id && self@.contains_key(other)
                        && is_forwarded(self@[other], stack@)),
            decreases self.slots@.len() - id,
        {
            let ghost before = ids@;
            let forwarded = match &self.slots[id] {
                Some(observer) => observer.is_open(&parent),
                None => false,
            };
            if forwarded {
                ids.push(id);
                assert forall|other: usize| ids@.contains(other) <==> (other < id + 1
                    && self@.contains_key(other) && is_forwarded(self@[other], stack@)) by {
                    if before.contains(other) {
                        let i = choose|i: int| 0 <= i < before.len() && before[i] == other;
                        assert(ids@[i] == other);
                    }
                    if other == id {
                        assert(ids@[before.len() as int] == other);
                    }
                }
            }
            id += 1;
        }
        ids
    }
}

} // verus!
