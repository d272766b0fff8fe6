//! Identifiers of the functions of a linked program.

use vstd::prelude::*;
use std::cmp::Ordering;
use vstd::std_specs::cmp::PartialOrdSpecImpl;

verus! {

/// An opaque identifier of a function. Identifiers are ordered by their number.
#[derive(Debug, Copy, Clone, Eq, PartialEq, Ord, Hash, Structural)]
pub struct FunctionId(usize);

impl View for FunctionId {
    type V = nat;

    open spec fn view(&self) -> nat {
        self.number()
    }
}

impl FunctionId {
    /// The number that identifies the function.
    pub closed spec fn number(self) -> nat {
        self.0 as nat
    }

    pub fn new(index: usize) -> (id: FunctionId)
        ensures
            id@ == index,
    {
        FunctionId(index)
    }

    pub fn index(self) -> (index: usize)
        ensures
            index == self@,
    {
        self.0
    }

    /// Two identifiers with the same number are the same identifier.
    pub broadcast proof fn lemma_number_is_injective(a: FunctionId, b: FunctionId)
        requires
            #[trigger] a.number() == #[trigger] b.number(),
        ensures
            a == b,
    {
    }
}

impl PartialOrd for FunctionId {
    fn partial_cmp(&self, other: &FunctionId) -> (r: Option<Ordering>) {
        if self.0 < other.0 {
            Some(Ordering::Less)
        } else if self.0 == other.0 {
            Some(Ordering::Equal)
        } else {
            Some(Ordering::Greater)
        }
    }
}

impl PartialOrdSpecImpl for FunctionId {
    open spec fn obeys_partial_cmp_spec() -> bool {
        true
    }

    open spec fn partial_cmp_spec(&self, other: &FunctionId) -> Option<Ordering> {
        if self@ < other@ {
            Some(Ordering::Less)
        } else if self@ == other@ {
            Some(Ordering::Equal)
        } else {
            Some(Ordering::Greater)
        }
    }
}

} // verus!
