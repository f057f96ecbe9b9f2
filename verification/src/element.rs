//! A small element type: one integer, ordered and compared by it.

use std::cmp::Ordering;
use vstd::prelude::*;
use vstd::std_specs::cmp::PartialEqSpecImpl;
use vstd::std_specs::cmp::PartialOrdSpecImpl;

verus! {

/// An element that holds one integer. Two elements are equal when their
/// integers are, and ordered as their integers are.
#[derive(Debug, Eq, Ord)]
pub struct E {
    value: i32,
}

impl View for E {
    type V = i32;

    closed spec fn view(&self) -> i32 {
        self.value
    }
}

impl E {
    /// An element that holds `value`.
    pub fn new(value: i32) -> (e: E)
        ensures
            e@ == value,
    {
        E { value: value }
    }

    /// Replaces the integer held.
    pub fn set(&mut self, value: i32)
        ensures
            final(self)@ == value,
    {
        self.value = value;
    }
}

impl PartialEq for E {
    fn eq(&self, other: &E) -> (equal: bool) {
        self.value == other.value
    }
}

impl PartialEqSpecImpl for E {
    open spec fn obeys_eq_spec() -> bool {
        true
    }

    open spec fn eq_spec(&self, other: &E) -> bool {
        self@ == other@
    }
}

impl PartialOrd for E {
    fn partial_cmp(&self, other: &E) -> (order: Option<Ordering>) {
        if self.value < other.value {
            Some(Ordering::Less)
        } else if self.value == other.value {
            Some(Ordering::Equal)
        } else {
            Some(Ordering::Greater)
        }
    }
}

impl PartialOrdSpecImpl for E {
    open spec fn obeys_partial_cmp_spec() -> bool {
        true
    }

    open spec fn partial_cmp_spec(&self, other: &E) -> Option<Ordering> {
        if self@ < other@ {
            Some(Ordering::Less)
        } else if self@ == other@ {
            Some(Ordering::Equal)
        } else {
            Some(Ordering::Greater)
        }
    }
}

} // verus!
