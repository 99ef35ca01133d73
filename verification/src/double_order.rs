//! The numeric equality and order of binary64 numbers, as `==` and `<`.

use crate::double::Double;
use std::cmp::Ordering;
use vstd::prelude::*;

verus! {

impl PartialEq for Double {
    /// Whether the two are numerically equal: a NaN equals nothing, and the
    /// two zeros equal each other.
    fn eq(&self, other: &Double) -> (r: bool) {
        self.same(*other)
    }
}

impl vstd::std_specs::cmp::PartialEqSpecImpl for Double {
    open spec fn obeys_eq_spec() -> bool {
        true
    }

    open spec fn eq_spec(&self, other: &Double) -> bool {
        self.spec_same(*other)
    }
}

impl PartialOrd for Double {
    /// How the two compare numerically; nothing compares with a NaN.
    fn partial_cmp(&self, other: &Double) -> (r: Option<Ordering>) {
        if self.below(*other) {
            Some(Ordering::Less)
        } else if other.below(*self) {
            Some(Ordering::Greater)
        } else if self.same(*other) {
            Some(Ordering::Equal)
        } else {
            None
        }
    }
}

impl vstd::std_specs::cmp::PartialOrdSpecImpl for Double {
    open spec fn obeys_partial_cmp_spec() -> bool {
        true
    }

    open spec fn partial_cmp_spec(&self, other: &Double) -> Option<Ordering> {
        if self.spec_lt(*other) {
            Some(Ordering::Less)
        } else if other.spec_lt(*self) {
            Some(Ordering::Greater)
        } else if self.spec_same(*other) {
            Some(Ordering::Equal)
        } else {
            None
        }
    }
}

} // verus!
