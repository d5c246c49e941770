//! Equality and order of [`BigReal`] numbers by value: `1.50` equals `1.5`.

use vstd::prelude::*;
use vstd::std_specs::cmp::PartialEqSpecImpl;
use vstd::std_specs::cmp::PartialOrdSpecImpl;
use core::cmp::Ordering;
use crate::big_real::BigReal;

verus! {

impl PartialEq for BigReal {
    fn eq(&self, other: &BigReal) -> (r: bool) {
        self.equals(other)
    }
}

impl PartialEqSpecImpl for BigReal {
    open spec fn obeys_eq_spec() -> bool {
        true
    }

    open spec fn eq_spec(&self, other: &BigReal) -> bool {
        self@.same_number(other@)
    }
}

impl PartialOrd for BigReal {
    fn partial_cmp(&self, other: &BigReal) -> (r: Option<Ordering>) {
        if self.less_than(other) {
            Some(Ordering::Less)
        } else if other.less_than(self) {
            Some(Ordering::Greater)
        } else {
            Some(Ordering::Equal)
        }
    }
}

impl PartialOrdSpecImpl for BigReal {
    open spec fn obeys_partial_cmp_spec() -> bool {
        true
    }

    open spec fn partial_cmp_spec(&self, other: &BigReal) -> Option<Ordering> {
        if self@.less_than(other@) {
            Some(Ordering::Less)
        } else if other@.less_than(self@) {
            Some(Ordering::Greater)
        } else {
            Some(Ordering::Equal)
        }
    }
}

} // verus!
