//! Equality of values: two values are equal where they are the same
//! value of the protocol.

use vstd::prelude::*;
use vstd::std_specs::cmp::PartialEqSpecImpl;
use crate::scalar::{BigInteger, Float64};
use crate::value::{bytes_equal, Value, ValueMap};

verus! {

impl PartialEq for Value {
    fn eq(&self, other: &Self) -> (r: bool) {
        self.same(other)
    }
}

impl PartialEqSpecImpl for Value {
    open spec fn obeys_eq_spec() -> bool {
        true
    }

    open spec fn eq_spec(&self, other: &Self) -> bool {
        self@ == other@
    }
}

impl Eq for Value {

}

impl PartialEq for ValueMap {
    fn eq(&self, other: &Self) -> (r: bool) {
        self.same(other)
    }
}

impl PartialEqSpecImpl for ValueMap {
    open spec fn obeys_eq_spec() -> bool {
        true
    }

    open spec fn eq_spec(&self, other: &Self) -> bool {
        self@ == other@
    }
}

impl Eq for ValueMap {

}

impl PartialEq for Float64 {
    fn eq(&self, other: &Self) -> (r: bool) {
        bytes_equal(self.text(), other.text())
    }
}

impl PartialEqSpecImpl for Float64 {
    open spec fn obeys_eq_spec() -> bool {
        true
    }

    open spec fn eq_spec(&self, other: &Self) -> bool {
        self@ == other@
    }
}

impl Eq for Float64 {

}

impl PartialEq for BigInteger {
    fn eq(&self, other: &Self) -> (r: bool) {
        bytes_equal(self.text(), other.text())
    }
}

impl PartialEqSpecImpl for BigInteger {
    open spec fn obeys_eq_spec() -> bool {
        true
    }

    open spec fn eq_spec(&self, other: &Self) -> bool {
        self@ == other@
    }
}

impl Eq for BigInteger {

}

} // verus!
