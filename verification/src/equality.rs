//! Equality of values: two values are equal where their canonical texts are.

use crate::render::render;
use crate::value::DValue;
use vstd::prelude::*;
use vstd::std_specs::cmp::PartialEqSpecImpl;

verus! {

impl PartialEq for DValue {
    fn eq(&self, other: &Self) -> (r: bool) {
        let mine = self.to_string();
        let theirs = other.to_string();
        mine == theirs
    }
}

impl PartialEqSpecImpl for DValue {
    open spec fn obeys_eq_spec() -> bool {
        true
    }

    open spec fn eq_spec(&self, other: &Self) -> bool {
        render(self@) == render(other@)
    }
}

impl Eq for DValue {

}

} // verus!
