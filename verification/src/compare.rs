use vstd::prelude::*;
use vstd::std_specs::cmp::{PartialEqSpecImpl, PartialOrdSpecImpl};
use core::cmp::Ordering;
use crate::morton::{key_lt, less_than, Key, Leaf};

verus! {

impl PartialOrd for Key {
    fn partial_cmp(&self, other: &Self) -> (order: Option<Ordering>) {
        if *self == *other {
            Some(Ordering::Equal)
        } else if less_than(self, other) {
            Some(Ordering::Less)
        } else {
            Some(Ordering::Greater)
        }
    }
}

impl PartialOrdSpecImpl for Key {
    open spec fn obeys_partial_cmp_spec() -> bool {
        true
    }

    open spec fn partial_cmp_spec(&self, other: &Self) -> Option<Ordering> {
        if *self == *other {
            Some(Ordering::Equal)
        } else if key_lt(*self, *other) {
            Some(Ordering::Less)
        } else {
            Some(Ordering::Greater)
        }
    }
}

impl PartialEq for Leaf {
    fn eq(&self, other: &Self) -> (equal: bool) {
        self.key == other.key
    }
}

impl PartialEqSpecImpl for Leaf {
    open spec fn obeys_eq_spec() -> bool {
        true
    }

    open spec fn eq_spec(&self, other: &Self) -> bool {
        self.key == other.key
    }
}

impl Eq for Leaf {

}

impl PartialOrd for Leaf {
    fn partial_cmp(&self, other: &Self) -> (order: Option<Ordering>) {
        if self.key == other.key {
            Some(Ordering::Equal)
        } else if less_than(&self.key, &other.key) {
            Some(Ordering::Less)
        } else {
            Some(Ordering::Greater)
        }
    }
}

impl PartialOrdSpecImpl for Leaf {
    open spec fn obeys_partial_cmp_spec() -> bool {
        true
    }

    open spec fn partial_cmp_spec(&self, other: &Self) -> Option<Ordering> {
        if self.key == other.key {
            Some(Ordering::Equal)
        } else if key_lt(self.key, other.key) {
            Some(Ordering::Less)
        } else {
            Some(Ordering::Greater)
        }
    }
}

} // verus!
