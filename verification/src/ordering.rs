//! Requests in the order of their time.

use crate::requests::Request;
use std::cmp::Ordering;
use vstd::prelude::*;

verus! {

impl PartialOrd for Request {
    /// Compares two requests by their points in time and by nothing else:
    /// requests made at the same instant compare as equal whatever they ask
    /// for.
    fn partial_cmp(&self, other: &Request) -> (order: Option<Ordering>) {
        if self.timestamp.is_before(&other.timestamp) {
            Some(Ordering::Less)
        } else if other.timestamp.is_before(&self.timestamp) {
            Some(Ordering::Greater)
        } else {
            Some(Ordering::Equal)
        }
    }
}

impl vstd::std_specs::cmp::PartialOrdSpecImpl for Request {
    open spec fn obeys_partial_cmp_spec() -> bool {
        true
    }

    open spec fn partial_cmp_spec(&self, other: &Request) -> Option<Ordering> {
        if self.timestamp.spec_is_before(&other.timestamp) {
            Some(Ordering::Less)
        } else if other.timestamp.spec_is_before(&self.timestamp) {
            Some(Ordering::Greater)
        } else {
            Some(Ordering::Equal)
        }
    }
}

} // verus!
