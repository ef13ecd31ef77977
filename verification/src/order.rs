//! The total order of requests: the order of the resources they ask for.
//! Every behavior presents its requests in this order.

use core::cmp::Ordering;
use vstd::prelude::*;
use vstd::std_specs::cmp::{PartialEqSpec, PartialEqSpecImpl, PartialOrdSpec, PartialOrdSpecImpl};
use crate::request::Request;

verus! {

impl PartialEq for Request {
    /// Two requests are equal when they ask for one resource.
    fn eq(&self, other: &Request) -> (r: bool) {
        self.target == other.target
    }
}

impl PartialEqSpecImpl for Request {
    open spec fn obeys_eq_spec() -> bool {
        true
    }

    open spec fn eq_spec(&self, other: &Request) -> bool {
        self.target == other.target
    }
}

impl Eq for Request {

}

impl PartialOrd for Request {
    /// Requests compare as the resources they ask for.
    fn partial_cmp(&self, other: &Request) -> (r: Option<Ordering>) {
        if self.target < other.target {
            Some(Ordering::Less)
        } else if self.target == other.target {
            Some(Ordering::Equal)
        } else {
            Some(Ordering::Greater)
        }
    }
}

impl PartialOrdSpecImpl for Request {
    open spec fn obeys_partial_cmp_spec() -> bool {
        true
    }

    open spec fn partial_cmp_spec(&self, other: &Request) -> Option<Ordering> {
        if self.target < other.target {
            Some(Ordering::Less)
        } else if self.target == other.target {
            Some(Ordering::Equal)
        } else {
            Some(Ordering::Greater)
        }
    }
}

/// The order is total: of two requests, one comes first or both ask for one
/// resource; and it is the order of the resources.
pub proof fn lemma_order_total(a: Request, b: Request)
    ensures
        PartialOrdSpec::partial_cmp_spec(&a, &b) is Some,
        PartialOrdSpec::partial_cmp_spec(&a, &b) == Some(Ordering::Less) <==> a.target < b.target,
        PartialOrdSpec::partial_cmp_spec(&a, &b) == Some(Ordering::Equal) <==> PartialEqSpec::eq_spec(
            &a,
            &b,
        ),
        PartialOrdSpec::partial_cmp_spec(&a, &b) == Some(Ordering::Less)
            <==> PartialOrdSpec::partial_cmp_spec(&b, &a) == Some(Ordering::Greater),
{
}

/// The order is transitive.
pub proof fn lemma_order_transitive(a: Request, b: Request, c: Request)
    requires
        PartialOrdSpec::partial_cmp_spec(&a, &b) == Some(Ordering::Less),
        PartialOrdSpec::partial_cmp_spec(&b, &c) == Some(Ordering::Less),
    ensures
        PartialOrdSpec::partial_cmp_spec(&a, &c) == Some(Ordering::Less),
{
}

} // verus!
