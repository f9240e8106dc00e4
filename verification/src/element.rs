use vstd::prelude::*;

verus! {

use core::cmp::Ordering;
use vstd::std_specs::cmp::PartialOrdSpec;

/// A cumulative cost: either a finite value or the "unreached / forbidden"
/// sentinel, which is distinct from every finite value.
#[derive(Debug, Clone, Copy, Default, PartialEq)]
pub enum Element<T> {
    #[default]
    Inf,
    Value(T),
}

/// The partial order on costs: every finite value is below `Inf`, and two
/// `Inf`s are incomparable, so that "unreached" never wins a tie.
impl<T: PartialOrd> PartialOrd for Element<T> {
    fn partial_cmp(&self, other: &Self) -> (r: Option<Ordering>) {
        match (self, other) {
            (Element::Inf, Element::Inf) => None,
            (Element::Inf, Element::Value(_)) => Some(Ordering::Greater),
            (Element::Value(_), Element::Inf) => Some(Ordering::Less),
            (Element::Value(v1), Element::Value(v2)) => v1.partial_cmp(v2),
        }
    }
}

impl<T: PartialOrd> vstd::std_specs::cmp::PartialOrdSpecImpl for Element<T> {
    open spec fn obeys_partial_cmp_spec() -> bool {
        <T as vstd::std_specs::cmp::PartialOrdSpec>::obeys_partial_cmp_spec()
    }

    open spec fn partial_cmp_spec(&self, other: &Self) -> Option<Ordering> {
        match (self, other) {
            (Element::Inf, Element::Inf) => None,
            (Element::Inf, Element::Value(_)) => Some(Ordering::Greater),
            (Element::Value(_), Element::Inf) => Some(Ordering::Less),
            (Element::Value(v1), Element::Value(v2)) => (*v1).partial_cmp_spec(v2),
        }
    }
}

} // verus!
