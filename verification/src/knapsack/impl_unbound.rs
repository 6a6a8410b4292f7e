//! Quantities that know whether they are limited, and the marker for the
//! quantity that is not.
use vstd::prelude::*;
use vstd::std_specs::ops::AddSpecImpl;
use vstd::std_specs::ops::SubSpecImpl;
use vstd::std_specs::ops::MulSpecImpl;
use vstd::std_specs::cmp::PartialEqSpecImpl;
use vstd::std_specs::cmp::PartialOrdSpecImpl;
use core::cmp::Ordering;

verus! {

/// A quantity: a count, or the marker for "no limit".
pub trait Quantity {
    /// Whether the quantity stands for "no limit".
    spec fn is_unbound_spec(&self) -> bool;

    /// Whether the quantity stands for "no limit".
    fn is_unbound(&self) -> (r: bool)
        ensures
            r == self.is_unbound_spec(),
    ;
}

impl Quantity for usize {
    open spec fn is_unbound_spec(&self) -> bool {
        false
    }

    fn is_unbound(&self) -> (r: bool) {
        false
    }
}

/// An unlimited quantity.
#[allow(non_camel_case_types)]
#[derive(Debug, Clone, Copy)]
pub struct unbound;

impl Quantity for unbound {
    open spec fn is_unbound_spec(&self) -> bool {
        true
    }

    fn is_unbound(&self) -> (r: bool) {
        true
    }
}

impl<N: Quantity> core::ops::Add<N> for unbound {
    type Output = unbound;

    fn add(self, _other: N) -> (r: unbound) {
        unbound
    }
}

impl<N: Quantity> AddSpecImpl<N> for unbound {
    open spec fn obeys_add_spec() -> bool {
        true
    }

    open spec fn add_req(self, other: N) -> bool {
        true
    }

    open spec fn add_spec(self, other: N) -> unbound {
        unbound
    }
}

impl<N: Quantity> core::ops::AddAssign<N> for unbound {
    fn add_assign(&mut self, _other: N)
        ensures
            *final(self) == unbound,
    {
        *self = unbound;
    }
}

impl<N: Quantity> core::ops::Sub<N> for unbound {
    type Output = unbound;

    fn sub(self, _other: N) -> (r: unbound) {
        unbound
    }
}

impl<N: Quantity> SubSpecImpl<N> for unbound {
    open spec fn obeys_sub_spec() -> bool {
        true
    }

    open spec fn sub_req(self, other: N) -> bool {
        true
    }

    open spec fn sub_spec(self, other: N) -> unbound {
        unbound
    }
}

impl<N: Quantity> core::ops::SubAssign<N> for unbound {
    fn sub_assign(&mut self, _other: N)
        ensures
            *final(self) == unbound,
    {
        *self = unbound;
    }
}

impl<N: Quantity> core::ops::Mul<N> for unbound {
    type Output = unbound;

    fn mul(self, _other: N) -> (r: unbound) {
        unbound
    }
}

impl<N: Quantity> MulSpecImpl<N> for unbound {
    open spec fn obeys_mul_spec() -> bool {
        true
    }

    open spec fn mul_req(self, other: N) -> bool {
        true
    }

    open spec fn mul_spec(self, other: N) -> unbound {
        unbound
    }
}

impl<N: Quantity> PartialEq<N> for unbound {
    fn eq(&self, other: &N) -> (r: bool) {
        other.is_unbound()
    }
}

impl<N: Quantity> PartialEqSpecImpl<N> for unbound {
    open spec fn obeys_eq_spec() -> bool {
        true
    }

    open spec fn eq_spec(&self, other: &N) -> bool {
        other.is_unbound_spec()
    }
}

impl Eq for unbound {

}

impl<N: Quantity> PartialOrd<N> for unbound {
    fn partial_cmp(&self, other: &N) -> (r: Option<Ordering>) {
        if other.is_unbound() {
            Some(Ordering::Equal)
        } else {
            Some(Ordering::Greater)
        }
    }
}

impl<N: Quantity> PartialOrdSpecImpl<N> for unbound {
    open spec fn obeys_partial_cmp_spec() -> bool {
        true
    }

    open spec fn partial_cmp_spec(&self, other: &N) -> Option<Ordering> {
        if other.is_unbound_spec() {
            Some(Ordering::Equal)
        } else {
            Some(Ordering::Greater)
        }
    }
}

} // verus!
