//! The marker for an unlimited quantity. It absorbs all arithmetic and
//! compares as at least as large as any finite quantity.
use vstd::prelude::*;
use vstd::std_specs::ops::AddSpecImpl;
use vstd::std_specs::ops::SubSpecImpl;
use vstd::std_specs::ops::MulSpecImpl;
use vstd::std_specs::cmp::PartialEqSpecImpl;
use vstd::std_specs::cmp::PartialOrdSpecImpl;
use crate::compatible_problem_type_trait::UnboundedCompatibility;
use core::cmp::Ordering;

verus! {

/// An unlimited quantity.
#[allow(non_camel_case_types)]
#[derive(Debug, Default, Clone, Copy)]
pub struct unbounded;

impl UnboundedCompatibility for unbounded {
    open spec fn is_unbounded_spec() -> bool {
        true
    }

    open spec fn amount_spec(self) -> u64 {
        0
    }

    open spec fn amount_limit() -> u64 {
        0
    }

    proof fn lemma_amount_bounds(value: Self) {
    }

    proof fn lemma_amount_injective(a: Self, b: Self) {
    }

    open spec fn amount_cut(amount: u64) -> u64 {
        0
    }

    proof fn lemma_amount_cut(amount: u64) {
    }

    fn null() -> (zero: Option<Self>) {
        None
    }

    fn is_unbounded() -> (r: bool) {
        true
    }

    fn to_amount(value: Self) -> (amount: u64) {
        0
    }

    fn from_amount(amount: u64) -> (value: Self) {
        unbounded
    }
}

impl<T> core::ops::Add<T> for unbounded {
    type Output = unbounded;

    fn add(self, _rhs: T) -> (r: unbounded) {
        self
    }
}

impl<T> AddSpecImpl<T> for unbounded {
    open spec fn obeys_add_spec() -> bool {
        true
    }

    open spec fn add_req(self, rhs: T) -> bool {
        true
    }

    open spec fn add_spec(self, rhs: T) -> unbounded {
        unbounded
    }
}

impl<T> core::ops::AddAssign<T> for unbounded {
    fn add_assign(&mut self, _rhs: T)
        ensures
            *final(self) == unbounded,
    {
    }
}

impl<T> core::ops::Sub<T> for unbounded {
    type Output = unbounded;

    fn sub(self, _rhs: T) -> (r: unbounded) {
        self
    }
}

impl<T> SubSpecImpl<T> for unbounded {
    open spec fn obeys_sub_spec() -> bool {
        true
    }

    open spec fn sub_req(self, rhs: T) -> bool {
        true
    }

    open spec fn sub_spec(self, rhs: T) -> unbounded {
        unbounded
    }
}

impl<T> core::ops::SubAssign<T> for unbounded {
    fn sub_assign(&mut self, _rhs: T)
        ensures
            *final(self) == unbounded,
    {
    }
}

impl<T: UnboundedCompatibility> core::ops::Mul<T> for unbounded {
    type Output = Option<unbounded>;

    fn mul(self, _rhs: T) -> (r: Option<unbounded>) {
        Some(unbounded)
    }
}

impl<T: UnboundedCompatibility> MulSpecImpl<T> for unbounded {
    open spec fn obeys_mul_spec() -> bool {
        true
    }

    open spec fn mul_req(self, rhs: T) -> bool {
        true
    }

    open spec fn mul_spec(self, rhs: T) -> Option<unbounded> {
        Some(unbounded)
    }
}

impl<T: UnboundedCompatibility> PartialEq<T> for unbounded {
    fn eq(&self, _rhs: &T) -> (r: bool) {
        T::is_unbounded()
    }
}

impl<T: UnboundedCompatibility> PartialEqSpecImpl<T> for unbounded {
    open spec fn obeys_eq_spec() -> bool {
        true
    }

    open spec fn eq_spec(&self, rhs: &T) -> bool {
        T::is_unbounded_spec()
    }
}

impl Eq for unbounded {

}

impl<T: UnboundedCompatibility> PartialOrd<T> for unbounded {
    fn partial_cmp(&self, _rhs: &T) -> (r: Option<Ordering>) {
        if T::is_unbounded() {
            Some(Ordering::Equal)
        } else {
            Some(Ordering::Greater)
        }
    }
}

impl<T: UnboundedCompatibility> PartialOrdSpecImpl<T> for unbounded {
    open spec fn obeys_partial_cmp_spec() -> bool {
        true
    }

    open spec fn partial_cmp_spec(&self, rhs: &T) -> Option<Ordering> {
        if T::is_unbounded_spec() {
            Some(Ordering::Equal)
        } else {
            Some(Ordering::Greater)
        }
    }
}

} // verus!
