//! The operators `+ - * / %`, `==` and `<`, each handing on to the method
//! of the same meaning.

use crate::bigint::BigInt;
use core::cmp::Ordering;
use core::ops::{Add, Div, Mul, Rem, Sub};
use vstd::prelude::*;
use vstd::std_specs::cmp::{PartialEqSpecImpl, PartialOrdSpecImpl};
use vstd::std_specs::ops::{AddSpecImpl, DivSpecImpl, MulSpecImpl, RemSpecImpl, SubSpecImpl};

verus! {

impl<const MAX_SIZE: usize> Add for BigInt<MAX_SIZE> {
    type Output = Self;

    fn add(self, other: Self) -> (r: Self) {
        self.add(other)
    }
}

impl<const MAX_SIZE: usize> AddSpecImpl for BigInt<MAX_SIZE> {
    open spec fn obeys_add_spec() -> bool {
        true
    }

    open spec fn add_req(self, other: Self) -> bool {
        Self::in_range(self@ + other@)
    }

    open spec fn add_spec(self, other: Self) -> Self {
        self.sum(other)
    }
}

impl<const MAX_SIZE: usize> Sub for BigInt<MAX_SIZE> {
    type Output = Self;

    fn sub(self, other: Self) -> (r: Self) {
        self.sub(other)
    }
}

impl<const MAX_SIZE: usize> SubSpecImpl for BigInt<MAX_SIZE> {
    open spec fn obeys_sub_spec() -> bool {
        true
    }

    open spec fn sub_req(self, other: Self) -> bool {
        Self::in_range(self@ - other@)
    }

    open spec fn sub_spec(self, other: Self) -> Self {
        self.difference(other)
    }
}

impl<const MAX_SIZE: usize> Mul for BigInt<MAX_SIZE> {
    type Output = Self;

    fn mul(self, other: Self) -> (r: Self) {
        self.mul(other)
    }
}

impl<const MAX_SIZE: usize> MulSpecImpl for BigInt<MAX_SIZE> {
    open spec fn obeys_mul_spec() -> bool {
        true
    }

    open spec fn mul_req(self, other: Self) -> bool {
        Self::in_range(self@ * other@)
    }

    open spec fn mul_spec(self, other: Self) -> Self {
        self.product(other)
    }
}

impl<const MAX_SIZE: usize> Div for BigInt<MAX_SIZE> {
    type Output = Self;

    fn div(self, other: Self) -> (r: Self) {
        self.div(other).0
    }
}

impl<const MAX_SIZE: usize> DivSpecImpl for BigInt<MAX_SIZE> {
    open spec fn obeys_div_spec() -> bool {
        true
    }

    open spec fn div_req(self, other: Self) -> bool {
        other@ != 0
    }

    open spec fn div_spec(self, other: Self) -> Self {
        self.quotient(other)
    }
}

impl<const MAX_SIZE: usize> Rem for BigInt<MAX_SIZE> {
    type Output = Self;

    fn rem(self, other: Self) -> (r: Self) {
        self.div(other).1
    }
}

impl<const MAX_SIZE: usize> RemSpecImpl for BigInt<MAX_SIZE> {
    open spec fn obeys_rem_spec() -> bool {
        true
    }

    open spec fn rem_req(self, other: Self) -> bool {
        other@ != 0
    }

    open spec fn rem_spec(self, other: Self) -> Self {
        self.remainder(other)
    }
}

impl<const MAX_SIZE: usize> PartialEq for BigInt<MAX_SIZE> {
    fn eq(&self, other: &Self) -> (r: bool) {
        self.equal(*other)
    }
}

impl<const MAX_SIZE: usize> PartialEqSpecImpl for BigInt<MAX_SIZE> {
    open spec fn obeys_eq_spec() -> bool {
        true
    }

    open spec fn eq_spec(&self, other: &Self) -> bool {
        self@ == other@
    }
}

impl<const MAX_SIZE: usize> PartialOrd for BigInt<MAX_SIZE> {
    fn partial_cmp(&self, other: &Self) -> (r: Option<Ordering>) {
        if self.less(*other) {
            Some(Ordering::Less)
        } else if self.equal(*other) {
            Some(Ordering::Equal)
        } else {
            Some(Ordering::Greater)
        }
    }
}

impl<const MAX_SIZE: usize> PartialOrdSpecImpl for BigInt<MAX_SIZE> {
    open spec fn obeys_partial_cmp_spec() -> bool {
        true
    }

    open spec fn partial_cmp_spec(&self, other: &Self) -> Option<Ordering> {
        if self@ < other@ {
            Some(Ordering::Less)
        } else if self@ == other@ {
            Some(Ordering::Equal)
        } else {
            Some(Ordering::Greater)
        }
    }
}

} // verus!
