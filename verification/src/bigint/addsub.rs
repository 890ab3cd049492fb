//! Addition and subtraction: two operations on magnitudes, and the rules
//! that choose between them by the signs.

use crate::bigint::BigInt;
use crate::digits::{
    all_digits, digits_value, lemma_low_value_bounds, lemma_low_value_step,
    lemma_low_value_zeros_above, lemma_pow10_monotonic, lemma_value_of_zeros,
    lemma_value_update, low_value, pow10, significant_len,
};
use vstd::prelude::*;

verus! {

impl<const MAX_SIZE: usize> BigInt<MAX_SIZE> {
    /// `|self| + |other|`: adds digit by digit from the units up, carrying.
    pub(super) fn add_abs(self, other: Self) -> (r: Self)
        requires
            self.magnitude() + other.magnitude() < pow10(MAX_SIZE as nat),
        ensures
            r.wf(),
            r@ == self.magnitude() + other.magnitude(),
    {
        proof {
            use_type_invariant(self);
            use_type_invariant(other);
            self.lemma_shape();
            other.lemma_shape();
        }
        let top: usize = if self.current_size > other.current_size {
            self.current_size
        } else {
            other.current_size
        };
        let mut digits = [0u8; MAX_SIZE];
        let mut carry: u8 = 0;
        let mut k: usize = 0;
        proof {
            lemma_value_of_zeros(digits@);
            lemma_low_value_step(self.digits@, 0);
            lemma_low_value_step(other.digits@, 0);
            assert(0 * pow10(0) == 0);
        }
        while k < top
            invariant
                self.wf(),
                other.wf(),
                k <= top <= MAX_SIZE,
                carry <= 1,
                all_digits(digits@),
                forall|j: int| 0 <= j < MAX_SIZE - k ==> #[trigger] digits@[j] == 0,
                digits_value(digits@) + carry * pow10(k as nat) == low_value(self.digits@, k as int)
                    + low_value(other.digits@, k as int),
            decreases top - k,
        {
            let i: usize = MAX_SIZE - 1 - k;
            let sum: u8 = self.digits[i] + other.digits[i] + carry;
            let d: u8 = sum % 10;
            let next: u8 = sum / 10;
            let ghost before = digits@;
            digits[i] = d;
            proof {
                lemma_value_update(before, i as int, d);
                lemma_low_value_step(self.digits@, k as int);
                lemma_low_value_step(other.digits@, k as int);
                let p = pow10(k as nat);
                let x = self.digits@[i as int] as int;
                let y = other.digits@[i as int] as int;
                assert(pow10((k + 1) as nat) == 10 * p);
                assert(d * p + next * (10 * p) == x * p + y * p + carry * p) by (nonlinear_arith)
                    requires
                        d + 10 * next == x + y + carry,
                ;
            }
            carry = next;
            k += 1;
        }
        proof {
            lemma_low_value_zeros_above(self.digits@, top as int);
            lemma_low_value_zeros_above(other.digits@, top as int);
            if top == MAX_SIZE && carry > 0 {
                assert(carry * pow10(top as nat) >= pow10(top as nat)) by (nonlinear_arith)
                    requires
                        carry >= 1,
                ;
            }
        }
        let mut candidate: usize = top;
        if carry > 0 {
            let ghost before = digits@;
            digits[MAX_SIZE - 1 - top] = carry;
            candidate = top + 1;
            proof {
                lemma_value_update(before, MAX_SIZE - 1 - top, carry);
            }
        }
        let size = significant_len(&digits, candidate);
        Self::assemble(false, digits, size)
    }

    /// `||self| - |other||`: subtracts the smaller magnitude from the
    /// larger digit by digit from the units up, borrowing.
    pub(super) fn sub_abs(self, other: Self) -> (r: Self)
        ensures
            r.wf(),
            r@ == Self::abs(self.magnitude() - other.magnitude()),
    {
        let (greater, smaller) = if self.abs_less(other) {
            (other, self)
        } else {
            (self, other)
        };
        proof {
            use_type_invariant(greater);
            use_type_invariant(smaller);
            greater.lemma_shape();
            smaller.lemma_shape();
            if greater.current_size < smaller.current_size {
                lemma_pow10_monotonic(
                    greater.current_size as nat,
                    (smaller.current_size - 1) as nat,
                );
            }
        }
        let top: usize = greater.current_size;
        let mut digits = [0u8; MAX_SIZE];
        let mut borrow: u8 = 0;
        let mut k: usize = 0;
        proof {
            lemma_value_of_zeros(digits@);
            lemma_low_value_step(greater.digits@, 0);
            lemma_low_value_step(smaller.digits@, 0);
            assert(0 * pow10(0) == 0);
        }
        while k < top
            invariant
                greater.wf(),
                smaller.wf(),
                k <= top <= MAX_SIZE,
                borrow <= 1,
                all_digits(digits@),
                forall|j: int| 0 <= j < MAX_SIZE - k ==> #[trigger] digits@[j] == 0,
                digits_value(digits@) + low_value(smaller.digits@, k as int) == low_value(
                    greater.digits@,
                    k as int,
                ) + borrow * pow10(k as nat),
            decreases top - k,
        {
            let i: usize = MAX_SIZE - 1 - k;
            let diff: u8 = 10 + greater.digits[i] - smaller.digits[i] - borrow;
            let d: u8 = if diff >= 10 {
                diff - 10
            } else {
                diff
            };
            let next: u8 = if diff >= 10 {
                0
            } else {
                1
            };
            let ghost before = digits@;
            digits[i] = d;
            proof {
                lemma_value_update(before, i as int, d);
                lemma_low_value_step(greater.digits@, k as int);
                lemma_low_value_step(smaller.digits@, k as int);
                let p = pow10(k as nat);
                let x = greater.digits@[i as int] as int;
                let y = smaller.digits@[i as int] as int;
                assert(pow10((k + 1) as nat) == 10 * p);
                assert(d * p + y * p + borrow * p == x * p + next * (10 * p)) by (nonlinear_arith)
                    requires
                        d + y + borrow == x + 10 * next,
                ;
            }
            borrow = next;
            k += 1;
        }
        proof {
            lemma_low_value_zeros_above(greater.digits@, top as int);
            lemma_low_value_zeros_above(smaller.digits@, top as int);
            lemma_low_value_zeros_above(digits@, top as int);
            lemma_low_value_bounds(digits@, top as int, top as int);
            assert(borrow * pow10(top as nat) == if borrow == 1 {
                pow10(top as nat)
            } else {
                0
            }) by (nonlinear_arith)
                requires
                    borrow <= 1,
            ;
        }
        let size = significant_len(&digits, top);
        Self::assemble(false, digits, size)
    }

    /// `self + other`.
    pub fn add(self, other: Self) -> (r: Self)
        requires
            Self::in_range(self@ + other@),
        ensures
            r.wf(),
            r@ == self@ + other@,
            r == self.sum(other),
    {
        proof {
            use_type_invariant(self);
            use_type_invariant(other);
            self.lemma_shape();
            other.lemma_shape();
        }
        let r = if self.is_negative == other.is_negative {
            let sum = self.add_abs(other);
            sum.with_sign(self.is_negative)
        } else {
            let difference = self.sub_abs(other);
            let is_negative = if self.abs_less(other) {
                other.is_negative
            } else {
                self.is_negative
            };
            if difference.is_zero() {
                difference
            } else {
                difference.with_sign(is_negative)
            }
        };
        proof {
            r.lemma_of_view();
        }
        r
    }

    /// `self - other`.
    pub fn sub(self, other: Self) -> (r: Self)
        requires
            Self::in_range(self@ - other@),
        ensures
            r.wf(),
            r@ == self@ - other@,
            r == self.difference(other),
    {
        proof {
            use_type_invariant(self);
            use_type_invariant(other);
            self.lemma_shape();
            other.lemma_shape();
        }
        let r = if self.is_negative == other.is_negative {
            let difference = self.sub_abs(other);
            let is_negative = self.less(other);
            difference.with_sign(is_negative)
        } else {
            let sum = self.add_abs(other);
            sum.with_sign(self.is_negative)
        };
        proof {
            r.lemma_of_view();
        }
        r
    }
}

} // verus!
