//! Multiplication, digit pair by digit pair.

use crate::bigint::BigInt;
use crate::digits::{
    all_digits, digits_value, lemma_low_value_bounds, lemma_low_value_step,
    lemma_low_value_zeros_above, lemma_pow10_adds, lemma_pow10_monotonic, lemma_pow10_positive,
    lemma_value_of_zeros, lemma_value_update, low_value, pow10, significant_len,
};
use vstd::prelude::*;

verus! {

/// The absolute value of a product is the product of the absolute values.
proof fn lemma_abs_of_product(x: int, y: int, a: nat, b: nat)
    by (nonlinear_arith)
    requires
        x == a || x == -a,
        y == b || y == -b,
    ensures
        x * y == a * b || x * y == -(a * b),
        (x == a) == (y == b) ==> x * y == a * b,
        (x == a) != (y == b) ==> x * y == -(a * b),
        a > 0 && b > 0 ==> a * b > 0,
{
}

/// Two numbers of `m` and `n` digits have a product of at least
/// `m + n - 1` digits.
proof fn lemma_product_length(a: nat, m: nat, b: nat, n: nat)
    requires
        m >= 1,
        n >= 1,
        a >= pow10((m - 1) as nat),
        b >= pow10((n - 1) as nat),
    ensures
        a * b >= pow10((m + n - 2) as nat),
{
    lemma_pow10_adds((m - 1) as nat, (n - 1) as nat);
    let p = pow10((m - 1) as nat);
    let q = pow10((n - 1) as nat);
    assert(a * b >= p * q) by (nonlinear_arith)
        requires
            a >= p,
            b >= q,
    ;
}

impl<const MAX_SIZE: usize> BigInt<MAX_SIZE> {
    /// `self * other`, by the schoolbook method: each digit of `other`,
    /// from the units up, multiplies each digit of `self`, and the products
    /// are added into the place that the two digits' places add up to.
    pub fn mul(self, other: Self) -> (r: Self)
        requires
            Self::in_range(self@ * other@),
        ensures
            r.wf(),
            r@ == self@ * other@,
            r == self.product(other),
    {
        proof {
            use_type_invariant(self);
            use_type_invariant(other);
            self.lemma_shape();
            other.lemma_shape();
        }
        if self.is_zero() || other.is_zero() {
            proof {
                assert(self@ * other@ == 0) by (nonlinear_arith)
                    requires
                        self@ == 0 || other@ == 0,
                ;
            }
            let zero = Self::zero();
            proof {
                zero.lemma_of_view();
            }
            return zero;
        }
        let sa: usize = self.current_size;
        let sb: usize = other.current_size;
        let ghost a = self.magnitude();
        let ghost b = other.magnitude();
        proof {
            lemma_pow10_positive((sa - 1) as nat);
            lemma_pow10_positive((sb - 1) as nat);
            lemma_product_length(a, sa as nat, b, sb as nat);
            lemma_abs_of_product(self@, other@, a, b);
            if sa + sb - 2 >= MAX_SIZE {
                lemma_pow10_monotonic(MAX_SIZE as nat, (sa + sb - 2) as nat);
            }
            assert(sa + sb <= MAX_SIZE + 1);
        }
        let mut digits = [0u8; MAX_SIZE];
        let mut i: usize = 0;
        proof {
            lemma_value_of_zeros(digits@);
            lemma_low_value_step(other.digits@, 0);
            assert(a * 0 == 0);
        }
        while i < sb
            invariant
                self.wf(),
                other.wf(),
                sa == self.current_size,
                sb == other.current_size,
                a == self.magnitude(),
                b == other.magnitude(),
                a == digits_value(self.digits@),
                b == digits_value(other.digits@),
                a * b < pow10(MAX_SIZE as nat),
                sa + sb <= MAX_SIZE + 1,
                i <= sb,
                all_digits(digits@),
                digits_value(digits@) == a * low_value(other.digits@, i as int),
                forall|t: int| 0 <= t < MAX_SIZE - (sa + i) ==> #[trigger] digits@[t] == 0,
            decreases sb - i,
        {
            let factor: u8 = other.digits[MAX_SIZE - 1 - i];
            let ghost row_start = digits@;
            let ghost p = pow10(i as nat);
            let mut carry: u8 = 0;
            let mut j: usize = 0;
            proof {
                lemma_low_value_step(self.digits@, 0);
                assert(0 * pow10((i + 0) as nat) == 0);
                assert(0 * factor * p == 0) by (nonlinear_arith);
            }
            while j < sa
                invariant
                    self.wf(),
                    sa == self.current_size,
                    sa + sb <= MAX_SIZE + 1,
                    i < sb,
                    j <= sa,
                    factor <= 9,
                    carry <= 9,
                    p == pow10(i as nat),
                    all_digits(digits@),
                    digits_value(digits@) + carry * pow10((i + j) as nat) == digits_value(row_start)
                        + low_value(self.digits@, j as int) * factor * p,
                    forall|t: int| 0 <= t < MAX_SIZE - (sa + i) ==> #[trigger] digits@[t] == 0,
                decreases sa - j,
            {
                let place: usize = MAX_SIZE - 1 - (i + j);
                let own: u8 = self.digits[MAX_SIZE - 1 - j];
                let held: u8 = digits[place];
                assert(own * factor <= 81) by (nonlinear_arith)
                    requires
                        own <= 9,
                        factor <= 9,
                ;
                let total: u8 = own * factor + carry + held;
                let d: u8 = total % 10;
                let next: u8 = total / 10;
                let ghost before = digits@;
                digits[place] = d;
                proof {
                    lemma_value_update(before, place as int, d);
                    lemma_low_value_step(self.digits@, j as int);
                    lemma_pow10_adds(i as nat, j as nat);
                    let q = pow10(j as nat);
                    let pq = pow10((i + j) as nat);
                    let low = low_value(self.digits@, j as int);
                    assert(pow10((i + j + 1) as nat) == 10 * pq);
                    assert((d - held) * pq + next * (10 * pq) == (own * factor + carry) * pq)
                        by (nonlinear_arith)
                        requires
                            d + 10 * next == own * factor + carry + held,
                    ;
                    assert((own * factor + carry) * pq == carry * pq + own * factor * (p * q))
                        by (nonlinear_arith)
                        requires
                            pq == p * q,
                    ;
                    assert((own * q + low) * factor * p == low * factor * p + own * factor * (p
                        * q)) by (nonlinear_arith);
                }
                carry = next;
                j += 1;
            }
            proof {
                lemma_low_value_zeros_above(self.digits@, sa as int);
                lemma_low_value_step(other.digits@, i as int);
                lemma_low_value_bounds(other.digits@, i + 1, sb as int);
                lemma_low_value_zeros_above(other.digits@, sb as int);
                let low = low_value(other.digits@, i as int);
                let next_low = low_value(other.digits@, i + 1);
                assert(a * low + a * factor * p == a * (factor * p + low)) by (nonlinear_arith);
                assert(a * next_low <= a * b) by (nonlinear_arith)
                    requires
                        next_low <= b,
                ;
                if i + sa >= MAX_SIZE && carry > 0 {
                    assert(carry * pow10((i + sa) as nat) >= pow10((i + sa) as nat))
                        by (nonlinear_arith)
                        requires
                            carry >= 1,
                    ;
                }
            }
            if i + sa < MAX_SIZE {
                let ghost before = digits@;
                digits[MAX_SIZE - 1 - (i + sa)] = carry;
                proof {
                    lemma_value_update(before, MAX_SIZE - 1 - (i + sa), carry);
                }
            }
            i += 1;
        }
        proof {
            lemma_low_value_zeros_above(other.digits@, sb as int);
        }
        let candidate: usize = if sb > MAX_SIZE - sa {
            MAX_SIZE
        } else {
            sa + sb
        };
        let size = significant_len(&digits, candidate);
        let product = Self::assemble(false, digits, size);
        let r = product.with_sign(self.is_negative != other.is_negative);
        proof {
            r.lemma_of_view();
        }
        r
    }
}

} // verus!
