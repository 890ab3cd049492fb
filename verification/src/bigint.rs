//! The number type: its representation, what it denotes, and how values
//! are made and inspected.

use crate::digits::{
    all_digits, decimal_length, digits_value, lemma_pow10_monotonic, lemma_pow10_positive,
    lemma_right_aligned_value, lemma_value_of_zeros, lemma_value_update, low_value, pow10,
    right_aligned,
};
use vstd::prelude::*;

mod addsub;
mod canonical;
mod compare;
mod convert;
mod div;
mod mul;
mod operators;

verus! {

/// A signed decimal integer of at most `MAX_SIZE` digits.
///
/// The digits sit right-aligned in a buffer of `MAX_SIZE` places, the units
/// digit last. Unused places in front hold zero, the number has no leading
/// zero, and zero is never negative; every value that executable code can
/// hold is of that form.
#[derive(Debug, Clone, Copy)]
pub struct BigInt<const MAX_SIZE: usize> {
    is_negative: bool,
    digits: [u8; MAX_SIZE],
    current_size: usize,
}

impl<const MAX_SIZE: usize> View for BigInt<MAX_SIZE> {
    type V = int;

    /// The integer that the value denotes.
    closed spec fn view(&self) -> int {
        if self.is_negative {
            -(self.magnitude() as int)
        } else {
            self.magnitude() as int
        }
    }
}

impl<const MAX_SIZE: usize> BigInt<MAX_SIZE> {
    /// The representation is canonical.
    #[verifier::type_invariant]
    pub closed spec fn wf(self) -> bool {
        &&& right_aligned(self.digits@, self.current_size as int)
        &&& self.is_negative ==> digits_value(self.digits@) != 0
    }

    /// The absolute value: the number read from the `current_size`
    /// significant digits.
    pub closed spec fn magnitude(self) -> nat {
        low_value(self.digits@, self.current_size as int)
    }

    /// `v` can be written with `MAX_SIZE` digits.
    pub open spec fn in_range(v: int) -> bool {
        -pow10(MAX_SIZE as nat) < v < pow10(MAX_SIZE as nat)
    }

    /// The absolute value of an integer.
    pub open spec fn abs(v: int) -> nat {
        if v < 0 {
            (-v) as nat
        } else {
            v as nat
        }
    }

    /// The view is the signed magnitude, and a well-formed value lies in
    /// range.
    pub proof fn lemma_view(self)
        requires
            self.wf(),
        ensures
            Self::abs(self@) == self.magnitude(),
            Self::in_range(self@),
            MAX_SIZE >= 1,
    {
        self.lemma_shape();
        lemma_pow10_monotonic(self.current_size as nat, MAX_SIZE as nat);
    }

    /// A well-formed value has no more digits than the capacity.
    pub proof fn lemma_size(self)
        requires
            self.wf(),
        ensures
            1 <= decimal_length(Self::abs(self@)) <= MAX_SIZE,
    {
        self.lemma_shape();
    }

    proof fn lemma_shape(self)
        requires
            self.wf(),
        ensures
            self.magnitude() == digits_value(self.digits@),
            self.magnitude() < pow10(self.current_size as nat),
            self.current_size > 1 ==> self.magnitude() >= pow10((self.current_size - 1) as nat),
            self.current_size == 1 ==> self.magnitude() == self.digits@[MAX_SIZE - 1],
            decimal_length(self.magnitude()) == self.current_size,
            self.is_negative ==> self@ < 0,
            !self.is_negative ==> self@ >= 0,
            self.digits@.len() == MAX_SIZE,
    {
        lemma_right_aligned_value(self.digits@, self.current_size as int);
    }

    /// Puts a value together from a sign and a right-aligned buffer.
    fn assemble(is_negative: bool, digits: [u8; MAX_SIZE], current_size: usize) -> (r: Self)
        requires
            right_aligned(digits@, current_size as int),
            is_negative ==> digits_value(digits@) != 0,
        ensures
            r.wf(),
            r.is_negative == is_negative,
            r.digits == digits,
            r.current_size == current_size,
            r.magnitude() == digits_value(digits@),
            r@ == if is_negative {
                -(digits_value(digits@) as int)
            } else {
                digits_value(digits@) as int
            },
    {
        let r = BigInt { is_negative, digits, current_size };
        proof {
            r.lemma_shape();
        }
        r
    }

    /// The same magnitude under the given sign.
    fn with_sign(self, is_negative: bool) -> (r: Self)
        requires
            is_negative ==> self@ != 0,
        ensures
            r.wf(),
            r.magnitude() == self.magnitude(),
            r@ == if is_negative {
                -(self.magnitude() as int)
            } else {
                self.magnitude() as int
            },
    {
        proof {
            use_type_invariant(self);
            self.lemma_shape();
        }
        Self::assemble(is_negative, self.digits, self.current_size)
    }

    /// Zero.
    pub fn zero() -> (r: Self)
        requires
            MAX_SIZE >= 1,
        ensures
            r.wf(),
            r@ == 0,
            r == Self::of_int(0),
    {
        let digits = [0u8; MAX_SIZE];
        proof {
            lemma_value_of_zeros(digits@);
        }
        let r = Self::assemble(false, digits, 1);
        proof {
            r.lemma_of_view();
        }
        r
    }

    /// The value of a machine integer.
    pub fn from_i128(num: i128) -> (r: Self)
        requires
            MAX_SIZE >= 1,
            Self::in_range(num as int),
        ensures
            r.wf(),
            r@ == num,
    {
        let is_negative = num < 0;
        let mut rest: u128 = if num < 0 {
            (-(num + 1)) as u128 + 1
        } else {
            num as u128
        };
        let ghost target = rest as nat;
        let mut digits = [0u8; MAX_SIZE];
        let mut count: usize = 0;
        proof {
            lemma_value_of_zeros(digits@);
            assert(pow10(0) == 1);
            assert(rest * 1 == rest);
        }
        while rest > 0
            invariant
                MAX_SIZE >= 1,
                count <= MAX_SIZE,
                all_digits(digits@),
                forall|i: int| 0 <= i < MAX_SIZE - count ==> #[trigger] digits@[i] == 0,
                rest * pow10(count as nat) + digits_value(digits@) == target,
                target < pow10(MAX_SIZE as nat),
                count > 0 && rest == 0 ==> digits@[MAX_SIZE - count] != 0,
            decreases rest,
        {
            proof {
                lemma_pow10_positive(count as nat);
                if count >= MAX_SIZE {
                    assert(rest * pow10(count as nat) >= pow10(count as nat)) by (nonlinear_arith)
                        requires
                            rest >= 1,
                    ;
                }
            }
            let d: u8 = (rest % 10) as u8;
            let ghost before = digits@;
            digits[MAX_SIZE - 1 - count] = d;
            proof {
                lemma_value_update(before, MAX_SIZE - 1 - count, d);
                let p = pow10(count as nat);
                assert(pow10((count + 1) as nat) == 10 * p);
                assert((rest / 10) * (10 * p) + (rest % 10) * p == rest * p) by (nonlinear_arith);
            }
            rest = rest / 10;
            count = count + 1;
        }
        let size: usize = if count == 0 {
            1
        } else {
            count
        };
        Self::assemble(is_negative, digits, size)
    }

    /// A copy of the value.
    pub fn const_clone(&self) -> (r: Self)
        ensures
            r.wf(),
            r@ == self@,
            r == *self,
    {
        proof {
            use_type_invariant(self);
        }
        let mut digits = [0u8; MAX_SIZE];
        let mut i: usize = MAX_SIZE - self.current_size;
        while i < MAX_SIZE
            invariant
                self.wf(),
                MAX_SIZE - self.current_size <= i <= MAX_SIZE,
                forall|j: int| 0 <= j < MAX_SIZE - self.current_size ==> #[trigger] digits@[j] == 0,
                forall|j: int|
                    MAX_SIZE - self.current_size <= j < i ==> #[trigger] digits@[j]
                        == self.digits@[j],
            decreases MAX_SIZE - i,
        {
            digits[i] = self.digits[i];
            i += 1;
        }
        assert(digits@ =~= self.digits@);
        assert(digits == self.digits);
        BigInt { is_negative: self.is_negative, digits, current_size: self.current_size }
    }

    /// The capacity in digits.
    pub fn max_size(&self) -> (r: usize)
        ensures
            r == MAX_SIZE,
    {
        MAX_SIZE
    }

    /// The number of significant digits.
    pub fn size(&self) -> (r: usize)
        ensures
            r == decimal_length(Self::abs(self@)),
            1 <= r <= MAX_SIZE,
    {
        proof {
            use_type_invariant(self);
            self.lemma_shape();
        }
        self.current_size
    }

    /// Whether the value is zero.
    pub fn is_zero(&self) -> (r: bool)
        ensures
            r == (self@ == 0),
    {
        proof {
            use_type_invariant(self);
            self.lemma_shape();
            if self.current_size > 1 {
                lemma_pow10_positive((self.current_size - 1) as nat);
            }
        }
        self.current_size == 1 && self.digits[MAX_SIZE - 1] == 0
    }

    /// Whether the value is even.
    pub fn is_even(&self) -> (r: bool)
        ensures
            r == (self@ % 2 == 0),
    {
        proof {
            use_type_invariant(self);
            self.lemma_shape();
            let s = self.digits@;
            let m = digits_value(s);
            let h = digits_value(s.drop_last());
            let d = s.last() as int;
            assert(m == h * 10 + d);
            assert((h * 10 + d) % 2 == d % 2) by (nonlinear_arith);
            assert((-(h * 10 + d)) % 2 == d % 2) by (nonlinear_arith)
                requires
                    0 <= d <= 9,
            ;
        }
        self.digits[MAX_SIZE - 1] % 2 == 0
    }
}

} // verus!
