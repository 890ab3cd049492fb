//! One value for each integer: a well-formed value is determined by the
//! integer it denotes, and every integer in range has one. On this rest
//! the operations as functions from values to values.

use crate::bigint::BigInt;
use crate::digits::{
    decimal_length, digits_value, lemma_pow10_monotonic, lemma_right_aligned_unique,
    lemma_value_leading_digit, lemma_value_leading_zeros, pow10, right_aligned,
};
use crate::text::{decimal_digits, lemma_decimal_digits};
use vstd::prelude::*;

verus! {

/// Some buffer holds the first `k` elements of `s` in its first `k` places.
proof fn lemma_buffer_exists<const N: usize>(s: Seq<u8>, k: int) -> (buffer: [u8; N])
    requires
        s.len() == N,
        0 <= k <= N,
    ensures
        forall|i: int| 0 <= i < k ==> buffer@[i] == s[i],
    decreases k,
{
    if k == 0 {
        vstd::array::spec_array_fill_for_copy_type::<u8, N>(0u8)
    } else {
        let shorter = lemma_buffer_exists::<N>(s, k - 1);
        vstd::array::spec_array_update(shorter, k - 1, s[k - 1])
    }
}

/// The digits of `m`, right-aligned in `n` places behind zeros.
spec fn padded_digits(m: nat, n: nat) -> Seq<u8> {
    let own = decimal_digits(m);
    Seq::new(
        n,
        |i: int|
            if i < n - own.len() {
                0u8
            } else {
                own[i - (n - own.len())]
            },
    )
}

/// A number below ten to the `n` is right-aligned in `n` places by its
/// padded digits.
proof fn lemma_padded_digits(m: nat, n: nat)
    requires
        n >= 1,
        m < pow10(n),
    ensures
        decimal_length(m) <= n,
        padded_digits(m, n).len() == n,
        right_aligned(padded_digits(m, n), decimal_length(m) as int),
        digits_value(padded_digits(m, n)) == m,
{
    let own = decimal_digits(m);
    let len = decimal_length(m);
    lemma_decimal_digits(m);
    if len > 1 {
        assert(m >= 10);
        lemma_value_leading_digit(own);
        if len > n {
            lemma_pow10_monotonic(n, (len - 1) as nat);
        }
    }
    let s = padded_digits(m, n);
    assert(s.subrange(n - len, n as int) =~= own);
    lemma_value_leading_zeros(s, n - len);
    assert forall|i: int| 0 <= i < s.len() implies #[trigger] s[i] <= 9 by {
        if i >= n - len {
            assert(own[i - (n - len)] <= 9);
        }
    }
}

impl<const MAX_SIZE: usize> BigInt<MAX_SIZE> {
    /// The value that denotes `v`.
    pub open spec fn of_int(v: int) -> Self {
        choose|r: Self| r.wf() && r@ == v
    }

    /// `self + other` as a value.
    pub open spec fn sum(self, other: Self) -> Self {
        Self::of_int(self@ + other@)
    }

    /// `self - other` as a value.
    pub open spec fn difference(self, other: Self) -> Self {
        Self::of_int(self@ - other@)
    }

    /// `-self` as a value.
    pub open spec fn negation(self) -> Self {
        Self::of_int(-self@)
    }

    /// `self * other` as a value.
    pub open spec fn product(self, other: Self) -> Self {
        Self::of_int(self@ * other@)
    }

    /// The quotient of two integers rounded toward zero.
    pub open spec fn truncated_quotient(a: int, b: int) -> int {
        let q = (Self::abs(a) / Self::abs(b)) as int;
        if (a < 0) == (b < 0) {
            q
        } else {
            -q
        }
    }

    /// The remainder that goes with the quotient rounded toward zero: it
    /// has the sign of the dividend.
    pub open spec fn truncated_remainder(a: int, b: int) -> int {
        let r = (Self::abs(a) % Self::abs(b)) as int;
        if a < 0 {
            -r
        } else {
            r
        }
    }

    /// `self / other` as a value, rounded toward zero.
    pub open spec fn quotient(self, other: Self) -> Self {
        Self::of_int(Self::truncated_quotient(self@, other@))
    }

    /// `self % other` as a value, with the sign of `self`.
    pub open spec fn remainder(self, other: Self) -> Self {
        Self::of_int(Self::truncated_remainder(self@, other@))
    }

    /// Well-formed values that denote the same integer are the same value.
    pub proof fn lemma_view_injective(self, other: Self)
        requires
            self.wf(),
            other.wf(),
            self@ == other@,
        ensures
            self == other,
    {
        self.lemma_shape();
        other.lemma_shape();
        lemma_right_aligned_unique(
            self.digits@,
            self.current_size as int,
            other.digits@,
            other.current_size as int,
        );
        assert(self.digits =~= other.digits);
    }

    /// Every integer in range is denoted by a well-formed value.
    pub proof fn lemma_of_int(v: int)
        requires
            MAX_SIZE >= 1,
            Self::in_range(v),
        ensures
            Self::of_int(v).wf(),
            Self::of_int(v)@ == v,
    {
        let m = Self::abs(v);
        lemma_padded_digits(m, MAX_SIZE as nat);
        let s = padded_digits(m, MAX_SIZE as nat);
        let buffer = lemma_buffer_exists::<MAX_SIZE>(s, MAX_SIZE as int);
        assert(buffer@ =~= s);
        let witness = BigInt::<MAX_SIZE> {
            is_negative: v < 0,
            digits: buffer,
            current_size: decimal_length(m) as usize,
        };
        assert(witness.wf());
        witness.lemma_shape();
        assert(witness@ == v);
    }

    /// A well-formed value is the value of the integer it denotes.
    pub proof fn lemma_of_view(self)
        requires
            self.wf(),
        ensures
            Self::of_int(self@) == self,
    {
        let chosen = Self::of_int(self@);
        assert(chosen.wf() && chosen@ == self@);
        chosen.lemma_view_injective(self);
    }
}

} // verus!
