//! Long division: the divisor, moved up place by place, is subtracted from
//! a working copy of the dividend as often as it goes.

use crate::bigint::BigInt;
use crate::digits::{
    above_window, all_digits, digits_value, lemma_low_value_bounds, lemma_low_value_step,
    lemma_low_value_zeros_above, lemma_pow10_adds, lemma_pow10_monotonic, lemma_pow10_positive,
    lemma_right_aligned_value, lemma_top_digit_zero, lemma_value_first_difference,
    lemma_value_of_zeros, lemma_value_update, lemma_window_split, low_value, pow10,
    right_aligned, significant_len, window,
};
use vstd::prelude::*;

verus! {

/// Whether the working dividend is at least the divisor moved `shift`
/// places up. A digit above the window settles it; otherwise the window is
/// compared with the divisor digit by digit from the top.
fn window_reaches<const N: usize>(
    work: &[u8; N],
    divisor: &[u8; N],
    len: usize,
    shift: usize,
) -> (r: bool)
    requires
        right_aligned(divisor@, len as int),
        len + shift <= N,
        all_digits(work@),
        forall|t: int| 0 <= t < N - 1 - len - shift ==> #[trigger] work@[t] == 0,
    ensures
        r == (digits_value(work@) >= digits_value(divisor@) * pow10(shift as nat)),
{
    let ghost held = window(work@, len as int, shift as int);
    let ghost wanted = window(divisor@, len as int, 0);
    let ghost p = pow10(shift as nat);
    let ghost b = digits_value(divisor@);
    proof {
        lemma_window_split(work@, len as int, shift as int);
        lemma_right_aligned_value(divisor@, len as int);
        assert(wanted =~= divisor@.subrange(N - len, N as int));
        assert(digits_value(wanted) == b);
        lemma_pow10_positive(shift as nat);
    }
    if len + shift < N && work[N - 1 - len - shift] != 0 {
        proof {
            let x = above_window(work@, len as int, shift as int);
            let q = pow10(len as nat);
            let h = digits_value(held);
            assert((x * q + h) * p >= b * p) by (nonlinear_arith)
                requires
                    x >= 1,
                    b < q,
                    h >= 0,
                    p >= 1,
            ;
        }
        return true;
    }
    proof {
        let q = pow10(len as nat);
        let h = digits_value(held);
        assert(above_window(work@, len as int, shift as int) == 0);
        assert((0 * q + h) * p == h * p) by (nonlinear_arith);
    }
    let mut t: usize = 0;
    while t < len
        invariant
            t <= len,
            b == digits_value(divisor@),
            len + shift <= N,
            held == window(work@, len as int, shift as int),
            wanted == window(divisor@, len as int, 0),
            held.len() == len,
            wanted.len() == len,
            all_digits(held),
            all_digits(wanted),
            p == pow10(shift as nat),
            p >= 1,
            b == digits_value(wanted),
            digits_value(work@) == digits_value(held) * p + low_value(work@, shift as int),
            low_value(work@, shift as int) < p,
            forall|u: int| 0 <= u < t ==> held[u] == wanted[u],
        decreases len - t,
    {
        let w: u8 = work[N - shift - len + t];
        let d: u8 = divisor[N - len + t];
        assert(w == held[t as int]);
        assert(d == wanted[t as int]);
        if w > d {
            proof {
                lemma_value_first_difference(wanted, held, t as int);
                let h = digits_value(held);
                assert(h * p >= b * p) by (nonlinear_arith)
                    requires
                        h > b,
                        p >= 1,
                ;
            }
            return true;
        } else if w < d {
            proof {
                lemma_value_first_difference(held, wanted, t as int);
                let h = digits_value(held);
                assert(h * p + p <= b * p) by (nonlinear_arith)
                    requires
                        h < b,
                        p >= 1,
                ;
            }
            return false;
        }
        t += 1;
    }
    assert(held =~= wanted);
    true
}

/// Takes the divisor, moved `shift` places up, away from the working
/// dividend, borrowing from place to place and at last from the digit
/// above the window.
fn window_subtract<const N: usize>(
    work: [u8; N],
    divisor: &[u8; N],
    len: usize,
    shift: usize,
) -> (r: [u8; N])
    requires
        right_aligned(divisor@, len as int),
        len + shift <= N,
        all_digits(work@),
        forall|t: int| 0 <= t < N - 1 - len - shift ==> #[trigger] work@[t] == 0,
        digits_value(work@) >= digits_value(divisor@) * pow10(shift as nat),
    ensures
        all_digits(r@),
        forall|t: int| 0 <= t < N - 1 - len - shift ==> #[trigger] r@[t] == 0,
        digits_value(r@) == digits_value(work@) - digits_value(divisor@) * pow10(shift as nat),
{
    let ghost p = pow10(shift as nat);
    let ghost b = digits_value(divisor@);
    let ghost start = digits_value(work@);
    let mut work = work;
    let mut borrow: u8 = 0;
    let mut t: usize = 0;
    proof {
        lemma_right_aligned_value(divisor@, len as int);
        lemma_low_value_step(divisor@, 0);
        assert(0 * p == 0);
        assert(0 * pow10((shift + 0) as nat) == 0);
    }
    while t < len
        invariant
            right_aligned(divisor@, len as int),
            t <= len,
            len + shift <= N,
            borrow <= 1,
            p == pow10(shift as nat),
            all_digits(work@),
            forall|u: int| 0 <= u < N - 1 - len - shift ==> #[trigger] work@[u] == 0,
            digits_value(work@) + low_value(divisor@, t as int) * p == start + borrow * pow10(
                (shift + t) as nat,
            ),
        decreases len - t,
    {
        let place: usize = N - 1 - (shift + t);
        let held: u8 = work[place];
        let diff: u8 = 10 + held - divisor[N - 1 - t] - borrow;
        let d: u8 = if diff >= 10 {
            diff - 10
        } else {
            diff
        };
        let next: u8 = if diff >= 10 {
            0
        } else {
            1
        };
        let ghost before = work@;
        work[place] = d;
        proof {
            lemma_value_update(before, place as int, d);
            lemma_low_value_step(divisor@, t as int);
            lemma_pow10_adds(shift as nat, t as nat);
            let q = pow10(t as nat);
            let pq = pow10((shift + t) as nat);
            let y = divisor@[N - 1 - t] as int;
            let low = low_value(divisor@, t as int);
            assert(pow10((shift + t + 1) as nat) == 10 * pq);
            assert((d - held) * pq + (y * q + low) * p + borrow * pq == low * p + next * (10
                * pq)) by (nonlinear_arith)
                requires
                    d + y + borrow == held + 10 * next,
                    pq == p * q,
            ;
        }
        borrow = next;
        t += 1;
    }
    proof {
        lemma_low_value_zeros_above(divisor@, len as int);
    }
    if borrow > 0 {
        proof {
            let m = (shift + len) as int;
            assert(borrow * pow10(m as nat) == pow10(m as nat)) by (nonlinear_arith)
                requires
                    borrow == 1,
            ;
            if m < N {
                if work@[N - 1 - m] == 0 {
                    lemma_low_value_zeros_above(work@, m);
                    lemma_low_value_bounds(work@, m, m);
                }
            } else {
                lemma_low_value_zeros_above(work@, m);
                lemma_low_value_bounds(work@, m, m);
            }
        }
        let place: usize = N - 1 - (shift + len);
        let held: u8 = work[place];
        let ghost before = work@;
        work[place] = held - 1;
        proof {
            lemma_value_update(before, place as int, (held - 1) as u8);
            let pq = pow10((shift + len) as nat);
            assert((held - 1 - held) * pq == -pq) by (nonlinear_arith);
        }
    } else {
        assert(0 * pow10((shift + len) as nat) == 0);
    }
    work
}

/// The signs of a quotient and a remainder put back on their magnitudes.
proof fn lemma_signed_division(a: int, b: int, q: int, r: int, ma: nat, mb: nat, mq: nat, mr: nat)
    by (nonlinear_arith)
    requires
        ma == mq * mb + mr,
        a == ma || a == -ma,
        b == mb || b == -mb,
        (a == ma) == (b == mb) ==> q == mq,
        (a == ma) != (b == mb) ==> q == -mq,
        a == ma ==> r == mr,
        a != ma ==> r == -mr,
    ensures
        a == b * q + r,
{
}

impl<const MAX_SIZE: usize> BigInt<MAX_SIZE> {
    /// A quotient and a remainder with `a == b * q + r`, `|r| < |b|` and
    /// `r` of the sign of `a` are those of the division rounded toward
    /// zero.
    pub proof fn lemma_truncated_division(a: int, b: int, q: int, r: int)
        requires
            b != 0,
            a == b * q + r,
            Self::abs(r) < Self::abs(b),
            r == 0 || (r < 0) == (a < 0),
        ensures
            q == Self::truncated_quotient(a, b),
            r == Self::truncated_remainder(a, b),
    {
        let ma = Self::abs(a) as int;
        let mb = Self::abs(b) as int;
        let mr = Self::abs(r) as int;
        let mq: int = if (a < 0) == (b < 0) {
            q
        } else {
            -q
        };
        assert(ma == mq * mb + mr) by (nonlinear_arith)
            requires
                a == b * q + r,
                ma == a || ma == -a,
                a < 0 ==> ma == -a,
                a >= 0 ==> ma == a,
                b < 0 ==> mb == -b,
                b > 0 ==> mb == b,
                b != 0,
                r == 0 || (r < 0) == (a < 0),
                r < 0 ==> mr == -r,
                r >= 0 ==> mr == r,
                mq == if (a < 0) == (b < 0) {
                    q
                } else {
                    -q
                },
        ;
        vstd::arithmetic::div_mod::lemma_fundamental_div_mod_converse(ma, mb, mq, mr);
    }

    /// `self / other` and `self % other`, the quotient rounded toward zero
    /// and the remainder with the sign of `self`.
    ///
    /// For each place of the quotient, highest first, the divisor moved up
    /// to that place is taken away from the working dividend while it still
    /// goes; the count is the quotient's digit there. What is left of the
    /// working dividend at the end is the remainder.
    pub fn div(self, other: Self) -> (r: (Self, Self))
        requires
            other@ != 0,
        ensures
            r.0.wf(),
            r.1.wf(),
            self@ == other@ * r.0@ + r.1@,
            Self::abs(r.1@) < Self::abs(other@),
            r.1@ == 0 || (r.1@ < 0) == (self@ < 0),
            r.0 == self.quotient(other),
            r.1 == self.remainder(other),
    {
        proof {
            use_type_invariant(self);
            use_type_invariant(other);
            self.lemma_shape();
            other.lemma_shape();
        }
        if self.is_zero() {
            let zero = Self::zero();
            proof {
                assert(other@ * 0 == 0);
                Self::lemma_truncated_division(self@, other@, 0, 0);
                zero.lemma_of_view();
            }
            return (zero, zero);
        }
        let sa: usize = self.current_size;
        let sb: usize = other.current_size;
        if sa < sb {
            let zero = Self::zero();
            proof {
                lemma_pow10_monotonic(sa as nat, (sb - 1) as nat);
                assert(other@ * 0 == 0);
                Self::lemma_truncated_division(self@, other@, 0, self@);
                zero.lemma_of_view();
                self.lemma_of_view();
            }
            return (zero, self);
        }
        let ghost a = self.magnitude();
        let ghost b = other.magnitude();
        let mut work: [u8; MAX_SIZE] = self.digits;
        let mut quotient = [0u8; MAX_SIZE];
        let mut shift: usize = sa - sb + 1;
        proof {
            lemma_value_of_zeros(quotient@);
            assert(0 * b == 0);
            lemma_pow10_adds((sb - 1) as nat, (sa - sb + 1) as nat);
            lemma_pow10_positive((sb - 1) as nat);
            let x = pow10((sb - 1) as nat);
            let y = pow10((sa - sb + 1) as nat);
            assert(b * y >= x * y) by (nonlinear_arith)
                requires
                    b >= x,
                    y >= 0,
            ;
        }
        while shift > 0
            invariant
                self.wf(),
                other.wf(),
                sa == self.current_size,
                sb == other.current_size,
                sb <= sa <= MAX_SIZE,
                a == self.magnitude(),
                b == other.magnitude(),
                b == digits_value(other.digits@),
                b > 0,
                shift <= sa - sb + 1,
                all_digits(work@),
                all_digits(quotient@),
                forall|t: int| 0 <= t < MAX_SIZE - sb - shift ==> #[trigger] work@[t] == 0,
                forall|t: int|
                    0 <= t < MAX_SIZE - (sa - sb + 1) ==> #[trigger] quotient@[t] == 0,
                forall|t: int| MAX_SIZE - shift <= t < MAX_SIZE ==> #[trigger] quotient@[t] == 0,
                a == digits_value(quotient@) * b + digits_value(work@),
                digits_value(work@) < b * pow10(shift as nat),
            decreases shift,
        {
            shift -= 1;
            let ghost p = pow10(shift as nat);
            let ghost row_start = digits_value(work@);
            let mut count: u8 = 0;
            proof {
                lemma_pow10_positive(shift as nat);
                assert(pow10((shift + 1) as nat) == 10 * p);
                assert(0 * b * p == 0) by (nonlinear_arith);
                assert(b * (10 * p) == 10 * (b * p)) by (nonlinear_arith);
                assert(b * p >= 1) by (nonlinear_arith)
                    requires
                        b >= 1,
                        p >= 1,
                ;
            }
            while window_reaches(&work, &other.digits, sb, shift)
                invariant
                    other.wf(),
                    sb == other.current_size,
                    b == digits_value(other.digits@),
                    sb + shift <= MAX_SIZE,
                    p == pow10(shift as nat),
                    b * p >= 1,
                    all_digits(work@),
                    forall|t: int| 0 <= t < MAX_SIZE - 1 - sb - shift ==> #[trigger] work@[t] == 0,
                    digits_value(work@) + count * (b * p) == row_start,
                    row_start < 10 * (b * p),
                    count <= 9,
                decreases 10 - count,
            {
                proof {
                    let bp = b * p;
                    let w = digits_value(work@) as int;
                    assert(count <= 8) by (nonlinear_arith)
                        requires
                            w >= bp,
                            w + count * bp < 10 * bp,
                            bp >= 1,
                            count <= 9,
                    ;
                    assert((count + 1) * bp == count * bp + bp) by (nonlinear_arith);
                }
                work = window_subtract(work, &other.digits, sb, shift);
                count += 1;
            }
            let ghost before = quotient@;
            quotient[MAX_SIZE - 1 - shift] = count;
            proof {
                lemma_value_update(before, MAX_SIZE - 1 - shift, count);
                let q = digits_value(before);
                assert((q + count * p) * b + digits_value(work@) == q * b + (digits_value(work@)
                    + count * (b * p))) by (nonlinear_arith);
                lemma_right_aligned_value(other.digits@, sb as int);
                lemma_pow10_adds(sb as nat, shift as nat);
                if sb + shift < MAX_SIZE {
                    let x = pow10(sb as nat);
                    assert(b * p <= x * p) by (nonlinear_arith)
                        requires
                            b < x,
                            p >= 0,
                    ;
                    lemma_top_digit_zero(work@, (sb + shift) as int);
                }
            }
        }
        proof {
            assert(pow10(0) == 1);
            assert(b * 1 == b);
        }
        let quotient_size = significant_len(&quotient, sa - sb + 1);
        let remainder_size = significant_len(&work, sb);
        let quotient_magnitude = Self::assemble(false, quotient, quotient_size);
        let remainder_magnitude = Self::assemble(false, work, remainder_size);
        let q = if quotient_magnitude.is_zero() {
            quotient_magnitude
        } else {
            quotient_magnitude.with_sign(self.is_negative != other.is_negative)
        };
        let r = if remainder_magnitude.is_zero() {
            remainder_magnitude
        } else {
            remainder_magnitude.with_sign(self.is_negative)
        };
        proof {
            lemma_signed_division(
                self@,
                other@,
                q@,
                r@,
                a,
                b,
                quotient_magnitude.magnitude(),
                remainder_magnitude.magnitude(),
            );
            Self::lemma_truncated_division(self@, other@, q@, r@);
            q.lemma_of_view();
            r.lemma_of_view();
        }
        (q, r)
    }
}

} // verus!
