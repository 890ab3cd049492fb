//! What holds of the operations for all values: the laws of arithmetic, of
//! the order and of decimal text, each stated of the operations as
//! functions from values to values and proved.

use crate::bigint::BigInt;
use crate::digits::{
    decimal_length, lemma_decimal_length_bound, lemma_pow10_adds, lemma_pow10_monotonic, pow10,
};
use crate::text::{is_decimal_text, lemma_render, render, text_body, text_value};
use vstd::prelude::*;

verus! {

/// Zero and one are in range of every capacity of at least one digit.
proof fn lemma_small_in_range<const N: usize>()
    requires
        N >= 1,
    ensures
        BigInt::<N>::in_range(0),
        BigInt::<N>::in_range(1),
        BigInt::<N>::in_range(-1),
{
    lemma_pow10_monotonic(1, N as nat);
    assert(pow10(1) == 10 * pow10(0));
    assert(pow10(0) == 1);
}

/// A capacity of 39 digits or more holds every `i128`.
pub proof fn law_i128_in_range<const N: usize>(num: i128)
    requires
        N >= 39,
    ensures
        BigInt::<N>::in_range(num as int),
{
    lemma_pow10_monotonic(39, N as nat);
    assert(pow10(39) == 1_000_000_000_000_000_000_000_000_000_000_000_000_000) by {
        reveal_with_fuel(pow10, 40);
    }
}

/// Two values shorter than the capacity have a sum and a difference within
/// it.
pub proof fn law_room_to_add<const N: usize>(a: BigInt<N>, b: BigInt<N>)
    requires
        a.wf(),
        b.wf(),
        decimal_length(BigInt::<N>::abs(a@)) < N,
        decimal_length(BigInt::<N>::abs(b@)) < N,
    ensures
        BigInt::<N>::in_range(a@ + b@),
        BigInt::<N>::in_range(a@ - b@),
{
    let m = decimal_length(BigInt::<N>::abs(a@));
    let n = decimal_length(BigInt::<N>::abs(b@));
    lemma_decimal_length_bound(BigInt::<N>::abs(a@));
    lemma_decimal_length_bound(BigInt::<N>::abs(b@));
    lemma_pow10_monotonic(m, (N - 1) as nat);
    lemma_pow10_monotonic(n, (N - 1) as nat);
}

/// Two values whose lengths add up to no more than the capacity have a
/// product within it.
pub proof fn law_room_to_multiply<const N: usize>(a: BigInt<N>, b: BigInt<N>)
    requires
        a.wf(),
        b.wf(),
        decimal_length(BigInt::<N>::abs(a@)) + decimal_length(BigInt::<N>::abs(b@)) <= N,
    ensures
        BigInt::<N>::in_range(a@ * b@),
{
    let x = a@;
    let y = b@;
    let mx = BigInt::<N>::abs(x) as int;
    let my = BigInt::<N>::abs(y) as int;
    let m = decimal_length(BigInt::<N>::abs(x));
    let n = decimal_length(BigInt::<N>::abs(y));
    lemma_decimal_length_bound(BigInt::<N>::abs(x));
    lemma_decimal_length_bound(BigInt::<N>::abs(y));
    lemma_pow10_adds(m, n);
    lemma_pow10_monotonic(m + n, N as nat);
    let p = pow10(m) as int;
    let q = pow10(n) as int;
    assert(-(p * q) < x * y < p * q) by (nonlinear_arith)
        requires
            0 <= mx < p,
            0 <= my < q,
            x == mx || x == -mx,
            y == my || y == -my,
    ;
}

/// `a + b == b + a`.
pub proof fn law_add_commutative<const N: usize>(a: BigInt<N>, b: BigInt<N>)
    requires
        a.wf(),
        b.wf(),
        BigInt::<N>::in_range(a@ + b@),
    ensures
        a.sum(b) == b.sum(a),
        a.sum(b).wf(),
{
    a.lemma_view();
    BigInt::<N>::lemma_of_int(a@ + b@);
}

/// `(a + b) + c == a + (b + c)`, where no sum leaves the capacity.
pub proof fn law_add_associative<const N: usize>(a: BigInt<N>, b: BigInt<N>, c: BigInt<N>)
    requires
        a.wf(),
        b.wf(),
        c.wf(),
        BigInt::<N>::in_range(a@ + b@),
        BigInt::<N>::in_range(b@ + c@),
        BigInt::<N>::in_range(a@ + b@ + c@),
    ensures
        a.sum(b).sum(c) == a.sum(b.sum(c)),
        a.sum(b).sum(c).wf(),
{
    a.lemma_view();
    BigInt::<N>::lemma_of_int(a@ + b@);
    BigInt::<N>::lemma_of_int(b@ + c@);
    BigInt::<N>::lemma_of_int(a@ + b@ + c@);
}

/// `a + 0 == a`.
pub proof fn law_add_zero<const N: usize>(a: BigInt<N>)
    requires
        a.wf(),
    ensures
        a.sum(BigInt::<N>::of_int(0)) == a,
        BigInt::<N>::of_int(0).sum(a) == a,
{
    a.lemma_view();
    lemma_small_in_range::<N>();
    BigInt::<N>::lemma_of_int(0);
    a.lemma_of_view();
}

/// `a - a == 0`.
pub proof fn law_sub_self<const N: usize>(a: BigInt<N>)
    requires
        a.wf(),
    ensures
        a.difference(a) == BigInt::<N>::of_int(0),
        a.difference(a)@ == 0,
{
    a.lemma_view();
    lemma_small_in_range::<N>();
    BigInt::<N>::lemma_of_int(0);
}

/// `a - b == a + (-b)`, where `-b` has the magnitude of `b` and the other
/// sign, and is zero where `b` is.
pub proof fn law_sub_is_add_of_negation<const N: usize>(a: BigInt<N>, b: BigInt<N>)
    requires
        a.wf(),
        b.wf(),
        BigInt::<N>::in_range(a@ - b@),
    ensures
        a.difference(b) == a.sum(b.negation()),
        a.difference(b).wf(),
        b.negation().wf(),
        b.negation()@ == -b@,
{
    a.lemma_view();
    b.lemma_view();
    BigInt::<N>::lemma_of_int(-b@);
    BigInt::<N>::lemma_of_int(a@ - b@);
}

/// `a * b == b * a`.
pub proof fn law_mul_commutative<const N: usize>(a: BigInt<N>, b: BigInt<N>)
    requires
        a.wf(),
        b.wf(),
        BigInt::<N>::in_range(a@ * b@),
    ensures
        a.product(b) == b.product(a),
        a.product(b).wf(),
{
    a.lemma_view();
    assert(a@ * b@ == b@ * a@) by (nonlinear_arith);
    BigInt::<N>::lemma_of_int(a@ * b@);
}

/// `a * 1 == a`.
pub proof fn law_mul_one<const N: usize>(a: BigInt<N>)
    requires
        a.wf(),
    ensures
        a.product(BigInt::<N>::of_int(1)) == a,
        BigInt::<N>::of_int(1).product(a) == a,
{
    a.lemma_view();
    lemma_small_in_range::<N>();
    BigInt::<N>::lemma_of_int(1);
    a.lemma_of_view();
    assert(a@ * 1 == a@ && 1 * a@ == a@) by (nonlinear_arith);
}

/// `a * 0 == 0`.
pub proof fn law_mul_zero<const N: usize>(a: BigInt<N>)
    requires
        a.wf(),
    ensures
        a.product(BigInt::<N>::of_int(0)) == BigInt::<N>::of_int(0),
        BigInt::<N>::of_int(0).product(a) == BigInt::<N>::of_int(0),
        BigInt::<N>::of_int(0)@ == 0,
{
    a.lemma_view();
    lemma_small_in_range::<N>();
    BigInt::<N>::lemma_of_int(0);
    assert(a@ * 0 == 0 && 0 * a@ == 0) by (nonlinear_arith);
}

/// The product of two values that are not zero is negative if and only if
/// exactly one of them is.
pub proof fn law_mul_sign<const N: usize>(a: BigInt<N>, b: BigInt<N>)
    requires
        a.wf(),
        b.wf(),
        a@ != 0,
        b@ != 0,
        BigInt::<N>::in_range(a@ * b@),
    ensures
        (a.product(b)@ < 0) == ((a@ < 0) != (b@ < 0)),
        a.product(b)@ != 0,
{
    a.lemma_view();
    BigInt::<N>::lemma_of_int(a@ * b@);
    let x = a@;
    let y = b@;
    assert((x * y < 0) == ((x < 0) != (y < 0)) && x * y != 0) by (nonlinear_arith)
        requires
            x != 0,
            y != 0,
    ;
}

/// Dividing `a` by a `b` that is not zero gives a quotient `q` and a
/// remainder `r` with `b * q + r == a`, `|r| < |b|`, and `r` zero or of the
/// sign of `a`.
pub proof fn law_division<const N: usize>(a: BigInt<N>, b: BigInt<N>)
    requires
        a.wf(),
        b.wf(),
        b@ != 0,
    ensures
        a.quotient(b).wf(),
        a.remainder(b).wf(),
        b.product(a.quotient(b)).sum(a.remainder(b)) == a,
        BigInt::<N>::abs(a.remainder(b)@) < BigInt::<N>::abs(b@),
        a.remainder(b)@ == 0 || (a.remainder(b)@ < 0) == (a@ < 0),
{
    a.lemma_view();
    b.lemma_view();
    let x = a@;
    let y = b@;
    let q = BigInt::<N>::truncated_quotient(x, y);
    let r = BigInt::<N>::truncated_remainder(x, y);
    let mx = BigInt::<N>::abs(x) as int;
    let my = BigInt::<N>::abs(y) as int;
    vstd::arithmetic::div_mod::lemma_fundamental_div_mod(mx, my);
    vstd::arithmetic::div_mod::lemma_mod_bound(mx, my);
    vstd::arithmetic::div_mod::lemma_div_pos_is_pos(mx, my);
    let mq = mx / my;
    let mr = mx % my;
    assert(0 <= my * mq <= mx) by (nonlinear_arith)
        requires
            mx == my * mq + mr,
            0 <= mr,
            0 <= mq,
            0 < my,
    ;
    assert(mq <= my * mq) by (nonlinear_arith)
        requires
            0 <= mq,
            1 <= my,
    ;
    assert(y * q + r == x && (y * q == my * mq || y * q == -(my * mq))) by (nonlinear_arith)
        requires
            mx == my * mq + mr,
            x < 0 ==> mx == -x,
            x >= 0 ==> mx == x,
            y < 0 ==> my == -y,
            y > 0 ==> my == y,
            y != 0,
            q == if (x < 0) == (y < 0) {
                mq
            } else {
                -mq
            },
            r == if x < 0 {
                -mr
            } else {
                mr
            },
    ;
    BigInt::<N>::lemma_of_int(q);
    BigInt::<N>::lemma_of_int(r);
    BigInt::<N>::lemma_of_int(y * q);
    a.lemma_of_view();
}

/// The rendering of a value is a decimal text of no more digits than the
/// capacity, and the value it writes is the value rendered.
pub proof fn law_render_round_trip<const N: usize>(a: BigInt<N>)
    requires
        a.wf(),
    ensures
        is_decimal_text(render(a@)),
        text_body(render(a@)).len() <= N,
        text_value(render(a@)) == a@,
        BigInt::<N>::of_int(text_value(render(a@))) == a,
{
    a.lemma_view();
    a.lemma_size();
    lemma_render(a@);
    a.lemma_of_view();
}

/// Of `a < b`, `a == b` and `a > b` exactly one holds; values compare equal
/// exactly when they are the same value; and `a < b` rules out `b < a`.
pub proof fn law_order_total<const N: usize>(a: BigInt<N>, b: BigInt<N>)
    requires
        a.wf(),
        b.wf(),
    ensures
        a@ < b@ || a@ == b@ || a@ > b@,
        !(a@ < b@ && a@ == b@),
        !(a@ == b@ && a@ > b@),
        !(a@ < b@ && a@ > b@),
        (a@ == b@) == (a == b),
        a@ < b@ ==> !(b@ < a@),
        (a@ > b@) == (b@ < a@),
{
    if a@ == b@ {
        a.lemma_view_injective(b);
    }
}

} // verus!
