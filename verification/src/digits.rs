//! Decimal digit strings as mathematical numbers.
//!
//! A digit string is a `Seq<u8>` whose first element is the most significant
//! digit. The lemmas here are the arithmetic that every algorithm on digit
//! buffers rests on.

use vstd::prelude::*;

verus! {

/// Ten to the power `n`.
pub open spec fn pow10(n: nat) -> nat
    decreases n,
{
    if n == 0 {
        1
    } else {
        10 * pow10((n - 1) as nat)
    }
}

/// Every element of `s` is a decimal digit.
pub open spec fn all_digits(s: Seq<u8>) -> bool {
    forall|i: int| 0 <= i < s.len() ==> #[trigger] s[i] <= 9
}

/// The number that `s` writes in base ten, most significant digit first.
pub open spec fn digits_value(s: Seq<u8>) -> nat
    decreases s.len(),
{
    if s.len() == 0 {
        0
    } else {
        digits_value(s.drop_last()) * 10 + s.last() as nat
    }
}

/// The number written by the last `k` digits of `s`.
pub open spec fn low_value(s: Seq<u8>, k: int) -> nat {
    digits_value(s.subrange(s.len() - k, s.len() as int))
}

/// `s` holds a number of exactly `size` digits, right-aligned: decimal
/// digits throughout, zeros in front of the number, and no leading zero in
/// the number itself unless it is the single digit zero.
pub open spec fn right_aligned(s: Seq<u8>, size: int) -> bool {
    &&& 1 <= size <= s.len()
    &&& all_digits(s)
    &&& forall|i: int| 0 <= i < s.len() - size ==> #[trigger] s[i] == 0
    &&& size > 1 ==> s[s.len() - size] != 0
}

/// How many decimal digits it takes to write `n`; zero takes one.
pub open spec fn decimal_length(n: nat) -> nat
    decreases n,
{
    if n < 10 {
        1
    } else {
        1 + decimal_length(n / 10)
    }
}

pub proof fn lemma_pow10_positive(n: nat)
    ensures
        pow10(n) >= 1,
    decreases n,
{
    if n > 0 {
        lemma_pow10_positive((n - 1) as nat);
    }
}

pub proof fn lemma_pow10_adds(a: nat, b: nat)
    ensures
        pow10(a + b) == pow10(a) * pow10(b),
    decreases a,
{
    if a == 0 {
        assert(pow10(0) == 1);
    } else {
        lemma_pow10_adds((a - 1) as nat, b);
        let p = pow10((a - 1) as nat);
        let q = pow10(b);
        assert(pow10(a + b) == 10 * pow10((a + b - 1) as nat));
        assert(((a - 1) as nat) + b == (a + b - 1) as nat);
        assert(10 * (p * q) == (10 * p) * q) by (nonlinear_arith);
    }
}

pub proof fn lemma_pow10_monotonic(a: nat, b: nat)
    requires
        a <= b,
    ensures
        pow10(a) <= pow10(b),
    decreases b,
{
    if a < b {
        lemma_pow10_monotonic(a, (b - 1) as nat);
    }
}

/// A digit string splits at any index into a high and a low part.
pub proof fn lemma_value_split(s: Seq<u8>, i: int)
    requires
        0 <= i <= s.len(),
    ensures
        digits_value(s) == digits_value(s.subrange(0, i)) * pow10((s.len() - i) as nat)
            + digits_value(s.subrange(i, s.len() as int)),
    decreases s.len(),
{
    let n = s.len() as int;
    if i == n {
        assert(s.subrange(0, i) =~= s);
        assert(s.subrange(i, n).len() == 0);
        assert(pow10(0) == 1);
        assert(digits_value(s) * 1 == digits_value(s));
    } else {
        let t = s.drop_last();
        lemma_value_split(t, i);
        assert(t.subrange(0, i) =~= s.subrange(0, i));
        let w = s.subrange(i, n);
        assert(w.drop_last() =~= t.subrange(i, n - 1));
        assert(w.last() == s.last());
        let h = digits_value(s.subrange(0, i));
        let m = digits_value(t.subrange(i, n - 1));
        let p = pow10((n - 1 - i) as nat);
        assert(pow10((n - i) as nat) == 10 * p);
        assert(digits_value(w) == m * 10 + s.last() as nat);
        assert(digits_value(t) == h * p + m);
        assert(digits_value(s) == digits_value(t) * 10 + s.last() as nat);
        assert((h * p + m) * 10 == h * (10 * p) + m * 10) by (nonlinear_arith);
    }
}

/// A string of decimal digits writes a number below ten to its length.
pub proof fn lemma_value_bound(s: Seq<u8>)
    requires
        all_digits(s),
    ensures
        digits_value(s) < pow10(s.len()),
    decreases s.len(),
{
    if s.len() > 0 {
        lemma_value_bound(s.drop_last());
    }
}

/// Leading zeros do not change the number.
pub proof fn lemma_value_leading_zeros(s: Seq<u8>, i: int)
    requires
        0 <= i <= s.len(),
        forall|j: int| 0 <= j < i ==> s[j] == 0,
    ensures
        digits_value(s.subrange(0, i)) == 0,
        digits_value(s) == digits_value(s.subrange(i, s.len() as int)),
    decreases i,
{
    let n = s.len() as int;
    if i == 0 {
        assert(s.subrange(0, 0).len() == 0);
        assert(s.subrange(0, n) =~= s);
    } else {
        lemma_value_leading_zeros(s, i - 1);
        assert(s.subrange(0, i).drop_last() =~= s.subrange(0, i - 1));
        assert(s.subrange(0, i).last() == s[i - 1]);
        lemma_value_split(s, i);
        assert(0 * pow10((n - i) as nat) == 0);
    }
}

/// A string of zeros writes zero.
pub proof fn lemma_value_of_zeros(s: Seq<u8>)
    requires
        forall|j: int| 0 <= j < s.len() ==> s[j] == 0,
    ensures
        digits_value(s) == 0,
{
    lemma_value_leading_zeros(s, s.len() as int);
    assert(s.subrange(s.len() as int, s.len() as int).len() == 0);
}

/// A nonzero leading digit puts the number at or above ten to the length
/// less one.
pub proof fn lemma_value_leading_digit(s: Seq<u8>)
    requires
        s.len() >= 1,
        s[0] >= 1,
    ensures
        digits_value(s) >= pow10((s.len() - 1) as nat),
    decreases s.len(),
{
    if s.len() == 1 {
        assert(s.drop_last().len() == 0);
        assert(digits_value(s.drop_last()) == 0);
        assert(pow10(0) == 1);
    } else {
        lemma_value_leading_digit(s.drop_last());
    }
}

/// Replacing one digit moves the number by the difference of the digits,
/// scaled by the digit's place.
pub proof fn lemma_value_update(s: Seq<u8>, i: int, v: u8)
    requires
        0 <= i < s.len(),
    ensures
        digits_value(s.update(i, v)) as int == digits_value(s) + (v as int - s[i] as int) * pow10(
            (s.len() - 1 - i) as nat,
        ),
    decreases s.len(),
{
    let n = s.len() as int;
    let u = s.update(i, v);
    let d = v as int - s[i] as int;
    if i == n - 1 {
        assert(u.drop_last() =~= s.drop_last());
        assert(u.last() == v);
        assert(pow10(0) == 1);
        assert(d * 1 == d);
    } else {
        let t = s.drop_last();
        lemma_value_update(t, i, v);
        assert(u.drop_last() =~= t.update(i, v));
        assert(u.last() == s.last());
        assert(t[i] == s[i]);
        let p = pow10((n - 2 - i) as nat);
        assert(pow10((n - 1 - i) as nat) == 10 * p);
        assert(digits_value(u) == digits_value(t.update(i, v)) * 10 + s.last() as nat);
        assert(digits_value(t.update(i, v)) as int == digits_value(t) + d * p);
        assert((digits_value(t) + d * p) * 10 == digits_value(t) * 10 + d * (10 * p))
            by (nonlinear_arith);
    }
}

/// Of two digit strings of one length that agree up to an index, the one
/// with the smaller digit there writes the smaller number.
pub proof fn lemma_value_first_difference(s: Seq<u8>, t: Seq<u8>, m: int)
    requires
        s.len() == t.len(),
        0 <= m < s.len(),
        all_digits(s),
        all_digits(t),
        forall|j: int| 0 <= j < m ==> s[j] == t[j],
        s[m] < t[m],
    ensures
        digits_value(s) < digits_value(t),
{
    let n = s.len() as int;
    lemma_value_split(s, m + 1);
    lemma_value_split(t, m + 1);
    let sh = s.subrange(0, m + 1);
    let th = t.subrange(0, m + 1);
    assert(sh.drop_last() =~= th.drop_last());
    assert(digits_value(sh) + 1 <= digits_value(th));
    let sl = s.subrange(m + 1, n);
    let tl = t.subrange(m + 1, n);
    lemma_value_bound(sl);
    let p = pow10((n - m - 1) as nat);
    let a = digits_value(sh);
    let b = digits_value(th);
    assert(a * p + p <= b * p) by (nonlinear_arith)
        requires
            a + 1 <= b,
    ;
}

/// Digit strings of one length that write the same number are the same.
pub proof fn lemma_value_injective(s: Seq<u8>, t: Seq<u8>)
    requires
        s.len() == t.len(),
        all_digits(s),
        all_digits(t),
        digits_value(s) == digits_value(t),
    ensures
        s =~= t,
    decreases s.len(),
{
    if s.len() > 0 {
        let a = digits_value(s.drop_last());
        let b = digits_value(t.drop_last());
        assert(s.last() <= 9 && t.last() <= 9);
        assert(a == b && s.last() == t.last());
        lemma_value_injective(s.drop_last(), t.drop_last());
        assert forall|j: int| 0 <= j < s.len() implies s[j] == t[j] by {
            if j < s.len() - 1 {
                assert(s[j] == s.drop_last()[j]);
                assert(t[j] == t.drop_last()[j]);
            }
        }
    }
}

/// The last `k + 1` digits are the digit in place `k` followed by the last
/// `k` digits.
pub proof fn lemma_low_value_step(s: Seq<u8>, k: int)
    requires
        0 <= k < s.len(),
    ensures
        low_value(s, k + 1) == s[s.len() - 1 - k] as nat * pow10(k as nat) + low_value(s, k),
        low_value(s, 0) == 0,
{
    let n = s.len() as int;
    let w = s.subrange(n - k - 1, n);
    lemma_value_split(w, 1);
    assert(w.subrange(1, k + 1) =~= s.subrange(n - k, n));
    let h = w.subrange(0, 1);
    assert(h.drop_last().len() == 0);
    assert(digits_value(h.drop_last()) == 0);
    assert(digits_value(h) == s[n - 1 - k] as nat);
    assert(s.subrange(n, n).len() == 0);
}

/// The last `k` digits of a string whose higher digits are zero write the
/// same number as the whole string.
pub proof fn lemma_low_value_zeros_above(s: Seq<u8>, k: int)
    requires
        0 <= k <= s.len(),
        forall|j: int| 0 <= j < s.len() - k ==> s[j] == 0,
    ensures
        low_value(s, k) == digits_value(s),
{
    lemma_value_leading_zeros(s, s.len() - k);
}

/// The last `k` digits write a number below ten to the `k`, and no more
/// than the last `m` digits do, for `k <= m`.
pub proof fn lemma_low_value_bounds(s: Seq<u8>, k: int, m: int)
    requires
        0 <= k <= m <= s.len(),
        all_digits(s),
    ensures
        low_value(s, k) < pow10(k as nat),
        low_value(s, k) <= low_value(s, m),
{
    let n = s.len() as int;
    lemma_value_bound(s.subrange(n - k, n));
    let w = s.subrange(n - m, n);
    lemma_value_split(w, m - k);
    assert(w.subrange(m - k, m) =~= s.subrange(n - k, n));
}

/// A number is below ten to its length.
pub proof fn lemma_decimal_length_bound(n: nat)
    ensures
        n < pow10(decimal_length(n)),
    decreases n,
{
    assert(pow10(1) == 10 * pow10(0));
    assert(pow10(0) == 1);
    if n >= 10 {
        lemma_decimal_length_bound(n / 10);
    }
}

/// A number below ten to the `k` has at most `k` digits; one at or above
/// ten to the `k - 1` has at least `k`.
pub proof fn lemma_decimal_length(n: nat, k: nat)
    requires
        k >= 1,
        n < pow10(k),
        k > 1 ==> n >= pow10((k - 1) as nat),
    ensures
        decimal_length(n) == k,
    decreases k,
{
    if k == 1 {
        assert(pow10(1) == 10 * pow10(0));
        assert(pow10(0) == 1);
    } else {
        assert(pow10(1) == 10 * pow10(0));
        assert(pow10(0) == 1);
        lemma_pow10_monotonic(1, (k - 1) as nat);
        assert(n >= 10);
        let p = pow10((k - 2) as nat);
        assert(pow10((k - 1) as nat) == 10 * p);
        assert(pow10(k) == 10 * (10 * p));
        assert(n / 10 < 10 * p);
        assert(n / 10 >= p);
        lemma_decimal_length(n / 10, (k - 1) as nat);
    }
}

/// What a right-aligned number of `size` digits is worth: its significant
/// digits write the same number as the whole buffer, which lies between
/// the powers of ten that `size` names.
pub proof fn lemma_right_aligned_value(s: Seq<u8>, size: int)
    requires
        right_aligned(s, size),
    ensures
        low_value(s, size) == digits_value(s),
        digits_value(s) < pow10(size as nat),
        size > 1 ==> digits_value(s) >= pow10((size - 1) as nat),
        size == 1 ==> digits_value(s) == s[s.len() - 1],
        decimal_length(digits_value(s)) == size,
{
    let n = s.len() as int;
    lemma_low_value_zeros_above(s, size);
    lemma_low_value_bounds(s, size, size);
    let w = s.subrange(n - size, n);
    if size > 1 {
        lemma_value_leading_digit(w);
    } else {
        assert(w.drop_last().len() == 0);
        assert(digits_value(w.drop_last()) == 0);
        assert(w.last() == s[n - 1]);
    }
    lemma_decimal_length(digits_value(s), size as nat);
}

/// Two right-aligned buffers of one length that hold the same number have
/// the same size and the same digits.
pub proof fn lemma_right_aligned_unique(s: Seq<u8>, sn: int, t: Seq<u8>, tn: int)
    requires
        s.len() == t.len(),
        right_aligned(s, sn),
        right_aligned(t, tn),
        digits_value(s) == digits_value(t),
    ensures
        sn == tn,
        s =~= t,
{
    lemma_right_aligned_value(s, sn);
    lemma_right_aligned_value(t, tn);
    lemma_value_injective(s, t);
}

/// The digits of `s` in the places `shift .. shift + len`, counted from the
/// units: the window that a divisor of `len` digits, moved `shift` places
/// up, is held against.
pub open spec fn window(s: Seq<u8>, len: int, shift: int) -> Seq<u8> {
    s.subrange(s.len() - shift - len, s.len() - shift)
}

/// The digit of `s` just above that window, zero where the buffer ends.
pub open spec fn above_window(s: Seq<u8>, len: int, shift: int) -> nat {
    if len + shift < s.len() {
        s[s.len() - 1 - len - shift] as nat
    } else {
        0
    }
}

/// A buffer with nothing above the digit over the window is that digit,
/// the window and the digits below it, each in its place.
pub proof fn lemma_window_split(s: Seq<u8>, len: int, shift: int)
    requires
        0 <= len,
        0 <= shift,
        len + shift <= s.len(),
        all_digits(s),
        forall|t: int| 0 <= t < s.len() - 1 - len - shift ==> #[trigger] s[t] == 0,
    ensures
        digits_value(s) == (above_window(s, len, shift) * pow10(len as nat) + digits_value(
            window(s, len, shift),
        )) * pow10(shift as nat) + low_value(s, shift),
        low_value(s, shift) < pow10(shift as nat),
        digits_value(window(s, len, shift)) < pow10(len as nat),
        all_digits(window(s, len, shift)),
{
    let n = s.len() as int;
    lemma_value_split(s, n - shift);
    let high = s.subrange(0, n - shift);
    lemma_value_split(high, n - shift - len);
    assert(high.subrange(n - shift - len, n - shift) =~= window(s, len, shift));
    let top = high.subrange(0, n - shift - len);
    lemma_low_value_bounds(s, shift, shift);
    lemma_value_bound(window(s, len, shift));
    if len + shift < n {
        lemma_value_leading_zeros(top, n - shift - len - 1);
        let unit = top.subrange(n - shift - len - 1, n - shift - len);
        assert(unit.drop_last().len() == 0);
        assert(digits_value(unit.drop_last()) == 0);
        assert(unit.last() == s[n - 1 - len - shift]);
    } else {
        assert(top.len() == 0);
    }
}

/// In a buffer with nothing above place `m` that holds a number below ten
/// to the `m`, the digit in place `m` is zero too.
pub proof fn lemma_top_digit_zero(s: Seq<u8>, m: int)
    requires
        0 <= m < s.len(),
        all_digits(s),
        forall|t: int| 0 <= t < s.len() - 1 - m ==> #[trigger] s[t] == 0,
        digits_value(s) < pow10(m as nat),
    ensures
        s[s.len() - 1 - m] == 0,
{
    lemma_low_value_zeros_above(s, m + 1);
    lemma_low_value_step(s, m);
    let d = s[s.len() - 1 - m] as nat;
    let p = pow10(m as nat);
    if d >= 1 {
        assert(d * p >= p) by (nonlinear_arith)
            requires
                d >= 1,
        ;
    }
}

/// Counts the significant digits of a buffer whose digits in front of the
/// last `candidate` places are zero: scans from the highest candidate place
/// down to the first digit that is not zero.
pub(crate) fn significant_len<const N: usize>(digits: &[u8; N], candidate: usize) -> (size: usize)
    requires
        N >= 1,
        candidate <= N,
        all_digits(digits@),
        forall|i: int| 0 <= i < N - candidate ==> #[trigger] digits@[i] == 0,
    ensures
        right_aligned(digits@, size as int),
        size <= candidate || size == 1,
{
    let mut i: usize = N - candidate;
    while i < N - 1 && digits[i] == 0
        invariant
            N - candidate <= i <= N,
            N >= 1,
            candidate >= 1 ==> i <= N - 1,
            forall|j: int| 0 <= j < i ==> #[trigger] digits@[j] == 0,
        decreases N - i,
    {
        i += 1;
    }
    if i >= N {
        1
    } else {
        N - i
    }
}

} // verus!
