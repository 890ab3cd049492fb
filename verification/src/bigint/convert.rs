//! Values from decimal text and from raw digits, and values as decimal
//! text.

use crate::bigint::BigInt;
use crate::digits::{
    lemma_low_value_zeros_above, lemma_pow10_positive, lemma_value_injective, low_value,
    right_aligned, significant_len,
};
use crate::text::{
    decimal_digits, digit_of_char, digit_text, digits_of_text, has_minus, is_decimal_text,
    is_digit_char, lemma_decimal_digits, render, text_body, text_of_digits, text_value,
    ParseError,
};
use vstd::prelude::*;
use vstd::string::StringExecFns;

verus! {

impl<const MAX_SIZE: usize> BigInt<MAX_SIZE> {
    /// A sign, a buffer and a digit count describe a value: the count is
    /// between one and the capacity, the last `size` places of the buffer
    /// hold decimal digits, the first of them is not zero unless it is the
    /// only one, and zero is not negative. What the places in front hold
    /// does not matter.
    pub open spec fn valid_parts(is_negative: bool, digits: Seq<u8>, size: int) -> bool {
        &&& digits.len() == MAX_SIZE
        &&& 1 <= size <= MAX_SIZE
        &&& forall|i: int| MAX_SIZE - size <= i < MAX_SIZE ==> #[trigger] digits[i] <= 9
        &&& size > 1 ==> digits[MAX_SIZE - size] != 0
        &&& is_negative ==> !(size == 1 && digits[MAX_SIZE - 1] == 0)
    }

    /// The value that a sign and the last `current_size` digits of a buffer
    /// describe, if they describe one.
    pub fn from_digits(is_negative: bool, digits: [u8; MAX_SIZE], current_size: usize) -> (r:
        Option<Self>)
        ensures
            r is Some <==> Self::valid_parts(is_negative, digits@, current_size as int),
            r matches Some(v) ==> {
                &&& v.wf()
                &&& Self::abs(v@) == low_value(digits@, current_size as int)
                &&& (v@ < 0) == is_negative
            },
    {
        if current_size < 1 || current_size > MAX_SIZE {
            return None;
        }
        let start: usize = MAX_SIZE - current_size;
        let mut own = [0u8; MAX_SIZE];
        let mut i: usize = start;
        while i < MAX_SIZE
            invariant
                start == MAX_SIZE - current_size,
                start <= i <= MAX_SIZE,
                forall|j: int| 0 <= j < start ==> #[trigger] own@[j] == 0,
                forall|j: int| start <= j < i ==> #[trigger] own@[j] == digits@[j],
                forall|j: int| start <= j < i ==> #[trigger] digits@[j] <= 9,
                forall|j: int| i <= j < MAX_SIZE ==> #[trigger] own@[j] == 0,
            decreases MAX_SIZE - i,
        {
            if digits[i] > 9 {
                return None;
            }
            own[i] = digits[i];
            i += 1;
        }
        if current_size > 1 && own[start] == 0 {
            return None;
        }
        if is_negative && current_size == 1 && own[MAX_SIZE - 1] == 0 {
            return None;
        }
        proof {
            assert(own@.subrange(start as int, MAX_SIZE as int) =~= digits@.subrange(
                start as int,
                MAX_SIZE as int,
            ));
            assert(right_aligned(own@, current_size as int));
            crate::digits::lemma_right_aligned_value(own@, current_size as int);
            if current_size > 1 {
                lemma_pow10_positive((current_size - 1) as nat);
            }
        }
        Some(Self::assemble(is_negative, own, current_size))
    }

    /// The value that a decimal text writes: an optional minus sign, then
    /// one or more digits, no more of them than the capacity.
    pub fn from_str(s: &str) -> (r: Self)
        requires
            is_decimal_text(s@),
            text_body(s@).len() <= MAX_SIZE,
        ensures
            r.wf(),
            r@ == text_value(s@),
    {
        let ghost body = text_body(s@);
        proof {
            assert forall|i: int| 0 <= i < s@.len() implies '\0' <= #[trigger] s@[i] <= '\u{7f}' by {
                if has_minus(s@) {
                    if i > 0 {
                        assert(is_digit_char(body[i - 1]));
                    }
                } else {
                    assert(is_digit_char(body[i]));
                }
            }
            assert(vstd::string::is_ascii(s));
            vstd::string::is_ascii_spec_bytes(s);
            if !has_minus(s@) {
                assert(is_digit_char(body[0]));
            }
        }
        let bytes = s.as_bytes();
        let negative: bool = bytes[0] == 45u8;
        let start: usize = if negative {
            1
        } else {
            0
        };
        let count: usize = bytes.len() - start;
        let first: usize = MAX_SIZE - count;
        let mut digits = [0u8; MAX_SIZE];
        let mut i: usize = 0;
        while i < count
            invariant
                i <= count <= MAX_SIZE,
                start <= 1,
                first == MAX_SIZE - count,
                bytes@.len() == start + count,
                body.len() == count,
                forall|j: int| 0 <= j < count ==> is_digit_char(#[trigger] body[j]),
                forall|j: int| 0 <= j < count ==> bytes@[start + j] == #[trigger] body[j] as u8,
                forall|j: int| 0 <= j < first ==> #[trigger] digits@[j] == 0,
                forall|j: int|
                    first <= j < first + i ==> #[trigger] digits@[j] == digit_of_char(
                        body[j - first],
                    ),
                forall|j: int| first + i <= j < MAX_SIZE ==> #[trigger] digits@[j] == 0,
            decreases count - i,
        {
            assert(is_digit_char(body[i as int]));
            digits[first + i] = bytes[start + i] - 48;
            i += 1;
        }
        proof {
            assert(digits@.subrange(first as int, MAX_SIZE as int) =~= digits_of_text(body));
            assert forall|j: int| 0 <= j < MAX_SIZE implies #[trigger] digits@[j] <= 9 by {
                if j >= first {
                    assert(is_digit_char(body[j - first]));
                }
            }
            lemma_low_value_zeros_above(digits@, count as int);
        }
        let size = significant_len(&digits, count);
        let magnitude = Self::assemble(false, digits, size);
        if magnitude.is_zero() {
            magnitude
        } else {
            magnitude.with_sign(negative)
        }
    }

    /// The value that a text writes, or why it writes none: a text without
    /// a digit is empty, one with anything but digits behind the optional
    /// minus sign has an invalid digit, and a well-formed one with more
    /// digits than the capacity exceeds it.
    pub fn parse(s: &str) -> (r: Result<Self, ParseError>)
        ensures
            r is Ok <==> is_decimal_text(s@) && text_body(s@).len() <= MAX_SIZE,
            r matches Ok(v) ==> v.wf() && v@ == text_value(s@),
            r == Err::<Self, ParseError>(ParseError::Empty) <==> text_body(s@).len() == 0,
            r == Err::<Self, ParseError>(ParseError::InvalidDigit) <==> text_body(s@).len() > 0
                && !is_decimal_text(s@),
            r == Err::<Self, ParseError>(ParseError::CapacityExceeded) <==> is_decimal_text(s@)
                && text_body(s@).len() > MAX_SIZE,
    {
        let ghost body = text_body(s@);
        if !s.is_ascii() {
            proof {
                let k = choose|k: int| 0 <= k < s@.len() && !('\0' <= #[trigger] s@[k] <= '\u{7f}');
                if has_minus(s@) {
                    assert(!is_digit_char(body[k - 1]));
                } else {
                    assert(!is_digit_char(body[k]));
                }
            }
            return Err(ParseError::InvalidDigit);
        }
        proof {
            vstd::string::is_ascii_spec_bytes(s);
        }
        let bytes = s.as_bytes();
        let n: usize = bytes.len();
        let start: usize = if n > 0 && bytes[0] == 45u8 {
            1
        } else {
            0
        };
        if n == start {
            return Err(ParseError::Empty);
        }
        let mut i: usize = start;
        while i < n
            invariant
                start <= i <= n,
                start <= 1,
                n == bytes@.len(),
                body == text_body(s@),
                body.len() == n - start,
                forall|j: int| 0 <= j < n - start ==> bytes@[start + j] == #[trigger] body[j] as u8,
                forall|j: int| 0 <= j < n - start ==> '\0' <= #[trigger] body[j] <= '\u{7f}',
                forall|j: int| 0 <= j < i - start ==> is_digit_char(#[trigger] body[j]),
            decreases n - i,
        {
            if bytes[i] < 48 || bytes[i] > 57 {
                proof {
                    assert(!is_digit_char(body[i - start]));
                }
                return Err(ParseError::InvalidDigit);
            }
            proof {
                let c = body[i - start];
                assert('\0' <= c <= '\u{7f}');
                assert(is_digit_char(c));
            }
            i += 1;
        }
        if n - start > MAX_SIZE {
            return Err(ParseError::CapacityExceeded);
        }
        Ok(Self::from_str(s))
    }

    /// The canonical decimal text: a minus sign if the value is negative,
    /// then its significant digits.
    pub fn to_string(&self) -> (r: String)
        ensures
            r@ == render(self@),
    {
        proof {
            use_type_invariant(self);
            self.lemma_shape();
        }
        let start: usize = MAX_SIZE - self.current_size;
        let ghost significant = self.digits@.subrange(start as int, MAX_SIZE as int);
        let mut out = String::new();
        if self.is_negative {
            proof {
                reveal_strlit("-");
            }
            out.append("-");
        }
        let ghost prefix = out@;
        let mut i: usize = start;
        assert(out@ =~= prefix + text_of_digits(significant.subrange(0, 0)));
        while i < MAX_SIZE
            invariant
                self.wf(),
                start == MAX_SIZE - self.current_size,
                start <= i <= MAX_SIZE,
                significant == self.digits@.subrange(start as int, MAX_SIZE as int),
                out@ == prefix + text_of_digits(significant.subrange(0, i - start)),
            decreases MAX_SIZE - i,
        {
            out.append(digit_text(self.digits[i]));
            proof {
                assert(out@ =~= prefix + text_of_digits(significant.subrange(0, i + 1 - start)));
            }
            i += 1;
        }
        proof {
            let magnitude = self.magnitude();
            lemma_decimal_digits(magnitude);
            assert(significant.subrange(0, MAX_SIZE - start) =~= significant);
            lemma_value_injective(significant, decimal_digits(magnitude));
            assert(prefix =~= if self.is_negative {
                seq!['-']
            } else {
                Seq::<char>::empty()
            });
            assert(Seq::<char>::empty() + text_of_digits(significant) =~= text_of_digits(
                significant,
            ));
        }
        out
    }
}

} // verus!
