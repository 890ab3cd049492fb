//! Decimal text: which character strings write an integer, which integer
//! they write, and the one string that renders each integer.

use crate::digits::{all_digits, decimal_length, digits_value};
use vstd::prelude::*;

verus! {

/// Why a text does not write a value.
#[derive(Debug, Clone, Copy, PartialEq, Eq, Structural)]
pub enum ParseError {
    /// There is no digit: the text is empty or a lone minus sign.
    Empty,
    /// Something other than a digit follows the optional minus sign.
    InvalidDigit,
    /// The text is well-formed and has more digits than the capacity.
    CapacityExceeded,
}

/// `c` is one of `'0'` to `'9'`.
pub open spec fn is_digit_char(c: char) -> bool {
    '0' <= c <= '9'
}

/// The digit that a digit character stands for.
pub open spec fn digit_of_char(c: char) -> u8 {
    (c as int - 48) as u8
}

/// The character that stands for a digit.
pub open spec fn char_of_digit(d: u8) -> char {
    (d as int + 48) as char
}

/// The digits that a string of digit characters stands for.
pub open spec fn digits_of_text(s: Seq<char>) -> Seq<u8> {
    Seq::new(s.len(), |i: int| digit_of_char(s[i]))
}

/// The characters that stand for a string of digits.
pub open spec fn text_of_digits(d: Seq<u8>) -> Seq<char> {
    Seq::new(d.len(), |i: int| char_of_digit(d[i]))
}

/// The text starts with a minus sign.
pub open spec fn has_minus(s: Seq<char>) -> bool {
    s.len() >= 1 && s[0] == '-'
}

/// The text without its minus sign, if it has one.
pub open spec fn text_body(s: Seq<char>) -> Seq<char> {
    if has_minus(s) {
        s.subrange(1, s.len() as int)
    } else {
        s
    }
}

/// The text is an optional minus sign followed by one or more decimal
/// digits and nothing else.
pub open spec fn is_decimal_text(s: Seq<char>) -> bool {
    &&& text_body(s).len() >= 1
    &&& forall|i: int| 0 <= i < text_body(s).len() ==> is_digit_char(#[trigger] text_body(s)[i])
}

/// The integer that a decimal text writes.
pub open spec fn text_value(s: Seq<char>) -> int {
    let magnitude = digits_value(digits_of_text(text_body(s)));
    if has_minus(s) {
        -(magnitude as int)
    } else {
        magnitude as int
    }
}

/// The digits of `n`, most significant first, without leading zeros.
pub open spec fn decimal_digits(n: nat) -> Seq<u8>
    decreases n,
{
    if n < 10 {
        seq![n as u8]
    } else {
        decimal_digits(n / 10).push((n % 10) as u8)
    }
}

/// The canonical decimal text of an integer: a minus sign if it is
/// negative, then its digits.
pub open spec fn render(v: int) -> Seq<char> {
    if v < 0 {
        seq!['-'] + text_of_digits(decimal_digits((-v) as nat))
    } else {
        text_of_digits(decimal_digits(v as nat))
    }
}

/// The digits of `n` are decimal digits that write `n`, as many as `n` is
/// long, the first of them zero only for zero itself.
pub proof fn lemma_decimal_digits(n: nat)
    ensures
        all_digits(decimal_digits(n)),
        digits_value(decimal_digits(n)) == n,
        decimal_digits(n).len() == decimal_length(n),
        n > 0 ==> decimal_digits(n)[0] != 0,
    decreases n,
{
    let s = decimal_digits(n);
    if n < 10 {
        assert(s.drop_last().len() == 0);
        assert(digits_value(s.drop_last()) == 0);
        assert(s.last() == n as u8);
    } else {
        lemma_decimal_digits(n / 10);
        let t = decimal_digits(n / 10);
        assert(s.drop_last() =~= t);
        assert(s.last() == (n % 10) as u8);
        assert(s[0] == t[0]);
    }
}

/// Turning digits into characters and back gives the digits again.
pub proof fn lemma_digits_of_text_of_digits(d: Seq<u8>)
    requires
        all_digits(d),
    ensures
        digits_of_text(text_of_digits(d)) =~= d,
        forall|i: int| 0 <= i < d.len() ==> is_digit_char(#[trigger] text_of_digits(d)[i]),
{
    assert forall|i: int| 0 <= i < d.len() implies digits_of_text(text_of_digits(d))[i]
        == d[i] && is_digit_char(#[trigger] text_of_digits(d)[i]) by {
        assert(d[i] <= 9);
    }
}

/// The rendering of an integer is a decimal text that writes that integer
/// with as many digits as the integer is long.
pub proof fn lemma_render(v: int)
    ensures
        is_decimal_text(render(v)),
        text_value(render(v)) == v,
        has_minus(render(v)) == (v < 0),
        text_body(render(v)).len() == decimal_length(
            if v < 0 {
                (-v) as nat
            } else {
                v as nat
            },
        ),
{
    let n: nat = if v < 0 {
        (-v) as nat
    } else {
        v as nat
    };
    let d = decimal_digits(n);
    let body = text_of_digits(d);
    lemma_decimal_digits(n);
    lemma_digits_of_text_of_digits(d);
    if v < 0 {
        let s = seq!['-'] + body;
        assert(s[0] == '-');
        assert(s.subrange(1, s.len() as int) =~= body);
    } else {
        assert(d[0] <= 9);
        assert(body[0] == char_of_digit(d[0]));
        assert(body[0] != '-');
    }
}

/// The one-character text of a digit.
pub(crate) fn digit_text(d: u8) -> (r: &'static str)
    requires
        d <= 9,
    ensures
        r@ =~= seq![char_of_digit(d)],
{
    proof {
        reveal_strlit("0");
        reveal_strlit("1");
        reveal_strlit("2");
        reveal_strlit("3");
        reveal_strlit("4");
        reveal_strlit("5");
        reveal_strlit("6");
        reveal_strlit("7");
        reveal_strlit("8");
        reveal_strlit("9");
    }
    match d {
        0 => "0",
        1 => "1",
        2 => "2",
        3 => "3",
        4 => "4",
        5 => "5",
        6 => "6",
        7 => "7",
        8 => "8",
        _ => "9",
    }
}

} // verus!
