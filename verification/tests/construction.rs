use bigint::text::ParseError;
use bigint::BigInt;

type BigIntTest = BigInt<100>;

#[test]
fn from_positive() {
    const STR: &str = "123456789123456789123456789123456789";
    let x: BigIntTest = BigInt::from_str(STR);
    let mut digits = [0u8; 100];
    let first = x.max_size() - STR.len();
    let mut i = first;
    while i < x.max_size() {
        digits[i] = ((i - first) % 9 + 1) as u8;
        i += 1;
    }
    let expected: BigIntTest = BigInt::from_digits(false, digits, STR.len()).unwrap();
    assert_eq!(x, expected);
}

#[test]
fn from_negative() {
    const STR: &str = "-123456789123456789123456789123456789";
    let x: BigIntTest = BigInt::from_str(STR);
    let mut digits = [0u8; 100];
    let first = x.max_size() - STR.len() + 1;
    let mut i = first;
    while i < x.max_size() {
        digits[i] = ((i - first) % 9 + 1) as u8;
        i += 1;
    }
    let expected: BigIntTest = BigInt::from_digits(true, digits, STR.len() - 1).unwrap();
    assert_eq!(x, expected);
}

#[test]
fn from_i128() {
    {
        const NUM: i128 = 1234567891234567891;
        let x: BigIntTest = BigInt::from_i128(NUM);
        let y: BigIntTest = BigInt::from_str("1234567891234567891");
        assert_eq!(x, y);
    }

    {
        const NUM: i128 = -1234567891234567891;
        let x: BigIntTest = BigInt::from_i128(NUM);
        let y: BigIntTest = BigInt::from_str("-1234567891234567891");
        assert_eq!(x, y);
    }
}

#[test]
fn zero_is_one_nonnegative_digit() {
    let z: BigIntTest = BigInt::zero();
    assert_eq!(z.size(), 1);
    assert!(z.is_zero());
    assert!(z.is_even());
    assert_eq!(z.max_size(), 100);
    assert_eq!(z.to_string(), "0");
    assert_eq!(z, BigInt::from_i128(0));
    assert_eq!(z, BigInt::from_str("0"));
}

#[test]
fn from_i128_extremes() {
    let max: BigIntTest = BigInt::from_i128(i128::MAX);
    assert_eq!(max.to_string(), "170141183460469231731687303715884105727");
    assert_eq!(max.size(), 39);
    let min: BigIntTest = BigInt::from_i128(i128::MIN);
    assert_eq!(min.to_string(), "-170141183460469231731687303715884105728");
    assert_eq!(min.size(), 39);
    let exact: BigInt<39> = BigInt::from_i128(i128::MIN);
    assert_eq!(exact.to_string(), "-170141183460469231731687303715884105728");
}

#[test]
fn from_i128_single_digits() {
    for n in -9..=9i128 {
        let x: BigInt<1> = BigInt::from_i128(n);
        assert_eq!(x.size(), 1);
        assert_eq!(x.to_string(), n.to_string());
        assert_eq!(x.is_zero(), n == 0);
        assert_eq!(x.is_even(), n % 2 == 0);
    }
}

#[test]
fn from_str_drops_leading_zeros_and_negative_zero() {
    let x: BigIntTest = BigInt::from_str("000123");
    assert_eq!(x.size(), 3);
    assert_eq!(x.to_string(), "123");
    let y: BigIntTest = BigInt::from_str("-0");
    assert!(y.is_zero());
    assert_eq!(y.to_string(), "0");
    assert_eq!(y, BigInt::zero());
    let z: BigIntTest = BigInt::from_str("-000");
    assert_eq!(z.to_string(), "0");
    assert_eq!(z.size(), 1);
}

#[test]
fn from_str_fills_the_whole_capacity() {
    let x: BigInt<5> = BigInt::from_str("-98765");
    assert_eq!(x.size(), 5);
    assert_eq!(x.max_size(), 5);
    assert_eq!(x.to_string(), "-98765");
}

#[test]
fn from_digits_accepts_only_canonical_parts() {
    let ok: Option<BigInt<4>> = BigInt::from_digits(false, [0, 1, 2, 3], 3);
    assert_eq!(ok.unwrap().to_string(), "123");
    let padded: Option<BigInt<4>> = BigInt::from_digits(true, [77, 0, 4, 2], 2);
    assert_eq!(padded.unwrap(), BigInt::from_i128(-42));
    let zero: Option<BigInt<4>> = BigInt::from_digits(false, [0, 0, 0, 0], 1);
    assert_eq!(zero.unwrap(), BigInt::zero());

    let no_size: Option<BigInt<4>> = BigInt::from_digits(false, [0, 1, 2, 3], 0);
    assert!(no_size.is_none());
    let too_long: Option<BigInt<4>> = BigInt::from_digits(false, [1, 1, 2, 3], 5);
    assert!(too_long.is_none());
    let not_a_digit: Option<BigInt<4>> = BigInt::from_digits(false, [0, 1, 10, 3], 3);
    assert!(not_a_digit.is_none());
    let leading_zero: Option<BigInt<4>> = BigInt::from_digits(false, [0, 0, 2, 3], 3);
    assert!(leading_zero.is_none());
    let negative_zero: Option<BigInt<4>> = BigInt::from_digits(true, [0, 0, 0, 0], 1);
    assert!(negative_zero.is_none());
}

#[test]
fn const_clone_gives_an_equal_value() {
    let x: BigIntTest = BigInt::from_str("-31415926535897932384626433832795");
    let y = x.const_clone();
    assert_eq!(x, y);
    assert_eq!(y.to_string(), "-31415926535897932384626433832795");
    assert_eq!(y.size(), x.size());
}

#[test]
fn size_counts_significant_digits() {
    let mut text = String::from("1");
    for expected in 1..=40usize {
        let x: BigIntTest = BigInt::from_str(&text);
        assert_eq!(x.size(), expected);
        text.push('0');
    }
}

#[test]
fn parity_follows_the_units_digit() {
    for n in -1000..=1000i128 {
        let x: BigIntTest = BigInt::from_i128(n);
        assert_eq!(x.is_even(), n % 2 == 0);
    }
}

#[test]
fn rendering_round_trips() {
    for n in -1000..=1000i128 {
        let x: BigIntTest = BigInt::from_i128(n);
        let text = x.to_string();
        assert_eq!(text, n.to_string());
        let back: BigIntTest = BigInt::from_str(&text);
        assert_eq!(back, x);
    }
    let long = "-987654321098765432109876543210987654321098765432109876543210";
    let x: BigIntTest = BigInt::from_str(long);
    assert_eq!(x.to_string(), long);
}

#[test]
fn parse_accepts_decimal_text() {
    let x: Result<BigIntTest, ParseError> = BigInt::parse("-123456789123456789123456789123456789");
    assert_eq!(x, Ok(BigInt::from_str("-123456789123456789123456789123456789")));
    let y: Result<BigInt<3>, ParseError> = BigInt::parse("999");
    assert_eq!(y.unwrap().to_string(), "999");
    let z: Result<BigInt<3>, ParseError> = BigInt::parse("-007");
    assert_eq!(z.unwrap().to_string(), "-7");
}

#[test]
fn parse_rejects_text_without_digits() {
    let empty: Result<BigIntTest, ParseError> = BigInt::parse("");
    assert_eq!(empty, Err(ParseError::Empty));
    let minus: Result<BigIntTest, ParseError> = BigInt::parse("-");
    assert_eq!(minus, Err(ParseError::Empty));
}

#[test]
fn parse_rejects_what_is_not_a_digit() {
    for text in ["+1", "1 2", "12a", "--1", "1-", " 1", "1.0", "１２", "-é", "1,000"] {
        let r: Result<BigIntTest, ParseError> = BigInt::parse(text);
        assert_eq!(r, Err(ParseError::InvalidDigit), "{}", text);
    }
}

#[test]
fn parse_rejects_more_digits_than_the_capacity() {
    let r: Result<BigInt<3>, ParseError> = BigInt::parse("1000");
    assert_eq!(r, Err(ParseError::CapacityExceeded));
    let s: Result<BigInt<3>, ParseError> = BigInt::parse("-0001");
    assert_eq!(s, Err(ParseError::CapacityExceeded));
    let t: Result<BigInt<3>, ParseError> = BigInt::parse("-999");
    assert!(t.is_ok());
}
