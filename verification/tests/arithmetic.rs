use bigint::BigInt;

type BigIntTest = BigInt<100>;

#[test]
fn add() {
    {
        const STR1: &str = "-1";
        const STR2: &str = "999";
        const RESULT: &str = "998";
        let x: BigIntTest = BigInt::from_str(STR1);
        let y: BigIntTest = BigInt::from_str(STR2);

        let z: BigIntTest = x.add(y);

        let expected: BigIntTest = BigInt::from_str(RESULT);
        assert_eq!(z, expected);
    }
    {
        const STR1: &str = "-123456789123456789123456789123456789";
        const STR2: &str = "-987654321987654321987654321987654321";
        const RESULT: &str = "-1111111111111111111111111111111111110";
        let x: BigIntTest = BigInt::from_str(STR1);
        let y: BigIntTest = BigInt::from_str(STR2);

        let z: BigIntTest = x.add(y);

        let expected: BigIntTest = BigInt::from_str(RESULT);
        assert_eq!(z, expected);
    }
}

#[test]
fn add_2() {
    for x in -1000..=1000 {
        for y in -1000..=1000 {
            let x_str = x.to_string();
            let y_str = y.to_string();
            let result = (x + y).to_string();
            let x1: BigIntTest = BigInt::from_str(&x_str);
            let y1: BigIntTest = BigInt::from_str(&y_str);
            let result1: BigIntTest = x1 + y1;
            let expected: BigIntTest = BigInt::from_str(&result);
            assert_eq!(result1, expected, "{}", format!("{} + {} = {}", x, y, result));
        }
    }
}

#[test]
fn sub() {
    {
        const STR2: &str = "987654321987654321987654321987654321";
        const STR1: &str = "123456789123456789123456789123456789";

        const RESULT: &str = "864197532864197532864197532864197532";

        let x: BigIntTest = BigInt::from_str(STR1);
        let y: BigIntTest = BigInt::from_str(STR2);
        let z: BigIntTest = y.sub(x);

        let expected: BigIntTest = BigInt::from_str(RESULT);
        assert_eq!(z, expected);
    }
    {
        const STR2: &str = "-987654321987654321987654321987654321";
        const STR1: &str = "-123456789123456789123456789123456789";

        const RESULT: &str = "-864197532864197532864197532864197532";

        let x: BigIntTest = BigInt::from_str(STR1);
        let y: BigIntTest = BigInt::from_str(STR2);
        let z: BigIntTest = y.sub(x);

        let expected: BigIntTest = BigInt::from_str(RESULT);
        assert_eq!(z, expected);
    }
}

#[test]
fn sub_2() {
    for x in -1000..=1000i32 {
        for y in -1000..=1000i32 {
            let x_str = x.to_string();
            let y_str = y.to_string();
            let result = (x - y).to_string();
            let x1: BigIntTest = BigInt::from_str(&x_str);
            let y1: BigIntTest = BigInt::from_str(&y_str);
            let result1: BigIntTest = x1 - y1;
            let expected: BigIntTest = BigInt::from_str(&result);
            assert_eq!(result1, expected, "{}", format!("{} - {} = {}", x, y, result));
        }
    }
}

#[test]
fn mul() {
    for x in -1000..=1000i32 {
        for y in -1000..=1000i32 {
            let x_str = x.to_string();
            let y_str = y.to_string();
            let result = (x * y).to_string();
            let x1: BigIntTest = BigInt::from_str(&x_str);
            let y1: BigIntTest = BigInt::from_str(&y_str);
            let result1: BigIntTest = x1 * y1;
            let expected: BigIntTest = BigInt::from_str(&result);
            assert_eq!(result1, expected, "{}", format!("{} * {} = {}", x, y, result));
        }
    }
}

#[test]
fn div() {
    type I3 = BigInt<3>;
    for x in -999..=999i32 {
        for y in -999..=999i32 {
            if y == 0 {
                continue;
            }
            let x_str = x.to_string();
            let y_str = y.to_string();
            let result = (x / y).to_string();
            let result_rem = (x % y).to_string();
            let x1: I3 = BigInt::from_str(&x_str);
            let y1: I3 = BigInt::from_str(&y_str);
            let (result1, result2) = x1.div(y1);
            let expected: I3 = BigInt::from_str(&result);
            let expected_rem: I3 = BigInt::from_str(&result_rem);
            assert_eq!(result1, expected, "{}", format!("{} / {} = {}", x, y, result));
            assert_eq!(result2, expected_rem, "{}", format!("{} % {} = {}", x, y, result_rem));
        }
    }
}

#[test]
fn div_2() {
    let a: BigIntTest = BigInt::from_str("33322211112345678987654321");
    let b: BigIntTest = BigInt::from_str("15485863");
    let div: BigIntTest = BigInt::from_str("2151782636353277759");
    let rem: BigIntTest = BigInt::from_str("10833304");

    let res: (BigIntTest, BigIntTest) = a.div(b);
    assert_eq!(res.0, div);
    assert_eq!(res.1, rem);
}

#[test]
fn factorial_of_one_hundred() {
    type I200 = BigInt<200>;
    let mut result = I200::from_i128(1);
    let mut i = 0;
    while i < 100 {
        result = result.mul(I200::from_i128(i as i128 + 1));
        i += 1;
    }
    let expected = "93326215443944152681699238856266700490715968264381621468592963895217599993229915608941463976156518286253697920827223758251185210916864000000000000000000000000";
    assert_eq!(result.to_string(), expected);
    assert_eq!(result.size(), 158);
    assert!(result.is_even());
}

#[test]
fn demonstration_values() {
    type I200 = BigInt<200>;
    let a = I200::from_str("1234567890001");
    let b = I200::from_str("9876543210001");
    assert_eq!((a * b).to_string(), "12193263111274638011100001");
    assert_eq!((a + b).to_string(), "11111111100002");
    assert_eq!((a - b).to_string(), "-8641975320000");
    assert_eq!((b / a).to_string(), "8");
    assert_eq!((b % a).to_string(), "89993");
}

#[test]
fn operators_agree_with_methods() {
    let a: BigIntTest = BigInt::from_str("-700000000000000000000000000000000000001");
    let b: BigIntTest = BigInt::from_str("36028797018963968");
    assert_eq!(a + b, a.add(b));
    assert_eq!(a - b, a.sub(b));
    assert_eq!(a * b, a.mul(b));
    assert_eq!(a / b, a.div(b).0);
    assert_eq!(a % b, a.div(b).1);
    assert_eq!((a / b).to_string(), "-19428902930940239457413");
    assert_eq!((a % b).to_string(), "-19966856282505217");
}

#[test]
fn add_carries_into_a_new_digit() {
    let a: BigIntTest = BigInt::from_str("999999999999999999999999999999");
    let one: BigIntTest = BigInt::from_i128(1);
    let sum = a.add(one);
    assert_eq!(sum.to_string(), "1000000000000000000000000000000");
    assert_eq!(sum.size(), a.size() + 1);
    assert_eq!(sum.sub(one), a);
}

#[test]
fn add_up_to_full_capacity() {
    let a: BigInt<3> = BigInt::from_str("499");
    let b: BigInt<3> = BigInt::from_str("500");
    assert_eq!(a.add(b).to_string(), "999");
    assert_eq!(a.add(b).size(), 3);
    let c: BigInt<3> = BigInt::from_str("-999");
    assert_eq!(c.add(a).to_string(), "-500");
    assert_eq!(c.sub(c).to_string(), "0");
}

#[test]
fn sub_cancels_leading_digits() {
    let a: BigIntTest = BigInt::from_str("1000000000000000000000000000000");
    let b: BigIntTest = BigInt::from_str("999999999999999999999999999999");
    let d = a.sub(b);
    assert_eq!(d.to_string(), "1");
    assert_eq!(d.size(), 1);
    let e = b.sub(a);
    assert_eq!(e.to_string(), "-1");
    let z = a.sub(a);
    assert!(z.is_zero());
    assert_eq!(z.to_string(), "0");
}

#[test]
fn opposite_values_add_to_nonnegative_zero() {
    let a: BigIntTest = BigInt::from_str("-5");
    let b: BigIntTest = BigInt::from_str("5");
    let z = a.add(b);
    assert!(z.is_zero());
    assert_eq!(z.to_string(), "0");
    assert_eq!(z, BigInt::zero());
    assert_eq!(b.add(a), BigInt::zero());
}

#[test]
fn mul_by_zero_and_one() {
    let a: BigIntTest = BigInt::from_str("-123456789123456789123456789");
    let zero: BigIntTest = BigInt::zero();
    let one: BigIntTest = BigInt::from_i128(1);
    assert_eq!(a.mul(zero), zero);
    assert_eq!(zero.mul(a), zero);
    assert_eq!(a.mul(zero).to_string(), "0");
    assert_eq!(a.mul(one), a);
    assert_eq!(one.mul(a), a);
}

#[test]
fn mul_sign_is_exclusive_or_of_signs() {
    let p: BigIntTest = BigInt::from_str("12345678901234567890");
    let n: BigIntTest = BigInt::from_str("-98765432109876543210");
    let zero: BigIntTest = BigInt::zero();
    assert!(p.mul(n).less(zero));
    assert!(n.mul(p).less(zero));
    assert!(p.mul(p).greater(zero));
    assert!(n.mul(n).greater(zero));
    assert_eq!(p.mul(n).to_string(), "-1219326311370217952237463801111263526900");
    assert_eq!(n.mul(n).to_string(), "9754610579850632525677488187778997104100");
}

#[test]
fn mul_up_to_full_capacity() {
    let a: BigInt<4> = BigInt::from_str("99");
    let b: BigInt<4> = BigInt::from_str("-99");
    assert_eq!(a.mul(b).to_string(), "-9801");
    let c: BigInt<4> = BigInt::from_str("9999");
    let one: BigInt<4> = BigInt::from_i128(1);
    assert_eq!(c.mul(one), c);
    let d: BigInt<4> = BigInt::from_str("3333");
    let three: BigInt<4> = BigInt::from_i128(3);
    assert_eq!(d.mul(three).to_string(), "9999");
    assert_eq!(three.mul(d).to_string(), "9999");
}

#[test]
fn div_of_zero_and_of_smaller_dividend() {
    let zero: BigIntTest = BigInt::zero();
    let b: BigIntTest = BigInt::from_str("-15485863");
    let (q, r) = zero.div(b);
    assert_eq!(q, zero);
    assert_eq!(r, zero);
    let a: BigIntTest = BigInt::from_str("-154858");
    let (q, r) = a.div(b);
    assert_eq!(q, zero);
    assert_eq!(r, a);
    assert_eq!(r.to_string(), "-154858");
}

#[test]
fn div_signs() {
    let cases: [(i128, i128); 8] =
        [(7, 2), (-7, 2), (7, -2), (-7, -2), (6, 3), (-6, 3), (6, -3), (-6, -3)];
    for (x, y) in cases {
        let a: BigIntTest = BigInt::from_i128(x);
        let b: BigIntTest = BigInt::from_i128(y);
        let (q, r) = a.div(b);
        assert_eq!(q, BigInt::from_i128(x / y));
        assert_eq!(r, BigInt::from_i128(x % y));
        assert_eq!(q.to_string(), (x / y).to_string());
        assert_eq!(r.to_string(), (x % y).to_string());
    }
}

#[test]
fn div_then_mul_and_add_gives_back_the_dividend() {
    let dividends = [
        "93326215443944152681699238856266700490715968264381621468592963895217599993229915",
        "-33322211112345678987654321",
        "1000000000000000000000000000000000000000",
        "-1",
        "0",
    ];
    let divisors = ["1234567890001", "-15485863", "7", "-1", "99999999999999999999999"];
    for x in dividends {
        for y in divisors {
            let a: BigIntTest = BigInt::from_str(x);
            let b: BigIntTest = BigInt::from_str(y);
            let zero: BigIntTest = BigInt::zero();
            let (q, r) = a.div(b);
            assert_eq!(b.mul(q).add(r), a);
            let r_abs = if r.less(zero) { zero.sub(r) } else { r };
            let b_abs = if b.less(zero) { zero.sub(b) } else { b };
            assert!(r_abs.less(b_abs));
            assert!(r.is_zero() || r.less(zero) == a.less(zero));
        }
    }
}

#[test]
fn div_at_full_capacity() {
    let a: BigInt<6> = BigInt::from_str("999999");
    let b: BigInt<6> = BigInt::from_str("999998");
    let (q, r) = a.div(b);
    assert_eq!(q.to_string(), "1");
    assert_eq!(r.to_string(), "1");
    let c: BigInt<6> = BigInt::from_str("-100000");
    let (q, r) = a.div(c);
    assert_eq!(q.to_string(), "-9");
    assert_eq!(r.to_string(), "99999");
    let (q, r) = a.div(a);
    assert_eq!(q.to_string(), "1");
    assert_eq!(r.to_string(), "0");
    let nine: BigInt<6> = BigInt::from_i128(9);
    let (q, r) = a.div(nine);
    assert_eq!(q.to_string(), "111111");
    assert_eq!(r.to_string(), "0");
}

#[test]
fn addition_laws_on_values() {
    let values = [
        "0",
        "1",
        "-1",
        "999999999999999999999999999999",
        "-999999999999999999999999999999",
        "123456789123456789123456789123456789",
        "-987654321987654321987654321987654321",
    ];
    let zero: BigIntTest = BigInt::zero();
    for x in values {
        let a: BigIntTest = BigInt::from_str(x);
        assert_eq!(a.add(zero), a);
        assert_eq!(zero.add(a), a);
        assert_eq!(a.sub(a), zero);
        for y in values {
            let b: BigIntTest = BigInt::from_str(y);
            assert_eq!(a.add(b), b.add(a));
            assert_eq!(a.mul(b), b.mul(a));
            assert_eq!(a.sub(b), a.add(zero.sub(b)));
            for z in values {
                let c: BigIntTest = BigInt::from_str(z);
                assert_eq!(a.add(b).add(c), a.add(b.add(c)));
            }
        }
    }
}

#[test]
fn short_operands_leave_room() {
    let a: BigInt<4> = BigInt::from_str("999");
    let b: BigInt<4> = BigInt::from_str("-999");
    assert!(a.size() < a.max_size() && b.size() < b.max_size());
    assert_eq!(a.add(a).to_string(), "1998");
    assert_eq!(b.add(b).to_string(), "-1998");
    assert_eq!(a.sub(b).to_string(), "1998");
    assert_eq!(b.sub(a).to_string(), "-1998");
    let c: BigInt<4> = BigInt::from_str("99");
    let d: BigInt<4> = BigInt::from_str("-99");
    assert!(c.size() + d.size() <= c.max_size());
    assert_eq!(c.mul(d).to_string(), "-9801");
    assert_eq!(d.mul(d).to_string(), "9801");
}
