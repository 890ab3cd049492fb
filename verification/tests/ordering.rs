use bigint::BigInt;

type BigIntTest = BigInt<100>;

#[test]
fn less() {
    for i in -1000..1000 {
        for j in -1000..1000 {
            let i_str = i.to_string();
            let j_str = j.to_string();
            let i1: BigIntTest = BigInt::from_str(&i_str);
            let j1: BigIntTest = BigInt::from_str(&j_str);
            let result = i < j;
            let expected = i1 < j1;
            assert_eq!(result, expected);
        }
    }
}

#[test]
fn greater() {
    for i in -1000..1000 {
        for j in -1000..1000 {
            let i_str = i.to_string();
            let j_str = j.to_string();
            let i1: BigIntTest = BigInt::from_str(&i_str);
            let j1: BigIntTest = BigInt::from_str(&j_str);
            let result = i > j;
            let expected = i1 > j1;
            assert_eq!(result, expected);
        }
    }
}

#[test]
fn equal() {
    for i in -1000..1000 {
        for j in -1000..1000 {
            let i_str = i.to_string();
            let j_str = j.to_string();
            let i1: BigIntTest = BigInt::from_str(&i_str);
            let j1: BigIntTest = BigInt::from_str(&j_str);
            let result = i == j;
            let expected = i1 == j1;
            assert_eq!(result, expected);
        }
    }
}

#[test]
fn exactly_one_of_less_equal_greater() {
    for i in -60..=60i128 {
        for j in -60..=60i128 {
            let a: BigIntTest = BigInt::from_i128(i * 17);
            let b: BigIntTest = BigInt::from_i128(j * 17);
            let outcomes = [a.less(b), a.equal(b), a.greater(b)];
            assert_eq!(outcomes.iter().filter(|x| **x).count(), 1);
            assert_eq!(a.less(b), i < j);
            assert_eq!(a.equal(b), i == j);
            assert_eq!(a.greater(b), i > j);
            assert_eq!(a.less(b), b.greater(a));
        }
    }
}

#[test]
fn order_of_long_numbers() {
    let a: BigIntTest = BigInt::from_str("123456789123456789123456789123456789");
    let b: BigIntTest = BigInt::from_str("123456789123456789123456789123456790");
    let c: BigIntTest = BigInt::from_str("-123456789123456789123456789123456790");
    let d: BigIntTest = BigInt::from_str("99999999999999999999999999999999999");
    assert!(a.less(b));
    assert!(b.greater(a));
    assert!(c.less(a));
    assert!(c.less(d));
    assert!(d.less(a));
    assert!(!a.less(a));
    assert!(a.equal(a));
    assert!(!a.greater(a));
    assert_eq!(a.partial_cmp(&b), Some(std::cmp::Ordering::Less));
    assert_eq!(b.partial_cmp(&a), Some(std::cmp::Ordering::Greater));
    assert_eq!(a.partial_cmp(&a), Some(std::cmp::Ordering::Equal));
    assert!(a <= b && a <= a && b >= a && a != b);
}

#[test]
fn order_at_full_capacity() {
    let a: BigInt<3> = BigInt::from_str("998");
    let b: BigInt<3> = BigInt::from_str("999");
    let c: BigInt<3> = BigInt::from_str("-999");
    assert!(a < b);
    assert!(c < a);
    assert!(c < b);
    assert!(b > c);
    assert!(b == b);
}
