use fsvalue::error::FsError;
use fsvalue::number::{Decimal, FsNumber};
use std::cmp::Ordering;

fn num(text: &str) -> FsNumber {
    FsNumber::from_str(text).unwrap()
}

fn parts(n: &FsNumber) -> (String, i64) {
    match n {
        FsNumber::Number(d) => (d.mantissa_text().to_string(), d.scale()),
        _ => panic!("not finite: {:?}", n),
    }
}

fn finite(mantissa: &str, scale: i64) -> (String, i64) {
    (mantissa.to_string(), scale)
}

#[test]
fn test_equal() {
    assert_eq!(num("0").cmp(&num("0")), Ordering::Equal);
    assert_eq!(num("0.0").cmp(&num("0.0")), Ordering::Equal);
    assert_eq!(num("0").cmp(&num("0.0")), Ordering::Equal);
    assert_eq!(num("1").cmp(&num("1.0")), Ordering::Equal);
}

#[test]
fn test_lt() {
    let pairs = [("0", "1"), ("0.0", "1.0"), ("0.5", "1"), ("0", "0.5")];
    for (left, right) in pairs {
        assert_eq!(num(left).cmp(&num(right)), Ordering::Less);
        assert_eq!(num(right).cmp(&num(left)), Ordering::Greater);
    }
}

#[test]
fn test_add() {
    assert_eq!(num("0").add(num("1")), num("1"));
    assert_eq!(num("1").add(num("1")), num("2"));
    assert_eq!(num("0.5").add(num("1")), num("1.5"));
}

#[test]
fn parse_keeps_digits_as_written() {
    assert_eq!(parts(&num("1.50")), finite("150", 2));
    assert_eq!(parts(&num("-12")), finite("-12", 0));
    assert_eq!(parts(&num("1.5e3")), finite("15", -2));
    assert_eq!(parts(&num("25E-1")), finite("25", 1));
    assert_eq!(parts(&num("7e+2")), finite("7", -2));
    assert_eq!(parts(&num("-0")), finite("0", 0));
    assert_eq!(parts(&num("0.007")), finite("7", 3));
    assert_eq!(parts(&num("-0.0")), finite("0", 1));
    assert_eq!(num("12"), FsNumber::Number(Decimal::from_i64(12)));
}

#[test]
fn parse_sentinels() {
    assert_eq!(num("NaN"), FsNumber::NAN);
    assert_eq!(num("Infinity"), FsNumber::PositiveInfinity);
    assert_eq!(num("-Infinity"), FsNumber::NegativeInfinity);
}

#[test]
fn parse_rejects_non_literals() {
    for text in ["", "-", "01", "1.", ".5", "+1", "1e", "1e+", "abc", "1 ", "nan", "inf", "1.2.3"] {
        match FsNumber::from_str(text) {
            Err(FsError::InvalidValue(message)) => {
                assert_eq!(message, format!("not a number literal: {}", text))
            }
            other => panic!("{:?} for {}", other, text),
        }
    }
}

#[test]
fn overflowing_literals_are_infinite() {
    assert_eq!(num("1e309"), FsNumber::PositiveInfinity);
    assert_eq!(num("1e400"), FsNumber::PositiveInfinity);
    assert_eq!(num("-1e999"), FsNumber::NegativeInfinity);
    assert_eq!(num("2e308"), FsNumber::PositiveInfinity);
    assert_eq!(num("1e99999999999999999999999999999999999999999"), FsNumber::PositiveInfinity);
    assert_eq!(num("-1e99999999999999999999999999999999999999999"), FsNumber::NegativeInfinity);
    assert_eq!(parts(&num("1.7e308")), finite("17", -307));
    assert_eq!(parts(&num("0e99999999999999999999999999")), finite("0", 0));
}

#[test]
fn long_and_tiny_literals_are_exact() {
    let long = "170141183460469231731687303715884105728123456789";
    assert_eq!(parts(&num(long)), finite(long, 0));
    assert_eq!(parts(&num("1e-400")), finite("1", 400));
    assert_eq!(parts(&num("1e-99999999999999999999999999")), finite("0", 0));
    assert_eq!(num("1e-400").cmp(&num("0")), Ordering::Greater);
}

#[test]
fn nan_sorts_first_and_infinity_last() {
    let values = [num("-Infinity"), num("-1e300"), num("0"), num("2.5"), num("1e300"), num("Infinity")];
    for v in values.iter() {
        assert_eq!(num("NaN").cmp(v), Ordering::Less);
        assert_eq!(v.cmp(&num("NaN")), Ordering::Greater);
    }
    for v in values[..5].iter() {
        assert_eq!(num("Infinity").cmp(v), Ordering::Greater);
        assert_eq!(v.cmp(&num("Infinity")), Ordering::Less);
    }
    for v in values[1..].iter() {
        assert_eq!(num("-Infinity").cmp(v), Ordering::Less);
    }
    assert_eq!(num("NaN").cmp(&num("NaN")), Ordering::Equal);
}

#[test]
fn finite_order_is_by_value() {
    assert_eq!(num("-2").cmp(&num("-1.5")), Ordering::Less);
    assert_eq!(num("1e2").cmp(&num("99.99")), Ordering::Greater);
    assert_eq!(num("100").cmp(&num("1e2")), Ordering::Equal);
    assert_eq!(num("0.001").cmp(&num("1e-3")), Ordering::Equal);
}

#[test]
fn addition_table() {
    assert_eq!(num("NaN").add(num("Infinity")), FsNumber::NAN);
    assert_eq!(num("1").add(num("NaN")), FsNumber::NAN);
    assert_eq!(num("-Infinity").add(num("Infinity")), FsNumber::NegativeInfinity);
    assert_eq!(num("Infinity").add(num("-Infinity")), FsNumber::PositiveInfinity);
    assert_eq!(num("3").add(num("-Infinity")), FsNumber::NegativeInfinity);
    assert_eq!(num("3").add(num("Infinity")), FsNumber::PositiveInfinity);
    assert_eq!(num("0.1").add(num("0.2")), num("0.3"));
}

#[test]
fn addition_is_exact() {
    assert_eq!(
        parts(&num("170141183460469231731687303715884105727").add(num("1"))),
        finite("170141183460469231731687303715884105728", 0)
    );
    assert_eq!(parts(&num("1e20").add(num("1e-20"))), finite("10000000000000000000000000000000000000001", 20));
    assert_eq!(parts(&num("1.25").add(num("-1.25"))), finite("0", 2));
    assert!(num("1e-400").can_add(&num("1")));
    assert!(!num("1e-9000000000000000000").can_add(&num("1")));
}

#[test]
fn equal_values_beyond_the_scale_range_compare_equal() {
    let a = num("10e-9223372036854775808");
    let b = num("1e-9223372036854775807");
    assert_eq!(a.cmp(&b), Ordering::Equal);
    assert_eq!(b.cmp(&a), Ordering::Equal);
    assert_eq!(parts(&a), finite("1", 9223372036854775807));
    assert_eq!(parts(&num("10e-99999999999999999999")), finite("0", 0));
    assert_eq!(num("-10e-9223372036854775800").cmp(&num("0")), Ordering::Less);
}

#[test]
fn literal_with_overflow_flag() {
    assert_eq!(FsNumber::from_literal("1", false), Some(FsNumber::Number(Decimal::from_i64(1))));
    assert_eq!(FsNumber::from_literal("1", true), Some(FsNumber::PositiveInfinity));
    assert_eq!(FsNumber::from_literal("-5e3", true), Some(FsNumber::NegativeInfinity));
    assert_eq!(parts(&FsNumber::from_literal("2.50", false).unwrap()), finite("250", 2));
    assert_eq!(FsNumber::from_literal("NaN", false), None);
    assert_eq!(FsNumber::from_literal("1.", false), None);
}
