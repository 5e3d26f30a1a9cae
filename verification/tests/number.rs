use scpify::binary64::Binary64;
use scpify::number::{
    parse_digits, parse_signed, parse_unsigned, push_decimal, push_hex_byte, push_signed_decimal,
};

fn decimal(n: i64) -> String {
    let mut out = String::new();
    push_signed_decimal(&mut out, n);
    out
}

#[test]
fn integers_are_written_and_read_back() {
    for n in [0, 7, -7, 10, 99, 1000, -1001, i64::MAX, i64::MIN] {
        assert_eq!(decimal(n), format!("{}", n));
        assert_eq!(parse_signed(&decimal(n)), Some(n));
    }
    let mut out = String::from("x");
    push_decimal(&mut out, u64::MAX);
    assert_eq!(out, "x18446744073709551615");
    let mut out = String::new();
    push_hex_byte(&mut out, 0xA5);
    assert_eq!(out, "A5");
}

#[test]
fn integers_are_read_as_the_standard_library_does() {
    for s in [
        "", "+", "-", "+5", "-0", "00", "12a", " 1", "1 ", "--1", "+-1", "1.0",
        "9223372036854775807", "9223372036854775808", "-9223372036854775808",
        "-9223372036854775809", "000000000000000000000000000012", "\u{661}",
    ] {
        assert_eq!(parse_signed(s), s.parse::<i64>().ok(), "{:?}", s);
        assert_eq!(parse_unsigned(s, u64::MAX), s.parse::<u64>().ok(), "{:?}", s);
    }
    assert_eq!(parse_digits("42", 42), Some(42));
    assert_eq!(parse_digits("42", 41), None);
    assert_eq!(parse_digits("+42", 100), None);
}

#[test]
fn floats_become_integers_as_a_cast_does() {
    let values = [
        0.0,
        -0.0,
        0.5,
        -0.9,
        1.0,
        -1.99,
        123456789.75,
        4503599627370495.5,
        9007199254740993.0,
        -9007199254740995.0,
        9.2e18,
        9.3e18,
        -9.3e18,
        -9223372036854775808.0,
        1e300,
        -1e300,
        5e-324,
        f64::INFINITY,
        f64::NEG_INFINITY,
        f64::NAN,
        f64::MAX,
        f64::MIN_POSITIVE,
    ];
    for v in values {
        let x = Binary64 { bits: v.to_bits() };
        assert_eq!(x.to_i64(), v as i64, "{:?}", v);
    }
}

#[test]
fn integers_become_floats_as_a_cast_does() {
    let values = [
        0,
        1,
        -1,
        3,
        10,
        -1000,
        (1 << 53) - 1,
        1 << 53,
        (1 << 53) + 1,
        (1 << 53) + 2,
        (1 << 53) + 3,
        -((1 << 53) + 1),
        (1 << 54) + 2,
        (1 << 54) + 6,
        (1 << 60) - 1,
        i64::MAX,
        i64::MAX - 512,
        i64::MAX - 511,
        i64::MIN,
        i64::MIN + 1,
    ];
    for n in values {
        assert_eq!(Binary64::from_i64(n).bits, (n as f64).to_bits(), "{}", n);
    }
}

#[test]
fn small_integers_convert_back() {
    for n in [0, 1, -1, 77, -4095, 1 << 40, -(1 << 53), 1 << 53] {
        assert_eq!(Binary64::from_i64(n).to_i64(), n);
    }
}

#[test]
fn floats_compare_as_numbers() {
    let f = |v: f64| Binary64 { bits: v.to_bits() };
    assert!(f(1.5) == f(1.5));
    assert!(f(0.0) == f(-0.0));
    assert!(f(1.5) != f(-1.5));
    assert!(f(f64::NAN) != f(f64::NAN));
    assert!(f(f64::INFINITY) == f(f64::INFINITY));
    assert!(f(0.0) != f(5e-324));
}
