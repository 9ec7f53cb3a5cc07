use psi_ask::number::{parse_i32, parse_u64, push_decimal, push_signed, ParseIntError};
use psi_ask::text::chars_of;

const TEXTS: [&str; 34] = [
    "",
    "+",
    "-",
    "0",
    "-0",
    "+0",
    "7",
    "007",
    "42",
    "+42",
    "-42",
    "++1",
    "+-1",
    "-+1",
    "4 2",
    " 42",
    "42 ",
    "4x",
    "x4",
    "1e3",
    "1.0",
    "٣",
    "2147483647",
    "2147483648",
    "-2147483648",
    "-2147483649",
    "18446744073709551615",
    "18446744073709551616",
    "+18446744073709551615",
    "99999999999999999999",
    "99999999999999999999x",
    "-99999999999999999999x",
    "1844674407370955161x",
    "00000000000000000000000000000000000001",
];

#[test]
fn unsigned_numbers_are_read_as_by_the_standard_library() {
    for text in TEXTS {
        let got = parse_u64(&chars_of(text));
        match text.parse::<u64>() {
            Ok(n) => assert_eq!(got, Ok(n), "{:?}", text),
            Err(e) => assert_eq!(got.unwrap_err().message(), e.to_string(), "{:?}", text),
        }
    }
}

#[test]
fn signed_numbers_are_read_as_by_the_standard_library() {
    for text in TEXTS {
        let got = parse_i32(&chars_of(text));
        match text.parse::<i32>() {
            Ok(n) => assert_eq!(got, Ok(n), "{:?}", text),
            Err(e) => assert_eq!(got.unwrap_err().message(), e.to_string(), "{:?}", text),
        }
    }
}

#[test]
fn each_error_has_its_input() {
    assert_eq!(parse_u64(&chars_of("")), Err(ParseIntError::Empty));
    assert_eq!(parse_u64(&chars_of("-1")), Err(ParseIntError::InvalidDigit));
    assert_eq!(parse_u64(&chars_of("18446744073709551616")), Err(ParseIntError::PosOverflow));
    assert_eq!(parse_i32(&chars_of("2147483648")), Err(ParseIntError::PosOverflow));
    assert_eq!(parse_i32(&chars_of("-2147483649")), Err(ParseIntError::NegOverflow));
    assert_eq!(parse_i32(&chars_of("-")), Err(ParseIntError::InvalidDigit));
    assert_eq!(parse_i32(&chars_of("")), Err(ParseIntError::Empty));
}

#[test]
fn numbers_are_written_in_decimal_and_read_back() {
    for n in [0u64, 9, 10, 99, 100, 12345, u64::MAX] {
        let mut out = String::from("x");
        push_decimal(&mut out, n as u128);
        assert_eq!(out, format!("x{}", n));
        assert_eq!(parse_u64(&chars_of(&out[1..])), Ok(n));
    }
    let mut out = String::new();
    push_decimal(&mut out, u128::MAX);
    assert_eq!(out, u128::MAX.to_string());
    for n in [0i32, 5, -5, i32::MAX, i32::MIN] {
        let mut out = String::new();
        push_signed(&mut out, n);
        assert_eq!(out, n.to_string());
        assert_eq!(parse_i32(&chars_of(&out)), Ok(n));
    }
}
