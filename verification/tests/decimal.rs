//! Tests of decimal numbers.

use image_extras::decimal::{decimal_string, parse_i32, parse_u32};

#[test]
fn unsigned_numbers_round_trip() {
    let numbers = [0u32, 1, 9, 10, 14, 99, 100, 4294967294, 4294967295];
    for n in numbers {
        assert_eq!(parse_u32(n.to_string().as_bytes()), Some(n));
        assert_eq!(decimal_string(n as u64), n.to_string());
    }
    assert_eq!(decimal_string(u64::MAX), u64::MAX.to_string());
}

#[test]
fn signed_numbers_round_trip() {
    let numbers = [0i32, 1, -1, 10, -10, i32::MAX, i32::MIN];
    for n in numbers {
        assert_eq!(parse_i32(n.to_string().as_bytes()), Some(n));
    }
    assert_eq!(parse_i32(b"-0"), Some(0));
}

#[test]
fn numbers_in_other_forms_are_refused() {
    let texts: [&[u8]; 8] = [b"", b"+1", b"01", b"00", b"1 ", b"0x1", b"4294967296", b"-1"];
    for t in texts {
        assert_eq!(parse_u32(t), None);
    }
    let texts: [&[u8]; 8] = [b"", b"-", b"+1", b"-01", b"--1", b"2147483648", b"-2147483649", b"1a"];
    for t in texts {
        assert_eq!(parse_i32(t), None);
    }
}
