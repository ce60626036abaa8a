//! The fractional, hex and padding helpers.

use emstr::EncodeStr;
use emstr::helpers::{Fractional, Hex, Number, PadLeft, PadRight, hex_digit_of};

#[test]
fn fractional_i16() {
    let tests = &[
        (10, 10, "1"),
        (10, 100, "0.1"),
        (-10, 100, "-0.1"),
        (15, 10, "1.5"),
        (105, 100, "1.05"),
        (-10, 10, "-1"),
        (-15, 10, "-1.5"),
        (-105, 100, "-1.05"),
        (23041, 1_000, "23.041"),
        (-23041, 1_000, "-23.041"),
    ];

    encode_frac::<i16>(tests);
}

#[test]
fn fractional_i32() {
    let tests = &[
        (10, 10, "1"),
        (15, 10, "1.5"),
        (105, 100, "1.05"),
        (1050, 1000, "1.05"),
        (-10, 10, "-1"),
        (-15, 10, "-1.5"),
        (-105, 100, "-1.05"),
        (-1050, 1000, "-1.05"),
        (312214312, 1_000_000, "312.214312"),
    ];

    encode_frac::<i32>(tests);
}

#[test]
fn fractional_i64() {
    let tests = &[
        (10, 10, "1"),
        (15, 10, "1.5"),
        (105, 100, "1.05"),
        (-10, 10, "-1"),
        (-15, 10, "-1.5"),
        (-105, 100, "-1.05"),
        (105, 1000, "0.105"),
        (-105, 1000, "-0.105"),
        (123473634214312, 1_000_000, "123473634.214312"),
        (40_000_001_000_000_000, 1_000_000_000_000, "40000.001"),
        (-40_000_123_000_000_000, 1_000_000_000_000, "-40000.123"),
    ];

    encode_frac::<i64>(tests);
}

fn encode_frac<N: Number + core::fmt::Display>(tests: &[(N, N, &'static str)]) {
    for (v, d, s) in tests {
        println!("test v: {} d: {} s: {}", v, d, s);

        let d = Fractional::<N>::new(*v, *d);

        assert_eq!(d.len(), s.len(), "invalid length for value: {}", s);

        let mut buff = [0u8; 32];
        let v = d.write_str(&mut buff).unwrap();

        assert_eq!(&v, s, "encoding mismatch for value: {}", s);
    }
}

#[test]
fn encode_hex() {
    let data = [0x00, 0x12, 0x34, 0x56, 0x78, 0x9a, 0xbc, 0xde];

    let mut buff = [0u8; 32];
    let v = Hex(&data).write_str(&mut buff).unwrap();

    assert_eq!(v, "00123456789abcde");
}

#[test]
fn hex_map() {
    for i in 0..16u8 {
        let a = (hex_digit_of(i) as char).to_string();
        let e = format!("{:x}", i);

        assert_eq!(&a, &e);
    }
}

#[test]
fn test_pad_right() {
    let mut buff = [0u8; 32];

    let tests = &[
        (PadRight::new("123", 6, ' '), "123   "),
        (PadRight::new("123", 2, ' '), "123"),
    ];

    for (p, s) in tests {
        let v = p.write_str(&mut buff);
        assert_eq!(v, Ok(*s));
    }
}

#[test]
fn test_pad_left() {
    let mut buff = [0u8; 32];

    let tests = &[
        (PadLeft::new("123", 6, ' '), "   123"),
        (PadLeft::new("123", 2, ' '), "123"),
    ];

    for (p, s) in tests {
        let v = p.write_str(&mut buff);
        assert_eq!(v, Ok(*s));
    }
}
