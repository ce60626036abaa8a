//! Behavioural properties: idempotence, boundaries, padding arithmetic,
//! composition, and the error paths.

use emstr::helpers::{Fractional, Hex, PadLeft, PadRight};
use emstr::{Concat, EncodeStr, Error};

#[test]
fn encode_twice_is_identical() {
    let mut b1 = [0u8; 16];
    let mut b2 = [0u8; 16];

    let v = Fractional::<i32>::new(-1050, 1000);
    let n1 = v.write(&mut b1).unwrap();
    let n2 = v.write(&mut b2).unwrap();

    assert_eq!(n1, n2);
    assert_eq!(&b1[..n1], &b2[..n2]);
}

#[test]
fn fractional_zero_any_divisor() {
    for d in [1i32, 10, 100, 1000, 1_000_000] {
        let mut buff = [0u8; 32];
        let s = Fractional::<i32>::new(0, d).write_str(&mut buff).unwrap();
        assert_eq!(s, "0");
    }
}

#[test]
fn fractional_small_negative_keeps_sign() {
    let mut buff = [0u8; 32];
    let s = Fractional::<i64>::new(-10, 100).write_str(&mut buff).unwrap();
    assert_eq!(s, "-0.1");

    let s = Fractional::<i64>::new(-5, 1000).write_str(&mut buff).unwrap();
    assert_eq!(s, "-0.005");
}

#[test]
fn fractional_divisor_one() {
    let mut buff = [0u8; 32];
    let s = Fractional::<i16>::new(5, 1).write_str(&mut buff).unwrap();
    assert_eq!(s, "5");

    let s = Fractional::<i16>::new(-5, 1).write_str(&mut buff).unwrap();
    assert_eq!(s, "-5");
}

#[test]
fn fractional_whole_number() {
    let mut buff = [0u8; 32];
    let s = Fractional::<i32>::new(2000, 1000).write_str(&mut buff).unwrap();
    assert_eq!(s, "2");
}

#[test]
fn pad_equal_width_is_noop() {
    let mut buff = [0u8; 32];
    let v = PadLeft::new("abc", 3, ' ').write_str(&mut buff).unwrap();
    assert_eq!(v, "abc");

    let v = PadRight::new("abc", 3, ' ').write_str(&mut buff).unwrap();
    assert_eq!(v, "abc");
}

#[test]
fn pad_exact_fill_count() {
    let mut buff = [0u8; 32];
    let p = PadLeft::new(7u8, 5, '0');
    assert_eq!(p.len(), 5);
    let v = p.write_str(&mut buff).unwrap();
    assert_eq!(v, "00007");

    let p = PadRight::new(-42i32, 6, '#');
    assert_eq!(p.len(), 6);
    let v = p.write_str(&mut buff).unwrap();
    assert_eq!(v, "-42###");
}

#[test]
fn hex_empty_input() {
    let mut buff = [0u8; 4];
    let h = Hex(&[]);
    assert_eq!(h.len(), 0);
    let v = h.write_str(&mut buff).unwrap();
    assert_eq!(v, "");
}

#[test]
fn compose_progress_line() {
    let mut buff = [0u8; 32];

    let v = Concat::new(
        Concat::new(Concat::new(Concat::new("something", ' '), 15u8), '/'),
        100u8,
    );
    let n = v.write(&mut buff).unwrap();

    assert_eq!(n, 16);
    assert_eq!(&buff[..n], b"something 15/100");
}

#[test]
fn integer_length_formula() {
    assert_eq!(0u32.len(), 1);
    assert_eq!(9u32.len(), 1);
    assert_eq!(10u32.len(), 2);
    assert_eq!(99u32.len(), 2);
    assert_eq!(100u32.len(), 3);
    assert_eq!((-1i32).len(), 2);
    assert_eq!((-100i32).len(), 4);
    assert_eq!(18446744073709551615u64.len(), 20);
    assert_eq!(12345usize.len(), 5);
    assert_eq!((-12345isize).len(), 6);
}

#[test]
fn signed_minimum_encodes() {
    let mut buff = [0u8; 32];
    let e = i64::MIN.write_str(&mut buff).unwrap();
    assert_eq!(e, "-9223372036854775808");

    let e = i8::MIN.write_str(&mut buff).unwrap();
    assert_eq!(e, "-128");
}

#[test]
fn short_buffer_reports_buffer_length() {
    let mut tiny = [0u8; 2];

    assert_eq!(123u8.write(&mut tiny), Err(Error::BufferLength));
    assert_eq!((-1i16).write(&mut tiny[..1]), Err(Error::BufferLength));
    assert_eq!("abc".write(&mut tiny), Err(Error::BufferLength));
    assert_eq!('x'.write(&mut tiny[..0]), Err(Error::BufferLength));
    assert_eq!(Hex(&[0xab, 0xcd]).write(&mut tiny), Err(Error::BufferLength));
    assert_eq!(
        PadLeft::new("a", 3, ' ').write(&mut tiny),
        Err(Error::BufferLength)
    );
    assert_eq!(
        Fractional::<i32>::new(105, 100).write(&mut tiny),
        Err(Error::BufferLength)
    );
    assert_eq!(
        Concat::new("ab", "cd").write(&mut tiny),
        Err(Error::BufferLength)
    );
    assert_eq!(1234u32.write_str(&mut tiny), Err(Error::BufferLength));
}

#[test]
fn short_buffer_keeps_length_exact() {
    // a buffer of exactly the reported length succeeds; one byte fewer
    // fails
    let v = -1050i64;
    let n = v.len();
    let mut exact = vec![0u8; n];
    assert_eq!(v.write(&mut exact), Ok(n));
    let mut small = vec![0u8; n - 1];
    assert_eq!(v.write(&mut small), Err(Error::BufferLength));
}

#[test]
fn invalid_utf8_reported() {
    // U+00E9 truncates to the single byte 0xE9, which is not valid UTF-8
    // on its own
    let mut buff = [0u8; 4];
    let c = '\u{e9}';
    assert_eq!(c.write(&mut buff), Ok(1));
    assert_eq!(c.write_str(&mut buff), Err(Error::InvalidUtf8));
}

#[test]
fn empty_str_encodes_nothing() {
    let mut buff = [7u8; 4];
    let v = "";
    assert_eq!(v.len(), 0);
    assert_eq!(v.write(&mut buff), Ok(0));
    assert_eq!(buff, [7u8; 4]);
}

#[test]
fn multibyte_str_roundtrip() {
    // a str encodes verbatim as its UTF-8 bytes, so the text view gives
    // the string back
    let v = "gr\u{fc}n";
    let mut buff = [0u8; 8];
    assert_eq!(v.len(), 5);
    let s = v.write_str(&mut buff).unwrap();
    assert_eq!(s, v);
}

#[test]
fn hex_digits_exact() {
    let mut buff = [0u8; 32];
    let v = Hex(&[0x0f, 0xf0, 0x5a]).write_str(&mut buff).unwrap();
    assert_eq!(v, "0ff05a");
}
