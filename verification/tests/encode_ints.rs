//! Integer encoding against the standard library's decimal formatting.

use emstr::EncodeStr;

#[test]
fn encode_u8() {
    for i in 0..u8::MAX {
        let mut buff = [0u8; 32];

        let s = format!("{}", i);

        let e = i.write_str(&mut buff).unwrap();

        assert_eq!(e.len(), s.len());
        assert_eq!(e, s.as_str());
    }
}

#[test]
fn encode_i8() {
    for i in i8::MIN + 1..i8::MAX {
        let mut buff = [0u8; 32];

        let s = format!("{}", i);

        let e = i.write_str(&mut buff).unwrap();

        assert_eq!(e.len(), s.len());
        assert_eq!(e, s.as_str());
    }
}

#[test]
fn encode_u16() {
    for i in 0..i16::MAX {
        let mut buff = [0u8; 32];

        let s = format!("{}", i);

        let e = i.write_str(&mut buff).unwrap();

        assert_eq!(e.len(), s.len());
        assert_eq!(e, s.as_str());
    }
}

#[test]
fn encode_i16() {
    for i in i16::MIN + 1..i16::MAX {
        let mut buff = [0u8; 32];

        let s = format!("{}", i);

        let e = i.write_str(&mut buff).unwrap();

        assert_eq!(e.len(), s.len());
        assert_eq!(e, s.as_str());
    }
}

#[test]
fn encode_u64() {
    let tests: &[(u64, &str)] = &[
        (0, "0"),
        (1, "1"),
        (1243566, "1243566"),
        (u64::MAX, "18446744073709551615"),
    ];

    for (v, s) in tests {
        let mut buff = [0u8; 32];

        assert_eq!(v.len(), s.len(), "length mismatch for value: {}", v);

        let e = v.write_str(&mut buff).unwrap();

        assert_eq!(e, *s, "encode failed for value: {}", v);
    }
}

#[test]
fn encode_i64() {
    let tests: &[(i64, &str)] = &[
        (0, "0"),
        (1, "1"),
        (-1, "-1"),
        (1243566, "1243566"),
        (-1243566, "-1243566"),
        (i64::MAX, "9223372036854775807"),
        (i64::MIN + 1, "-9223372036854775807"),
    ];

    for (v, s) in tests {
        let mut buff = [0u8; 32];

        assert_eq!(v.len(), s.len(), "length mismatch for value: {}", v);

        let e = v.write_str(&mut buff).unwrap();

        assert_eq!(e, *s, "encode failed for value: {}", v);
    }
}
