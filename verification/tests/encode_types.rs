//! Verbatim encoding of string slices and characters.

use emstr::EncodeStr;

#[test]
fn write_str() {
    let v = "abc123";

    let mut buff = [0u8; 32];
    let n = v.write(&mut buff).unwrap();

    assert_eq!(n, 6);
    assert_eq!(&buff[..n], v.as_bytes());
}

#[test]
fn encode_char() {
    let v = 'c';

    let mut buff = [0u8; 32];
    let n = v.write(&mut buff).unwrap();

    assert_eq!(n, 1);
    assert_eq!(&buff[..n], "c".as_bytes());
}
