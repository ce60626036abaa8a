//! Sequential composition of heterogeneous encodable values.

use emstr::{Concat, EncodeStr};

#[test]
fn join_str() {
    let mut buff = [0u8; 32];

    let v = Concat::new(Concat::new(Concat::new(Concat::new("a", ' '), "b"), ' '), "c");
    let n = v.write(&mut buff).unwrap();

    assert_eq!(n, 5);
    assert_eq!(&buff[..n], b"a b c");
}

#[test]
fn join_ints() {
    let mut buff = [0u8; 32];

    let v = Concat::new(Concat::new(12u8, '/'), 100u8);
    let n = v.write(&mut buff).unwrap();

    assert_eq!(n, 6);
    assert_eq!(&buff[..n], b"12/100");
}
