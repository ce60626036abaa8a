//! [`Hex`] helper for displaying byte sequences as lowercase hexadecimal.

use vstd::prelude::*;

use crate::EncodeStr;
use crate::buffer::lemma_splice;
use crate::error::Error;

verus! {

/// Byte value of the digit character `'a'`, shifted so that
/// `HEX_LETTER + v` is the digit for `v` in `10..16`.
pub const HEX_LETTER: u8 = 87;

/// The lowercase hexadecimal digit for a value below 16: `'0'..='9'` then
/// `'a'..='f'`.
pub open spec fn hex_digit(v: u8) -> u8
    recommends
        v < 16,
{
    if v < 10 {
        (crate::decimal::DIGIT_ZERO + v) as u8
    } else {
        (HEX_LETTER + v) as u8
    }
}

/// The hexadecimal string of a byte sequence: two digits per byte, high
/// nibble first.
pub open spec fn hex_rep(b: Seq<u8>) -> Seq<u8> {
    Seq::new(
        b.len() * 2,
        |i: int| if i % 2 == 0 {
            hex_digit(b[i / 2] / 16)
        } else {
            hex_digit(b[i / 2] % 16)
        },
    )
}

/// The digit character for a value below 16.
pub fn hex_digit_of(v: u8) -> (c: u8)
    requires
        v < 16,
    ensures
        c == hex_digit(v),
{
    if v < 10 {
        crate::decimal::DIGIT_ZERO + v
    } else {
        HEX_LETTER + v
    }
}

/// Hexadecimal strings are ASCII, so they always view as valid text.
pub proof fn lemma_hex_rep_ascii(b: Seq<u8>)
    ensures
        forall|i: int| 0 <= i < hex_rep(b).len() ==> #[trigger] hex_rep(b)[i] < 128,
{
}

/// A hexadecimal string is valid UTF-8, so `write_str` on a [`Hex`]
/// fails only for want of buffer space.
pub proof fn lemma_hex_rep_text(b: Seq<u8>)
    ensures
        vstd::utf8::valid_utf8(hex_rep(b)),
{
    lemma_hex_rep_ascii(b);
    crate::text::lemma_ascii_valid_utf8(hex_rep(b));
}

/// Wrapper type for encoding byte sequences as hex strings.
pub struct Hex<'a>(pub &'a [u8]);

impl<'a> EncodeStr for Hex<'a> {
    open spec fn encoding(&self) -> Seq<u8> {
        hex_rep(self.0@)
    }

    /// The doubled length must fit the machine word.
    open spec fn valid(&self) -> bool {
        self.0@.len() * 2 <= usize::MAX
    }

    fn len(&self) -> (n: usize) {
        self.0.len() * 2
    }

    fn write_at(&self, buff: &mut [u8], at: usize) -> (r: Result<usize, Error>) {
        let m = self.0.len();
        let n = m * 2;
        if buff.len() < at || buff.len() - at < n {
            return Err(Error::BufferLength);
        }
        let total = buff.len();
        let mut i: usize = 0;
        while i < m
            invariant
                i <= m,
                m == self.0@.len(),
                n == m * 2,
                at + n <= total,
                total == buff@.len(),
                forall|j: int| at <= j < at + 2 * i ==> buff@[j] == self.encoding()[j - at],
                forall|j: int|
                    0 <= j < buff@.len() && !(at <= j < at + 2 * i) ==> buff@[j] == old(buff)@[j],
            decreases m - i,
        {
            let v: u8 = *vstd::slice::slice_index_get(self.0, i);
            buff[at + 2 * i] = hex_digit_of(v / 16);
            buff[at + 2 * i + 1] = hex_digit_of(v % 16);
            proof {
                assert(self.encoding()[2 * i as int] == hex_digit(v / 16));
                assert(self.encoding()[2 * i as int + 1] == hex_digit(v % 16));
            }
            i = i + 1;
        }
        proof {
            lemma_splice(old(buff)@, buff@, at as int, self.encoding());
        }
        Ok(n)
    }
}

} // verus!
