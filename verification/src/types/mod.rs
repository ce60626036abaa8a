//! [`crate::EncodeStr`] implementations for primitive types.

use vstd::prelude::*;

mod ints;

verus! {

use vstd::string::StringSliceAdditionalSpecFns;

use crate::EncodeStr;
use crate::buffer::{copy_bytes_at, lemma_splice};
use crate::error::Error;

/// A string slice encodes verbatim, as its UTF-8 bytes.
impl EncodeStr for str {
    open spec fn encoding(&self) -> Seq<u8> {
        self.spec_bytes()
    }

    open spec fn valid(&self) -> bool {
        true
    }

    fn len(&self) -> (n: usize) {
        let b = self.as_bytes();
        b.len()
    }

    fn write_at(&self, buff: &mut [u8], at: usize) -> (r: Result<usize, Error>) {
        let b = self.as_bytes();
        let n = b.len();
        if buff.len() < at || buff.len() - at < n {
            return Err(Error::BufferLength);
        }
        copy_bytes_at(b, buff, at);
        proof {
            lemma_splice(old(buff)@, buff@, at as int, self.spec_bytes());
        }
        Ok(n)
    }
}

/// A character encodes as a single byte: its scalar value, truncated.
/// Characters above U+00FF therefore lose information; ASCII characters
/// encode as themselves.
impl EncodeStr for char {
    open spec fn encoding(&self) -> Seq<u8> {
        seq![((*self as u32) as u8)]
    }

    open spec fn valid(&self) -> bool {
        true
    }

    fn len(&self) -> (n: usize) {
        1
    }

    fn write_at(&self, buff: &mut [u8], at: usize) -> (r: Result<usize, Error>) {
        if buff.len() < at || buff.len() - at < 1 {
            return Err(Error::BufferLength);
        }
        let code = *self as u32;
        let b: u8 = #[verifier::truncate] (code as u8);
        buff[at] = b;
        proof {
            lemma_splice(old(buff)@, buff@, at as int, self.encoding());
        }
        Ok(1)
    }
}

} // verus!
