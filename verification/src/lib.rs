//! Zero-allocation encoding of numbers and text into caller-supplied byte
//! buffers.
//!
//! Every encodable value implements [`EncodeStr`], a two-phase contract:
//! [`EncodeStr::len`] reports the exact number of bytes the value occupies,
//! and [`EncodeStr::write`] fills a buffer of at least that size. Callers can
//! therefore size a buffer once (for instance a stack array) and never
//! reallocate. Composite encoders — fixed-point decimals, hexadecimal dumps,
//! padding, and sequential concatenation — are built on the same contract.

use vstd::prelude::*;

mod error;
pub use error::Error;

pub mod buffer;
pub mod decimal;
pub mod helpers;
pub mod text;

mod types;

verus! {

use vstd::string::StringSliceAdditionalSpecFns;
use vstd::utf8::{decode_utf8, valid_utf8};

/// The two-phase encoding contract: report an exact length, then write
/// exactly that many bytes.
///
/// The specification of a value is [`EncodeStr::encoding`], the byte
/// sequence it renders to; `len` and `write` are both pinned to it, so the
/// two can never disagree.
pub trait EncodeStr {
    /// The exact byte sequence this value encodes to.
    spec fn encoding(&self) -> Seq<u8>;

    /// The inputs for which the encoding is defined (for most encoders,
    /// all of them; machine limits and out-of-contract shapes are excluded
    /// here).
    spec fn valid(&self) -> bool;

    /// Fetch the encoded length of the object.
    fn len(&self) -> (n: usize)
        requires
            self.valid(),
        ensures
            n == self.encoding().len(),
    ;

    /// Write the encoding into `buff` starting at offset `at`, returning
    /// the number of bytes written. Fails with [`Error::BufferLength`] —
    /// leaving the buffer length unchanged — exactly when the buffer is
    /// too small.
    fn write_at(&self, buff: &mut [u8], at: usize) -> (r: Result<usize, Error>)
        requires
            self.valid(),
        ensures
            match r {
                Ok(n) => n == self.encoding().len() && at + n <= old(buff)@.len()
                    && final(buff)@ == old(buff)@.take(at as int) + self.encoding()
                    + old(buff)@.skip(at + n),
                Err(e) => e == Error::BufferLength && old(buff)@.len() < at
                    + self.encoding().len() && final(buff)@.len() == old(buff)@.len(),
            },
    ;

    /// Encode into the start of the provided buffer, returning the number
    /// of bytes written.
    fn write(&self, buff: &mut [u8]) -> (r: Result<usize, Error>)
        requires
            self.valid(),
        ensures
            match r {
                Ok(n) => n == self.encoding().len() && n <= old(buff)@.len() && final(buff)@
                    == self.encoding() + old(buff)@.skip(n as int),
                Err(e) => e == Error::BufferLength && old(buff)@.len() < self.encoding().len()
                    && final(buff)@.len() == old(buff)@.len(),
            },
    {
        let r = self.write_at(buff, 0);
        proof {
            if let Ok(n) = r {
                assert(buff@ =~= self.encoding() + old(buff)@.skip(n as int));
            }
        }
        r
    }

    /// Helper to encode to a borrowed string: write, then view the written
    /// bytes as text. Fails with [`Error::BufferLength`] exactly when the
    /// buffer is too small, and with [`Error::InvalidUtf8`] exactly when
    /// the encoded bytes are not valid UTF-8.
    fn write_str<'a>(&self, buff: &'a mut [u8]) -> (r: Result<&'a str, Error>)
        requires
            self.valid(),
        ensures
            match r {
                Ok(s) => self.encoding().len() <= old(buff)@.len() && valid_utf8(self.encoding())
                    && s.spec_bytes() == self.encoding() && s@ == decode_utf8(self.encoding()),
                Err(e) => (e == Error::BufferLength <==> old(buff)@.len()
                    < self.encoding().len()) && (e == Error::InvalidUtf8 <==> (self.encoding().len()
                    <= old(buff)@.len() && !valid_utf8(self.encoding()))),
            },
    {
        let n = match self.write(buff) {
            Ok(n) => n,
            Err(e) => {
                return Err(e);
            },
        };
        let written: &'a [u8] = vstd::slice::slice_subrange(buff, 0, n);
        proof {
            assert(written@ =~= self.encoding());
        }
        match crate::text::str_of_bytes(written) {
            Some(s) => {
                proof {
                    vstd::utf8::encode_utf8_decode_utf8(s@);
                }
                Ok(s)
            },
            None => Err(Error::InvalidUtf8),
        }
    }
}

/// Sequential composition: `first`, then `second`, written consecutively
/// into one buffer. Chains of [`Concat`] join any number of heterogeneous
/// encodable values, in place of a formatting macro.
pub struct Concat<A, B> {
    /// Written first, at offset 0 of the pair's output.
    pub first: A,
    /// Written immediately after `first`.
    pub second: B,
}

impl<A, B> Concat<A, B> {
    /// Join two encodable values in sequence.
    pub fn new(first: A, second: B) -> (r: Self)
        ensures
            r.first == first,
            r.second == second,
    {
        Self { first, second }
    }
}

impl<A: EncodeStr, B: EncodeStr> EncodeStr for Concat<A, B> {
    open spec fn encoding(&self) -> Seq<u8> {
        self.first.encoding() + self.second.encoding()
    }

    /// Both halves defined, and the joint length within the machine word.
    open spec fn valid(&self) -> bool {
        self.first.valid() && self.second.valid() && self.first.encoding().len()
            + self.second.encoding().len() <= usize::MAX
    }

    fn len(&self) -> (n: usize) {
        self.first.len() + self.second.len()
    }

    /// Writes each value consecutively, advancing by each value's length,
    /// and propagates the first error immediately; bytes already written
    /// before a failing element remain.
    fn write_at(&self, buff: &mut [u8], at: usize) -> (r: Result<usize, Error>) {
        // the length of a slice fits a usize, so `at + na` cannot overflow
        let _total = buff.len();
        let ghost s0 = buff@;
        let na = match self.first.write_at(buff, at) {
            Ok(na) => na,
            Err(e) => {
                return Err(e);
            },
        };
        let ghost s1 = buff@;
        match self.second.write_at(buff, at + na) {
            Ok(nb) => {
                proof {
                    buffer::lemma_splice_chain(
                        s0,
                        s1,
                        buff@,
                        at as int,
                        self.first.encoding(),
                        self.second.encoding(),
                    );
                }
                Ok(na + nb)
            },
            Err(e) => Err(e),
        }
    }
}

/// Encoding is deterministic, so encoding one value twice is idempotent:
/// two successful writes of the same value into equally-sized buffers
/// leave the same bytes in the written region.
pub proof fn lemma_write_idempotent(
    enc: Seq<u8>,
    old1: Seq<u8>,
    old2: Seq<u8>,
    new1: Seq<u8>,
    new2: Seq<u8>,
)
    requires
        enc.len() <= old1.len(),
        old1.len() == old2.len(),
        new1 == enc + old1.skip(enc.len() as int),
        new2 == enc + old2.skip(enc.len() as int),
    ensures
        new1.take(enc.len() as int) == new2.take(enc.len() as int),
{
    assert(new1.take(enc.len() as int) =~= new2.take(enc.len() as int));
}

/// Pass-through for references: a `&T` encodes exactly as the `T` it
/// borrows.
impl<T: EncodeStr + ?Sized> EncodeStr for &T {
    open spec fn encoding(&self) -> Seq<u8> {
        (**self).encoding()
    }

    open spec fn valid(&self) -> bool {
        (**self).valid()
    }

    fn len(&self) -> (n: usize) {
        (**self).len()
    }

    fn write_at(&self, buff: &mut [u8], at: usize) -> (r: Result<usize, Error>) {
        (**self).write_at(buff, at)
    }
}

} // verus!
