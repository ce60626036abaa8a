//! [`Pad`] helper for padding any encodable value to a minimum width.

use core::marker::PhantomData;
use vstd::prelude::*;

use crate::EncodeStr;
use crate::buffer::{lemma_splice, lemma_splice_pointwise};
use crate::error::Error;

verus! {

/// A run of `n` copies of the fill byte.
pub open spec fn fill_rep(n: nat, pad: u8) -> Seq<u8> {
    Seq::new(n, |i: int| pad)
}

/// Helper for padding string encodable types: the inner value, never
/// truncated, brought up to at least `width` bytes with a fill character
/// on the side picked by the marker `M`.
pub struct Pad<E: EncodeStr, M> {
    /// The wrapped encoder.
    pub inner: E,
    /// The minimum output width.
    pub width: usize,
    /// The fill byte: the fill character's scalar value, truncated.
    pub pad: u8,
    /// Which side the fill goes on: [`Left`] or [`Right`].
    pub mode: PhantomData<M>,
}

/// Marker for left padding.
pub struct Left;

/// Marker for right padding.
pub struct Right;

/// Left padding, see [`Pad`].
pub type PadLeft<E> = Pad<E, Left>;

/// Right padding, see [`Pad`].
pub type PadRight<E> = Pad<E, Right>;

impl<E: EncodeStr, M> Pad<E, M> {
    /// Create a new pad wrapper with the provided inner encoder and width.
    pub fn new(inner: E, width: usize, pad: char) -> (r: Self)
        ensures
            r.inner == inner,
            r.width == width,
            r.pad == (pad as u32) as u8,
    {
        let code = pad as u32;
        let pad_byte: u8 = #[verifier::truncate] (code as u8);
        Self { inner, width, pad: pad_byte, mode: PhantomData }
    }
}

impl<E: EncodeStr> EncodeStr for Pad<E, Right> {
    /// The inner encoding, followed by fill up to `width`; pass-through
    /// when the inner value already meets the width.
    open spec fn encoding(&self) -> Seq<u8> {
        if self.inner.encoding().len() >= self.width {
            self.inner.encoding()
        } else {
            self.inner.encoding() + fill_rep(
                (self.width - self.inner.encoding().len()) as nat,
                self.pad,
            )
        }
    }

    open spec fn valid(&self) -> bool {
        self.inner.valid()
    }

    fn len(&self) -> (n: usize) {
        let n = self.inner.len();
        if self.width > n {
            self.width
        } else {
            n
        }
    }

    fn write_at(&self, buff: &mut [u8], at: usize) -> (r: Result<usize, Error>) {
        let n = self.inner.len();
        let w = if self.width > n {
            self.width
        } else {
            n
        };
        if buff.len() < at || buff.len() - at < w {
            return Err(Error::BufferLength);
        }
        let total = buff.len();
        let ghost mid = self.inner.encoding();
        match self.inner.write_at(buff, at) {
            Ok(_) => {},
            Err(_) => {
                proof {
                    assert(false);
                }
                return Err(Error::BufferLength);
            },
        }
        proof {
            lemma_splice_pointwise(old(buff)@, buff@, at as int, mid);
        }
        let ghost after_inner = buff@;
        let mut i: usize = n;
        while i < w
            invariant
                n <= i <= w,
                at + w <= total,
                total == buff@.len(),
                forall|j: int| at + n <= j < at + i ==> buff@[j] == self.pad,
                forall|j: int|
                    0 <= j < buff@.len() && !(at + n <= j < at + i) ==> buff@[j] == after_inner[j],
            decreases w - i,
        {
            buff[at + i] = self.pad;
            i = i + 1;
        }
        proof {
            assert forall|j: int| at <= j < at + w implies buff@[j] == self.encoding()[j - at] by {
                if j < at + n {
                    assert(buff@[j] == after_inner[j]);
                    assert(after_inner[j] == mid[j - at]);
                }
            }
            lemma_splice(old(buff)@, buff@, at as int, self.encoding());
        }
        Ok(w)
    }
}

impl<E: EncodeStr> EncodeStr for Pad<E, Left> {
    /// Fill up to `width`, followed by the inner encoding; pass-through
    /// when the inner value already meets the width.
    open spec fn encoding(&self) -> Seq<u8> {
        if self.inner.encoding().len() >= self.width {
            self.inner.encoding()
        } else {
            fill_rep((self.width - self.inner.encoding().len()) as nat, self.pad)
                + self.inner.encoding()
        }
    }

    open spec fn valid(&self) -> bool {
        self.inner.valid()
    }

    fn len(&self) -> (n: usize) {
        let n = self.inner.len();
        if self.width > n {
            self.width
        } else {
            n
        }
    }

    fn write_at(&self, buff: &mut [u8], at: usize) -> (r: Result<usize, Error>) {
        let n = self.inner.len();
        let w = if self.width > n {
            self.width
        } else {
            n
        };
        if buff.len() < at || buff.len() - at < w {
            return Err(Error::BufferLength);
        }
        let total = buff.len();
        let p = w - n;
        let mut i: usize = 0;
        while i < p
            invariant
                i <= p,
                at + w <= total,
                p <= w,
                total == buff@.len(),
                forall|j: int| at <= j < at + i ==> buff@[j] == self.pad,
                forall|j: int|
                    0 <= j < buff@.len() && !(at <= j < at + i) ==> buff@[j] == old(buff)@[j],
            decreases p - i,
        {
            buff[at + i] = self.pad;
            i = i + 1;
        }
        let ghost after_fill = buff@;
        let ghost mid = self.inner.encoding();
        match self.inner.write_at(buff, at + p) {
            Ok(_) => {},
            Err(_) => {
                proof {
                    assert(false);
                }
                return Err(Error::BufferLength);
            },
        }
        proof {
            lemma_splice_pointwise(after_fill, buff@, at + p, mid);
            assert forall|j: int| at <= j < at + w implies buff@[j] == self.encoding()[j - at] by {
                if j < at + p {
                    assert(buff@[j] == after_fill[j]);
                }
            }
            assert forall|j: int|
                0 <= j < buff@.len() && !(at <= j < at + w) implies buff@[j] == old(buff)@[j] by {
                assert(buff@[j] == after_fill[j]);
            }
            lemma_splice(old(buff)@, buff@, at as int, self.encoding());
        }
        Ok(w)
    }
}

/// Padding with a width at most the inner length is a no-op beyond the
/// inner encoding; a greater width adds exactly `width - inner` fill
/// bytes on the left.
pub proof fn lemma_pad_left_exact<E: EncodeStr>(p: &Pad<E, Left>)
    ensures
        p.width <= p.inner.encoding().len() ==> p.encoding() == p.inner.encoding(),
        p.width > p.inner.encoding().len() ==> p.encoding() == fill_rep(
            (p.width - p.inner.encoding().len()) as nat,
            p.pad,
        ) + p.inner.encoding(),
        p.encoding().len() == if p.width >= p.inner.encoding().len() {
            p.width as int
        } else {
            p.inner.encoding().len() as int
        },
{
}

/// Padding with a width at most the inner length is a no-op beyond the
/// inner encoding; a greater width adds exactly `width - inner` fill
/// bytes on the right.
pub proof fn lemma_pad_right_exact<E: EncodeStr>(p: &Pad<E, Right>)
    ensures
        p.width <= p.inner.encoding().len() ==> p.encoding() == p.inner.encoding(),
        p.width > p.inner.encoding().len() ==> p.encoding() == p.inner.encoding() + fill_rep(
            (p.width - p.inner.encoding().len()) as nat,
            p.pad,
        ),
        p.encoding().len() == if p.width >= p.inner.encoding().len() {
            p.width as int
        } else {
            p.inner.encoding().len() as int
        },
{
}

} // verus!
