//! The closed set of failures an encoder can report.

use vstd::prelude::*;

verus! {

/// Error type for string encoding.
///
/// `BufferLength`: the destination buffer is smaller than the encoded output.
/// `InvalidUtf8`: the encoded bytes do not form valid UTF-8 text (only
/// reported by the text-view convenience operation, never by raw writes).
#[derive(Clone, Copy, PartialEq, Eq, Structural, Debug)]
pub enum Error {
    BufferLength,
    InvalidUtf8,
}

} // verus!
