//! Viewing written bytes as text: UTF-8 validation and the facts the
//! encoders need about ASCII output.

use vstd::prelude::*;
use vstd::string::StringSliceAdditionalSpecFns;
use vstd::utf8::{
    decode_utf8, is_leading_byte_width_1, length_of_first_scalar, pop_first_scalar, valid_utf8,
    valid_first_scalar,
};

verus! {

/// Relies on `core::str::from_utf8`: it returns a string slice viewing
/// exactly the given bytes when they are valid UTF-8, and an error
/// otherwise.
#[verifier::external_body]
pub(crate) fn str_of_bytes<'a>(b: &'a [u8]) -> (r: Option<&'a str>)
    ensures
        r is Some <==> valid_utf8(b@),
        r matches Some(s) ==> s.spec_bytes() == b@,
{
    core::str::from_utf8(b).ok()
}

/// A sequence of ASCII bytes is valid UTF-8 and decodes to those bytes,
/// character by character.
pub proof fn lemma_ascii_valid_utf8(b: Seq<u8>)
    requires
        forall|i: int| 0 <= i < b.len() ==> b[i] < 128,
    ensures
        valid_utf8(b),
        decode_utf8(b) == b.map(|i: int, c: u8| c as char),
    decreases b.len(),
{
    let mapped = b.map(|i: int, c: u8| c as char);
    if b.len() == 0 {
        assert(mapped =~= Seq::<char>::empty());
    } else {
        assert(is_leading_byte_width_1(b[0]));
        assert(valid_first_scalar(b));
        assert(length_of_first_scalar(b) == 1);
        let rest = b.subrange(1, b.len() as int);
        assert(pop_first_scalar(b) == rest);
        assert forall|i: int| 0 <= i < rest.len() implies rest[i] < 128 by {
            assert(rest[i] == b[i + 1]);
        }
        lemma_ascii_valid_utf8(rest);
        let c = b[0];
        assert(c < 128 ==> (c & 0x7F) == c) by (bit_vector);
        assert(decode_utf8(b) == seq![b[0] as char] + decode_utf8(rest));
        assert(decode_utf8(b) =~= mapped);
    }
}

} // verus!
