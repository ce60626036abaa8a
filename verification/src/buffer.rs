//! Lemmas about splicing an encoding into a byte buffer at an offset.

use vstd::prelude::*;

verus! {

/// A buffer that changed only on `[at, at + mid.len())`, where it now holds
/// `mid`, equals the old buffer with `mid` spliced in at `at`.
pub proof fn lemma_splice(old_s: Seq<u8>, new_s: Seq<u8>, at: int, mid: Seq<u8>)
    requires
        0 <= at,
        at + mid.len() <= old_s.len(),
        new_s.len() == old_s.len(),
        forall|j: int| at <= j < at + mid.len() ==> new_s[j] == mid[j - at],
        forall|j: int|
            0 <= j < old_s.len() && !(at <= j < at + mid.len()) ==> new_s[j] == old_s[j],
    ensures
        new_s == old_s.take(at) + mid + old_s.skip(at + mid.len()),
{
    assert(new_s =~= old_s.take(at) + mid + old_s.skip(at + mid.len()));
}

/// Copy `src` into `buff[at .. at + src.len()]`, leaving the rest of the
/// buffer untouched.
pub(crate) fn copy_bytes_at(src: &[u8], buff: &mut [u8], at: usize)
    requires
        at + src@.len() <= old(buff)@.len(),
    ensures
        final(buff)@.len() == old(buff)@.len(),
        forall|j: int| at <= j < at + src@.len() ==> final(buff)@[j] == src@[j - at],
        forall|j: int|
            0 <= j < old(buff)@.len() && !(at <= j < at + src@.len())
                ==> final(buff)@[j] == old(buff)@[j],
{
    let total = buff.len();
    let m = src.len();
    let mut i: usize = 0;
    while i < m
        invariant
            i <= m,
            m == src@.len(),
            at + m <= total,
            total == buff@.len(),
            forall|j: int| at <= j < at + i ==> buff@[j] == src@[j - at],
            forall|j: int|
                0 <= j < buff@.len() && !(at <= j < at + i) ==> buff@[j] == old(buff)@[j],
        decreases m - i,
    {
        let c: u8 = *vstd::slice::slice_index_get(src, i);
        buff[at + i] = c;
        i = i + 1;
    }
}

/// The pointwise reading of a splice: inside `[at, at + mid.len())` the new
/// buffer holds `mid`, outside it holds the old bytes.
pub proof fn lemma_splice_pointwise(old_s: Seq<u8>, new_s: Seq<u8>, at: int, mid: Seq<u8>)
    requires
        0 <= at,
        at + mid.len() <= old_s.len(),
        new_s == old_s.take(at) + mid + old_s.skip(at + mid.len()),
    ensures
        new_s.len() == old_s.len(),
        forall|j: int| at <= j < at + mid.len() ==> new_s[j] == mid[j - at],
        forall|j: int|
            0 <= j < old_s.len() && !(at <= j < at + mid.len()) ==> new_s[j] == old_s[j],
{
}

/// Two splices at adjacent offsets amount to one splice of the
/// concatenation.
pub proof fn lemma_splice_chain(
    s0: Seq<u8>,
    s1: Seq<u8>,
    s2: Seq<u8>,
    at: int,
    mid1: Seq<u8>,
    mid2: Seq<u8>,
)
    requires
        0 <= at,
        at + mid1.len() + mid2.len() <= s0.len(),
        s1 == s0.take(at) + mid1 + s0.skip(at + mid1.len()),
        s2 == s1.take(at + mid1.len()) + mid2 + s1.skip(at + mid1.len() + mid2.len()),
    ensures
        s2 == s0.take(at) + (mid1 + mid2) + s0.skip(at + mid1.len() + mid2.len()),
{
    assert(s2 =~= s0.take(at) + (mid1 + mid2) + s0.skip(at + mid1.len() + mid2.len()));
}

/// Updating one position is splicing in a one-byte sequence.
pub proof fn lemma_update_is_splice(s: Seq<u8>, i: int, x: u8)
    requires
        0 <= i < s.len(),
    ensures
        s.update(i, x) == s.take(i) + seq![x] + s.skip(i + 1),
{
    assert(s.update(i, x) =~= s.take(i) + seq![x] + s.skip(i + 1));
}

/// A buffer is unchanged by splicing in an empty sequence.
pub proof fn lemma_splice_empty(s: Seq<u8>, at: int)
    requires
        0 <= at <= s.len(),
    ensures
        s == s.take(at) + Seq::<u8>::empty() + s.skip(at),
{
    assert(s =~= s.take(at) + Seq::<u8>::empty() + s.skip(at));
}

} // verus!
