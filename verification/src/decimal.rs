//! Decimal representation of integers: the mathematical model and the
//! executable digit-writing core shared by every integer-based encoder.

use vstd::prelude::*;

use crate::buffer::lemma_splice;
use crate::error::Error;

verus! {

/// Byte value of the digit character `'0'`.
pub const DIGIT_ZERO: u8 = 48;

/// Byte value of the sign character `'-'`.
pub const MINUS: u8 = 45;

/// Byte value of the decimal point character `'.'`.
pub const DOT: u8 = 46;

/// The decimal digit string of a natural number, as bytes
/// (`'0'..='9'`), most significant digit first. Zero is `"0"`.
pub open spec fn dec_rep(v: nat) -> Seq<u8>
    decreases v,
{
    if v < 10 {
        seq![(DIGIT_ZERO + v) as u8]
    } else {
        dec_rep(v / 10).push((DIGIT_ZERO + v % 10) as u8)
    }
}

/// The decimal string of an integer: the magnitude's digits, preceded
/// by `'-'` when the value is negative.
pub open spec fn int_rep(v: int) -> Seq<u8> {
    if v >= 0 {
        dec_rep(v as nat)
    } else {
        seq![MINUS] + dec_rep((-v) as nat)
    }
}

/// `10^k`.
pub open spec fn pow10(k: nat) -> nat
    decreases k,
{
    if k == 0 {
        1
    } else {
        10 * pow10((k - 1) as nat)
    }
}

pub proof fn lemma_dec_rep_len_ge_1(v: nat)
    ensures
        dec_rep(v).len() >= 1,
    decreases v,
{
    if v >= 10 {
        lemma_dec_rep_len_ge_1(v / 10);
    }
}

/// A value below `10^k` needs at most `k` digits (for `k >= 1`).
pub proof fn lemma_dec_rep_len_upper(v: nat, k: nat)
    requires
        k >= 1,
        v < pow10(k),
    ensures
        dec_rep(v).len() <= k,
    decreases k,
{
    if v >= 10 {
        assert(pow10(k) == 10 * pow10((k - 1) as nat));
        if k == 1 {
            assert(pow10(0nat) == 1);
        } else {
            assert(v / 10 < pow10((k - 1) as nat)) by (nonlinear_arith)
                requires
                    v < 10 * pow10((k - 1) as nat),
            ;
            lemma_dec_rep_len_upper(v / 10, (k - 1) as nat);
        }
    }
}

/// A value of at least `10^k` needs more than `k` digits.
pub proof fn lemma_dec_rep_len_lower(v: nat, k: nat)
    requires
        v >= pow10(k),
    ensures
        dec_rep(v).len() >= k + 1,
    decreases k,
{
    if k >= 1 {
        lemma_dec_rep_len_lower(v / 10, (k - 1) as nat);
    }
}

pub proof fn lemma_pow10_pos(k: nat)
    ensures
        pow10(k) >= 1,
    decreases k,
{
    if k >= 1 {
        lemma_pow10_pos((k - 1) as nat);
    }
}

/// `10^k` has exactly `k + 1` digits.
pub proof fn lemma_dec_rep_pow10_len(k: nat)
    ensures
        dec_rep(pow10(k)).len() == k + 1,
{
    lemma_pow10_pos(k);
    assert(pow10((k + 1) as nat) == 10 * pow10(k));
    lemma_dec_rep_len_upper(pow10(k), k + 1);
    lemma_dec_rep_len_lower(pow10(k), k);
}

/// Every `u64` has at most 20 digits.
pub proof fn lemma_dec_rep_len_u64(v: u64)
    ensures
        1 <= dec_rep(v as nat).len() <= 20,
{
    lemma_dec_rep_len_ge_1(v as nat);
    assert(pow10(20) > u64::MAX) by {
        reveal_with_fuel(pow10, 21);
    }
    lemma_dec_rep_len_upper(v as nat, 20);
}

proof fn lemma_dec_rep_digit_at(v: nat, i: int)
    requires
        0 <= i < dec_rep(v).len(),
    ensures
        DIGIT_ZERO <= dec_rep(v)[i] <= DIGIT_ZERO + 9,
    decreases v,
{
    if v < 10 {
        assert(dec_rep(v) == seq![(DIGIT_ZERO + v) as u8]);
    } else {
        assert(dec_rep(v) == dec_rep(v / 10).push((DIGIT_ZERO + v % 10) as u8));
        if i < dec_rep(v).len() - 1 {
            lemma_dec_rep_digit_at(v / 10, i);
        }
    }
}

/// Every digit byte lies in `'0'..='9'`.
pub proof fn lemma_dec_rep_digits(v: nat)
    ensures
        forall|i: int|
            0 <= i < dec_rep(v).len() ==> DIGIT_ZERO <= #[trigger] dec_rep(v)[i] <= DIGIT_ZERO + 9,
{
    assert forall|i: int|
        0 <= i < dec_rep(v).len() implies DIGIT_ZERO <= #[trigger] dec_rep(v)[i] <= DIGIT_ZERO
        + 9 by {
        lemma_dec_rep_digit_at(v, i);
    }
}

/// Decimal strings are ASCII, so they always view as valid text.
pub proof fn lemma_int_rep_ascii(v: int)
    ensures
        forall|i: int| 0 <= i < int_rep(v).len() ==> #[trigger] int_rep(v)[i] < 128,
{
    if v >= 0 {
        lemma_dec_rep_digits(v as nat);
    } else {
        lemma_dec_rep_digits((-v) as nat);
        assert forall|i: int| 0 <= i < int_rep(v).len() implies #[trigger] int_rep(v)[i]
            < 128 by {
            if i >= 1 {
                assert(int_rep(v)[i] == dec_rep((-v) as nat)[i - 1]);
            }
        }
    }
}

/// An integer's decimal string always views as text: it is valid UTF-8,
/// so `write_str` on an integer fails only for want of buffer space.
pub proof fn lemma_int_rep_text(v: int)
    ensures
        vstd::utf8::valid_utf8(int_rep(v)),
{
    lemma_int_rep_ascii(v);
    crate::text::lemma_ascii_valid_utf8(int_rep(v));
}

/// Number of decimal digits of `v`: repeated division by ten, at least one
/// digit for zero itself.
pub fn u64_dec_len(v: u64) -> (n: usize)
    ensures
        n == dec_rep(v as nat).len(),
{
    proof {
        lemma_dec_rep_len_u64(v);
    }
    let mut x = v;
    let mut n: usize = 1;
    while x >= 10
        invariant
            dec_rep(v as nat).len() == n + dec_rep(x as nat).len() - 1,
            dec_rep(v as nat).len() <= 20,
            n >= 1,
        decreases x,
    {
        proof {
            lemma_dec_rep_len_ge_1(x as nat / 10);
        }
        x = x / 10;
        n = n + 1;
    }
    n
}

/// Write the digits of `v` into `buff[at .. at + n]`, least significant
/// digit extracted first but placed from the back, so the digits land in
/// left-to-right order in one pass.
pub(crate) fn write_digits_at(v: u64, buff: &mut [u8], at: usize, n: usize)
    requires
        n == dec_rep(v as nat).len(),
        at + n <= old(buff)@.len(),
    ensures
        final(buff)@.len() == old(buff)@.len(),
        forall|j: int| at <= j < at + n ==> final(buff)@[j] == dec_rep(v as nat)[j - at],
        forall|j: int|
            0 <= j < old(buff)@.len() && !(at <= j < at + n) ==> final(buff)@[j] == old(buff)@[j],
{
    let total = buff.len();
    let mut x = v;
    let mut i: usize = 0;
    while i < n
        invariant
            i <= n,
            n == dec_rep(v as nat).len(),
            at + n <= total,
            total == buff@.len(),
            buff@.len() == old(buff)@.len(),
            i < n ==> dec_rep(x as nat) == dec_rep(v as nat).take((n - i) as int),
            i == n ==> x == 0,
            forall|j: int| at + n - i <= j < at + n ==> buff@[j] == dec_rep(v as nat)[j - at],
            forall|j: int|
                0 <= j < buff@.len() && !(at + n - i <= j < at + n) ==> buff@[j] == old(buff)@[j],
        decreases n - i,
    {
        let ghost full = dec_rep(v as nat);
        let ghost rest = dec_rep(x as nat);
        proof {
            assert(rest == full.take((n - i) as int));
            assert(rest.len() == n - i);
            if n - i >= 2 {
                // rest has at least two digits, so x >= 10 and its last
                // digit is x % 10.
                if x < 10 {
                    assert(rest == seq![(DIGIT_ZERO + x as nat) as u8]);
                    assert(false);
                }
                assert(rest == dec_rep(x as nat / 10).push((DIGIT_ZERO + x as nat % 10) as u8));
                lemma_dec_rep_len_ge_1(x as nat / 10);
                assert(rest.last() == (DIGIT_ZERO + x as nat % 10) as u8);
                assert(dec_rep(x as nat / 10) =~= full.take((n - i - 1) as int));
            } else {
                if x >= 10 {
                    assert(rest == dec_rep(x as nat / 10).push((DIGIT_ZERO + x as nat % 10) as u8));
                    lemma_dec_rep_len_ge_1(x as nat / 10);
                    assert(false);
                }
                assert(rest == seq![(DIGIT_ZERO + x as nat) as u8]);
                assert(rest.last() == (DIGIT_ZERO + x as nat % 10) as u8);
            }
            assert(full[(n - i - 1) as int] == rest[(n - i - 1) as int]);
            assert(full[(n - i - 1) as int] == (DIGIT_ZERO + x as nat % 10) as u8);
        }
        let d: u8 = (x % 10) as u8;
        buff[at + n - i - 1] = DIGIT_ZERO + d;
        x = x / 10;
        i = i + 1;
    }
}

/// The number a string of decimal digits denotes, most significant digit
/// first; the empty string denotes zero.
pub open spec fn parse_digits(s: Seq<u8>) -> nat
    decreases s.len(),
{
    if s.len() == 0 {
        0
    } else {
        (parse_digits(s.drop_last()) * 10 + (s.last() - DIGIT_ZERO)) as nat
    }
}

/// Parsing is the inverse of printing: the digit string of `v` denotes
/// `v`.
pub proof fn lemma_parse_dec_rep(v: nat)
    ensures
        parse_digits(dec_rep(v)) == v,
    decreases v,
{
    if v < 10 {
        let s = dec_rep(v);
        assert(s == seq![(DIGIT_ZERO + v) as u8]);
        assert(s.drop_last() =~= Seq::<u8>::empty());
        assert(s.last() == (DIGIT_ZERO + v) as u8);
        assert(parse_digits(Seq::<u8>::empty()) == 0);
        assert(parse_digits(s) == (parse_digits(s.drop_last()) * 10 + (s.last()
            - DIGIT_ZERO)) as nat);
    } else {
        let s = dec_rep(v);
        assert(s == dec_rep(v / 10).push((DIGIT_ZERO + v % 10) as u8));
        assert(s.drop_last() =~= dec_rep(v / 10));
        lemma_parse_dec_rep(v / 10);
        assert((v / 10) * 10 + v % 10 == v) by {
            vstd::arithmetic::div_mod::lemma_fundamental_div_mod(v as int, 10);
        }
    }
}

/// Parsing a concatenation: the left digits are scaled by ten to the
/// power of the right block's width.
pub proof fn lemma_parse_concat(a: Seq<u8>, b: Seq<u8>)
    requires
        forall|i: int| 0 <= i < a.len() ==> DIGIT_ZERO <= #[trigger] a[i],
        forall|i: int| 0 <= i < b.len() ==> DIGIT_ZERO <= #[trigger] b[i],
    ensures
        parse_digits(a + b) == parse_digits(a) * pow10(b.len()) + parse_digits(b),
    decreases b.len(),
{
    if b.len() == 0 {
        assert(a + b =~= a);
        assert(pow10(0nat) == 1);
    } else {
        let b0 = b.drop_last();
        assert((a + b).last() == b.last());
        assert((a + b).drop_last() =~= a + b0);
        assert(forall|i: int| 0 <= i < b0.len() ==> DIGIT_ZERO <= #[trigger] b0[i]);
        lemma_parse_concat(a, b0);
        let pa = parse_digits(a);
        let pb0 = parse_digits(b0);
        let last: int = b.last() - DIGIT_ZERO;
        assert(parse_digits(a + b) == ((pa * pow10(b0.len()) + pb0) * 10 + last) as nat);
        assert((pa * pow10(b0.len()) + pb0) * 10 == pa * (pow10(b0.len()) * 10) + pb0 * 10)
            by (nonlinear_arith);
        assert(pow10(b.len()) == 10 * pow10(b0.len()));
        assert(pow10(b0.len()) * 10 == pow10(b.len()));
        assert(parse_digits(b) == (pb0 * 10 + last) as nat);
    }
}

/// A run of zero digits denotes zero.
pub proof fn lemma_parse_zeros(s: Seq<u8>)
    requires
        forall|i: int| 0 <= i < s.len() ==> #[trigger] s[i] == DIGIT_ZERO,
    ensures
        parse_digits(s) == 0,
    decreases s.len(),
{
    if s.len() > 0 {
        let s0 = s.drop_last();
        assert(forall|i: int| 0 <= i < s0.len() ==> #[trigger] s0[i] == DIGIT_ZERO);
        lemma_parse_zeros(s0);
    }
}

/// `v` with its trailing zero decimal digits removed; zero stays zero.
pub open spec fn trim_zeros(v: nat) -> nat
    decreases v,
{
    if v > 0 && v % 10 == 0 {
        trim_zeros(v / 10)
    } else {
        v
    }
}

/// How many trailing zero decimal digits `v` carries.
pub open spec fn trailing_zeros(v: nat) -> nat
    decreases v,
{
    if v > 0 && v % 10 == 0 {
        1 + trailing_zeros(v / 10)
    } else {
        0
    }
}

/// Trimming removes exactly the trailing zeros: scaling the trimmed value
/// back up restores `v`, and the digit counts match up.
pub proof fn lemma_trim_zeros(v: nat)
    requires
        v >= 1,
    ensures
        trim_zeros(v) >= 1,
        trim_zeros(v) * pow10(trailing_zeros(v)) == v,
        dec_rep(v).len() == dec_rep(trim_zeros(v)).len() + trailing_zeros(v),
    decreases v,
{
    if v % 10 == 0 {
        lemma_trim_zeros(v / 10);
        let a = trim_zeros(v / 10);
        let b = trailing_zeros(v / 10);
        assert(trim_zeros(v) == a);
        assert(trailing_zeros(v) == 1 + b);
        assert(pow10(1 + b) == 10 * pow10(b));
        assert(a * (10 * pow10(b)) == (a * pow10(b)) * 10) by (nonlinear_arith);
        assert((v / 10) * 10 == v) by {
            vstd::arithmetic::div_mod::lemma_fundamental_div_mod(v as int, 10);
        }
        assert(trim_zeros(v) * pow10(trailing_zeros(v)) == a * (10 * pow10(b)));
        assert(trim_zeros(v) * pow10(trailing_zeros(v)) == (a * pow10(b)) * 10);
        lemma_dec_rep_len_ge_1(v / 10);
    } else {
        assert(trim_zeros(v) == v);
        assert(trailing_zeros(v) == 0);
        assert(pow10(0nat) == 1);
        assert(v * pow10(0nat) == v);
    }
}

/// Strip the trailing zero digits of a positive value.
pub(crate) fn trim_trailing(v: u64) -> (t: u64)
    requires
        v >= 1,
    ensures
        t == trim_zeros(v as nat),
        t >= 1,
{
    let mut t = v;
    while t % 10 == 0
        invariant
            t >= 1,
            trim_zeros(t as nat) == trim_zeros(v as nat),
        decreases t,
    {
        t = t / 10;
    }
    t
}

/// The magnitude of a signed value as an unsigned one; exact on the whole
/// range, the minimum included.
pub(crate) fn abs_mag(v: i64) -> (m: u64)
    ensures
        m == vstd::math::abs(v as int),
{
    if v >= 0 {
        v as u64
    } else {
        ((-(v + 1)) as u64) + 1
    }
}

/// Number of bytes of the decimal string of `v`, sign included.
pub(crate) fn i64_dec_len(v: i64) -> (n: usize)
    ensures
        n == int_rep(v as int).len(),
{
    if v >= 0 {
        u64_dec_len(v as u64)
    } else {
        let m = abs_mag(v);
        proof {
            lemma_dec_rep_len_u64(m);
        }
        1 + u64_dec_len(m)
    }
}

/// Write the decimal string of `v` at offset `at`, or report that the
/// buffer is too small.
pub(crate) fn write_u64_at(v: u64, buff: &mut [u8], at: usize) -> (r: Result<usize, Error>)
    ensures
        match r {
            Ok(n) => n == dec_rep(v as nat).len() && at + n <= old(buff)@.len() && final(buff)@
                == old(buff)@.take(at as int) + dec_rep(v as nat) + old(buff)@.skip(at + n),
            Err(e) => e == Error::BufferLength && old(buff)@.len() < at + dec_rep(v as nat).len()
                && final(buff)@.len() == old(buff)@.len(),
        },
{
    let n = u64_dec_len(v);
    if buff.len() < at || buff.len() - at < n {
        return Err(Error::BufferLength);
    }
    write_digits_at(v, buff, at, n);
    proof {
        lemma_splice(old(buff)@, buff@, at as int, dec_rep(v as nat));
    }
    Ok(n)
}

/// Write the decimal string of `v`, sign first for negative values, at
/// offset `at`, or report that the buffer is too small.
pub(crate) fn write_i64_at(v: i64, buff: &mut [u8], at: usize) -> (r: Result<usize, Error>)
    ensures
        match r {
            Ok(n) => n == int_rep(v as int).len() && at + n <= old(buff)@.len() && final(buff)@
                == old(buff)@.take(at as int) + int_rep(v as int) + old(buff)@.skip(at + n),
            Err(e) => e == Error::BufferLength && old(buff)@.len() < at + int_rep(v as int).len()
                && final(buff)@.len() == old(buff)@.len(),
        },
{
    if v >= 0 {
        return write_u64_at(v as u64, buff, at);
    }
    let m = abs_mag(v);
    let nd = u64_dec_len(m);
    proof {
        lemma_dec_rep_len_u64(m);
    }
    let n = nd + 1;
    if buff.len() < at || buff.len() - at < n {
        return Err(Error::BufferLength);
    }
    buff[at] = MINUS;
    write_digits_at(m, buff, at + 1, nd);
    proof {
        let mid = int_rep(v as int);
        assert(mid == seq![MINUS] + dec_rep(m as nat));
        assert(forall|j: int| at < j < at + n ==> buff@[j] == dec_rep(m as nat)[j - at - 1]);
        assert(forall|j: int| at <= j < at + n ==> buff@[j] == mid[j - at]);
        lemma_splice(old(buff)@, buff@, at as int, mid);
    }
    Ok(n)
}

} // verus!
