//! [`Fractional`] helper for displaying scaled integers as decimal values:
//! `value / divisor` with a decimal point, the divisor a power of ten.

use vstd::prelude::*;

use crate::EncodeStr;
use crate::buffer::{
    lemma_splice, lemma_splice_chain, lemma_splice_empty, lemma_update_is_splice,
};
use crate::decimal::{
    DIGIT_ZERO, DOT, MINUS, abs_mag, dec_rep, int_rep, lemma_dec_rep_digits,
    lemma_dec_rep_len_u64, lemma_dec_rep_len_upper, lemma_dec_rep_pow10_len, lemma_parse_concat,
    lemma_parse_dec_rep, lemma_parse_zeros, lemma_pow10_pos, lemma_trim_zeros, parse_digits,
    pow10, trim_trailing, trim_zeros, u64_dec_len, write_digits_at,
};
use crate::error::Error;
use crate::helpers::fill_rep;

verus! {

use vstd::math::abs;

/// True of the powers of ten.
pub open spec fn is_pow10(d: int) -> bool {
    exists|k: nat| d == pow10(k)
}

/// The exponent of a power of ten.
pub open spec fn pow10_exp(d: int) -> nat {
    choose|k: nat| d == pow10(k)
}

/// The fixed-point decimal string of `value` over the divisor `10^k`:
/// the integer part `|value| / 10^k` in decimal, preceded by a sign for
/// negative values; when the remainder is not zero, a decimal point and
/// the remainder as exactly `k` digits — zero-padded on the left so scale
/// is kept — with trailing zero digits trimmed.
pub open spec fn frac_rep(value: int, k: nat) -> Seq<u8> {
    let m = abs(value) as nat;
    let q = m / pow10(k);
    let r = m % pow10(k);
    let sign: Seq<u8> = if value < 0 {
        seq![MINUS]
    } else {
        Seq::empty()
    };
    if r == 0 {
        sign + dec_rep(q)
    } else {
        let pad = (k - dec_rep(r).len()) as nat;
        sign + dec_rep(q) + seq![DOT] + fill_rep(pad, DIGIT_ZERO) + dec_rep(trim_zeros(r))
    }
}

/// The numeric capabilities the fractional encoder asks of its value
/// type: a signed integer that encodes as its decimal string and fits in
/// 64 bits.
pub trait Number: EncodeStr + Copy + Sized {
    /// The mathematical value.
    spec fn as_int(&self) -> int;

    /// Every number is encodable, and its encoding is its decimal string.
    proof fn encoding_decimal(&self)
        ensures
            self.valid(),
            self.encoding() == int_rep(self.as_int()),
    ;

    /// The value, widened to 64 bits.
    fn widen(&self) -> (r: i64)
        ensures
            r as int == self.as_int(),
    ;
}

impl Number for i8 {
    open spec fn as_int(&self) -> int {
        *self as int
    }

    proof fn encoding_decimal(&self) {
    }

    fn widen(&self) -> (r: i64) {
        *self as i64
    }
}

impl Number for i16 {
    open spec fn as_int(&self) -> int {
        *self as int
    }

    proof fn encoding_decimal(&self) {
    }

    fn widen(&self) -> (r: i64) {
        *self as i64
    }
}

impl Number for i32 {
    open spec fn as_int(&self) -> int {
        *self as int
    }

    proof fn encoding_decimal(&self) {
    }

    fn widen(&self) -> (r: i64) {
        *self as i64
    }
}

impl Number for i64 {
    open spec fn as_int(&self) -> int {
        *self as int
    }

    proof fn encoding_decimal(&self) {
    }

    fn widen(&self) -> (r: i64) {
        *self
    }
}

impl Number for isize {
    open spec fn as_int(&self) -> int {
        *self as int
    }

    proof fn encoding_decimal(&self) {
    }

    fn widen(&self) -> (r: i64) {
        *self as i64
    }
}

/// Helper for encoding integers as decimals using a specified divisor.
pub struct Fractional<N: Number> {
    /// Raw integer value.
    pub value: N,
    /// Divisor to be applied for encoding.
    pub divisor: N,
}

impl<N: Number> Fractional<N> {
    /// Create a new fractional wrapper with the provided value and
    /// divisor.
    pub fn new(value: N, divisor: N) -> (r: Self)
        ensures
            r.value == value,
            r.divisor == divisor,
    {
        Self { value, divisor }
    }
}

impl<N: Number> EncodeStr for Fractional<N> {
    open spec fn encoding(&self) -> Seq<u8> {
        frac_rep(self.value.as_int(), pow10_exp(self.divisor.as_int()))
    }

    /// Defined exactly for divisors that are powers of ten: any other
    /// divisor has no decimal scale to print to.
    open spec fn valid(&self) -> bool {
        is_pow10(self.divisor.as_int())
    }

    fn len(&self) -> (n: usize) {
        let ghost k = pow10_exp(self.divisor.as_int());
        proof {
            assert(self.divisor.as_int() == pow10(k));
            lemma_pow10_pos(k);
        }
        let v = self.value.widen();
        let d = self.divisor.widen();
        let m = abs_mag(v);
        let du = d as u64;
        let q = m / du;
        let r = m % du;
        let ghost e = self.encoding();
        let ghost sign_seq: Seq<u8> = if v < 0 {
            seq![MINUS]
        } else {
            Seq::<u8>::empty()
        };
        let nq = u64_dec_len(q);
        let sign: usize = if v < 0 {
            1
        } else {
            0
        };
        proof {
            lemma_dec_rep_len_u64(q);
        }
        if r == 0 {
            proof {
                assert(e == sign_seq + dec_rep(q as nat));
            }
            return sign + nq;
        }
        let k1 = u64_dec_len(du);
        let nr = u64_dec_len(r);
        let t = trim_trailing(r);
        let nt = u64_dec_len(t);
        proof {
            lemma_dec_rep_pow10_len(k);
            lemma_dec_rep_len_u64(du);
            assert(k1 == k + 1);
            if k == 0 {
                assert(pow10(0nat) == 1);
            }
            lemma_dec_rep_len_upper(r as nat, k);
            lemma_dec_rep_len_u64(t);
            assert(e == sign_seq + dec_rep(q as nat) + seq![DOT] + fill_rep(
                (k - dec_rep(r as nat).len()) as nat,
                DIGIT_ZERO,
            ) + dec_rep(trim_zeros(r as nat)));
        }
        sign + nq + 1 + (k1 - 1 - nr) + nt
    }

    #[verifier::rlimit(100)]
    fn write_at(&self, buff: &mut [u8], at: usize) -> (r: Result<usize, Error>) {
        let total_len = self.len();
        if buff.len() < at || buff.len() - at < total_len {
            return Err(Error::BufferLength);
        }
        let ghost k = pow10_exp(self.divisor.as_int());
        proof {
            assert(self.divisor.as_int() == pow10(k));
            lemma_pow10_pos(k);
        }
        let v = self.value.widen();
        let d = self.divisor.widen();
        let m = abs_mag(v);
        let du = d as u64;
        let q = m / du;
        let rem = m % du;
        let ghost e = self.encoding();
        let ghost sign_seq: Seq<u8> = if v < 0 {
            seq![MINUS]
        } else {
            Seq::<u8>::empty()
        };
        proof {
            lemma_dec_rep_len_u64(q);
            if rem == 0 {
                assert(e == sign_seq + dec_rep(q as nat));
            } else {
                if k == 0 {
                    assert(pow10(0nat) == 1);
                }
                lemma_dec_rep_len_upper(rem as nat, k);
                assert(e == sign_seq + dec_rep(q as nat) + seq![DOT] + fill_rep(
                    (k - dec_rep(rem as nat).len()) as nat,
                    DIGIT_ZERO,
                ) + dec_rep(trim_zeros(rem as nat)));
            }
        }
        let ghost s0 = buff@;
        let mut pos = at;
        if v < 0 {
            buff[pos] = MINUS;
            pos = pos + 1;
            proof {
                lemma_update_is_splice(s0, at as int, MINUS);
            }
        } else {
            proof {
                lemma_splice_empty(s0, at as int);
            }
        }
        let ghost s1 = buff@;
        // the sign so far: buff@ == s0 spliced with sign_seq at `at`
        let nq = u64_dec_len(q);
        proof {
            lemma_dec_rep_len_u64(q);
        }
        write_digits_at(q, buff, pos, nq);
        proof {
            lemma_splice(s1, buff@, pos as int, dec_rep(q as nat));
            lemma_splice_chain(s0, s1, buff@, at as int, sign_seq, dec_rep(q as nat));
        }
        pos = pos + nq;
        let ghost acc2 = sign_seq + dec_rep(q as nat);
        if rem == 0 {
            proof {
                assert(self.encoding() == acc2);
            }
            return Ok(total_len);
        }
        let ghost s2 = buff@;
        buff[pos] = DOT;
        proof {
            lemma_update_is_splice(s2, pos as int, DOT);
            lemma_splice_chain(s0, s2, buff@, at as int, acc2, seq![DOT]);
        }
        pos = pos + 1;
        let ghost acc3 = acc2 + seq![DOT];
        let ghost s3 = buff@;
        let k1 = u64_dec_len(du);
        let nr = u64_dec_len(rem);
        proof {
            lemma_dec_rep_pow10_len(k);
            assert(k1 == k + 1);
        }
        let p = k1 - 1 - nr;
        let mut i: usize = 0;
        while i < p
            invariant
                i <= p,
                pos + p <= buff@.len(),
                buff@.len() == s3.len(),
                forall|j: int| pos <= j < pos + i ==> buff@[j] == DIGIT_ZERO,
                forall|j: int|
                    0 <= j < buff@.len() && !(pos <= j < pos + i) ==> buff@[j] == s3[j],
            decreases p - i,
        {
            buff[pos + i] = DIGIT_ZERO;
            i = i + 1;
        }
        proof {
            lemma_splice(s3, buff@, pos as int, fill_rep(p as nat, DIGIT_ZERO));
            lemma_splice_chain(s0, s3, buff@, at as int, acc3, fill_rep(p as nat, DIGIT_ZERO));
        }
        pos = pos + p;
        let ghost acc4 = acc3 + fill_rep(p as nat, DIGIT_ZERO);
        let ghost s4 = buff@;
        let t = trim_trailing(rem);
        let nt = u64_dec_len(t);
        proof {
            lemma_dec_rep_len_u64(t);
        }
        write_digits_at(t, buff, pos, nt);
        proof {
            lemma_splice(s4, buff@, pos as int, dec_rep(t as nat));
            lemma_splice_chain(s0, s4, buff@, at as int, acc4, dec_rep(t as nat));
            assert(self.encoding() == acc4 + dec_rep(t as nat));
        }
        Ok(total_len)
    }
}

/// The first position holding the decimal point, or the whole length
/// when there is none.
pub open spec fn find_dot(s: Seq<u8>) -> int
    decreases s.len(),
{
    if s.len() == 0 {
        0
    } else if s[0] == DOT {
        0
    } else {
        1 + find_dot(s.skip(1))
    }
}

proof fn lemma_find_dot_at(s: Seq<u8>, j: int)
    requires
        0 <= j <= s.len(),
        forall|i: int| 0 <= i < j ==> #[trigger] s[i] != DOT,
        j < s.len() ==> s[j] == DOT,
    ensures
        find_dot(s) == j,
    decreases s.len(),
{
    if j == 0 {
        if s.len() > 0 {
            assert(s[0] == DOT);
        }
    } else {
        let rest = s.skip(1);
        assert(s[0] != DOT);
        assert forall|i: int| 0 <= i < j - 1 implies #[trigger] rest[i] != DOT by {
            assert(rest[i] == s[i + 1]);
        }
        assert(j - 1 < rest.len() ==> rest[j - 1] == s[j]);
        lemma_find_dot_at(rest, j - 1);
    }
}

/// The value a fixed-point decimal string denotes at scale `k`: an
/// optional sign, the integer part before the dot, and the decimal
/// digits after it, implicitly extended with zeros to width `k`.
pub open spec fn frac_parse(s: Seq<u8>, k: nat) -> int {
    let body = if s.len() > 0 && s[0] == MINUS {
        s.skip(1)
    } else {
        s
    };
    let dot = find_dot(body);
    let ip = parse_digits(body.take(dot));
    let dp_digits = if dot == body.len() {
        Seq::<u8>::empty()
    } else {
        body.skip(dot + 1)
    };
    let mag = ip * pow10(k) + parse_digits(dp_digits) * pow10((k - dp_digits.len()) as nat);
    if s.len() > 0 && s[0] == MINUS {
        -(mag as int)
    } else {
        mag as int
    }
}

/// Round trip: for every value and power-of-ten divisor, parsing the
/// encoder's output back — integer part scaled by the divisor, plus the
/// decimal part zero-extended to the divisor's width, with the sign
/// applied — recovers the value exactly, the trimming of trailing zeros
/// notwithstanding.
pub proof fn lemma_fractional_round_trip(v: int, k: nat)
    ensures
        frac_parse(frac_rep(v, k), k) == v,
{
    lemma_pow10_pos(k);
    let d = pow10(k);
    let m = abs(v) as nat;
    let q = m / d;
    let r = m % d;
    let s = frac_rep(v, k);
    let dq = dec_rep(q);
    let nq = dq.len() as int;
    vstd::arithmetic::div_mod::lemma_fundamental_div_mod(m as int, d as int);
    lemma_dec_rep_digits(q);
    lemma_parse_dec_rep(q);
    let sign: Seq<u8> = if v < 0 {
        seq![MINUS]
    } else {
        Seq::empty()
    };
    if r == 0 {
        assert(s == sign + dq);
        let body = if v < 0 {
            s.skip(1)
        } else {
            s
        };
        assert(body =~= dq);
        assert(v < 0 ==> s[0] == MINUS);
        assert(v >= 0 ==> (s.len() > 0 && s[0] != MINUS));
        lemma_find_dot_at(body, nq);
        assert(body.take(nq) =~= dq);
        assert(parse_digits(Seq::<u8>::empty()) == 0);
        crate::decimal::lemma_dec_rep_len_ge_1(q);
        assert(body.len() == nq);
        assert(parse_digits(body.take(find_dot(body))) == q);
        assert(0 * pow10((k - Seq::<u8>::empty().len()) as nat) == 0);
        assert(frac_parse(s, k) == if v < 0 {
            -((q * pow10(k)) as int)
        } else {
            (q * pow10(k)) as int
        });
        assert(q * d == d * q) by (nonlinear_arith);
    } else {
        let pad = (k - dec_rep(r).len()) as nat;
        let zp = fill_rep(pad, DIGIT_ZERO);
        let t = trim_zeros(r);
        let dt = dec_rep(t);
        lemma_trim_zeros(r);
        if k == 0 {
            assert(pow10(0nat) == 1);
        }
        crate::decimal::lemma_dec_rep_len_upper(r, k);
        assert(s == sign + dq + seq![DOT] + zp + dt);
        let body = if v < 0 {
            s.skip(1)
        } else {
            s
        };
        assert(v < 0 ==> s[0] == MINUS);
        assert(v >= 0 ==> (s.len() > 0 && s[0] != MINUS));
        assert(body =~= dq + seq![DOT] + zp + dt);
        lemma_dec_rep_digits(t);
        assert forall|i: int| 0 <= i < nq implies #[trigger] body[i] != DOT by {
            assert(body[i] == dq[i]);
        }
        assert(body[nq] == DOT);
        lemma_find_dot_at(body, nq);
        assert(body.take(nq) =~= dq);
        let dp_digits = body.skip(nq + 1);
        assert(dp_digits =~= zp + dt);
        assert(forall|i: int| 0 <= i < zp.len() ==> #[trigger] zp[i] == DIGIT_ZERO);
        lemma_parse_zeros(zp);
        lemma_parse_concat(zp, dt);
        lemma_parse_dec_rep(t);
        assert(parse_digits(dp_digits) == t);
        assert(dp_digits.len() == pad + dt.len());
        assert((k - dp_digits.len()) as nat == crate::decimal::trailing_zeros(r));
        assert(frac_parse(s, k) == if v < 0 {
            -((q * d + t * pow10(crate::decimal::trailing_zeros(r))) as int)
        } else {
            (q * d + t * pow10(crate::decimal::trailing_zeros(r))) as int
        });
        assert(q * d == d * q) by (nonlinear_arith);
    }
}

/// A value of zero encodes as `"0"`, whatever the (power-of-ten)
/// divisor.
pub proof fn lemma_frac_zero(k: nat)
    ensures
        frac_rep(0, k) == seq![DIGIT_ZERO],
{
    lemma_pow10_pos(k);
    let d = pow10(k);
    vstd::arithmetic::div_mod::lemma_basic_div_specific_divisor(d as int);
    vstd::arithmetic::div_mod::lemma_small_mod(0, d);
    assert(dec_rep(0) == seq![DIGIT_ZERO]);
    assert(Seq::<u8>::empty() + dec_rep(0) =~= dec_rep(0));
}

/// A negative value with magnitude smaller than the divisor encodes
/// with the leading sign and a zero integer part: it begins `"-0."`.
pub proof fn lemma_frac_small_negative(v: int, k: nat)
    requires
        -(pow10(k) as int) < v < 0,
    ensures
        frac_rep(v, k).len() >= 4,
        frac_rep(v, k)[0] == MINUS,
        frac_rep(v, k)[1] == DIGIT_ZERO,
        frac_rep(v, k)[2] == DOT,
{
    lemma_pow10_pos(k);
    let d = pow10(k);
    let m = abs(v) as nat;
    vstd::arithmetic::div_mod::lemma_basic_div_specific_divisor(d as int);
    vstd::arithmetic::div_mod::lemma_small_mod(m, d);
    assert(m / d == 0);
    assert(m % d == m);
    assert(dec_rep(0) == seq![DIGIT_ZERO]);
    crate::decimal::lemma_trim_zeros(m);
    crate::decimal::lemma_dec_rep_len_ge_1(trim_zeros(m));
}

} // verus!
