//! Digits of pi by the Chudnovsky series, evaluated with binary splitting.

use vstd::prelude::*;
use vstd::string::StrSliceExecFns;
use vstd::string::StringExecFns;
use crate::arith::{
    int_add, int_div, int_from_u64, int_mul, int_neg, int_rem, int_sqrt, int_to_decimal, int_value,
};
use crate::decimal::{
    dec_pad, floor_sqrt, lemma_dec_pad_len, lemma_floor_sqrt_unique, lemma_min_dec_of_padded,
    lemma_pow10_pos, min_dec_seq, pow10,
};
use crate::series::{lemma_split_q_pos, lemma_split_r_pos, split_p, split_q, split_r};

verus! {

/// The single error kind: a digit count the computation rejects up front.
#[derive(Clone, Copy, Debug, PartialEq, Eq, Structural)]
pub enum PiError {
    InvalidArgument,
}

/// Extra decimal digits carried through the square root and the final
/// quotient to absorb the truncation they introduce.
pub const GUARD_DIGITS: u32 = 10;

/// How many series terms a digit count needs: the ceiling of
/// `digits / 14.181647`, a lower bound on the decimal digits that each
/// further term contributes.
pub open spec fn term_count(digits: int) -> int {
    (digits * 1000000 + 14181646) / 14181647
}

/// The digit string for a digit count of two or more, given the exact series
/// triple components `q` and `r` (with `r` positive): the value
/// `426880 * sqrt(10005) * q / r` evaluated in fixed point with
/// `GUARD_DIGITS` guard digits, rendered as the integer part, a point, and
/// `digits - 1` fractional digits.
pub open spec fn pi_digit_seq(digits: int, q: int, r: int) -> Seq<char> {
    let width = (digits - 1) as nat;
    let scale = (digits - 1 + GUARD_DIGITS) as nat;
    let x = floor_sqrt(10005 * (pow10(scale) * pow10(scale)));
    let v = 426880 * x * q / r / pow10(GUARD_DIGITS as nat);
    min_dec_seq(v / pow10(width)) + seq!['.'] + dec_pad(v % pow10(width), width)
}

/// `10^e` as an arbitrary-precision integer.
pub fn big_pow10(e: u32) -> (r: num_bigint::BigInt)
    ensures
        int_value(r) == pow10(e as nat),
{
    let ten = int_from_u64(10);
    let mut acc = int_from_u64(1);
    let mut i: u32 = 0;
    while i < e
        invariant
            i <= e,
            int_value(ten) == 10,
            int_value(acc) == pow10(i as nat),
        decreases e - i,
    {
        acc = int_mul(&acc, &ten);
        i = i + 1;
    }
    acc
}

/// The exact integer triple `(P, Q, R)` of the series over the half-open
/// term range `[a, b)`, computed by splitting the range at its midpoint.
pub fn binary_split(a: u32, b: u32) -> (t: (num_bigint::BigInt, num_bigint::BigInt, num_bigint::BigInt))
    requires
        a < b,
    ensures
        int_value(t.0) == split_p(a as int, b as int),
        int_value(t.1) == split_q(a as int, b as int),
        int_value(t.2) == split_r(a as int, b as int),
    decreases b - a,
{
    if b - a == 1 {
        if a == 0 {
            let pab = int_from_u64(1);
            let qab = int_from_u64(1);
            let rab = int_from_u64(13591409);
            return (pab, qab, rab);
        }
        let av: u64 = a as u64;
        let f1: u64 = 6 * av - 5;
        let f2: u64 = 2 * av - 1;
        let f3: u64 = 6 * av - 1;
        let pab = int_mul(&int_mul(&int_from_u64(f1), &int_from_u64(f2)), &int_from_u64(f3));
        let ab = int_from_u64(av);
        let qab = int_mul(&int_mul(&int_mul(&ab, &ab), &ab), &int_from_u64(10939058860032000));
        let lin: u64 = 13591409 + 545140134 * av;
        let rab = int_mul(&pab, &int_from_u64(lin));
        if a % 2 == 1 {
            let neg = int_neg(rab);
            return (pab, qab, neg);
        }
        return (pab, qab, rab);
    }
    let m: u32 = a + (b - a) / 2;
    proof {
        assert(m as int == (a as int + b as int) / 2);
        assert(a < m < b);
    }
    let left = binary_split(a, m);
    let right = binary_split(m, b);
    let p1n = int_mul(&left.0, &right.0);
    let q1n = int_mul(&left.1, &right.1);
    let r1n = int_add(&int_mul(&left.2, &right.1), &int_mul(&left.0, &right.2));
    (p1n, q1n, r1n)
}

/// Decimal digits of pi.
///
/// A digit count of zero, or one whose working precision `digits * 4` does
/// not fit the `u32` it is held in, is rejected up front; one digit is the
/// literal `3.1`.  Every other count succeeds -- the denominator of the
/// final quotient is proved positive -- and the result carries exactly
/// `digits` significant digits, defined exactly by `pi_digit_seq` over the
/// series triple.
pub fn chudnovsky(digits: u32) -> (res: Result<String, PiError>)
    ensures
        digits == 0 ==> (res matches Err(e) && e == PiError::InvalidArgument),
        digits == 1 ==> (res matches Ok(s) && s@ == "3.1"@),
        digits * 4 > u32::MAX ==> (res matches Err(e) && e == PiError::InvalidArgument),
        2 <= digits && digits * 4 <= u32::MAX ==> (res matches Ok(s) && s@ == pi_digit_seq(
            digits as int,
            split_q(0, term_count(digits as int)),
            split_r(0, term_count(digits as int)),
        )),
{
    if digits == 0 {
        return Err(PiError::InvalidArgument);
    }
    if digits == 1 {
        return Ok(String::from_str("3.1"));
    }
    if digits > u32::MAX / 4 {
        return Err(PiError::InvalidArgument);
    }
    let n64: u64 = ((digits as u64) * 1000000 + 14181646) / 14181647;
    proof {
        assert(1 <= n64 <= digits);
        assert(n64 as int == term_count(digits as int));
    }
    let n: u32 = n64 as u32;
    let triple = binary_split(0, n);
    let q1n = triple.1;
    let r1n = triple.2;
    let ghost gn = n as int;
    let ghost gq = split_q(0, gn);
    let ghost gr = split_r(0, gn);
    proof {
        lemma_split_r_pos(gn);
    }
    let width: u32 = digits - 1;
    let scale: u32 = width + GUARD_DIGITS;
    let pk = big_pow10(scale);
    let rad = int_mul(&int_from_u64(10005), &int_mul(&pk, &pk));
    proof {
        lemma_pow10_pos(scale as nat);
        assert(pow10(scale as nat) * pow10(scale as nat) >= 1) by (nonlinear_arith)
            requires
                pow10(scale as nat) >= 1,
        ;
        assert(int_value(rad) >= 0) by (nonlinear_arith)
            requires
                int_value(rad) == 10005 * (pow10(scale as nat) * pow10(scale as nat)),
                pow10(scale as nat) * pow10(scale as nat) >= 1,
        ;
    }
    let x = int_sqrt(&rad);
    proof {
        lemma_floor_sqrt_unique(int_value(rad), int_value(x));
        lemma_split_q_pos(0, gn);
    }
    let num = int_mul(&int_mul(&int_from_u64(426880), &x), &q1n);
    proof {
        assert(426880 * int_value(x) >= 0) by (nonlinear_arith)
            requires
                int_value(x) >= 0,
        ;
        assert((426880 * int_value(x)) * int_value(q1n) >= 0) by (nonlinear_arith)
            requires
                426880 * int_value(x) >= 0,
                int_value(q1n) > 0,
        ;
    }
    let v1 = int_div(&num, &r1n);
    proof {
        assert(int_value(num) / int_value(r1n) >= 0) by (nonlinear_arith)
            requires
                int_value(num) >= 0,
                int_value(r1n) > 0,
        ;
        lemma_pow10_pos(GUARD_DIGITS as nat);
    }
    let pg = big_pow10(GUARD_DIGITS);
    let v2 = int_div(&v1, &pg);
    proof {
        assert(int_value(v1) / int_value(pg) >= 0) by (nonlinear_arith)
            requires
                int_value(v1) >= 0,
                int_value(pg) > 0,
        ;
        lemma_pow10_pos(width as nat);
    }
    let pw = big_pow10(width);
    let ip = int_div(&v2, &pw);
    let f = int_rem(&v2, &pw);
    proof {
        assert(0 <= int_value(v2) % int_value(pw) < int_value(pw)) by (nonlinear_arith)
            requires
                int_value(v2) >= 0,
                int_value(pw) > 0,
        ;
        assert(int_value(v2) / int_value(pw) >= 0) by (nonlinear_arith)
            requires
                int_value(v2) >= 0,
                int_value(pw) > 0,
        ;
        lemma_min_dec_of_padded(int_value(f), width as nat);
        lemma_dec_pad_len(int_value(f), width as nat);
    }
    let tb = int_add(&f, &pw);
    let ts = int_to_decimal(&tb);
    let tlen: usize = ts.as_str().unicode_len();
    proof {
        assert(ts@.len() == 1 + width as nat);
    }
    let frac = ts.as_str().substring_char(1, tlen);
    proof {
        assert(frac@ =~= dec_pad(int_value(f), width as nat));
    }
    let ip_s = int_to_decimal(&ip);
    let out = ip_s.concat(".").concat(frac);
    proof {
        reveal_strlit(".");
        assert(("."@) =~= seq!['.']);
        assert(out@ =~= pi_digit_seq(digits as int, gq, gr));
    }
    Ok(out)
}

} // verus!
