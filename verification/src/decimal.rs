//! Spec-level decimal rendering, powers of ten, and the integer square root.

use vstd::prelude::*;

verus! {

/// `10^e`.
pub open spec fn pow10(e: nat) -> int
    decreases e,
{
    if e == 0 {
        1
    } else {
        10 * pow10((e - 1) as nat)
    }
}

pub proof fn lemma_pow10_pos(e: nat)
    ensures
        pow10(e) >= 1,
    decreases e,
{
    if e != 0 {
        lemma_pow10_pos((e - 1) as nat);
    }
}

/// The character for one decimal digit.
pub open spec fn digit_char(d: int) -> char {
    if d == 0 {
        '0'
    } else if d == 1 {
        '1'
    } else if d == 2 {
        '2'
    } else if d == 3 {
        '3'
    } else if d == 4 {
        '4'
    } else if d == 5 {
        '5'
    } else if d == 6 {
        '6'
    } else if d == 7 {
        '7'
    } else if d == 8 {
        '8'
    } else {
        '9'
    }
}

/// The base-10 digits of a non-negative integer, most significant first,
/// without leading zeros; zero itself prints as `0`.
pub open spec fn min_dec_seq(v: int) -> Seq<char>
    decreases v when 0 <= v
{
    if v < 10 {
        seq![digit_char(v)]
    } else {
        min_dec_seq(v / 10) + seq![digit_char(v % 10)]
    }
}

/// The last `width` base-10 digits of a non-negative integer, most
/// significant first, padded with leading zeros up to exactly `width`.
pub open spec fn dec_pad(v: int, width: nat) -> Seq<char>
    decreases width,
{
    if width == 0 {
        Seq::empty()
    } else {
        dec_pad(v / 10, (width - 1) as nat) + seq![digit_char(v % 10)]
    }
}

pub proof fn lemma_dec_pad_len(v: int, width: nat)
    ensures
        dec_pad(v, width).len() == width,
    decreases width,
{
    if width != 0 {
        lemma_dec_pad_len(v / 10, (width - 1) as nat);
    }
}

/// Prepending `10^width` to a value below `10^width` yields a number whose
/// plain rendering is a leading `1` followed by the zero-padded digits of the
/// value: the trick used to render a fraction with its leading zeros.
pub proof fn lemma_min_dec_of_padded(f: int, width: nat)
    requires
        0 <= f < pow10(width),
    ensures
        min_dec_seq(pow10(width) + f) == seq!['1'] + dec_pad(f, width),
    decreases width,
{
    let t = pow10(width) + f;
    if width == 0 {
        assert(t == 1);
        assert(min_dec_seq(1) == seq![digit_char(1)]);
        assert(seq!['1'] + dec_pad(0, 0) =~= seq!['1']);
    } else {
        let w1 = (width - 1) as nat;
        lemma_pow10_pos(w1);
        assert(pow10(width) == 10 * pow10(w1));
        assert(t == 10 * (pow10(w1) + f / 10) + f % 10);
        assert(t / 10 == pow10(w1) + f / 10);
        assert(t % 10 == f % 10);
        assert(f / 10 < pow10(w1));
        lemma_min_dec_of_padded(f / 10, w1);
        assert(t >= 10);
        assert(min_dec_seq(t) == min_dec_seq(t / 10) + seq![digit_char(t % 10)]);
        assert((seq!['1'] + dec_pad(f / 10, w1)) + seq![digit_char(f % 10)] =~= seq!['1'] + dec_pad(
            f,
            width,
        ));
    }
}

/// `r` is the integer square root of `v`.
pub open spec fn is_floor_sqrt(v: int, r: int) -> bool {
    0 <= r && r * r <= v && v < (r + 1) * (r + 1)
}

/// The integer square root of a non-negative integer.
pub closed spec fn floor_sqrt(v: int) -> int {
    choose|r: int| is_floor_sqrt(v, r)
}

proof fn lemma_floor_sqrt_witness(v: int) -> (r: int)
    requires
        0 <= v,
    ensures
        is_floor_sqrt(v, r),
    decreases v,
{
    if v == 0 {
        assert(is_floor_sqrt(0, 0)) by (nonlinear_arith);
        0
    } else {
        let p = lemma_floor_sqrt_witness(v - 1);
        if v < (p + 1) * (p + 1) {
            assert(is_floor_sqrt(v, p));
            p
        } else {
            assert((p + 1) * (p + 1) <= v && v < (p + 2) * (p + 2)) by (nonlinear_arith)
                requires
                    0 <= p,
                    v - 1 < (p + 1) * (p + 1),
                    (p + 1) * (p + 1) <= v,
            ;
            assert(is_floor_sqrt(v, p + 1));
            p + 1
        }
    }
}

/// The integer square root exists, so `floor_sqrt` denotes it.
pub proof fn lemma_floor_sqrt(v: int)
    requires
        0 <= v,
    ensures
        is_floor_sqrt(v, floor_sqrt(v)),
{
    let w = lemma_floor_sqrt_witness(v);
    assert(is_floor_sqrt(v, w));
}

/// The integer square root is unique.
pub proof fn lemma_floor_sqrt_unique(v: int, r: int)
    requires
        is_floor_sqrt(v, r),
    ensures
        r == floor_sqrt(v),
{
    assert(v >= 0) by (nonlinear_arith)
        requires
            0 <= r && r * r <= v,
    ;
    lemma_floor_sqrt(v);
    let s = floor_sqrt(v);
    if r < s {
        assert(false) by (nonlinear_arith)
            requires
                0 <= r,
                r < s,
                s * s <= v,
                v < (r + 1) * (r + 1),
        ;
    }
    if s < r {
        assert(false) by (nonlinear_arith)
            requires
                0 <= s,
                s < r,
                r * r <= v,
                v < (s + 1) * (s + 1),
        ;
    }
}

} // verus!
