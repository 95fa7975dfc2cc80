//! Trusted interface to the arbitrary-precision integers of `num-bigint`.
//!
//! The series recurrence needs exact signed integer arithmetic of unbounded
//! size; it is delegated to `num_bigint::BigInt`.  Everything the verified
//! code relies on about those values is stated here, over the mathematical
//! value `int_value` that a `BigInt` holds.

use vstd::prelude::*;
use crate::decimal::min_dec_seq;

verus! {

#[verifier::external_type_specification]
#[verifier::external_body]
pub struct ExBigInt(num_bigint::BigInt);

/// The mathematical value held by an arbitrary-precision integer.
pub uninterp spec fn int_value(x: num_bigint::BigInt) -> int;

/// Relies on `BigInt`'s `From<u64>`: the new integer holds exactly the given
/// value.
#[verifier::external_body]
pub(crate) fn int_from_u64(v: u64) -> (r: num_bigint::BigInt)
    ensures
        int_value(r) == v as int,
{
    num_bigint::BigInt::from(v)
}

/// Relies on `BigInt`'s `Add`: the result holds the exact sum.
#[verifier::external_body]
pub(crate) fn int_add(a: &num_bigint::BigInt, b: &num_bigint::BigInt) -> (r: num_bigint::BigInt)
    ensures
        int_value(r) == int_value(*a) + int_value(*b),
{
    a + b
}

/// Relies on `BigInt`'s `Mul`: the result holds the exact product.
#[verifier::external_body]
pub(crate) fn int_mul(a: &num_bigint::BigInt, b: &num_bigint::BigInt) -> (r: num_bigint::BigInt)
    ensures
        int_value(r) == int_value(*a) * int_value(*b),
{
    a * b
}

/// Relies on `BigInt`'s `Neg`: the result holds the negated value.
#[verifier::external_body]
pub(crate) fn int_neg(a: num_bigint::BigInt) -> (r: num_bigint::BigInt)
    ensures
        int_value(r) == -int_value(a),
{
    -a
}

/// Relies on `BigInt`'s `Div`, which truncates toward zero; for a non-negative
/// dividend and a positive divisor that is the Euclidean quotient.  The
/// divisor must not be zero, since division by zero panics.
#[verifier::external_body]
pub(crate) fn int_div(a: &num_bigint::BigInt, b: &num_bigint::BigInt) -> (r: num_bigint::BigInt)
    requires
        int_value(*a) >= 0,
        int_value(*b) > 0,
    ensures
        int_value(r) == int_value(*a) / int_value(*b),
{
    a / b
}

/// Relies on `BigInt`'s `Rem`, which takes the sign of the dividend; for a
/// non-negative dividend and a positive divisor that is the Euclidean
/// remainder.  The divisor must not be zero, since the operation panics.
#[verifier::external_body]
pub(crate) fn int_rem(a: &num_bigint::BigInt, b: &num_bigint::BigInt) -> (r: num_bigint::BigInt)
    requires
        int_value(*a) >= 0,
        int_value(*b) > 0,
    ensures
        int_value(r) == int_value(*a) % int_value(*b),
{
    a % b
}

/// Relies on `BigInt::sqrt`: the truncated principal square root, that is the
/// largest `r` with `r * r <= a`.  A negative argument panics, so it is
/// excluded.
#[verifier::external_body]
pub(crate) fn int_sqrt(a: &num_bigint::BigInt) -> (r: num_bigint::BigInt)
    requires
        int_value(*a) >= 0,
    ensures
        0 <= int_value(r),
        int_value(r) * int_value(r) <= int_value(*a),
        int_value(*a) < (int_value(r) + 1) * (int_value(r) + 1),
{
    a.sqrt()
}

/// Relies on `BigInt`'s `Display`: a non-negative value prints as its plain
/// base-10 digits, most significant first, with no sign, no leading zeros,
/// and a single `0` for zero -- exactly `min_dec_seq` of the value.
#[verifier::external_body]
pub(crate) fn int_to_decimal(a: &num_bigint::BigInt) -> (s: String)
    requires
        int_value(*a) >= 0,
    ensures
        s@ == min_dec_seq(int_value(*a)),
{
    a.to_string()
}

} // verus!
