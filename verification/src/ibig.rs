//! Trusted surface over the external arbitrary-precision signed integer type.
use vstd::prelude::*;

use crate::ubig::uval;

verus! {

#[verifier::external_type_specification]
#[verifier::external_body]
pub struct ExBigInt(num_bigint::BigInt);

/// Mathematical value of an external big signed integer.
pub uninterp spec fn ival(b: num_bigint::BigInt) -> int;

/// Sign of a signed big integer: negative, zero, or positive.
#[derive(Clone, Copy, Debug)]
pub enum Sign {
    Minus,
    NoSign,
    Plus,
}

/// The signed value described by a sign tag and a magnitude.
pub open spec fn signed_of(sign: Sign, m: nat) -> int {
    match sign {
        Sign::Minus => -(m as int),
        Sign::NoSign => 0,
        Sign::Plus => m as int,
    }
}

/// Absolute value of a signed value, as a magnitude.
pub open spec fn iabs(v: int) -> nat {
    if v >= 0 {
        v as nat
    } else {
        (-v) as nat
    }
}

/// Relies on num_bigint::BigInt::from_biguint: attaches a sign to a
/// magnitude, normalizing to zero when either part says zero.
#[verifier::external_body]
pub(crate) fn ibig_from_sign_magnitude(sign: Sign, mag: num_bigint::BigUint) -> (r:
    num_bigint::BigInt)
    ensures
        ival(r) == signed_of(sign, uval(mag)),
{
    let s = match sign {
        Sign::Minus => num_bigint::Sign::Minus,
        Sign::NoSign => num_bigint::Sign::NoSign,
        Sign::Plus => num_bigint::Sign::Plus,
    };
    num_bigint::BigInt::from_biguint(s, mag)
}

/// Relies on the From<BigUint> implementation of num_bigint::BigInt.
#[verifier::external_body]
pub(crate) fn ibig_from_unsigned(mag: num_bigint::BigUint) -> (r: num_bigint::BigInt)
    ensures
        ival(r) == uval(mag),
{
    num_bigint::BigInt::from(mag)
}

/// Relies on num_bigint::BigInt::magnitude, cloned into an owned value.
#[verifier::external_body]
pub(crate) fn ibig_magnitude(a: &num_bigint::BigInt) -> (r: num_bigint::BigUint)
    ensures
        uval(r) == iabs(ival(*a)),
{
    a.magnitude().clone()
}

/// Relies on the addition operator of num_bigint::BigInt.
#[verifier::external_body]
pub(crate) fn ibig_add(a: &num_bigint::BigInt, b: &num_bigint::BigInt) -> (r: num_bigint::BigInt)
    ensures
        ival(r) == ival(*a) + ival(*b),
{
    a + b
}

/// Relies on the subtraction operator of num_bigint::BigInt.
#[verifier::external_body]
pub(crate) fn ibig_sub(a: &num_bigint::BigInt, b: &num_bigint::BigInt) -> (r: num_bigint::BigInt)
    ensures
        ival(r) == ival(*a) - ival(*b),
{
    a - b
}

/// Relies on the order of num_bigint::BigInt, which is the numerical order.
#[verifier::external_body]
pub(crate) fn ibig_lt(a: &num_bigint::BigInt, b: &num_bigint::BigInt) -> (r: bool)
    ensures
        r == (ival(*a) < ival(*b)),
{
    a < b
}

/// Relies on num_bigint::BigInt::sign: the sign is NoSign exactly on zero.
#[verifier::external_body]
pub(crate) fn ibig_is_zero(a: &num_bigint::BigInt) -> (r: bool)
    ensures
        r == (ival(*a) == 0),
{
    a.sign() == num_bigint::Sign::NoSign
}

/// Relies on the Clone implementation of num_bigint::BigInt: a clone has
/// the same value.
pub assume_specification[ <num_bigint::BigInt as core::clone::Clone>::clone ](
    a: &num_bigint::BigInt,
) -> (r: num_bigint::BigInt)
    ensures
        ival(r) == ival(*a),
;

} // verus!
