//! Trusted surface over the external arbitrary-precision unsigned integer type.
//!
//! The general-purpose arithmetic type is an external collaborator: this
//! module states, as contracts over the mathematical value `uval`, exactly
//! what the library assumes of it.
use vstd::prelude::*;

use crate::digits::{canonical, nat_of};

verus! {

#[verifier::external_type_specification]
#[verifier::external_body]
pub struct ExBigUint(num_bigint::BigUint);

/// Mathematical value of an external big unsigned integer.
pub uninterp spec fn uval(b: num_bigint::BigUint) -> nat;

/// Relies on num_bigint::BigUint::new: builds the value of a little-endian
/// base-2^32 digit vector, trimming most-significant zeros.
#[verifier::external_body]
pub(crate) fn ubig_from_digits(d: Vec<u32>) -> (r: num_bigint::BigUint)
    ensures
        uval(r) == nat_of(d@),
{
    num_bigint::BigUint::new(d)
}

/// Relies on num_bigint::BigUint::to_u32_digits: returns the little-endian
/// base-2^32 digits, least significant first, with no trailing zero digit.
#[verifier::external_body]
pub(crate) fn ubig_to_digits(b: &num_bigint::BigUint) -> (r: Vec<u32>)
    ensures
        nat_of(r@) == uval(*b),
        canonical(r@),
{
    b.to_u32_digits()
}

/// Relies on the addition operator of num_bigint::BigUint.
#[verifier::external_body]
pub(crate) fn ubig_add(a: &num_bigint::BigUint, b: &num_bigint::BigUint) -> (r:
    num_bigint::BigUint)
    ensures
        uval(r) == uval(*a) + uval(*b),
{
    a + b
}

/// Relies on the subtraction operator of num_bigint::BigUint, which requires
/// the minuend to be at least the subtrahend.
#[verifier::external_body]
pub(crate) fn ubig_sub(a: &num_bigint::BigUint, b: &num_bigint::BigUint) -> (r:
    num_bigint::BigUint)
    requires
        uval(*b) <= uval(*a),
    ensures
        uval(r) == uval(*a) - uval(*b),
{
    a - b
}

/// Relies on the multiplication operator of num_bigint::BigUint.
#[verifier::external_body]
pub(crate) fn ubig_mul(a: &num_bigint::BigUint, b: &num_bigint::BigUint) -> (r:
    num_bigint::BigUint)
    ensures
        uval(r) == uval(*a) * uval(*b),
{
    a * b
}

/// Relies on the remainder operator of num_bigint::BigUint, which requires a
/// nonzero divisor.
#[verifier::external_body]
pub(crate) fn ubig_rem(a: &num_bigint::BigUint, m: &num_bigint::BigUint) -> (r:
    num_bigint::BigUint)
    requires
        uval(*m) > 0,
    ensures
        uval(r) == uval(*a) % uval(*m),
{
    a % m
}

/// Relies on the right-shift operator of num_bigint::BigUint: shifting by one
/// halves the value, rounding down.
#[verifier::external_body]
pub(crate) fn ubig_shr1(a: &num_bigint::BigUint) -> (r: num_bigint::BigUint)
    ensures
        uval(r) == uval(*a) / 2,
{
    a >> 1usize
}

/// Relies on the order of num_bigint::BigUint, which is the numerical order.
#[verifier::external_body]
pub(crate) fn ubig_lt(a: &num_bigint::BigUint, b: &num_bigint::BigUint) -> (r: bool)
    ensures
        r == (uval(*a) < uval(*b)),
{
    a < b
}

/// Relies on equality with num_bigint::BigUint::ZERO.
#[verifier::external_body]
pub(crate) fn ubig_is_zero(a: &num_bigint::BigUint) -> (r: bool)
    ensures
        r == (uval(*a) == 0),
{
    *a == num_bigint::BigUint::ZERO
}

/// Relies on num_bigint::BigUint::bit: bit zero is the parity.
#[verifier::external_body]
pub(crate) fn ubig_is_odd(a: &num_bigint::BigUint) -> (r: bool)
    ensures
        r == (uval(*a) % 2 == 1),
{
    a.bit(0)
}

/// Relies on num_bigint::BigUint::bits: the fewest bits needed to represent
/// the value, which fits a usize for any value held in memory.
#[verifier::external_body]
pub(crate) fn ubig_bits(a: &num_bigint::BigUint) -> (r: usize)
    ensures
        r as nat == crate::digits::bitlen(uval(*a)),
{
    a.bits() as usize
}

/// Relies on the Clone implementation of num_bigint::BigUint: a clone has
/// the same value.
pub assume_specification[ <num_bigint::BigUint as core::clone::Clone>::clone ](
    a: &num_bigint::BigUint,
) -> (r: num_bigint::BigUint)
    ensures
        uval(r) == uval(*a),
;

/// Relies on the From<u32> implementation of num_bigint::BigUint.
#[verifier::external_body]
pub(crate) fn ubig_from_u32(x: u32) -> (r: num_bigint::BigUint)
    ensures
        uval(r) == x as nat,
{
    num_bigint::BigUint::from(x)
}

} // verus!
