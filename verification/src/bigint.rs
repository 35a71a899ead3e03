//! Trusted view of `num_bigint::BigInt`, the arbitrary-precision integer
//! that holds the constant term of a symbolic value during constant folding.
use vstd::prelude::*;

verus! {

#[verifier::external_type_specification]
#[verifier::external_body]
pub struct ExBigInt(num_bigint::BigInt);

/// The mathematical integer that a `BigInt` represents.
pub uninterp spec fn big_view(b: num_bigint::BigInt) -> int;

/// Relies on `impl From<i128> for BigInt`: the conversion keeps the value.
#[verifier::external_body]
pub fn big_from_i128(n: i128) -> (r: num_bigint::BigInt)
    ensures
        big_view(r) == n as int,
{
    num_bigint::BigInt::from(n)
}

/// Relies on `impl AddAssign<i128> for BigInt`: exact integer addition.
#[verifier::external_body]
pub fn big_add_i128(a: &mut num_bigint::BigInt, n: i128)
    ensures
        big_view(*final(a)) == big_view(*old(a)) + n as int,
{
    *a += n;
}

/// Relies on `impl AddAssign<&BigInt> for BigInt`: exact integer addition.
#[verifier::external_body]
pub fn big_add(a: &mut num_bigint::BigInt, b: &num_bigint::BigInt)
    ensures
        big_view(*final(a)) == big_view(*old(a)) + big_view(*b),
{
    *a += b;
}

/// Relies on `impl MulAssign<i32> for BigInt`: exact integer multiplication.
#[verifier::external_body]
pub fn big_negate(a: &mut num_bigint::BigInt)
    ensures
        big_view(*final(a)) == -big_view(*old(a)),
{
    *a *= -1i32;
}

/// Relies on `BigInt::sign`: it returns `Sign::Minus` exactly for values
/// below zero.
#[verifier::external_body]
pub fn big_is_negative(b: &num_bigint::BigInt) -> (r: bool)
    ensures
        r == (big_view(*b) < 0),
{
    matches!(b.sign(), num_bigint::Sign::Minus)
}

/// Relies on `BigInt::iter_u64_digits`: it yields the base-2^64 digits of
/// the magnitude, least significant first, and yields nothing for zero.
#[verifier::external_body]
pub fn big_low_u64(b: &num_bigint::BigInt) -> (r: u64)
    ensures
        r as int == vstd::math::abs(big_view(*b)) % 0x1_0000_0000_0000_0000,
{
    b.iter_u64_digits().next().unwrap_or(0)
}

} // verus!
