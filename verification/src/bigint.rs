//! Arbitrary-precision integers, taken from the `num` crate.
//!
//! The library reasons about a `BigInt` through the integer it holds
//! (`value`); every operation that the logic performs on one is a small
//! trusted call whose contract says what `num` documents for it.
use vstd::prelude::*;
use num::{BigInt, BigUint, Integer, ToPrimitive, Zero};

verus! {

#[verifier::external_type_specification]
#[verifier::external_body]
pub struct ExBigInt(BigInt);

#[verifier::external_type_specification]
#[verifier::external_body]
pub struct ExBigUint(BigUint);

/// The integer that a `BigInt` holds.
pub uninterp spec fn value(x: BigInt) -> int;

/// The natural number that a `BigUint` holds.
pub uninterp spec fn uvalue(x: BigUint) -> nat;

/// Absolute value.
pub open spec fn abs(a: int) -> int {
    if a < 0 { -a } else { a }
}

/// Quotient of the division truncated toward zero (what `BigInt`'s `/`
/// and `Integer::div_rem` compute).
pub open spec fn tdiv(a: int, b: int) -> int {
    let q = abs(a) / abs(b);
    if (a < 0) != (b < 0) { -q } else { q }
}

/// Remainder of the division truncated toward zero: it has the sign of `a`.
pub open spec fn trem(a: int, b: int) -> int {
    let r = abs(a) % abs(b);
    if a < 0 { -r } else { r }
}

/// The character of a decimal digit.
pub open spec fn digit_char(d: int) -> char {
    (d + 48) as char
}

/// The decimal digits of `n`, most significant first, without leading zeros
/// (`0` is written as one digit).
pub open spec fn nat_decimal(n: nat) -> Seq<char>
    decreases n,
{
    if n < 10 {
        seq![digit_char(n as int)]
    } else {
        nat_decimal(n / 10).push(digit_char((n % 10) as int))
    }
}

/// The decimal notation of an integer, with a leading `-` when negative.
pub open spec fn int_decimal(x: int) -> Seq<char> {
    if x < 0 {
        seq!['-'] + nat_decimal((-x) as nat)
    } else {
        nat_decimal(x as nat)
    }
}

/// A decimal digit character.
pub open spec fn is_digit(c: char) -> bool {
    48 <= c as u32 <= 57
}

/// Every character is a decimal digit.
pub open spec fn all_digits(s: Seq<char>) -> bool {
    forall|i: int| 0 <= i < s.len() ==> is_digit(#[trigger] s[i])
}

/// The number that decimal digits write, most significant first.
pub open spec fn dec_value(s: Seq<char>) -> int
    decreases s.len(),
{
    if s.len() == 0 {
        0
    } else {
        dec_value(s.drop_last()) * 10 + (s.last() as u32 - 48)
    }
}

/// The decimal notation of a natural number is a non-empty run of digits.
pub proof fn lemma_nat_decimal_digits(n: nat)
    ensures
        nat_decimal(n).len() >= 1,
        all_digits(nat_decimal(n)),
    decreases n,
{
    if n >= 10 {
        lemma_nat_decimal_digits(n / 10);
    }
}

/// `BigInt::from(u64)`: the big integer equal to `x`.
#[verifier::external_body]
pub(crate) fn big_from_u64(x: u64) -> (r: BigInt)
    ensures
        value(r) == x as int,
{
    BigInt::from(x)
}

/// `BigInt::from(BigUint)`: the non-negative big integer equal to `x`.
#[verifier::external_body]
pub(crate) fn big_from_biguint(x: BigUint) -> (r: BigInt)
    ensures
        value(r) == uvalue(x) as int,
{
    BigInt::from(x)
}

/// `BigInt::to_biguint`: the magnitude of a non-negative big integer
/// (`to_biguint` gives `None` only for a negative one).
#[verifier::external_body]
pub(crate) fn big_to_biguint(x: &BigInt) -> (r: BigUint)
    requires
        value(*x) >= 0,
    ensures
        uvalue(r) as int == value(*x),
{
    x.to_biguint().unwrap()
}

/// `str::parse::<BigUint>` (`FromStr`, radix 10) on a non-empty run of
/// decimal digits: the number they write. On other text it may fail, so it
/// is not called there.
#[verifier::external_body]
pub(crate) fn big_parse_decimal(s: &str) -> (r: BigUint)
    requires
        s@.len() > 0,
        all_digits(s@),
    ensures
        uvalue(r) as int == dec_value(s@),
{
    s.parse::<BigUint>().unwrap()
}

/// `ToPrimitive::to_u8` on `BigInt`: the value as a byte (`to_u8` gives
/// `None` only for a value outside `0..=255`).
#[verifier::external_body]
pub(crate) fn big_to_u8(x: &BigInt) -> (r: u8)
    requires
        0 <= value(*x) <= 255,
    ensures
        r as int == value(*x),
{
    x.to_u8().unwrap()
}

/// `BigInt::clone`: a big integer with the same value.
#[verifier::external_body]
pub(crate) fn big_clone(x: &BigInt) -> (r: BigInt)
    ensures
        value(r) == value(*x),
{
    x.clone()
}

/// `&BigInt + &BigInt`: the sum.
#[verifier::external_body]
pub(crate) fn big_add(a: &BigInt, b: &BigInt) -> (r: BigInt)
    ensures
        value(r) == value(*a) + value(*b),
{
    a + b
}

/// `&BigInt - &BigInt`: the difference.
#[verifier::external_body]
pub(crate) fn big_sub(a: &BigInt, b: &BigInt) -> (r: BigInt)
    ensures
        value(r) == value(*a) - value(*b),
{
    a - b
}

/// `&BigInt * &BigInt`: the product.
#[verifier::external_body]
pub(crate) fn big_mul(a: &BigInt, b: &BigInt) -> (r: BigInt)
    ensures
        value(r) == value(*a) * value(*b),
{
    a * b
}

/// `Integer::div_rem` on `BigInt`: quotient and remainder of the division
/// truncated toward zero. It panics on a zero divisor.
#[verifier::external_body]
pub(crate) fn big_div_rem(a: &BigInt, b: &BigInt) -> (r: (BigInt, BigInt))
    requires
        value(*b) != 0,
    ensures
        value(r.0) == tdiv(value(*a), value(*b)),
        value(r.1) == trem(value(*a), value(*b)),
{
    a.div_rem(b)
}

/// `Zero::is_zero` on `BigInt`.
#[verifier::external_body]
pub(crate) fn big_is_zero(a: &BigInt) -> (r: bool)
    ensures
        r == (value(*a) == 0),
{
    a.is_zero()
}

/// `&BigInt >= &BigInt`: integer comparison.
#[verifier::external_body]
pub(crate) fn big_ge(a: &BigInt, b: &BigInt) -> (r: bool)
    ensures
        r == (value(*a) >= value(*b)),
{
    a >= b
}

/// `&BigInt == &BigInt`: integer equality.
#[verifier::external_body]
pub(crate) fn big_eq(a: &BigInt, b: &BigInt) -> (r: bool)
    ensures
        r == (value(*a) == value(*b)),
{
    a == b
}

/// `BigInt::to_string` (its `Display`): the decimal notation of the value,
/// with a `-` sign for a negative one.
#[verifier::external_body]
pub(crate) fn big_to_string(a: &BigInt) -> (r: String)
    ensures
        r@ == int_decimal(value(*a)),
{
    a.to_string()
}

} // verus!
