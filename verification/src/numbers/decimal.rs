//! The digit operations in base ten.
use vstd::prelude::*;
use num::BigInt;
use crate::bigint::value;
use crate::numbers::digits::{ConcatDigits, FlipDigits, ReplaceDigits};

verus! {

/// Appends the decimal digits of `digits` to a number.
pub fn append_digits(digits: BigInt) -> (r: ConcatDigits)
    ensures
        r@ == (10u8, value(digits), true),
{
    ConcatDigits::new(10, digits, true)
}

/// Puts the decimal digits of `digits` in front of a number.
pub fn prepend_digits(digits: BigInt) -> (r: ConcatDigits)
    ensures
        r@ == (10u8, value(digits), false),
{
    ConcatDigits::new(10, digits, false)
}

/// Reverses the decimal digits of a number.
pub fn flip_digits() -> (r: FlipDigits)
    ensures
        r@ == 10u8,
{
    FlipDigits::new(10)
}

/// Replaces every decimal digit `a` of a number by the digit `b`.
pub fn replace_digit(a: u8, b: u8) -> (r: ReplaceDigits)
    ensures
        r@ == (10u8, seq![a], seq![b]),
{
    ReplaceDigits::new(10, vec![a], vec![b])
}

} // verus!
