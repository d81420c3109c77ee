//! Decimal rendering of keys, used by the tree printers.

use vstd::prelude::*;

verus! {

/// The decimal digit character for a value in 0..=9.
pub open spec fn digit_char(d: int) -> char {
    ((48 + d) as u8) as char
}

/// The decimal digits of a non-negative number, most significant first.
pub open spec fn dec_digits(n: int) -> Seq<char>
    decreases n,
{
    if n < 10 {
        seq![digit_char(n)]
    } else {
        dec_digits(n / 10).push(digit_char(n % 10))
    }
}

/// The decimal rendering of a number: its digits, preceded by '-' when it is
/// negative.
pub open spec fn dec_rep(n: int) -> Seq<char> {
    if n < 0 {
        seq!['-'] + dec_digits(-n)
    } else {
        dec_digits(n)
    }
}

/// Relies on `i64`'s `Display` implementation, through `to_string`: the
/// rendering of a decimal number is its digits without leading zeros,
/// preceded by a minus sign when the number is negative.
#[verifier::external_body]
pub fn key_to_string(x: i64) -> (s: String)
    ensures
        s@ == dec_rep(x as int),
{
    x.to_string()
}

} // verus!
