//! Decimal text of the integers that appear in paths and values, and the
//! trusted formatting routines that produce it.
use vstd::prelude::*;

verus! {

/// The character for one decimal digit.
pub open spec fn digit_char(d: nat) -> char {
    ((48 + d) as u8) as char
}

/// The decimal digits of `n`, most significant first, with no sign and no
/// leading zeros (a single `'0'` for zero).
pub open spec fn dec_digits(n: nat) -> Seq<char>
    decreases n,
{
    if n < 10 {
        seq![digit_char(n)]
    } else {
        dec_digits(n / 10).push(digit_char(n % 10))
    }
}

/// The decimal text of a signed integer: a leading `'-'` for a negative
/// value, then its digits.
pub open spec fn dec_int(i: int) -> Seq<char> {
    if i >= 0 {
        dec_digits(i as nat)
    } else {
        seq!['-'] + dec_digits((-i) as nat)
    }
}

/// Relies on `itoa::Buffer::format`: the decimal representation of the
/// integer, identical to std's `Display` output.
#[verifier::external_body]
pub(crate) fn format_u64(n: u64) -> (r: String)
    ensures
        r@ == dec_digits(n as nat),
{
    itoa::Buffer::new().format(n).to_string()
}

/// Relies on `itoa::Buffer::format`: the decimal representation of the
/// integer, identical to std's `Display` output.
#[verifier::external_body]
pub(crate) fn format_usize(n: usize) -> (r: String)
    ensures
        r@ == dec_digits(n as nat),
{
    itoa::Buffer::new().format(n).to_string()
}

/// Relies on `itoa::Buffer::format`: the decimal representation of the
/// integer, identical to std's `Display` output, sign included.
#[verifier::external_body]
pub(crate) fn format_i64(n: i64) -> (r: String)
    ensures
        r@ == dec_int(n as int),
{
    itoa::Buffer::new().format(n).to_string()
}

} // verus!
