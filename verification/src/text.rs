//! Comparing names.

use vstd::prelude::*;

verus! {

/// `str::eq`: do two strings hold the same characters?
#[verifier::external_body]
pub(crate) fn same_str(a: &str, b: &str) -> (r: bool)
    ensures
        r == (a@ == b@),
{
    a == b
}

/// Is the character a decimal digit?
pub open spec fn is_digit(c: char) -> bool {
    '0' <= c <= '9'
}

/// The value of a sequence of decimal digits.
pub open spec fn digits_value(s: Seq<char>) -> nat
    decreases s.len(),
{
    if s.len() == 0 {
        0
    } else {
        digits_value(s.drop_last()) * 10 + (s.last() as nat - '0' as nat) as nat
    }
}

/// The digits of a number, without its optional plus sign.
pub open spec fn digits_of(s: Seq<char>) -> Seq<char> {
    if s.len() > 0 && s[0] == '+' {
        s.drop_first()
    } else {
        s
    }
}

/// The value of a number.
pub open spec fn number_of(s: Seq<char>) -> nat {
    digits_value(digits_of(s))
}

/// Is the text an optional plus sign followed by decimal digits, with a value
/// that fits into `usize`?
pub open spec fn is_number(s: Seq<char>) -> bool {
    &&& digits_of(s).len() > 0
    &&& forall|i: int| 0 <= i < digits_of(s).len() ==> is_digit(#[trigger] digits_of(s)[i])
    &&& number_of(s) <= usize::MAX
}

/// `str::parse` for `usize`: the value of a decimal number with an optional
/// plus sign. There is `None` for any other text, and for a value that is too
/// large.
#[verifier::external_body]
pub(crate) fn parse_usize(s: &str) -> (r: Option<usize>)
    ensures
        r is Some <==> is_number(s@),
        r matches Some(n) ==> n == number_of(s@),
{
    s.parse().ok()
}

} // verus!
