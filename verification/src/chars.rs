//! Conversions between `&str`/`String` and the character vectors the parser
//! scans. A `&str`'s view in specifications is its `Seq<char>`, so both
//! conversions have exact contracts.

use vstd::prelude::*;

verus! {

/// Relies on `str::chars` together with `Vec`'s `FromIterator`: the
/// characters of the string, in order.
#[verifier::external_body]
pub(crate) fn str_to_chars(s: &str) -> (r: Vec<char>)
    ensures
        r@ == s@,
{
    s.chars().collect()
}

/// Relies on `String`'s `FromIterator` over `char`: collecting yields the
/// string of exactly those characters, in order.
#[verifier::external_body]
pub(crate) fn chars_to_string(doc: &Vec<char>, start: usize, end: usize) -> (r: String)
    requires
        start <= end <= doc.len(),
    ensures
        r@ == doc@.subrange(start as int, end as int),
{
    doc[start..end].iter().collect()
}

} // verus!
