//! Conversions between `String` and `Vec<char>`.  The log text is held as a
//! vector of chars so that records can be sliced at recorded offsets.

use vstd::prelude::*;

verus! {

/// Relies on str::chars and Iterator::collect: the chars of a string slice,
/// in order, are exactly its view.
#[verifier::external_body]
pub fn chars_of(s: &str) -> (r: Vec<char>)
    ensures
        r@ == s@,
{
    s.chars().collect()
}

/// Relies on Iterator::collect for String: collecting chars yields the string
/// whose chars they are, in order.
#[verifier::external_body]
pub fn string_of(v: &Vec<char>) -> (r: String)
    ensures
        r@ == v@,
{
    v.iter().collect()
}

/// Relies on char::from_u32: every value below 0xD800 is a Unicode scalar
/// value, so the call returns the char with that code.
#[verifier::external_body]
pub fn char_of_u32(v: u32) -> (c: char)
    requires
        v < 0xD800,
    ensures
        c as u32 == v,
{
    char::from_u32(v).unwrap()
}

} // verus!
