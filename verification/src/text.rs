//! Conversions between strings and the character vectors the normaliser works
//! on.

use vstd::prelude::*;

verus! {

/// Collects the characters of `s` into a vector.
pub fn chars_of(s: &str) -> (chars: Vec<char>)
    ensures
        chars@ == s@,
{
    let mut chars: Vec<char> = Vec::new();
    for c in it: s.chars()
        invariant
            chars@ == it.seq().take(it.index() as int),
    {
        chars.push(c);
    }
    chars
}

/// Builds the string that holds the characters of `chars`, in order.
///
/// Not proved: the body hands the characters to `String::from_iter` by way of
/// `Iterator::collect`, and the contract takes from std's documentation that
/// the string so built consists of exactly these characters in this order.
#[verifier::external_body]
pub(crate) fn string_of(chars: &Vec<char>) -> (s: String)
    ensures
        s@ == chars@,
{
    chars.iter().collect()
}

} // verus!
