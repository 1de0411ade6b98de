//! Recovery of the numeric identifier from an entry key.
//!
//! An entry key is the literal prefix `pv_` immediately followed by a
//! non-empty run of decimal digits whose value fits the identifier's width.
//! Nothing else is an identifier: no sign, no padding other than leading
//! zeros, no second prefix.

use vstd::prelude::*;
use crate::text::chars_of;

verus! {

/// The literal prefix every entry key starts with.
pub open spec fn key_prefix() -> Seq<char> {
    seq!['p', 'v', '_']
}

/// Whether `c` is one of the ten decimal digits.
pub open spec fn is_digit(c: char) -> bool {
    48 <= c as u32 <= 57
}

/// The value of a decimal digit.
pub open spec fn digit_value(c: char) -> nat {
    (c as u32 - 48) as nat
}

/// Whether every character of `s` is a decimal digit.
pub open spec fn all_digits(s: Seq<char>) -> bool {
    forall|i: int| 0 <= i < s.len() ==> is_digit(#[trigger] s[i])
}

/// The number a run of decimal digits denotes, most significant digit first.
pub open spec fn decimal_value(digits: Seq<char>) -> nat
    decreases digits.len(),
{
    if digits.len() == 0 {
        0
    } else {
        10 * decimal_value(digits.drop_last()) + digit_value(digits.last())
    }
}

/// Whether `key` names an entry: the prefix, then at least one digit, and
/// nothing but digits, denoting a number within the identifier's width.
pub open spec fn is_entry_key(key: Seq<char>) -> bool {
    &&& key.len() > key_prefix().len()
    &&& key.take(key_prefix().len() as int) == key_prefix()
    &&& all_digits(key.skip(key_prefix().len() as int))
    &&& decimal_value(key.skip(key_prefix().len() as int)) <= u32::MAX
}

/// The identifier that `key` carries, if it names an entry.
pub open spec fn identifier_of(key: Seq<char>) -> Option<u32> {
    if is_entry_key(key) {
        Some(decimal_value(key.skip(key_prefix().len() as int)) as u32)
    } else {
        None
    }
}

/// A run of digits denotes at least as much as any of its prefixes.
proof fn lemma_decimal_value_grows(digits: Seq<char>, n: int)
    requires
        0 <= n <= digits.len(),
    ensures
        decimal_value(digits.take(n)) <= decimal_value(digits),
    decreases digits.len(),
{
    if n == digits.len() {
        assert(digits.take(n) == digits);
    } else {
        assert(digits.drop_last().take(n) == digits.take(n));
        lemma_decimal_value_grows(digits.drop_last(), n);
    }
}

/// Extracts the numeric identifier from an entry key.
///
/// Returns the identifier exactly when the key is `pv_` followed by decimal
/// digits that denote a number no larger than `u32::MAX`. Any other key
/// yields `None`: one without the prefix, with an empty or non-numeric
/// suffix, or with a suffix too large for the identifier.
pub fn extract_identifier(key: &str) -> (id: Option<u32>)
    ensures
        id == identifier_of(key@),
{
    let chars = chars_of(key);
    let len = chars.len();
    if len <= 3 || chars[0] != 'p' || chars[1] != 'v' || chars[2] != '_' {
        proof {
            if len > 3 {
                let head = key@.take(3);
                assert(head[0] == key@[0] && head[1] == key@[1] && head[2] == key@[2]);
                assert(key_prefix()[0] == 'p' && key_prefix()[1] == 'v' && key_prefix()[2] == '_');
            }
        }
        return None;
    }
    assert(key@.take(3) == key_prefix());
    let ghost digits = key@.skip(3);
    let mut value: u64 = 0;
    let mut i: usize = 3;
    while i < len
        invariant
            3 <= i <= len,
            len == chars@.len(),
            chars@ == key@,
            digits == key@.skip(3),
            all_digits(digits.take(i - 3)),
            value == decimal_value(digits.take(i - 3)),
            value <= u32::MAX,
        decreases len - i,
    {
        let c = chars[i];
        let code: u32 = c as u32;
        let ghost upto = digits.take(i - 3 + 1);
        proof {
            assert(upto.drop_last() == digits.take(i - 3));
            assert(upto.last() == c);
        }
        if code < 48 || code > 57 {
            assert(!is_digit(digits[i - 3]));
            return None;
        }
        let next: u64 = value * 10 + (code - 48) as u64;
        assert(next == decimal_value(upto));
        if next > 0xffff_ffff {
            proof {
                lemma_decimal_value_grows(digits, i - 3 + 1);
            }
            return None;
        }
        assert forall|j: int| 0 <= j < upto.len() implies is_digit(#[trigger] upto[j]) by {
            if j < i - 3 {
                assert(upto[j] == digits.take(i - 3)[j]);
            }
        }
        value = next;
        i += 1;
    }
    assert(digits.take(len - 3) == digits);
    Some(value as u32)
}

} // verus!
