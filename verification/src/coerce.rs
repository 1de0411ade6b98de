//! Scalar coercion rules shared by every field of the schema.

use vstd::prelude::*;

verus! {

/// The meaning of an integer-encoded boolean: true exactly when the integer
/// is present and equal to 1.
pub open spec fn diva_bool_spec(raw: Option<i32>) -> bool {
    raw == Some(1i32)
}

/// Decodes a boolean field from the optional integer that backs it.
///
/// Only the literal value 1 maps to true; any other integer, and the absence
/// of a value, map to false.
pub fn diva_bool(raw: Option<i32>) -> (flag: bool)
    ensures
        flag == diva_bool_spec(raw),
{
    match raw {
        Some(value) => value == 1,
        None => false,
    }
}

} // verus!
