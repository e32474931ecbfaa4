//! The boolean encoding: how a flag is written as a string and read back.
//!
//! `true` is written `"true"` and `false` is written `"false"`. Reading is
//! exact: only `"true"` reads as `true`. Every other string, in whatever
//! case, reads as `false`.

use vstd::prelude::*;
use vstd::string::StringExecFns;
use crate::text::same_text;

verus! {

/// The string that stands for `value`.
pub open spec fn encoded(value: bool) -> Seq<char> {
    if value {
        "true"@
    } else {
        "false"@
    }
}

/// The flag that `text` stands for: `true` for `"true"`, `false` for every
/// other string.
pub open spec fn decoded(text: Seq<char>) -> bool {
    text == "true"@
}

/// Reading what was written gives the flag back.
pub proof fn lemma_decoded_encoded(value: bool)
    ensures
        decoded(encoded(value)) == value,
{
    reveal_strlit("true");
    reveal_strlit("false");
    assert("true"@.len() != "false"@.len());
}

/// Writes `value` as a string.
pub fn bool_to_string(value: bool) -> (text: String)
    ensures
        text@ == encoded(value),
{
    if value {
        String::from_str("true")
    } else {
        String::from_str("false")
    }
}

/// Reads a flag from `value`.
pub fn string_to_bool(value: &str) -> (flag: bool)
    ensures
        flag == decoded(value@),
{
    same_text(value, "true")
}

} // verus!
