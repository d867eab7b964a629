//! Argument-handling data.
//!
//! Opening the repository and creating the diff happen in two stages, so
//! the hash arguments found in stage one are carried over in a small
//! struct, and a shared test decides whether an argument can be a commit
//! hash at all.

use crate::uuid::is_hex_digit;
use vstd::prelude::*;
use vstd::string::*;

verus! {

/// What `is_hash_like` accepts: at most 40 characters, all hex digits.
pub open spec fn spec_is_hash_like(s: Seq<char>) -> bool {
    s.len() <= 40 && (forall|i: int| 0 <= i < s.len() ==> is_hex_digit(#[trigger] s[i]))
}

/// Whether `input` could be a commit hash: at most 40 characters, all of
/// them hex digits. An argument that fails this is treated as a path.
pub fn is_hash_like(input: &str) -> (r: bool)
    ensures
        r == spec_is_hash_like(input@),
{
    let len = input.unicode_len();
    if len > 40 {
        return false;
    }
    for i in 0..len
        invariant
            len == input@.len(),
            len <= 40,
            forall|j: int| 0 <= j < i ==> is_hex_digit(#[trigger] input@[j]),
    {
        let c = input.get_char(i);
        let v = c as u32;
        let hex = (48 <= v && v <= 57) || (97 <= v && v <= 102) || (65 <= v && v <= 70);
        if !hex {
            return false;
        }
    }
    true
}

/// The hash arguments found while opening the repository, handed over to
/// the stage that creates the diff.
pub struct ArgumentTemporaryData {
    pub potential_hash_a: Option<String>,
    pub potential_hash_b: Option<String>,
}

} // verus!
