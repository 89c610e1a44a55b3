//! Trusted wrappers around std string operations that vstd leaves
//! unspecified.

use vstd::prelude::*;

verus! {

/// The character sequence `str::to_lowercase` produces for a given input.
/// Unicode lowercasing is far too large to restate here; the name stands for
/// it, and contracts speak of the name.
pub uninterp spec fn lower_of(s: Seq<char>) -> Seq<char>;

/// Relies on str::to_lowercase: the result depends on the input characters
/// alone, and an empty input yields an empty output.
#[verifier::external_body]
pub fn lowercase(s: &str) -> (r: String)
    ensures
        r@ == lower_of(s@),
        s@.len() == 0 ==> r@.len() == 0,
{
    s.to_lowercase()
}

/// Relies on String implementing FromIterator over chars: collecting builds
/// the string whose characters are exactly those of `v`.
#[verifier::external_body]
pub fn chars_to_string(v: &Vec<char>) -> (r: String)
    ensures
        r@ == v@,
{
    v.iter().collect()
}

} // verus!
