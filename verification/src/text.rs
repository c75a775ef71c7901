//! Substring containment over character sequences, with the one outside call
//! the searches need.

use vstd::prelude::*;

verus! {

/// The needle occurs as a contiguous run inside the haystack.
pub open spec fn contains_subseq(hay: Seq<char>, needle: Seq<char>) -> bool {
    exists|i: int|
        0 <= i && i + needle.len() <= hay.len() && #[trigger] hay.subrange(i, i + needle.len())
            == needle
}

/// Relies on str::contains with a string pattern: it returns true exactly
/// when the pattern matches a sub-slice of the haystack.
#[verifier::external_body]
pub(crate) fn str_contains(hay: &String, needle: &String) -> (r: bool)
    ensures
        r == contains_subseq(hay@, needle@),
{
    hay.as_str().contains(needle.as_str())
}

} // verus!
