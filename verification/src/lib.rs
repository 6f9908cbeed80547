//! Per-guild timezone registry for a chat bot: an in-memory registry of
//! (person, timezone) entries per guild, a text codec for persisting the
//! registry to disk, a validator for timezone identifiers, and a formatter
//! that renders the current local time for everyone registered in a guild.

pub mod codec;
pub mod registry;
pub mod report;

use vstd::prelude::*;

verus! {

/// Decides whether `candidate` exactly matches one of the recognized
/// timezone identifiers. The recognized set is supplied by the caller
/// (it comes from an external timezone database and is not part of the
/// registry's own state); matching is case-sensitive and exact.
pub fn is_valid(candidate: &str, recognized: &Vec<String>) -> (r: bool)
    ensures
        r == exists|i: int| 0 <= i < recognized@.len() && recognized@[i]@ == candidate@,
{
    let n = recognized.len();
    let mut i: usize = 0;
    while i < n
        invariant
            n == recognized@.len(),
            0 <= i <= n,
            forall|j: int| 0 <= j < i ==> recognized@[j]@ != candidate@,
        decreases n - i,
    {
        if str_eq(recognized[i].as_str(), candidate) {
            return true;
        }
        i = i + 1;
    }
    false
}

/// Character-by-character equality of two strings.
pub fn str_eq(a: &str, b: &str) -> (r: bool)
    ensures
        r == (a@ == b@),
{
    let na = a.unicode_len();
    let nb = b.unicode_len();
    if na != nb {
        return false;
    }
    let mut i: usize = 0;
    while i < na
        invariant
            na == a@.len(),
            nb == b@.len(),
            na == nb,
            0 <= i <= na,
            forall|j: int| 0 <= j < i ==> a@[j] == b@[j],
        decreases na - i,
    {
        if a.get_char(i) != b.get_char(i) {
            assert(a@[i as int] != b@[i as int]);
            return false;
        }
        i = i + 1;
    }
    assert(a@ =~= b@);
    true
}

} // verus!

