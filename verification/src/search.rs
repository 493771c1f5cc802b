//! Byte and substring search.

use vstd::prelude::*;

verus! {

/// The needle stands in the haystack at position `at`.
pub open spec fn occurs_at(haystack: Seq<u8>, needle: Seq<u8>, at: int) -> bool {
    0 <= at && at + needle.len() <= haystack.len() && haystack.subrange(
        at,
        at + needle.len(),
    ) == needle
}

/// `found` is the position of the first byte equal to `needle`, or `None`
/// when the haystack holds no such byte.
pub open spec fn is_first_byte(haystack: Seq<u8>, needle: u8, found: Option<usize>) -> bool {
    match found {
        Some(at) => at < haystack.len() && haystack[at as int] == needle && forall|i: int|
            0 <= i < at ==> haystack[i] != needle,
        None => forall|i: int| 0 <= i < haystack.len() ==> haystack[i] != needle,
    }
}

/// `found` is the position of the first occurrence of `needle`, or `None`
/// when the needle does not occur.
pub open spec fn is_first_occurrence(
    haystack: Seq<u8>,
    needle: Seq<u8>,
    found: Option<usize>,
) -> bool {
    match found {
        Some(at) => occurs_at(haystack, needle, at as int) && forall|i: int|
            0 <= i < at ==> !occurs_at(haystack, needle, i),
        None => forall|i: int| !occurs_at(haystack, needle, i),
    }
}

/// `list` rises strictly.
pub open spec fn strictly_ascending(list: Seq<usize>) -> bool {
    forall|i: int, j: int| 0 <= i < j < list.len() ==> list[i] < list[j]
}

/// `list` holds, in ascending order, every position of `needle`.
pub open spec fn lists_byte_positions(haystack: Seq<u8>, needle: u8, list: Seq<usize>) -> bool {
    &&& strictly_ascending(list)
    &&& forall|k: int|
        0 <= k < list.len() ==> list[k] < haystack.len() && haystack[list[k] as int] == needle
    &&& forall|i: int|
        0 <= i < haystack.len() && haystack[i] == needle ==> exists|k: int|
            0 <= k < list.len() && list[k] == i
}

/// `list` holds, in ascending order, occurrences of `needle` that do not
/// overlap, chosen from the left: every occurrence of the needle either is
/// listed or begins inside a listed one.
pub open spec fn lists_disjoint_occurrences(
    haystack: Seq<u8>,
    needle: Seq<u8>,
    list: Seq<usize>,
) -> bool {
    &&& forall|k: int| 0 <= k < list.len() ==> occurs_at(haystack, needle, list[k] as int)
    &&& forall|j: int, k: int|
        0 <= j < k < list.len() ==> list[j] + needle.len() <= list[k]
    &&& forall|i: int|
        occurs_at(haystack, needle, i) ==> exists|k: int|
            0 <= k < list.len() && (#[trigger] list[k]) <= i && i < list[k] + needle.len()
}

/// `memchr::memchr`: the first position of a byte in a slice.
#[verifier::external_body]
pub(crate) fn first_byte(needle: u8, haystack: &[u8]) -> (found: Option<usize>)
    ensures
        is_first_byte(haystack@, needle, found),
{
    memchr::memchr(needle, haystack)
}

/// `memchr::memchr_iter`: every position of a byte in a slice, from the
/// front to the back.
#[verifier::external_body]
pub(crate) fn byte_positions(needle: u8, haystack: &[u8]) -> (list: Vec<usize>)
    ensures
        lists_byte_positions(haystack@, needle, list@),
{
    memchr::memchr_iter(needle, haystack).collect()
}

/// `memchr::memmem::find`: the first position at which a substring occurs.
#[verifier::external_body]
pub(crate) fn first_occurrence(haystack: &[u8], needle: &[u8]) -> (found: Option<usize>)
    ensures
        is_first_occurrence(haystack@, needle@, found),
{
    memchr::memmem::find(haystack, needle)
}

/// `memchr::memmem::find_iter`: the occurrences of a substring that do not
/// overlap, found from the left. The needle must not be empty.
#[verifier::external_body]
pub(crate) fn disjoint_occurrences(haystack: &[u8], needle: &[u8]) -> (list: Vec<usize>)
    requires
        needle@.len() > 0,
    ensures
        lists_disjoint_occurrences(haystack@, needle@, list@),
{
    memchr::memmem::find_iter(haystack, needle).collect()
}

} // verus!
