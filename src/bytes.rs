//! Byte-level helpers shared by the decoders, with their specifications.

use vstd::prelude::*;

verus! {

/// The first index at or after `i` at which `s` holds the byte `b`.
pub open spec fn first_from(s: Seq<u8>, b: u8, i: int) -> Option<int>
    decreases s.len() - i,
{
    if i < 0 || i >= s.len() {
        None
    } else if s[i] == b {
        Some(i)
    } else {
        first_from(s, b, i + 1)
    }
}

/// `p` is a prefix of `s`.
pub open spec fn has_prefix(s: Seq<u8>, p: Seq<u8>) -> bool {
    p.len() <= s.len() && s.subrange(0, p.len() as int) == p
}

/// Connects an explicit description of a first occurrence with `first_from`.
pub proof fn lemma_first_from(s: Seq<u8>, b: u8, i: int, k: Option<int>)
    requires
        0 <= i <= s.len(),
        k matches Some(k) ==> i <= k < s.len() && s[k] == b && forall|j: int|
            i <= j < k ==> s[j] != b,
        k is None ==> forall|j: int| i <= j < s.len() ==> s[j] != b,
    ensures
        first_from(s, b, i) == k,
    decreases s.len() - i,
{
    if i < s.len() && s[i] != b {
        lemma_first_from(s, b, i + 1, k);
    }
}

/// What `first_from` gives: the first occurrence at or after `i`, or none.
pub proof fn lemma_first_from_facts(s: Seq<u8>, b: u8, i: int)
    requires
        0 <= i <= s.len(),
    ensures
        first_from(s, b, i) matches Some(k) ==> i <= k < s.len() && s[k] == b && forall|j: int|
            i <= j < k ==> s[j] != b,
        first_from(s, b, i) is None ==> forall|j: int| i <= j < s.len() ==> s[j] != b,
    decreases s.len() - i,
{
    if i < s.len() && s[i] != b {
        lemma_first_from_facts(s, b, i + 1);
    }
}

/// Relies on memchr::memchr: the index of the first occurrence of `needle`.
#[verifier::external_body]
pub(crate) fn find_byte(needle: u8, haystack: &[u8]) -> (r: Option<usize>)
    ensures
        r matches Some(i) ==> i < haystack@.len() && haystack@[i as int] == needle
            && forall|j: int| 0 <= j < i ==> haystack@[j] != needle,
        r is None ==> forall|j: int| 0 <= j < haystack@.len() ==> haystack@[j] != needle,
{
    memchr::memchr(needle, haystack)
}

/// The index of the first `needle` in `data` at or after `from`.
pub fn find_byte_from(needle: u8, data: &[u8], from: usize) -> (r: Option<usize>)
    requires
        from <= data@.len(),
    ensures
        r matches Some(i) ==> first_from(data@, needle, from as int) == Some(i as int) && from <= i
            < data@.len() && data@[i as int] == needle && forall|j: int|
            from <= j < i ==> data@[j] != needle,
        r is None ==> first_from(data@, needle, from as int) is None && forall|j: int|
            from <= j < data@.len() ==> data@[j] != needle,
{
    let rest = vstd::slice::slice_subrange(data, from, data.len());
    let found = find_byte(needle, rest);
    match found {
        Some(k) => {
            proof {
                assert forall|j: int| from <= j < from + k implies data@[j] != needle by {
                    assert(rest@[j - from] == data@[j]);
                }
                lemma_first_from(data@, needle, from as int, Some(from + k));
            }
            Some(from + k)
        },
        None => {
            proof {
                assert forall|j: int| from <= j < data@.len() implies data@[j] != needle by {
                    assert(rest@[j - from] == data@[j]);
                }
                lemma_first_from(data@, needle, from as int, None);
            }
            None
        },
    }
}

/// Whether `data[start..end]` begins with `prefix`.
pub fn has_prefix_at(data: &[u8], start: usize, end: usize, prefix: &[u8]) -> (r: bool)
    requires
        start <= end <= data@.len(),
    ensures
        r == has_prefix(data@.subrange(start as int, end as int), prefix@),
{
    if prefix.len() > end - start {
        return false;
    }
    let mut i: usize = 0;
    while i < prefix.len()
        invariant
            start <= end <= data@.len(),
            prefix@.len() <= end - start,
            i <= prefix@.len(),
            forall|j: int| 0 <= j < i ==> data@[start + j] == prefix@[j],
        decreases prefix@.len() - i,
    {
        if data[start + i] != prefix[i] {
            assert(data@.subrange(start as int, end as int)[i as int] != prefix@[i as int]);
            return false;
        }
        i = i + 1;
    }
    assert(data@.subrange(start as int, end as int).subrange(0, prefix@.len() as int) =~= prefix@);
    true
}

/// Whether `data[start..end]` is exactly `word`.
pub fn bytes_equal_at(data: &[u8], start: usize, end: usize, word: &[u8]) -> (r: bool)
    requires
        start <= end <= data@.len(),
    ensures
        r == (data@.subrange(start as int, end as int) == word@),
{
    if end - start != word.len() {
        return false;
    }
    let r = has_prefix_at(data, start, end, word);
    assert(data@.subrange(start as int, end as int).subrange(0, word@.len() as int)
        =~= data@.subrange(start as int, end as int));
    r
}

} // verus!
