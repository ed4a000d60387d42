//! Byte-string searching: whitespace, prefixes, first occurrences and
//! non-overlapping occurrence counts.
use vstd::prelude::*;

verus! {

/// The bytes that `u8::is_ascii_whitespace` accepts: space, tab, line feed,
/// form feed and carriage return.
pub open spec fn is_ws(b: u8) -> bool {
    b == 0x20u8 || b == 0x09u8 || b == 0x0Au8 || b == 0x0Cu8 || b == 0x0Du8
}

/// Whether `b` is ASCII whitespace.
pub fn is_ascii_ws(b: u8) -> (r: bool)
    ensures
        r == is_ws(b),
{
    b == 0x20u8 || b == 0x09u8 || b == 0x0Au8 || b == 0x0Cu8 || b == 0x0Du8
}

/// `needle` occurs in `hay` at position `i`.
pub open spec fn matches_at(hay: Seq<u8>, needle: Seq<u8>, i: int) -> bool {
    0 <= i && i + needle.len() <= hay.len() && hay.subrange(i, i + needle.len()) == needle
}

/// `s` begins with `prefix`.
pub open spec fn starts_with(s: Seq<u8>, prefix: Seq<u8>) -> bool {
    matches_at(s, prefix, 0)
}

/// The first position at or after `i` where `needle` occurs in `hay`, or -1.
pub open spec fn find_from(hay: Seq<u8>, needle: Seq<u8>, i: int) -> int
    decreases hay.len() + 1 - i,
{
    if i < 0 || i + needle.len() > hay.len() {
        -1
    } else if matches_at(hay, needle, i) {
        i
    } else {
        find_from(hay, needle, i + 1)
    }
}

/// The first position where `needle` occurs in `hay`, or -1.
pub open spec fn find(hay: Seq<u8>, needle: Seq<u8>) -> int {
    find_from(hay, needle, 0)
}

/// The number of non-overlapping occurrences of `needle` in `hay` at or after
/// `i`, matched from left to right.
pub open spec fn count_from(hay: Seq<u8>, needle: Seq<u8>, i: int) -> nat
    decreases hay.len() - i,
{
    if i < 0 || needle.len() == 0 || i + needle.len() > hay.len() {
        0
    } else if matches_at(hay, needle, i) {
        1 + count_from(hay, needle, i + needle.len())
    } else {
        count_from(hay, needle, i + 1)
    }
}

/// The number of non-overlapping occurrences of a non-empty `needle` in `hay`,
/// matched from left to right.
pub open spec fn count(hay: Seq<u8>, needle: Seq<u8>) -> nat {
    count_from(hay, needle, 0)
}

/// Whether `needle` occurs at position `i` of `hay`.
pub fn matches_at_exec(hay: &[u8], needle: &[u8], i: usize) -> (r: bool)
    ensures
        r == matches_at(hay@, needle@, i as int),
{
    if needle.len() > hay.len() || i > hay.len() - needle.len() {
        return false;
    }
    let mut k: usize = 0;
    while k < needle.len()
        invariant
            i + needle.len() <= hay.len(),
            k <= needle.len(),
            forall|j: int| 0 <= j < k ==> hay@[i + j] == needle@[j],
        decreases needle.len() - k,
    {
        if hay[i + k] != needle[k] {
            assert(hay@.subrange(i as int, i + needle.len())[k as int] != needle@[k as int]);
            return false;
        }
        k = k + 1;
    }
    assert(hay@.subrange(i as int, i + needle@.len()) =~= needle@);
    true
}

/// Whether `s` begins with `prefix`.
pub fn starts_with_exec(s: &[u8], prefix: &[u8]) -> (r: bool)
    ensures
        r == starts_with(s@, prefix@),
{
    matches_at_exec(s, prefix, 0)
}

/// Moving the search start past a non-match leaves the first match unchanged.
proof fn lemma_find_skip(hay: Seq<u8>, needle: Seq<u8>, i: int)
    requires
        0 <= i,
        i + needle.len() <= hay.len(),
        !matches_at(hay, needle, i),
    ensures
        find_from(hay, needle, i) == find_from(hay, needle, i + 1),
{
}

/// A found position is an occurrence at or after the search start, and no
/// earlier position from the start on is one.
pub proof fn lemma_find_from(hay: Seq<u8>, needle: Seq<u8>, i: int)
    requires
        0 <= i,
    ensures
        find_from(hay, needle, i) >= 0 ==> i <= find_from(hay, needle, i) && matches_at(
            hay,
            needle,
            find_from(hay, needle, i),
        ),
        forall|j: int|
            i <= j && (find_from(hay, needle, i) < 0 || j < find_from(hay, needle, i))
                ==> !#[trigger] matches_at(hay, needle, j),
    decreases hay.len() + 1 - i,
{
    if i + needle.len() > hay.len() {
    } else if !matches_at(hay, needle, i) {
        lemma_find_from(hay, needle, i + 1);
    }
}

/// A non-empty needle that occurs from `i` on is found from `i` on.
pub proof fn lemma_count_find(hay: Seq<u8>, needle: Seq<u8>, i: int)
    requires
        0 <= i,
        count_from(hay, needle, i) > 0,
    ensures
        find_from(hay, needle, i) >= 0,
    decreases hay.len() + 1 - i,
{
    if !matches_at(hay, needle, i) {
        lemma_count_find(hay, needle, i + 1);
    }
}

/// The first position where `needle` occurs in `hay`.
pub fn find_subsequence(hay: &[u8], needle: &[u8]) -> (r: Option<usize>)
    ensures
        r is Some <==> find(hay@, needle@) >= 0,
        r matches Some(i) ==> i == find(hay@, needle@) && i + needle.len() <= hay.len(),
{
    proof {
        lemma_find_from(hay@, needle@, 0);
    }
    find_subsequence_from(hay, needle, 0)
}

/// The first position at or after `start` where `needle` occurs in `hay`.
pub fn find_subsequence_from(hay: &[u8], needle: &[u8], start: usize) -> (r: Option<usize>)
    ensures
        r is Some <==> find_from(hay@, needle@, start as int) >= 0,
        r matches Some(i) ==> i == find_from(hay@, needle@, start as int),
{
    if needle.len() > hay.len() {
        return None;
    }
    let last = hay.len() - needle.len();
    let mut i = start;
    while i <= last
        invariant
            last == hay.len() - needle.len(),
            start <= i,
            find_from(hay@, needle@, start as int) == find_from(hay@, needle@, i as int),
        decreases last + 1 - i,
    {
        if matches_at_exec(hay, needle, i) {
            return Some(i);
        }
        proof {
            lemma_find_skip(hay@, needle@, i as int);
        }
        if i == last {
            return None;
        }
        i = i + 1;
    }
    None
}

/// The number of non-overlapping occurrences of `needle` in `hay`.
pub fn count_matches(hay: &[u8], needle: &[u8]) -> (r: usize)
    requires
        needle.len() > 0,
    ensures
        r == count(hay@, needle@),
{
    if needle.len() > hay.len() {
        return 0;
    }
    let last = hay.len() - needle.len();
    let mut i: usize = 0;
    let mut n: usize = 0;
    while i <= last
        invariant
            last == hay.len() - needle.len(),
            needle.len() > 0,
            n <= i,
            i <= hay.len(),
            n + count_from(hay@, needle@, i as int) == count(hay@, needle@),
        decreases hay.len() - i,
    {
        if matches_at_exec(hay, needle, i) {
            n = n + 1;
            i = i + needle.len();
        } else {
            i = i + 1;
        }
    }
    n
}

} // verus!
