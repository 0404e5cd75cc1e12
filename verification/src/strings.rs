//! Slice utilities over borrowed text. Offsets count bytes, and the contracts
//! speak of the bytes of a string.
use crate::boundary::{lemma_occurrence_boundaries, lemma_str_valid, slice};
use vstd::prelude::*;
use vstd::string::StringSliceAdditionalSpecFns;
use vstd::utf8::*;

verus! {

/// `p` stands in `s` at byte offset `i`.
pub open spec fn occurs_at(s: Seq<u8>, p: Seq<u8>, i: int) -> bool {
    0 <= i && i + p.len() <= s.len() && s.subrange(i, i + p.len()) == p
}

/// `p` stands in `s` at offset `i` and nowhere before it.
pub open spec fn first_at(s: Seq<u8>, p: Seq<u8>, i: int) -> bool {
    occurs_at(s, p, i) && forall|j: int| 0 <= j < i ==> !occurs_at(s, p, j)
}

/// `p` stands in `s` at offset `i` and nowhere after it.
pub open spec fn last_at(s: Seq<u8>, p: Seq<u8>, i: int) -> bool {
    occurs_at(s, p, i) && forall|j: int| i < j ==> !occurs_at(s, p, j)
}

/// The offset of the first occurrence of `p` in `s`.
pub open spec fn find(s: Seq<u8>, p: Seq<u8>) -> Option<int> {
    if exists|i: int| first_at(s, p, i) {
        Some(choose|i: int| first_at(s, p, i))
    } else {
        None
    }
}

/// The offset of the last occurrence of `p` in `s`.
pub open spec fn find_last(s: Seq<u8>, p: Seq<u8>) -> Option<int> {
    if exists|i: int| last_at(s, p, i) {
        Some(choose|i: int| last_at(s, p, i))
    } else {
        None
    }
}

/// Whichever of `a` and `b` stands first in `s`, as `true` for `a` and `false`
/// for `b`, with its offset. Where both stand at one offset the longer wins.
pub open spec fn first_of(s: Seq<u8>, a: Seq<u8>, b: Seq<u8>) -> Option<(bool, int)> {
    match (find(s, a), find(s, b)) {
        (None, None) => None,
        (Some(i), None) => Some((true, i)),
        (None, Some(j)) => Some((false, j)),
        (Some(i), Some(j)) => if i < j || (i == j && a.len() > b.len()) {
            Some((true, i))
        } else {
            Some((false, j))
        },
    }
}

/// `s` without the prefix `p`, where it has that prefix.
pub open spec fn strip_prefix(s: Seq<u8>, p: Seq<u8>) -> Option<Seq<u8>> {
    if p.is_prefix_of(s) {
        Some(s.skip(p.len() as int))
    } else {
        None
    }
}

/// `s` without the suffix `p`, where it has that suffix.
pub open spec fn strip_suffix(s: Seq<u8>, p: Seq<u8>) -> Option<Seq<u8>> {
    if p.is_suffix_of(s) {
        Some(s.take(s.len() - p.len()))
    } else {
        None
    }
}

/// The byte that ends a line.
pub open spec fn newline() -> Seq<u8> {
    seq![0x0au8]
}

/// What follows the first line end of `s`, where it has one.
pub open spec fn after_first_line(s: Seq<u8>) -> Option<Seq<u8>> {
    match find(s, newline()) {
        Some(i) => Some(s.skip(i + 1)),
        None => None,
    }
}

/// `s` before and after the first occurrence of `p`, where `p` occurs.
pub open spec fn split_first(s: Seq<u8>, p: Seq<u8>) -> Option<(Seq<u8>, Seq<u8>)> {
    match find(s, p) {
        Some(i) => Some((s.take(i), s.skip(i + p.len()))),
        None => None,
    }
}

/// `s` before and after the last occurrence of `p`, where `p` occurs.
pub open spec fn split_last(s: Seq<u8>, p: Seq<u8>) -> Option<(Seq<u8>, Seq<u8>)> {
    match find_last(s, p) {
        Some(i) => Some((s.take(i), s.skip(i + p.len()))),
        None => None,
    }
}

/// The bytes of two strings that may be absent.
pub open spec fn pair_bytes(parts: Option<(&str, &str)>) -> Option<(Seq<u8>, Seq<u8>)> {
    match parts {
        Some((head, tail)) => Some((head.spec_bytes(), tail.spec_bytes())),
        None => None,
    }
}

/// The bytes of a string that may be absent.
pub open spec fn bytes_of(s: Option<&str>) -> Option<Seq<u8>> {
    match s {
        Some(s) => Some(s.spec_bytes()),
        None => None,
    }
}

/// The first occurrence is the one that `find` gives.
pub proof fn lemma_find_first(s: Seq<u8>, p: Seq<u8>, i: int)
    requires
        first_at(s, p, i),
    ensures
        find(s, p) == Some(i),
{
    let k = choose|k: int| first_at(s, p, k);
    assert(first_at(s, p, k));
    if k < i {
        assert(!occurs_at(s, p, k));
    } else if i < k {
        assert(!occurs_at(s, p, i));
    }
}

/// Before an offset that `p` stands at there is a first one.
proof fn lemma_first_exists(s: Seq<u8>, p: Seq<u8>, i: int) -> (k: int)
    requires
        occurs_at(s, p, i),
    ensures
        first_at(s, p, k),
        k <= i,
    decreases i,
{
    if exists|j: int| 0 <= j < i && occurs_at(s, p, j) {
        let j = choose|j: int| 0 <= j < i && occurs_at(s, p, j);
        lemma_first_exists(s, p, j)
    } else {
        i
    }
}

/// `find` gives nothing exactly where `p` stands nowhere in `s`.
pub proof fn lemma_find_none(s: Seq<u8>, p: Seq<u8>)
    ensures
        find(s, p) is None <==> forall|j: int| !occurs_at(s, p, j),
{
    if find(s, p) is None {
        assert forall|j: int| !occurs_at(s, p, j) by {
            if occurs_at(s, p, j) {
                let k = lemma_first_exists(s, p, j);
            }
        }
    } else {
        let k = choose|k: int| first_at(s, p, k);
        assert(occurs_at(s, p, k));
    }
}

/// What `find` gives is a first occurrence.
pub proof fn lemma_find_some(s: Seq<u8>, p: Seq<u8>)
    requires
        find(s, p) is Some,
    ensures
        first_at(s, p, find(s, p)->0),
{
}

/// The first occurrence in the front of a text is the first in the text.
pub proof fn lemma_first_in_front(s: Seq<u8>, p: Seq<u8>, k: int, i: int)
    requires
        0 <= k <= s.len(),
        first_at(s.take(k), p, i),
    ensures
        first_at(s, p, i),
{
    let front = s.take(k);
    assert(s.subrange(i, i + p.len()) =~= front.subrange(i, i + p.len()));
    assert forall|j: int| 0 <= j < i implies !occurs_at(s, p, j) by {
        if occurs_at(s, p, j) {
            assert(front.subrange(j, j + p.len()) =~= s.subrange(j, j + p.len()));
            assert(occurs_at(front, p, j));
        }
    }
}

/// The last occurrence is the one that `find_last` gives.
pub proof fn lemma_find_last(s: Seq<u8>, p: Seq<u8>, i: int)
    requires
        last_at(s, p, i),
    ensures
        find_last(s, p) == Some(i),
{
    let k = choose|k: int| last_at(s, p, k);
    assert(last_at(s, p, k));
    if k < i {
        assert(!occurs_at(s, p, i));
    } else if i < k {
        assert(!occurs_at(s, p, k));
    }
}

/// After an offset that `p` stands at there is a last one.
proof fn lemma_last_exists(s: Seq<u8>, p: Seq<u8>, i: int) -> (k: int)
    requires
        occurs_at(s, p, i),
    ensures
        last_at(s, p, k),
        i <= k,
    decreases s.len() - i,
{
    if exists|j: int| i < j && occurs_at(s, p, j) {
        let j = choose|j: int| i < j && occurs_at(s, p, j);
        lemma_last_exists(s, p, j)
    } else {
        i
    }
}

/// `find_last` gives nothing exactly where `p` stands nowhere in `s`.
pub proof fn lemma_find_last_none(s: Seq<u8>, p: Seq<u8>)
    ensures
        find_last(s, p) is None <==> forall|j: int| !occurs_at(s, p, j),
{
    if find_last(s, p) is None {
        assert forall|j: int| !occurs_at(s, p, j) by {
            if occurs_at(s, p, j) {
                let k = lemma_last_exists(s, p, j);
            }
        }
    } else {
        let k = choose|k: int| last_at(s, p, k);
        assert(occurs_at(s, p, k));
    }
}

/// A string may be cut before and after a pattern that stands in it.
pub proof fn lemma_cut(input: &str, sep: &str, at: int)
    requires
        occurs_at(input.spec_bytes(), sep.spec_bytes(), at),
        sep.spec_bytes().len() > 0 || at == 0 || at == input.spec_bytes().len(),
    ensures
        is_char_boundary(input.spec_bytes(), 0),
        is_char_boundary(input.spec_bytes(), at),
        is_char_boundary(input.spec_bytes(), at + sep.spec_bytes().len()),
        is_char_boundary(input.spec_bytes(), input.spec_bytes().len() as int),
{
    lemma_str_valid(input);
    lemma_str_valid(sep);
    lemma_occurrence_boundaries(input.spec_bytes(), sep.spec_bytes(), at);
    is_char_boundary_start_end_of_seq(input.spec_bytes());
}

/// Whether `needle` stands in `hay` at offset `at`.
pub fn matches_at(hay: &[u8], needle: &[u8], at: usize) -> (found: bool)
    ensures
        found == occurs_at(hay@, needle@, at as int),
{
    if needle.len() > hay.len() || at > hay.len() - needle.len() {
        return false;
    }
    let mut k: usize = 0;
    while k < needle.len()
        invariant
            k <= needle.len(),
            at + needle.len() <= hay.len(),
            forall|j: int| 0 <= j < k ==> hay@[at + j] == needle@[j],
        decreases needle.len() - k,
    {
        if hay[at + k] != needle[k] {
            assert(hay@.subrange(at as int, at + needle@.len())[k as int] != needle@[k as int]);
            return false;
        }
        k += 1;
    }
    assert(hay@.subrange(at as int, at + needle@.len()) =~= needle@);
    true
}

/// The offset of the first occurrence of `needle` in `hay`.
pub fn position(hay: &[u8], needle: &[u8]) -> (at: Option<usize>)
    ensures
        at is Some <==> find(hay@, needle@) is Some,
        at is Some ==> find(hay@, needle@) == Some(at->0 as int),
{
    if needle.len() > hay.len() {
        proof {
            lemma_find_none(hay@, needle@);
        }
        return None;
    }
    let last: usize = hay.len() - needle.len();
    let mut i: usize = 0;
    while i < last
        invariant
            i <= last,
            last + needle@.len() == hay@.len(),
            forall|j: int| 0 <= j < i ==> !occurs_at(hay@, needle@, j),
        decreases last - i,
    {
        if matches_at(hay, needle, i) {
            proof {
                lemma_find_first(hay@, needle@, i as int);
            }
            return Some(i);
        }
        i += 1;
    }
    if matches_at(hay, needle, last) {
        proof {
            lemma_find_first(hay@, needle@, last as int);
        }
        Some(last)
    } else {
        proof {
            lemma_find_none(hay@, needle@);
        }
        None
    }
}

/// The offset of the last occurrence of `needle` in `hay`.
pub fn position_last(hay: &[u8], needle: &[u8]) -> (at: Option<usize>)
    ensures
        at is Some <==> find_last(hay@, needle@) is Some,
        at is Some ==> find_last(hay@, needle@) == Some(at->0 as int),
{
    if needle.len() > hay.len() {
        proof {
            lemma_find_last_none(hay@, needle@);
        }
        return None;
    }
    let mut i: usize = hay.len() - needle.len();
    while i > 0
        invariant
            i + needle@.len() <= hay@.len(),
            forall|j: int| i < j ==> !occurs_at(hay@, needle@, j),
        decreases i,
    {
        if matches_at(hay, needle, i) {
            proof {
                lemma_find_last(hay@, needle@, i as int);
            }
            return Some(i);
        }
        i -= 1;
    }
    if matches_at(hay, needle, 0) {
        proof {
            lemma_find_last(hay@, needle@, 0);
        }
        Some(0)
    } else {
        proof {
            lemma_find_last_none(hay@, needle@);
        }
        None
    }
}

/// The number of bytes in `s`, with what is known of it.
pub fn byte_len(s: &str) -> (n: usize)
    ensures
        n == s.spec_bytes().len(),
{
    s.as_bytes().len()
}

/// Whether two runs of bytes are the same.
pub fn same_bytes(a: &[u8], b: &[u8]) -> (same: bool)
    ensures
        same == (a@ == b@),
{
    if a.len() != b.len() {
        return false;
    }
    let same = matches_at(a, b, 0);
    assert(a@.subrange(0, a@.len() as int) =~= a@);
    same
}

/// What stands before and after the first `sep` in `input`, or nothing where
/// `input` holds no `sep`.
pub fn split_once<'a>(input: &'a str, sep: &str) -> (parts: Option<(&'a str, &'a str)>)
    ensures
        pair_bytes(parts) == split_first(input.spec_bytes(), sep.spec_bytes()),
{
    let len: usize = byte_len(input);
    let width: usize = byte_len(sep);
    match position(input.as_bytes(), sep.as_bytes()) {
        Some(at) => {
            proof {
                lemma_find_some(input.spec_bytes(), sep.spec_bytes());
                if width == 0 {
                    assert(input.spec_bytes().subrange(0, 0) =~= sep.spec_bytes());
                    assert(occurs_at(input.spec_bytes(), sep.spec_bytes(), 0));
                }
                lemma_cut(input, sep, at as int);
            }
            Some((slice(input, 0, at), slice(input, at + width, len)))
        },
        None => None,
    }
}

/// What stands before and after the last `sep` in `input`, or nothing where
/// `input` holds no `sep`.
pub fn split_once_last<'a>(input: &'a str, sep: &str) -> (parts: Option<(&'a str, &'a str)>)
    ensures
        pair_bytes(parts) == split_last(input.spec_bytes(), sep.spec_bytes()),
{
    let len: usize = byte_len(input);
    let width: usize = byte_len(sep);
    match position_last(input.as_bytes(), sep.as_bytes()) {
        Some(at) => {
            proof {
                assert(last_at(input.spec_bytes(), sep.spec_bytes(), at as int));
                if width == 0 {
                    assert(input.spec_bytes().subrange(len as int, len as int)
                        =~= sep.spec_bytes());
                    assert(occurs_at(input.spec_bytes(), sep.spec_bytes(), len as int));
                }
                lemma_cut(input, sep, at as int);
            }
            Some((slice(input, 0, at), slice(input, at + width, len)))
        },
        None => None,
    }
}

/// `input` without `start` at its front, or nothing where `input` does not
/// start with `start`.
pub fn trim_start<'a>(input: &'a str, start: &str) -> (rest: Option<&'a str>)
    ensures
        bytes_of(rest) == strip_prefix(input.spec_bytes(), start.spec_bytes()),
{
    if matches_at(input.as_bytes(), start.as_bytes(), 0) {
        proof {
            lemma_str_valid(input);
            lemma_str_valid(start);
            lemma_occurrence_boundaries(input.spec_bytes(), start.spec_bytes(), 0);
            is_char_boundary_start_end_of_seq(input.spec_bytes());
        }
        let rest = slice(input, byte_len(start), byte_len(input));
        Some(rest)
    } else {
        None
    }
}

/// `input` without `end` at its back, or nothing where `input` does not end
/// with `end`.
pub fn end_diff<'a>(input: &'a str, end: &str) -> (rest: Option<&'a str>)
    ensures
        bytes_of(rest) == strip_suffix(input.spec_bytes(), end.spec_bytes()),
{
    if byte_len(end) > byte_len(input) {
        return None;
    }
    let diff: usize = byte_len(input) - byte_len(end);
    if matches_at(input.as_bytes(), end.as_bytes(), diff) {
        proof {
            lemma_str_valid(input);
            lemma_str_valid(end);
            if end.spec_bytes().len() > 0 {
                lemma_occurrence_boundaries(input.spec_bytes(), end.spec_bytes(), diff as int);
            }
            is_char_boundary_start_end_of_seq(input.spec_bytes());
        }
        let rest = slice(input, 0, diff);
        Some(rest)
    } else {
        None
    }
}

/// `input` without its first line and the line end after it, or nothing
/// where `input` holds no line end.
pub fn trim_first_line<'a>(input: &'a str) -> (rest: Option<&'a str>)
    ensures
        bytes_of(rest) == after_first_line(input.spec_bytes()),
{
    let line_end: [u8; 1] = [0x0a];
    assert(line_end@ =~= newline());
    let len: usize = byte_len(input);
    match position(input.as_bytes(), line_end.as_slice()) {
        Some(at) => {
            proof {
                lemma_find_some(input.spec_bytes(), newline());
                assert(occurs_at(input.spec_bytes(), newline(), at as int));
                lemma_str_valid(input);
                assert(valid_utf8(newline())) by {
                    reveal_with_fuel(valid_utf8, 2);
                    assert(pop_first_scalar(newline()) =~= Seq::<u8>::empty());
                }
                lemma_occurrence_boundaries(input.spec_bytes(), newline(), at as int);
                is_char_boundary_start_end_of_seq(input.spec_bytes());
            }
            Some(slice(input, at + 1, len))
        },
        None => None,
    }
}

/// Whichever of `a` and `b` comes first in `input`, with the byte offset at
/// which it stands; nothing where neither occurs. Where both stand at the
/// same offset the longer one is given.
pub fn which_comes_first<'a>(input: &str, a: &'a str, b: &'a str) -> (first: Option<
    (&'a str, usize),
>)
    ensures
        first == match first_of(input.spec_bytes(), a.spec_bytes(), b.spec_bytes()) {
            Some((is_a, at)) => Some((if is_a { a } else { b }, at as usize)),
            None => None,
        },
{
    let at_a = position(input.as_bytes(), a.as_bytes());
    let at_b = position(input.as_bytes(), b.as_bytes());
    match (at_a, at_b) {
        (None, None) => None,
        (None, Some(j)) => Some((b, j)),
        (Some(i), None) => Some((a, i)),
        (Some(i), Some(j)) => {
            if i < j || (i == j && byte_len(a) > byte_len(b)) {
                Some((a, i))
            } else {
                Some((b, j))
            }
        },
    }
}

} // verus!
