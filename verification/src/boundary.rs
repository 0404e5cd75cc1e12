//! Where a string may be cut: facts about character boundaries in UTF-8, and
//! the one function that cuts.
use vstd::prelude::*;
use vstd::string::StringSliceAdditionalSpecFns;
use vstd::utf8::*;

verus! {

/// The bytes of a string are valid UTF-8.
pub proof fn lemma_str_valid(s: &str)
    ensures
        valid_utf8(s.spec_bytes()),
{
    encode_utf8_valid_utf8(s@);
}

/// A byte that does not continue a character starts one.
pub proof fn lemma_boundary_at_leading(b: Seq<u8>, i: int)
    requires
        valid_utf8(b),
        0 <= i < b.len(),
        !is_continuation_byte(b[i]),
    ensures
        is_char_boundary(b, i),
{
    is_char_boundary_iff_not_is_continuation_byte(b, i);
}

/// The first byte of valid, non-empty UTF-8 does not continue a character.
pub proof fn lemma_first_byte_leads(b: Seq<u8>)
    requires
        valid_utf8(b),
        b.len() > 0,
    ensures
        !is_continuation_byte(b[0]),
{
}

/// A boundary of what follows a boundary is a boundary of the whole.
pub proof fn lemma_boundary_shift(b: Seq<u8>, i: int, k: int)
    requires
        valid_utf8(b),
        is_char_boundary(b, i),
        0 <= i <= b.len(),
        0 <= k <= b.len() - i,
        is_char_boundary(b.skip(i), k),
    ensures
        is_char_boundary(b, i + k),
    decreases b.len(),
{
    if i == 0 {
        assert(b.skip(0) =~= b);
    } else {
        let width = length_of_first_scalar(b);
        let rest = pop_first_scalar(b);
        assert(is_char_boundary(rest, i - width));
        assert(0 <= i - width) by {
            reveal_with_fuel(is_char_boundary, 2);
        }
        assert(rest.skip(i - width) =~= b.skip(i));
        lemma_boundary_shift(rest, i - width, k);
    }
}

/// Valid UTF-8 ends on a boundary of any valid UTF-8 that it begins.
pub proof fn lemma_boundary_after_prefix(b: Seq<u8>, p: Seq<u8>)
    requires
        valid_utf8(b),
        valid_utf8(p),
        p.is_prefix_of(b),
    ensures
        is_char_boundary(b, p.len() as int),
    decreases p.len(),
{
    if p.len() > 0 {
        let width = length_of_first_scalar(p);
        assert(b[0] == p[0]);
        assert(forall|j: int| 0 <= j < p.len() ==> b[j] == b.subrange(0, p.len() as int)[j]);
        assert(width == length_of_first_scalar(b));
        assert(width <= p.len());
        let p_rest = pop_first_scalar(p);
        let b_rest = pop_first_scalar(b);
        assert(p_rest =~= b_rest.subrange(0, p_rest.len() as int));
        lemma_boundary_after_prefix(b_rest, p_rest);
    }
}

/// Valid UTF-8 found inside valid UTF-8 starts and ends on boundaries. An
/// empty pattern is found everywhere, so it is asked to stand at the start
/// or at the end.
pub proof fn lemma_occurrence_boundaries(b: Seq<u8>, p: Seq<u8>, i: int)
    requires
        valid_utf8(b),
        valid_utf8(p),
        0 <= i,
        i + p.len() <= b.len(),
        b.subrange(i, i + p.len()) == p,
        p.len() > 0 || i == 0 || i == b.len(),
    ensures
        is_char_boundary(b, i),
        is_char_boundary(b, i + p.len()),
{
    is_char_boundary_start_end_of_seq(b);
    if p.len() > 0 {
        assert(b[i] == b.subrange(i, i + p.len())[0]);
        lemma_first_byte_leads(p);
        lemma_boundary_at_leading(b, i);
        valid_utf8_split(b, i);
        assert(p =~= b.skip(i).subrange(0, p.len() as int));
        lemma_boundary_after_prefix(b.skip(i), p);
        lemma_boundary_shift(b, i, p.len() as int);
    }
}

/// A boundary of a string is a boundary of each piece cut at a later boundary.
pub proof fn lemma_boundary_in_prefix(b: Seq<u8>, from: int, to: int)
    requires
        valid_utf8(b),
        0 <= from <= to <= b.len(),
        is_char_boundary(b, from),
        is_char_boundary(b, to),
    ensures
        valid_utf8(b.subrange(0, to)),
        is_char_boundary(b.subrange(0, to), from),
{
    valid_utf8_split(b, to);
    let head = b.subrange(0, to);
    if from == to {
        is_char_boundary_start_end_of_seq(head);
    } else {
        is_char_boundary_iff_not_is_continuation_byte(b, from);
        assert(head[from] == b[from]);
        is_char_boundary_iff_not_is_continuation_byte(head, from);
    }
}

/// The part of `s` from byte `from` up to byte `to`.
pub(crate) fn slice<'a>(s: &'a str, from: usize, to: usize) -> (part: &'a str)
    requires
        from <= to <= s.spec_bytes().len(),
        is_char_boundary(s.spec_bytes(), from as int),
        is_char_boundary(s.spec_bytes(), to as int),
    ensures
        part.spec_bytes() == s.spec_bytes().subrange(from as int, to as int),
{
    proof {
        lemma_str_valid(s);
        lemma_boundary_in_prefix(s.spec_bytes(), from as int, to as int);
    }
    let (head, _) = s.split_at(to);
    let (_, part) = head.split_at(from);
    assert(part.spec_bytes() =~= s.spec_bytes().subrange(from as int, to as int));
    part
}

} // verus!
