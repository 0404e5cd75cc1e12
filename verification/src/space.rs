//! White space, and what is left of a text when the white space around it is
//! taken away.
use crate::boundary::{
    lemma_boundary_after_prefix, lemma_boundary_at_leading, lemma_boundary_shift, lemma_str_valid,
    slice,
};
use crate::validity::lemma_decoded_bounds;
use vstd::prelude::*;
use vstd::string::StringSliceAdditionalSpecFns;
use vstd::utf8::*;

verus! {

/// The scalar values that Unicode counts as white space (`White_Space`).
pub open spec fn is_space_scalar(u: u32) -> bool {
    ||| 0x09 <= u <= 0x0d
    ||| u == 0x20
    ||| u == 0x85
    ||| u == 0xa0
    ||| u == 0x1680
    ||| 0x2000 <= u <= 0x200a
    ||| u == 0x2028
    ||| u == 0x2029
    ||| u == 0x202f
    ||| u == 0x205f
    ||| u == 0x3000
}

/// `c` is white space.
pub open spec fn is_whitespace(c: char) -> bool {
    is_space_scalar(c as u32)
}

/// `s` without the white space at its front.
pub open spec fn trim_front(s: Seq<char>) -> Seq<char>
    decreases s.len(),
{
    if s.len() > 0 && is_whitespace(s.first()) {
        trim_front(s.drop_first())
    } else {
        s
    }
}

/// `s` without the white space at its back.
pub open spec fn trim_back(s: Seq<char>) -> Seq<char>
    decreases s.len(),
{
    if s.len() > 0 && is_whitespace(s.last()) {
        trim_back(s.drop_last())
    } else {
        s
    }
}

/// `s` without the white space at either end.
pub open spec fn trimmed(s: Seq<char>) -> Seq<char> {
    trim_back(trim_front(s))
}

/// The bytes of the text that `b` encodes, trimmed.
pub open spec fn trimmed_bytes(b: Seq<u8>) -> Seq<u8> {
    encode_utf8(trimmed(decode_utf8(b)))
}

/// What is left of `s` without the white space at its front starts with no
/// white space, and is the back of `s`.
pub proof fn lemma_trim_front(s: Seq<char>)
    ensures
        trim_front(s).len() <= s.len(),
        trim_front(s) == s.skip(s.len() - trim_front(s).len()),
        trim_front(s).len() > 0 ==> !is_whitespace(trim_front(s).first()),
    decreases s.len(),
{
    if s.len() > 0 && is_whitespace(s.first()) {
        let rest = s.drop_first();
        lemma_trim_front(rest);
        assert(rest.skip(rest.len() - trim_front(rest).len()) =~= s.skip(
            s.len() - trim_front(rest).len(),
        ));
    } else {
        assert(s.skip(0) =~= s);
    }
}

/// What is left of `s` without the white space at its back ends with no
/// white space, and is the front of `s`.
pub proof fn lemma_trim_back(s: Seq<char>)
    ensures
        trim_back(s).len() <= s.len(),
        trim_back(s) == s.take(trim_back(s).len() as int),
        trim_back(s).len() > 0 ==> !is_whitespace(trim_back(s).last()),
    decreases s.len(),
{
    if s.len() > 0 && is_whitespace(s.last()) {
        let rest = s.drop_last();
        lemma_trim_back(rest);
        assert(rest.take(trim_back(rest).len() as int) =~= s.take(trim_back(rest).len() as int));
    } else {
        assert(s.take(s.len() as int) =~= s);
    }
}

/// Trimming what is trimmed changes nothing, and what is trimmed neither
/// starts nor ends with white space.
pub proof fn law_trimmed_once(s: Seq<char>)
    ensures
        trimmed(trimmed(s)) == trimmed(s),
        trimmed(s).len() > 0 ==> !is_whitespace(trimmed(s).first()) && !is_whitespace(
            trimmed(s).last(),
        ),
{
    let front = trim_front(s);
    let core = trim_back(front);
    lemma_trim_front(s);
    lemma_trim_back(front);
    if core.len() > 0 {
        assert(core.first() == front.first());
    }
}

/// Trimming the bytes of what is trimmed changes nothing.
pub proof fn law_trimmed_bytes_once(b: Seq<u8>)
    ensures
        trimmed_bytes(trimmed_bytes(b)) == trimmed_bytes(b),
{
    let core = trimmed(decode_utf8(b));
    encode_utf8_decode_utf8(core);
    law_trimmed_once(decode_utf8(b));
}

/// Which one-byte encodings are white space.
proof fn lemma_space_in_one(b0: u8)
    requires
        is_leading_byte_width_1(b0),
    ensures
        is_space_scalar(codepoint_width_1(b0)) <==> (0x09 <= b0 <= 0x0d || b0 == 0x20),
{
    let cp = (b0 & 0x7f) as u32;
    assert(cp == b0) by (bit_vector)
        requires
            cp == (b0 & 0x7f) as u32,
            b0 <= 0x7f,
    ;
}

/// Which two-byte encodings are white space.
proof fn lemma_space_in_two(b0: u8, b1: u8)
    requires
        is_leading_byte_width_2(b0),
        is_continuation_byte(b1),
        0x80 <= codepoint_width_2(b0, b1),
    ensures
        is_space_scalar(codepoint_width_2(b0, b1)) <==> (b0 == 0xc2 && (b1 == 0x85 || b1 == 0xa0)),
{
    let cp = (((b0 & 0x1f) as u32) << 6) | ((b1 & 0x3f) as u32);
    assert(cp == codepoint_width_2(b0, b1));
    assert(({
        ||| 0x09 <= cp <= 0x0d
        ||| cp == 0x20
        ||| cp == 0x85
        ||| cp == 0xa0
        ||| cp == 0x1680
        ||| 0x2000 <= cp <= 0x200a
        ||| cp == 0x2028
        ||| cp == 0x2029
        ||| cp == 0x202f
        ||| cp == 0x205f
        ||| cp == 0x3000
    }) <==> (b0 == 0xc2 && (b1 == 0x85 || b1 == 0xa0))) by (bit_vector)
        requires
            cp == (((b0 & 0x1f) as u32) << 6) | ((b1 & 0x3f) as u32),
            0xc0 <= b0 <= 0xdf,
            0x80 <= b1 <= 0xbf,
            0x80 <= cp,
    ;
}

/// Which three-byte encodings are white space.
proof fn lemma_space_in_three(b0: u8, b1: u8, b2: u8)
    requires
        is_leading_byte_width_3(b0),
        is_continuation_byte(b1),
        is_continuation_byte(b2),
        0x800 <= codepoint_width_3(b0, b1, b2),
    ensures
        is_space_scalar(codepoint_width_3(b0, b1, b2)) <==> {
            ||| b0 == 0xe1 && b1 == 0x9a && b2 == 0x80
            ||| b0 == 0xe2 && b1 == 0x80 && (0x80 <= b2 <= 0x8a || b2 == 0xa8 || b2 == 0xa9 || b2
                == 0xaf)
            ||| b0 == 0xe2 && b1 == 0x81 && b2 == 0x9f
            ||| b0 == 0xe3 && b1 == 0x80 && b2 == 0x80
        },
{
    let cp = (((b0 & 0x0f) as u32) << 12) | (((b1 & 0x3f) as u32) << 6) | ((b2 & 0x3f) as u32);
    assert(cp == codepoint_width_3(b0, b1, b2));
    assert(({
        ||| 0x09 <= cp <= 0x0d
        ||| cp == 0x20
        ||| cp == 0x85
        ||| cp == 0xa0
        ||| cp == 0x1680
        ||| 0x2000 <= cp <= 0x200a
        ||| cp == 0x2028
        ||| cp == 0x2029
        ||| cp == 0x202f
        ||| cp == 0x205f
        ||| cp == 0x3000
    }) <==> ({
        ||| b0 == 0xe1 && b1 == 0x9a && b2 == 0x80
        ||| b0 == 0xe2 && b1 == 0x80 && (0x80 <= b2 <= 0x8a || b2 == 0xa8 || b2 == 0xa9 || b2
            == 0xaf)
        ||| b0 == 0xe2 && b1 == 0x81 && b2 == 0x9f
        ||| b0 == 0xe3 && b1 == 0x80 && b2 == 0x80
    })) by (bit_vector)
        requires
            cp == (((b0 & 0x0f) as u32) << 12) | (((b1 & 0x3f) as u32) << 6) | ((b2 & 0x3f) as u32),
            0xe0 <= b0 <= 0xef,
            0x80 <= b1 <= 0xbf,
            0x80 <= b2 <= 0xbf,
            0x800 <= cp,
    ;
}

/// The first scalar of valid UTF-8 is a character's.
proof fn lemma_first_char(x: Seq<u8>)
    requires
        valid_first_scalar(x),
    ensures
        is_scalar(decode_first_scalar(x)),
        (decode_first_scalar(x) as char) as u32 == decode_first_scalar(x),
{
    lemma_decoded_bounds(x[0], x[1], x[2]);
}

/// The width in bytes of the white-space character that starts at `from`, or
/// zero where the character there is no white space.
fn space_width(b: &[u8], from: usize, to: usize) -> (width: usize)
    requires
        from < to <= b@.len(),
        valid_utf8(b@.subrange(from as int, to as int)),
    ensures
        width == if is_whitespace(decode_first_scalar(b@.subrange(from as int, to as int)) as char) {
            length_of_first_scalar(b@.subrange(from as int, to as int))
        } else {
            0
        },
        width <= to - from,
{
    let ghost x = b@.subrange(from as int, to as int);
    assert(valid_first_scalar(x));
    assert(x[0] == b@[from as int]);
    proof {
        lemma_first_char(x);
    }
    let b0: u8 = b[from];
    if b0 < 0x80 {
        proof {
            lemma_space_in_one(b0);
        }
        if (0x09 <= b0 && b0 <= 0x0d) || b0 == 0x20 {
            1
        } else {
            0
        }
    } else if b0 == 0xc2 {
        assert(x[1] == b@[from + 1]);
        let b1: u8 = b[from + 1];
        proof {
            lemma_space_in_two(b0, b1);
        }
        if b1 == 0x85 || b1 == 0xa0 {
            2
        } else {
            0
        }
    } else if b0 == 0xe1 || b0 == 0xe2 || b0 == 0xe3 {
        assert(x[1] == b@[from + 1]);
        assert(x[2] == b@[from + 2]);
        let b1: u8 = b[from + 1];
        let b2: u8 = b[from + 2];
        proof {
            lemma_space_in_three(b0, b1, b2);
        }
        if (b0 == 0xe1 && b1 == 0x9a && b2 == 0x80) || (b0 == 0xe2 && b1 == 0x80 && ((0x80 <= b2
            && b2 <= 0x8a) || b2 == 0xa8 || b2 == 0xa9 || b2 == 0xaf)) || (b0 == 0xe2 && b1 == 0x81
            && b2 == 0x9f) || (b0 == 0xe3 && b1 == 0x80 && b2 == 0x80) {
            3
        } else {
            0
        }
    } else {
        proof {
            if is_leading_byte_width_2(b0) {
                lemma_space_in_two(b0, x[1]);
            } else if is_leading_byte_width_3(b0) {
                lemma_space_in_three(b0, x[1], x[2]);
            }
        }
        0
    }
}

/// The characters of valid UTF-8 are its first character and those of the rest.
proof fn lemma_decode_step(x: Seq<u8>)
    requires
        valid_utf8(x),
        x.len() > 0,
    ensures
        decode_utf8(x).len() > 0,
        decode_utf8(x).first() == decode_first_scalar(x) as char,
        decode_utf8(x).drop_first() == decode_utf8(pop_first_scalar(x)),
        valid_utf8(pop_first_scalar(x)),
{
    let head = seq![decode_first_scalar(x) as char];
    let tail = decode_utf8(pop_first_scalar(x));
    assert(decode_utf8(x) == head + tail);
    assert((head + tail).drop_first() =~= tail);
}

/// Valid UTF-8 whose bytes after the first all continue a character is one
/// character long.
proof fn lemma_single_scalar(z: Seq<u8>)
    requires
        valid_utf8(z),
        z.len() > 0,
        forall|k: int| 0 < k < z.len() ==> is_continuation_byte(#[trigger] z[k]),
    ensures
        length_of_first_scalar(z) == z.len(),
        decode_utf8(z) == seq![decode_first_scalar(z) as char],
{
    reveal_with_fuel(valid_utf8, 2);
    let width = length_of_first_scalar(z);
    let rest = pop_first_scalar(z);
    assert(valid_first_scalar(z));
    assert(width <= z.len());
    if width < z.len() {
        assert(rest.len() > 0);
        assert(valid_first_scalar(rest));
        assert(rest[0] == z[width]);
        assert(is_continuation_byte(z[width]));
    }
    assert(rest =~= Seq::<u8>::empty());
    lemma_decode_step(z);
    assert(decode_utf8(z) =~= seq![decode_first_scalar(z) as char] + decode_utf8(rest));
    assert(decode_utf8(rest) =~= Seq::<char>::empty());
}

/// `s` without the white space at its front and at its back.
pub fn trim<'a>(s: &'a str) -> (core: &'a str)
    ensures
        core@ == trimmed(s@),
        core.spec_bytes() == trimmed_bytes(s.spec_bytes()),
        trimmed(core@) == core@,
        trimmed_bytes(core.spec_bytes()) == core.spec_bytes(),
{
    let b = s.as_bytes();
    let n: usize = b.len();
    proof {
        lemma_str_valid(s);
        encode_utf8_decode_utf8(s@);
        assert(b@.subrange(0, n as int) =~= b@);
    }
    let mut lo: usize = 0;
    while lo < n
        invariant
            lo <= n,
            n == b@.len(),
            valid_utf8(b@.subrange(lo as int, n as int)),
            trim_front(decode_utf8(b@)) == trim_front(decode_utf8(b@.subrange(lo as int, n as int))),
        ensures
            lo <= n,
            valid_utf8(b@.subrange(lo as int, n as int)),
            trim_front(decode_utf8(b@)) == decode_utf8(b@.subrange(lo as int, n as int)),
        decreases n - lo,
    {
        let ghost x = b@.subrange(lo as int, n as int);
        let width = space_width(b, lo, n);
        proof {
            lemma_decode_step(x);
        }
        if width == 0 {
            break;
        }
        proof {
            assert(pop_first_scalar(x) =~= b@.subrange(lo + width, n as int));
        }
        lo += width;
    }
    let mut hi: usize = n;
    while hi > lo
        invariant
            lo <= hi <= n,
            n == b@.len(),
            valid_utf8(b@.subrange(lo as int, hi as int)),
            trim_back(decode_utf8(b@.subrange(lo as int, n as int))) == trim_back(
                decode_utf8(b@.subrange(lo as int, hi as int)),
            ),
        ensures
            lo <= hi <= n,
            valid_utf8(b@.subrange(lo as int, hi as int)),
            trim_back(decode_utf8(b@.subrange(lo as int, n as int))) == decode_utf8(
                b@.subrange(lo as int, hi as int),
            ),
        decreases hi - lo,
    {
        let ghost y = b@.subrange(lo as int, hi as int);
        let mut start: usize = hi - 1;
        while start > lo && b[start] >= 0x80 && b[start] <= 0xbf
            invariant
                lo <= start < hi <= n,
                n == b@.len(),
                forall|k: int| start < k < hi ==> is_continuation_byte(#[trigger] b@[k]),
            decreases start,
        {
            start -= 1;
        }
        let ghost z = b@.subrange(start as int, hi as int);
        proof {
            assert(y[start - lo] == b@[start as int]);
            if start == lo {
                assert(valid_first_scalar(y));
            }
            assert(!is_continuation_byte(y[start - lo]));
            lemma_boundary_at_leading(y, start - lo);
            valid_utf8_split(y, start - lo);
            decode_utf8_split(y, start - lo);
            assert(y.subrange(start - lo, y.len() as int) =~= z);
            assert(y.subrange(0, start - lo) =~= b@.subrange(lo as int, start as int));
            assert forall|k: int| 0 < k < z.len() implies is_continuation_byte(#[trigger] z[k]) by {
                assert(z[k] == b@[start + k]);
            }
            lemma_single_scalar(z);
        }
        let width = space_width(b, start, hi);
        proof {
            let front = decode_utf8(b@.subrange(lo as int, start as int));
            let last = decode_first_scalar(z) as char;
            assert(decode_utf8(y) =~= front + seq![last]);
            assert((front + seq![last]).drop_last() =~= front);
            assert((front + seq![last]).last() == last);
        }
        if width == 0 {
            break;
        }
        hi = start;
    }
    proof {
        let bytes = s.spec_bytes();
        if lo < n {
            assert(valid_first_scalar(bytes.subrange(lo as int, n as int)));
            assert(bytes.subrange(lo as int, n as int)[0] == bytes[lo as int]);
            lemma_boundary_at_leading(bytes, lo as int);
        } else {
            is_char_boundary_start_end_of_seq(bytes);
        }
        assert(bytes.skip(lo as int) =~= bytes.subrange(lo as int, n as int));
        assert(bytes.subrange(lo as int, hi as int) =~= bytes.skip(lo as int).subrange(
            0,
            hi - lo,
        ));
        lemma_boundary_after_prefix(bytes.skip(lo as int), bytes.subrange(lo as int, hi as int));
        lemma_boundary_shift(bytes, lo as int, hi - lo);
    }
    let core = slice(s, lo, hi);
    proof {
        encode_utf8_decode_utf8(core@);
        if hi == lo {
            assert(b@.subrange(lo as int, hi as int) =~= Seq::<u8>::empty());
        }
        decode_utf8_encode_utf8(core.spec_bytes());
        law_trimmed_once(s@);
        law_trimmed_bytes_once(s.spec_bytes());
    }
    core
}

} // verus!
