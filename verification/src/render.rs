//! Writing records down as a document, and the law that reading the
//! document gives the records back.
use crate::document::{
    fence, heading, kept, language_of, long_fence, name_of, parse_all, parse_document, parse_one,
    short_fence, ParseError, Record,
};
use crate::space::{trimmed, trimmed_bytes};
use crate::strings::{
    after_first_line, find, first_at, first_of, last_at, lemma_find_first, lemma_find_last,
    lemma_find_none, lemma_find_some, newline, occurs_at,
};
use vstd::prelude::*;
use vstd::utf8::*;

verus! {

/// A record with the width of the fence to write it with.
pub struct Block {
    pub record: Record,
    pub wide: bool,
}

/// The language as it stands behind the opening fence.
pub open spec fn tag(language: Option<Seq<u8>>) -> Seq<u8> {
    match language {
        Some(language) => language,
        None => Seq::empty(),
    }
}

/// A body as it stands between its fences: before a wide fence it gets the
/// line end that reading takes off again.
pub open spec fn padded(content: Seq<u8>, wide: bool) -> Seq<u8> {
    if wide {
        content + newline()
    } else {
        content
    }
}

/// One record written down: the heading with the name, the fence with the
/// language, the body, and the fence again on a line of its own.
pub open spec fn render_one(block: Block) -> Seq<u8> {
    heading() + block.record.name + newline() + fence(block.wide) + tag(block.record.language)
        + newline() + padded(block.record.content, block.wide) + fence(block.wide) + newline()
}

/// Records written down one after the other.
pub open spec fn render(blocks: Seq<Block>) -> Seq<u8>
    decreases blocks.len(),
{
    if blocks.len() == 0 {
        Seq::empty()
    } else {
        render_one(blocks.first()) + render(blocks.drop_first())
    }
}

/// `text` holds no backtick.
pub open spec fn tickless(text: Seq<u8>) -> bool {
    forall|i: int| 0 <= i < text.len() ==> text[i] != 0x60
}

/// `text` holds neither a backtick nor a line end, and trimming leaves it as
/// it is.
pub open spec fn plain(text: Seq<u8>) -> bool {
    &&& forall|i: int| 0 <= i < text.len() ==> text[i] != 0x60 && text[i] != 0x0a
    &&& trimmed_bytes(text) == text
}

/// A body can stand between fences of this width: it holds no such fence,
/// and none comes about where the closing fence follows it.
pub open spec fn fits(content: Seq<u8>, wide: bool) -> bool {
    &&& forall|i: int| !occurs_at(content, fence(wide), i)
    &&& !wide && content.len() > 0 ==> content.last() != 0x60
}

/// A block can be written down and read again: its name is plain, not empty
/// and holds no heading mark, its language, if it has one, is plain and not
/// empty, and its body fits between its fences.
pub open spec fn well_formed(block: Block) -> bool {
    &&& block.record.name.len() > 0
    &&& plain(block.record.name)
    &&& forall|i: int| !occurs_at(block.record.name, heading(), i)
    &&& block.record.language is Some ==> block.record.language->0.len() > 0 && plain(
        block.record.language->0,
    )
    &&& fits(block.record.content, block.wide)
}

/// The records of blocks.
pub open spec fn records_of(blocks: Seq<Block>) -> Seq<Record> {
    blocks.map_values(|block: Block| block.record)
}

/// A pattern does not stand where one of its bytes differs from the text.
proof fn lemma_mismatch(s: Seq<u8>, p: Seq<u8>, at: int, i: int)
    requires
        0 <= i < p.len(),
        at < 0 || at + i >= s.len() || s[at + i] != p[i],
    ensures
        !occurs_at(s, p, at),
{
    if occurs_at(s, p, at) {
        assert(s.subrange(at, at + p.len())[i] == s[at + i]);
    }
}

/// Trimming nothing leaves nothing.
proof fn lemma_trimmed_empty()
    ensures
        trimmed_bytes(Seq::<u8>::empty()) == Seq::<u8>::empty(),
{
    let none = Seq::<u8>::empty();
    assert(decode_utf8(none) =~= Seq::<char>::empty());
    assert(trimmed(Seq::<char>::empty()) =~= Seq::<char>::empty());
    assert(encode_utf8(Seq::<char>::empty()) =~= none);
}

/// After text without a backtick a fence is the first fence, and the wider
/// of the two that start there.
proof fn lemma_opening(before: Seq<u8>, wide: bool, after: Seq<u8>)
    requires
        tickless(before),
        !wide ==> after.len() == 0 || after[0] != 0x60,
    ensures
        first_of(before + fence(wide) + after, short_fence(), long_fence()) == Some(
            (!wide, before.len() as int),
        ),
{
    let s = before + fence(wide) + after;
    let at = before.len() as int;
    assert forall|j: int| 0 <= j < at implies !occurs_at(s, short_fence(), j) && !occurs_at(
        s,
        long_fence(),
        j,
    ) by {
        assert(s[j] == before[j]);
        lemma_mismatch(s, short_fence(), j, 0);
        lemma_mismatch(s, long_fence(), j, 0);
    }
    assert(s.subrange(at, at + 3) =~= short_fence());
    assert(first_at(s, short_fence(), at));
    lemma_find_first(s, short_fence(), at);
    if wide {
        assert(s.subrange(at, at + 4) =~= long_fence());
        assert(first_at(s, long_fence(), at));
        lemma_find_first(s, long_fence(), at);
    } else {
        if after.len() > 0 {
            assert(s[at + 3] == after[0]);
        }
        lemma_mismatch(s, long_fence(), at, 3);
        if find(s, long_fence()) is Some {
            lemma_find_some(s, long_fence());
        }
    }
}

/// A heading with a plain name on its line names the record, whatever
/// stands before it.
proof fn lemma_name(lead: Seq<u8>, name: Seq<u8>)
    requires
        name.len() > 0,
        plain(name),
        forall|i: int| !occurs_at(name, heading(), i),
    ensures
        name_of(lead + heading() + name + newline()) == Some(name),
{
    let header = lead + heading() + name + newline();
    let at = lead.len() as int;
    assert(header.subrange(at, at + 3) =~= heading());
    assert forall|j: int| at < j implies !occurs_at(header, heading(), j) by {
        if j == at + 1 {
            assert(header[at + 2] == 0x20);
            lemma_mismatch(header, heading(), j, 1);
        } else if j == at + 2 {
            assert(header[at + 2] == 0x20);
            lemma_mismatch(header, heading(), j, 0);
        } else if j + 3 <= at + 3 + name.len() {
            if occurs_at(header, heading(), j) {
                assert(name.subrange(j - at - 3, j - at) =~= header.subrange(j, j + 3));
                assert(occurs_at(name, heading(), j - at - 3));
            }
        } else if j + 3 <= header.len() {
            let i = at + 3 + name.len() - j;
            assert(header[at + 3 + name.len()] == 0x0a);
            lemma_mismatch(header, heading(), j, i);
        }
    }
    assert(last_at(header, heading(), at));
    lemma_find_last(header, heading(), at);
    let line = header.skip(at + 3);
    assert(line =~= name + newline());
    lemma_first_line_end(name, Seq::empty());
    assert(name + newline() + Seq::<u8>::empty() =~= name + newline());
    assert(line.take(name.len() as int) =~= name);
}

/// The first line end after text that holds none is the one that follows it.
proof fn lemma_first_line_end(line: Seq<u8>, rest: Seq<u8>)
    requires
        forall|i: int| 0 <= i < line.len() ==> line[i] != 0x0a,
    ensures
        find(line + newline() + rest, newline()) == Some(line.len() as int),
{
    let s = line + newline() + rest;
    let at = line.len() as int;
    assert(s.subrange(at, at + 1) =~= newline());
    assert forall|j: int| 0 <= j < at implies !occurs_at(s, newline(), j) by {
        assert(s[j] == line[j]);
        lemma_mismatch(s, newline(), j, 0);
    }
    lemma_find_first(s, newline(), at);
}

/// The fence that follows a body that fits is the first one after the
/// opening line.
proof fn lemma_closing(language: Seq<u8>, content: Seq<u8>, wide: bool, rest: Seq<u8>)
    requires
        tickless(language),
        fits(content, wide),
    ensures
        find(
            language + newline() + padded(content, wide) + fence(wide) + rest,
            fence(wide),
        ) == Some((language.len() + 1 + padded(content, wide).len()) as int),
{
    let mark = fence(wide);
    let inner = language + newline() + padded(content, wide);
    let s = inner + mark + rest;
    let start = language.len() as int + 1;
    let at = inner.len() as int;
    assert(s.subrange(at, at + mark.len()) =~= mark);
    assert forall|j: int| 0 <= j < at implies !occurs_at(s, mark, j) by {
        if j < start {
            if j < language.len() {
                assert(s[j] == language[j]);
            } else {
                assert(s[j] == 0x0a);
            }
            lemma_mismatch(s, mark, j, 0);
        } else if j + mark.len() <= start + content.len() {
            if occurs_at(s, mark, j) {
                assert(content.subrange(j - start, j - start + mark.len()) =~= s.subrange(
                    j,
                    j + mark.len(),
                ));
                assert(occurs_at(content, mark, j - start));
            }
        } else if j < start + content.len() {
            let i = start + content.len() - j;
            if wide {
                assert(s[start + content.len()] == 0x0a);
                lemma_mismatch(s, mark, j, i);
            } else {
                assert(s[start + content.len() - 1] == content.last());
                lemma_mismatch(s, mark, j, i - 1);
            }
        } else {
            assert(wide);
            assert(s[j] == 0x0a);
            lemma_mismatch(s, mark, j, 0);
        }
    }
    lemma_find_first(s, mark, at);
}

/// What stands between the fences of a written block gives its language and
/// its body back.
proof fn lemma_interior(language: Option<Seq<u8>>, content: Seq<u8>, wide: bool)
    requires
        language is Some ==> language->0.len() > 0 && plain(language->0),
    ensures
        language_of(tag(language) + newline() + padded(content, wide)) == Some(language),
        after_first_line(tag(language) + newline() + padded(content, wide)) == Some(
            padded(content, wide),
        ),
        kept(padded(content, wide), wide) == content,
{
    let line = tag(language);
    let body = padded(content, wide);
    let inner = line + newline() + body;
    lemma_first_line_end(line, body);
    assert(inner.take(line.len() as int) =~= line);
    assert(inner.skip(line.len() as int + 1) =~= body);
    if language is None {
        lemma_trimmed_empty();
    }
    if wide {
        assert(body.subrange(body.len() - 1, body.len() as int) =~= newline());
        assert(body.drop_last() =~= content);
    }
}

/// What stands before the opening fence of a written block.
spec fn header_of(lead: Seq<u8>, block: Block) -> Seq<u8> {
    lead + heading() + block.record.name + newline()
}

/// What stands between the fences of a written block.
spec fn inner_of(block: Block) -> Seq<u8> {
    tag(block.record.language) + newline() + padded(block.record.content, block.wide)
}

/// What stands behind the opening fence of a written block.
spec fn after_of(block: Block, rest: Seq<u8>) -> Seq<u8> {
    inner_of(block) + fence(block.wide) + (newline() + rest)
}

/// How a written block lies in the text around it.
proof fn lemma_layout(lead: Seq<u8>, block: Block, rest: Seq<u8>)
    requires
        tickless(lead),
        well_formed(block),
    ensures
        ({
            let s = lead + render_one(block) + rest;
            let header = header_of(lead, block);
            let after = after_of(block, rest);
            let at = header.len() as int;
            let end = inner_of(block).len() as int;
            let width = fence(block.wide).len() as int;
            &&& s == header + fence(block.wide) + after
            &&& s.take(at) == header
            &&& s.skip(at + width) == after
            &&& after.take(end) == inner_of(block)
            &&& after.skip(end + width) == newline() + rest
            &&& tickless(header)
            &&& after.len() > 0 && after[0] != 0x60
        }),
{
    let record = block.record;
    let mark = fence(block.wide);
    let s = lead + render_one(block) + rest;
    let header = header_of(lead, block);
    let inner = inner_of(block);
    let after = after_of(block, rest);
    let at = header.len() as int;
    let end = inner.len() as int;
    assert(s =~= header + mark + after);
    assert(s.take(at) =~= header);
    assert(s.skip(at + mark.len()) =~= after);
    assert(after.take(end) =~= inner);
    assert(after.skip(end + mark.len()) =~= newline() + rest);
    assert forall|i: int| 0 <= i < header.len() implies header[i] != 0x60 by {
        if i < lead.len() {
            assert(header[i] == lead[i]);
        } else if i < lead.len() + 3 {
            assert(header[i] == heading()[i - lead.len()]);
        } else if i < lead.len() + 3 + record.name.len() {
            assert(header[i] == record.name[i - lead.len() - 3]);
        } else {
            assert(header[i] == 0x0a);
        }
    }
    if tag(record.language).len() > 0 {
        assert(after[0] == tag(record.language)[0]);
    } else {
        assert(after[0] == 0x0a);
    }
}

/// A text is read as the record that its parts give.
proof fn lemma_parse_parts(
    s: Seq<u8>,
    wide: bool,
    at: int,
    end: int,
    record: Record,
    body: Seq<u8>,
)
    requires
        first_of(s, short_fence(), long_fence()) == Some((!wide, at)),
        name_of(s.take(at)) == Some(record.name),
        find(s.skip(at + fence(wide).len()), fence(wide)) == Some(end),
        language_of(s.skip(at + fence(wide).len()).take(end)) == Some(record.language),
        after_first_line(s.skip(at + fence(wide).len()).take(end)) == Some(body),
        kept(body, wide) == record.content,
    ensures
        parse_one(s) == Ok::<(Record, Seq<u8>), ParseError>(
            (record, s.skip(at + fence(wide).len()).skip(end + fence(wide).len())),
        ),
{
}

/// A written block is read back as its record, whatever text without a
/// backtick stands before it and whatever follows it. The line end behind
/// its closing fence is left over.
pub proof fn lemma_parse_rendered(lead: Seq<u8>, block: Block, rest: Seq<u8>)
    requires
        tickless(lead),
        well_formed(block),
    ensures
        parse_one(lead + render_one(block) + rest) == Ok::<(Record, Seq<u8>), ParseError>(
            (block.record, newline() + rest),
        ),
{
    let record = block.record;
    let wide = block.wide;
    let s = lead + render_one(block) + rest;
    let header = header_of(lead, block);
    let after = after_of(block, rest);
    lemma_layout(lead, block, rest);
    lemma_opening(header, wide, after);
    lemma_name(lead, record.name);
    lemma_closing(tag(record.language), record.content, wide, newline() + rest);
    lemma_interior(record.language, record.content, wide);
    lemma_parse_parts(
        s,
        wide,
        header.len() as int,
        inner_of(block).len() as int,
        record,
        padded(record.content, wide),
    );
}

/// Text without a backtick holds no record.
proof fn lemma_parse_nothing(lead: Seq<u8>)
    requires
        tickless(lead),
    ensures
        parse_all(lead) == (Seq::<Record>::empty(), lead),
{
    assert forall|j: int| !occurs_at(lead, short_fence(), j) && !occurs_at(
        lead,
        long_fence(),
        j,
    ) by {
        if 0 <= j < lead.len() {
            lemma_mismatch(lead, short_fence(), j, 0);
            lemma_mismatch(lead, long_fence(), j, 0);
        }
    }
    lemma_find_none(lead, short_fence());
    lemma_find_none(lead, long_fence());
}

/// Written blocks are read back as their records, one after the other,
/// whatever text without a backtick stands before them.
pub proof fn lemma_parse_all_rendered(lead: Seq<u8>, blocks: Seq<Block>)
    requires
        tickless(lead),
        forall|i: int| 0 <= i < blocks.len() ==> well_formed(#[trigger] blocks[i]),
    ensures
        parse_all(lead + render(blocks)).0 == records_of(blocks),
        parse_all(lead + render(blocks)).1 == if blocks.len() == 0 {
            lead
        } else {
            newline()
        },
    decreases blocks.len(),
{
    if blocks.len() == 0 {
        assert(lead + render(blocks) =~= lead);
        lemma_parse_nothing(lead);
        assert(records_of(blocks) =~= Seq::<Record>::empty());
    } else {
        let first = blocks.first();
        let others = blocks.drop_first();
        let rest = render(others);
        assert(lead + render(blocks) =~= lead + render_one(first) + rest);
        lemma_parse_rendered(lead, first, rest);
        assert(tickless(newline()));
        assert forall|i: int| 0 <= i < others.len() implies well_formed(
            #[trigger] others[i],
        ) by {
            assert(others[i] == blocks[i + 1]);
        }
        lemma_parse_all_rendered(newline(), others);
        assert(records_of(blocks) =~= seq![first.record] + records_of(others));
        if others.len() == 0 {
            assert(newline() + rest =~= newline());
        }
    }
}

/// Reading what was written gives the records back: a document written from
/// well-formed blocks, at least one, is read as the records of those blocks,
/// in their order, and only the line end behind the last fence is left
/// over.
pub proof fn law_round_trip(blocks: Seq<Block>)
    requires
        blocks.len() > 0,
        forall|i: int| 0 <= i < blocks.len() ==> well_formed(#[trigger] blocks[i]),
    ensures
        parse_document(render(blocks)) == Ok::<(Seq<Record>, Seq<u8>), ParseError>(
            (records_of(blocks), newline()),
        ),
{
    let none = Seq::<u8>::empty();
    assert(none + render(blocks) =~= render(blocks));
    lemma_parse_all_rendered(none, blocks);
    assert(render(blocks) =~= none + render_one(blocks.first()) + render(blocks.drop_first()));
    lemma_parse_rendered(none, blocks.first(), render(blocks.drop_first()));
}

} // verus!
