//! The document format: named records, each a heading and a fenced block.
use crate::boundary::{lemma_boundary_at_leading, lemma_str_valid, slice};
use crate::number::{decimal, parse_decimal};
use crate::space::{trim, trimmed_bytes};
use crate::strings::{
    after_first_line, byte_len, bytes_of, find, find_last, first_of, lemma_cut, lemma_find_first,
    lemma_find_some, lemma_first_in_front, newline, occurs_at, position, same_bytes,
    split_once, split_once_last, trim_first_line, which_comes_first,
};
use vstd::prelude::*;
use vstd::string::StringSliceAdditionalSpecFns;
use vstd::utf8::*;

verus! {

/// The fence that keeps a body as it is written.
pub const DELIMITER_NEWLINE: &'static str = "```";

/// The fence that takes one line end off the end of a body.
pub const DELIMITER_NO_NEWLINE: &'static str = "````";

/// What a heading starts with.
pub const SUBTITLE: &'static str = "## ";

/// Why a text holds no record.
#[derive(Debug, Clone, Copy, PartialEq, Eq, Structural)]
pub enum ParseError {
    /// No fence stands in the text.
    MissingOpenFence,
    /// The opening fence is not followed by a fence of its own width.
    MissingCloseFence,
    /// No heading stands before the fence, or the heading names nothing.
    BadName,
    /// The fenced block does not hold a complete first line.
    BadInfoString,
}

/// One named block of a document, borrowed from its text.
#[derive(Debug, Clone, Copy)]
pub struct File<'a> {
    pub name: &'a str,
    pub content: &'a str,
    pub language: Option<&'a str>,
}

/// The records of a document, in the order in which they stand in it.
#[derive(Debug)]
pub struct Files<'a>(pub Vec<File<'a>>);

/// A record as the bytes it holds.
pub struct Record {
    pub name: Seq<u8>,
    pub content: Seq<u8>,
    pub language: Option<Seq<u8>>,
}

impl<'a> View for File<'a> {
    type V = Record;

    open spec fn view(&self) -> Record {
        Record {
            name: self.name.spec_bytes(),
            content: self.content.spec_bytes(),
            language: bytes_of(self.language),
        }
    }
}

impl<'a> View for Files<'a> {
    type V = Seq<Record>;

    open spec fn view(&self) -> Seq<Record> {
        self.0@.map_values(|file: File<'a>| file@)
    }
}

/// Three backticks.
pub open spec fn short_fence() -> Seq<u8> {
    seq![0x60u8, 0x60u8, 0x60u8]
}

/// Four backticks.
pub open spec fn long_fence() -> Seq<u8> {
    seq![0x60u8, 0x60u8, 0x60u8, 0x60u8]
}

/// The fence of either width.
pub open spec fn fence(wide: bool) -> Seq<u8> {
    if wide {
        long_fence()
    } else {
        short_fence()
    }
}

/// Two hashes and a space.
pub open spec fn heading() -> Seq<u8> {
    seq![0x23u8, 0x23u8, 0x20u8]
}

/// `s` up to its first line end, or all of it where it has none.
pub open spec fn first_line(s: Seq<u8>) -> Seq<u8> {
    match find(s, newline()) {
        Some(at) => s.take(at),
        None => s,
    }
}

/// The name that the text before a fence gives to the record: what follows
/// the last heading mark on its line, trimmed. A name is never empty.
pub open spec fn name_of(header: Seq<u8>) -> Option<Seq<u8>> {
    match find_last(header, heading()) {
        Some(at) => {
            let name = trimmed_bytes(first_line(header.skip(at + 3)));
            if name.len() > 0 {
                Some(name)
            } else {
                None
            }
        },
        None => None,
    }
}

/// The language that the text between two fences names on its first line.
/// The outer `None` stands for a text without a line end, the inner one for
/// a first line that names nothing.
pub open spec fn language_of(interior: Seq<u8>) -> Option<Option<Seq<u8>>> {
    match find(interior, newline()) {
        Some(at) => {
            let tag = trimmed_bytes(interior.take(at));
            if tag.len() > 0 {
                Some(Some(tag))
            } else {
                Some(None)
            }
        },
        None => None,
    }
}

/// `body` as a record keeps it: between wide fences one line end at its end
/// does not belong to it.
pub open spec fn kept(body: Seq<u8>, wide: bool) -> Seq<u8> {
    if wide && newline().is_suffix_of(body) {
        body.drop_last()
    } else {
        body
    }
}

/// The first record of `s` and what follows its closing fence.
pub open spec fn parse_one(s: Seq<u8>) -> Result<(Record, Seq<u8>), ParseError> {
    match first_of(s, short_fence(), long_fence()) {
        None => Err(ParseError::MissingOpenFence),
        Some((is_short, at)) => {
            let mark = fence(!is_short);
            let after = s.skip(at + mark.len());
            match (name_of(s.take(at)), find(after, mark)) {
                (None, _) => Err(ParseError::BadName),
                (Some(_), None) => Err(ParseError::MissingCloseFence),
                (Some(name), Some(end)) => {
                    let interior = after.take(end);
                    match (language_of(interior), after_first_line(interior)) {
                        (Some(language), Some(body)) => Ok(
                            (
                                Record { name, content: kept(body, !is_short), language },
                                after.skip(end + mark.len()),
                            ),
                        ),
                        _ => Err(ParseError::BadInfoString),
                    }
                },
            }
        },
    }
}

/// Whether the first fence of `s` is a wide one.
pub open spec fn opens_wide(s: Seq<u8>) -> bool {
    match first_of(s, short_fence(), long_fence()) {
        Some((is_short, _)) => !is_short,
        None => false,
    }
}

/// What stands in `s` between its first fence and the next of that width,
/// after the line that the opening fence stands on.
pub open spec fn fenced_body(s: Seq<u8>) -> Option<Seq<u8>> {
    match first_of(s, short_fence(), long_fence()) {
        Some((is_short, at)) => {
            let mark = fence(!is_short);
            let after = s.skip(at + mark.len());
            match find(after, mark) {
                Some(end) => after_first_line(after.take(end)),
                None => None,
            }
        },
        None => None,
    }
}

/// What the line of the first fence of `s` says after the fence, trimmed:
/// the info string. Empty where `s` has no such line.
pub open spec fn info_string(s: Seq<u8>) -> Seq<u8> {
    match first_of(s, short_fence(), long_fence()) {
        Some((is_short, at)) => trimmed_bytes(first_line(s.skip(at + fence(!is_short).len()))),
        None => Seq::empty(),
    }
}

/// The records that stand at the front of `s`, one after the other, and the
/// text after the last of them.
pub open spec fn parse_all(s: Seq<u8>) -> (Seq<Record>, Seq<u8>)
    decreases s.len(),
    via parse_all_decreases
{
    match parse_one(s) {
        Ok((record, rest)) => (seq![record] + parse_all(rest).0, parse_all(rest).1),
        Err(_) => (Seq::empty(), s),
    }
}

#[via_fn]
proof fn parse_all_decreases(s: Seq<u8>) {
    if parse_one(s) is Ok {
        lemma_parse_one_consumes(s);
    }
}

/// A record takes up at least its two fences.
pub proof fn lemma_parse_one_consumes(s: Seq<u8>)
    requires
        parse_one(s) is Ok,
    ensures
        parse_one(s)->Ok_0.1.len() + 6 <= s.len(),
{
    let (is_short, at) = first_of(s, short_fence(), long_fence())->0;
    let mark = fence(!is_short);
    if find(s, short_fence()) is Some {
        lemma_find_some(s, short_fence());
    }
    if find(s, long_fence()) is Some {
        lemma_find_some(s, long_fence());
    }
    assert(occurs_at(s, mark, at));
    let after = s.skip(at + mark.len());
    lemma_find_some(after, mark);
}

/// The records of a document and the text after them. A document holds at
/// least one record: the text that follows the last one is left over, and
/// where the first one is missing the text is no document.
pub open spec fn parse_document(s: Seq<u8>) -> Result<(Seq<Record>, Seq<u8>), ParseError> {
    match parse_one(s) {
        Ok(_) => Ok(parse_all(s)),
        Err(error) => Err(error),
    }
}

/// The first record called `name`.
pub open spec fn lookup(records: Seq<Record>, name: Seq<u8>) -> Option<Record>
    decreases records.len(),
{
    if records.len() == 0 {
        None
    } else if records.first().name == name {
        Some(records.first())
    } else {
        lookup(records.drop_first(), name)
    }
}

/// The body of the first record called `name`.
pub open spec fn content_named(records: Seq<Record>, name: Seq<u8>) -> Option<Seq<u8>> {
    match lookup(records, name) {
        Some(record) => Some(record.content),
        None => None,
    }
}

/// The command that a document gives: the body of the record `command`,
/// trimmed.
pub open spec fn command_of(records: Seq<Record>) -> Option<Seq<u8>> {
    match content_named(records, "command".spec_bytes()) {
        Some(body) => Some(trimmed_bytes(body)),
        None => None,
    }
}

/// The exit code that a document asks for: the body of the record `status`,
/// trimmed and read as a decimal number. A body that is no such number asks
/// for nothing.
pub open spec fn status_of(records: Seq<Record>) -> Option<i32> {
    match content_named(records, "status".spec_bytes()) {
        Some(body) => decimal(trimmed_bytes(body)),
        None => None,
    }
}

/// A record that may be absent, as bytes.
pub open spec fn record_of<'a>(file: Option<File<'a>>) -> Option<Record> {
    match file {
        Some(file) => Some(file@),
        None => None,
    }
}

/// Parsed records with the rest of the text, as bytes.
pub open spec fn outcomes<'a>(parsed: Result<(Files<'a>, &'a str), ParseError>) -> Result<
    (Seq<Record>, Seq<u8>),
    ParseError,
> {
    match parsed {
        Ok((files, rest)) => Ok((files@, rest.spec_bytes())),
        Err(error) => Err(error),
    }
}

/// A parsed record with the rest of the text, as bytes.
pub open spec fn outcome<'a>(parsed: Result<(File<'a>, &'a str), ParseError>) -> Result<
    (Record, Seq<u8>),
    ParseError,
> {
    match parsed {
        Ok((file, rest)) => Ok((file@, rest.spec_bytes())),
        Err(error) => Err(error),
    }
}

/// The bytes of a language that may be absent twice over.
pub open spec fn language_bytes(language: Option<Option<&str>>) -> Option<Option<Seq<u8>>> {
    match language {
        Some(tag) => Some(bytes_of(tag)),
        None => None,
    }
}

/// The bytes of the three marks.
pub proof fn lemma_marks()
    ensures
        DELIMITER_NEWLINE.spec_bytes() == short_fence(),
        DELIMITER_NO_NEWLINE.spec_bytes() == long_fence(),
        SUBTITLE.spec_bytes() == heading(),
{
    reveal_strlit("```");
    reveal_strlit("````");
    reveal_strlit("## ");
    assert(DELIMITER_NEWLINE@ =~= seq!['`', '`', '`']);
    assert(DELIMITER_NO_NEWLINE@ =~= seq!['`', '`', '`', '`']);
    assert(SUBTITLE@ =~= seq!['#', '#', ' ']);
    is_ascii_chars_encode_utf8(DELIMITER_NEWLINE@);
    is_ascii_chars_encode_utf8(DELIMITER_NO_NEWLINE@);
    is_ascii_chars_encode_utf8(SUBTITLE@);
    assert(DELIMITER_NEWLINE.spec_bytes() =~= short_fence());
    assert(DELIMITER_NO_NEWLINE.spec_bytes() =~= long_fence());
    assert(SUBTITLE.spec_bytes() =~= heading());
}

impl<'a> File<'a> {
    /// Reads the first record of `s`: the name from the last heading before
    /// the first fence, the language from the rest of the fence's line, and
    /// the body from there to the next fence of the same width. With it
    /// comes the text after that closing fence.
    pub fn from_str(s: &'a str) -> (parsed: Result<(Self, &'a str), ParseError>)
        ensures
            outcome(parsed) == parse_one(s.spec_bytes()),
            parsed is Ok ==> ({
                let file = parsed->Ok_0.0;
                let body = fenced_body(s.spec_bytes())->0;
                &&& fenced_body(s.spec_bytes()) is Some
                &&& file.name.spec_bytes().len() > 0
                &&& trimmed_bytes(file.name.spec_bytes()) == file.name.spec_bytes()
                &&& bytes_of(file.language) == if info_string(s.spec_bytes()).len() == 0 {
                    None
                } else {
                    Some(info_string(s.spec_bytes()))
                }
                &&& !opens_wide(s.spec_bytes()) ==> file.content.spec_bytes() == body
                &&& opens_wide(s.spec_bytes()) && newline().is_suffix_of(body)
                    ==> file.content.spec_bytes() + newline() == body
                &&& opens_wide(s.spec_bytes()) && !newline().is_suffix_of(body)
                    ==> file.content.spec_bytes() == body
            }),
    {
        proof {
            lemma_marks();
        }
        let len: usize = byte_len(s);
        let (delimiter, start) = match which_comes_first(
            s,
            DELIMITER_NEWLINE,
            DELIMITER_NO_NEWLINE,
        ) {
            Some(found) => found,
            None => {
                return Err(ParseError::MissingOpenFence);
            },
        };
        let width: usize = byte_len(delimiter);
        let wide: bool = width == 4;
        proof {
            let text = s.spec_bytes();
            let mark = delimiter.spec_bytes();
            if find(text, short_fence()) is Some {
                lemma_find_some(text, short_fence());
            }
            if find(text, long_fence()) is Some {
                lemma_find_some(text, long_fence());
            }
            assert(occurs_at(text, mark, start as int));
            lemma_cut(s, delimiter, start as int);
        }
        let intro = slice(s, 0, start);
        let after = slice(s, start + width, len);
        let name = match Self::parse_name(intro) {
            Some(name) => name,
            None => {
                return Err(ParseError::BadName);
            },
        };
        let (interior, rest) = match split_once(after, delimiter) {
            Some(parts) => parts,
            None => {
                return Err(ParseError::MissingCloseFence);
            },
        };
        let language = match Self::parse_language(interior) {
            Some(language) => language,
            None => {
                return Err(ParseError::BadInfoString);
            },
        };
        let body = match trim_first_line(interior) {
            Some(body) => body,
            None => {
                return Err(ParseError::BadInfoString);
            },
        };
        let content = if wide {
            Self::without_line_end(body)
        } else {
            body
        };
        proof {
            if newline().is_suffix_of(body.spec_bytes()) {
                assert(body.spec_bytes().drop_last() + newline() =~= body.spec_bytes());
            }
            let inner = interior.spec_bytes();
            lemma_find_some(after.spec_bytes(), delimiter.spec_bytes());
            lemma_find_some(inner, newline());
            let end = find(after.spec_bytes(), delimiter.spec_bytes())->0;
            let line_end = find(inner, newline())->0;
            lemma_first_in_front(after.spec_bytes(), newline(), end, line_end);
            lemma_find_first(after.spec_bytes(), newline(), line_end);
            assert(after.spec_bytes().take(line_end) =~= inner.take(line_end));
        }
        Ok((File { name, content, language }, rest))
    }

    /// The name that `input`, the text before a fence, gives to the record:
    /// what follows the last heading mark on its line, trimmed. Nothing
    /// where `input` holds no heading mark or the name is empty.
    pub fn parse_name(input: &'a str) -> (name: Option<&'a str>)
        ensures
            bytes_of(name) == name_of(input.spec_bytes()),
            name is Some ==> name->0.spec_bytes().len() > 0 && trimmed_bytes(
                name->0.spec_bytes(),
            ) == name->0.spec_bytes(),
    {
        proof {
            lemma_marks();
        }
        let (_, tail) = match split_once_last(input, SUBTITLE) {
            Some(parts) => parts,
            None => {
                return None;
            },
        };
        let line = Self::first_line(tail);
        let name = trim(line);
        if byte_len(name) == 0 {
            None
        } else {
            Some(name)
        }
    }

    /// The language that `input`, the text between two fences, names on its
    /// first line, trimmed; the inner `None` where that line names nothing.
    /// Nothing where `input` holds no line end.
    pub fn parse_language(input: &'a str) -> (language: Option<Option<&'a str>>)
        ensures
            language_bytes(language) == language_of(input.spec_bytes()),
    {
        let line_end: [u8; 1] = [0x0a];
        assert(line_end@ =~= newline());
        if position(input.as_bytes(), line_end.as_slice()).is_none() {
            return None;
        }
        let line = Self::first_line(input);
        let tag = trim(line);
        if byte_len(tag) == 0 {
            Some(None)
        } else {
            Some(Some(tag))
        }
    }

    /// `input` up to its first line end, or all of it where it has none.
    fn first_line(input: &'a str) -> (line: &'a str)
        ensures
            line.spec_bytes() == first_line(input.spec_bytes()),
    {
        let line_end: [u8; 1] = [0x0a];
        assert(line_end@ =~= newline());
        match position(input.as_bytes(), line_end.as_slice()) {
            Some(at) => {
                proof {
                    lemma_find_some(input.spec_bytes(), newline());
                    lemma_str_valid(input);
                    lemma_boundary_at_leading(input.spec_bytes(), at as int);
                    is_char_boundary_start_end_of_seq(input.spec_bytes());
                }
                slice(input, 0, at)
            },
            None => input,
        }
    }

    /// `body` without the line end at its end, where it ends with one.
    fn without_line_end(body: &'a str) -> (short: &'a str)
        ensures
            short.spec_bytes() == kept(body.spec_bytes(), true),
    {
        let len: usize = byte_len(body);
        if len > 0 && body.as_bytes()[len - 1] == 0x0a {
            proof {
                let bytes = body.spec_bytes();
                assert(bytes.subrange(len - 1, len as int) =~= newline());
                lemma_str_valid(body);
                lemma_boundary_at_leading(bytes, len - 1);
                is_char_boundary_start_end_of_seq(bytes);
            }
            slice(body, 0, len - 1)
        } else {
            proof {
                let bytes = body.spec_bytes();
                if len > 0 {
                    assert(bytes.subrange(len - 1, len as int)[0] == bytes[len - 1]);
                }
            }
            body
        }
    }
}

impl<'a> Files<'a> {
    /// Reads the records of a document: record after record from the front
    /// of `input`, until what is left starts with none. That rest comes with
    /// them. A text that starts with no record is refused, for the reason
    /// for which its first record is.
    pub fn from_str(input: &'a str) -> (parsed: Result<(Self, &'a str), ParseError>)
        ensures
            outcomes(parsed) == parse_document(input.spec_bytes()),
            parsed is Ok ==> parsed->Ok_0.0@.len() > 0,
            parsed is Err <==> parse_one(input.spec_bytes()) is Err,
    {
        let mut files: Vec<File<'a>> = Vec::new();
        let mut rest: &'a str = input;
        let ghost text = input.spec_bytes();
        loop
            invariant
                text == input.spec_bytes(),
                parse_all(text).0 == files@.map_values(|file: File<'a>| file@) + parse_all(
                    rest.spec_bytes(),
                ).0,
                parse_all(text).1 == parse_all(rest.spec_bytes()).1,
                files@.len() == 0 ==> rest.spec_bytes() == text,
            decreases rest.spec_bytes().len(),
        {
            match File::from_str(rest) {
                Ok((file, left)) => {
                    proof {
                        lemma_parse_one_consumes(rest.spec_bytes());
                        let before = files@.map_values(|file: File<'a>| file@);
                        let now = files@.push(file).map_values(|file: File<'a>| file@);
                        assert(now =~= before + seq![file@]);
                        assert(before + (seq![file@] + parse_all(left.spec_bytes()).0) =~= now
                            + parse_all(left.spec_bytes()).0);
                    }
                    files.push(file);
                    rest = left;
                },
                Err(error) => {
                    if files.len() == 0 {
                        return Err(error);
                    } else {
                        proof {
                            let records = files@.map_values(|file: File<'a>| file@);
                            assert(records + Seq::<Record>::empty() =~= records);
                            if parse_one(text) is Err {
                                assert(parse_all(text).0.len() == 0);
                            }
                        }
                        return Ok((Files(files), rest));
                    }
                },
            }
        }
    }

    /// The first record called `name`.
    pub fn get(&self, name: &str) -> (file: Option<File<'a>>)
        ensures
            record_of(file) == lookup(self@, name.spec_bytes()),
    {
        let mut i: usize = 0;
        assert(self@.skip(0) =~= self@);
        while i < self.0.len()
            invariant
                i <= self.0@.len(),
                lookup(self@, name.spec_bytes()) == lookup(self@.skip(i as int), name.spec_bytes()),
            decreases self.0@.len() - i,
        {
            let file = self.0[i];
            proof {
                let left = self@.skip(i as int);
                assert(left.first() == file@);
                assert(left.drop_first() =~= self@.skip(i + 1));
            }
            if same_bytes(file.name.as_bytes(), name.as_bytes()) {
                return Some(file);
            }
            i += 1;
        }
        None
    }

    /// The output that the command must write: the body of the record
    /// `stdout`.
    pub fn stdout(&self) -> (body: Option<&'a str>)
        ensures
            bytes_of(body) == content_named(self@, "stdout".spec_bytes()),
    {
        match self.get("stdout") {
            Some(file) => Some(file.content),
            None => None,
        }
    }

    /// The input that the command is given: the body of the record `stdin`.
    pub fn stdin(&self) -> (body: Option<&'a str>)
        ensures
            bytes_of(body) == content_named(self@, "stdin".spec_bytes()),
    {
        match self.get("stdin") {
            Some(file) => Some(file.content),
            None => None,
        }
    }

    /// The errors that the command must write: the body of the record
    /// `stderr`.
    pub fn stderr(&self) -> (body: Option<&'a str>)
        ensures
            bytes_of(body) == content_named(self@, "stderr".spec_bytes()),
    {
        match self.get("stderr") {
            Some(file) => Some(file.content),
            None => None,
        }
    }

    /// The command to run: the body of the record `command`, trimmed.
    pub fn command(&self) -> (line: Option<&'a str>)
        ensures
            bytes_of(line) == command_of(self@),
    {
        match self.get("command") {
            Some(file) => Some(trim(file.content)),
            None => None,
        }
    }

    /// The exit code that the command must give: the body of the record
    /// `status`, trimmed and read as a decimal number. Nothing where the
    /// document has no such record or its body is no such number.
    pub fn status(&self) -> (code: Option<i32>)
        ensures
            code == status_of(self@),
    {
        match self.get("status") {
            Some(file) => parse_decimal(trim(file.content)),
            None => None,
        }
    }
}

} // verus!
