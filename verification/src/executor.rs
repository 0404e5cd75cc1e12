//! What a document asks of a run, and whether a run gave it. The files are
//! written and the command is started elsewhere: here stands what to write,
//! what to start, and the judgement on what came back.
use crate::document::{command_of, content_named, status_of, File, Files, Record};
use crate::strings::{bytes_of, find, lemma_find_some, same_bytes, split_once};
use crate::validity::is_utf8;
use vstd::prelude::*;
use vstd::string::StringSliceAdditionalSpecFns;
use vstd::utf8::*;

verus! {

/// One of the two streams that a command writes to.
#[derive(Debug, Clone, Copy, PartialEq, Eq, Structural)]
pub enum Stream {
    Stdout,
    Stderr,
}

/// How a process ended.
#[derive(Debug, Clone, Copy, PartialEq, Eq, Structural)]
pub enum ExitStatus {
    /// It exited with this code.
    Exited(u32),
    /// A signal with this number ended it.
    Signaled(u8),
    /// It ended in another way that has a number.
    Other(i32),
    /// It ended, and how is not known.
    Undetermined,
}

/// Why a run does not pass.
#[derive(Debug, Clone, Copy, PartialEq, Eq, Structural)]
pub enum RunError {
    /// The document names no command.
    NoCommand,
    /// What the command wrote to a stream that the document speaks of is
    /// not UTF-8.
    Utf8,
    /// What the command wrote to this stream is not what the document gives.
    OutputMismatch(Stream),
    /// The document asks for the first exit code and the second one came.
    StatusMismatch(i32, i32),
    /// The document asks for no exit code and the command did not exit with
    /// zero.
    NonZeroExit,
    /// The document asks for an exit code and none is known.
    UndeterminedExit,
}

/// A command to start: the program, its arguments and its input.
#[derive(Debug)]
pub struct Invocation<'a> {
    pub program: &'a str,
    pub args: Vec<&'a str>,
    pub stdin: Option<&'a str>,
}

/// A command to start, as bytes.
pub struct Call {
    pub program: Seq<u8>,
    pub args: Seq<Seq<u8>>,
    pub stdin: Option<Seq<u8>>,
}

impl<'a> View for Invocation<'a> {
    type V = Call;

    open spec fn view(&self) -> Call {
        Call {
            program: self.program.spec_bytes(),
            args: self.args@.map_values(|arg: &'a str| arg.spec_bytes()),
            stdin: bytes_of(self.stdin),
        }
    }
}

/// A record of this name configures the run and is no file.
pub open spec fn reserved(name: Seq<u8>) -> bool {
    ||| name == "stdin".spec_bytes()
    ||| name == "stdout".spec_bytes()
    ||| name == "stderr".spec_bytes()
    ||| name == "command".spec_bytes()
    ||| name == "status".spec_bytes()
    ||| name == "success".spec_bytes()
}

/// The records that are files, in their order.
pub open spec fn files_of(records: Seq<Record>) -> Seq<Record> {
    records.filter(|record: Record| !reserved(record.name))
}

/// The files below a directory, each name with what the file holds.
pub type Tree = Map<Seq<u8>, Seq<u8>>;

/// The tree after `files` were written into it one after the other, each
/// under its name: a later file takes the place of an earlier one of the
/// same name.
pub open spec fn written(tree: Tree, files: Seq<Record>) -> Tree
    decreases files.len(),
{
    if files.len() == 0 {
        tree
    } else {
        written(tree, files.drop_last()).insert(files.last().name, files.last().content)
    }
}

/// The body of the last of `files` called `name`.
pub open spec fn last_named(files: Seq<Record>, name: Seq<u8>) -> Option<Seq<u8>>
    decreases files.len(),
{
    if files.len() == 0 {
        None
    } else if files.last().name == name {
        Some(files.last().content)
    } else {
        last_named(files.drop_last(), name)
    }
}

/// After writing, a name holds what the last file of that name holds, and a
/// name that no file has holds what it held before.
pub proof fn lemma_written(tree: Tree, files: Seq<Record>, name: Seq<u8>)
    ensures
        written(tree, files).contains_key(name) <==> last_named(files, name) is Some
            || tree.contains_key(name),
        last_named(files, name) is Some ==> written(tree, files)[name] == last_named(
            files,
            name,
        )->0,
        last_named(files, name) is None ==> written(tree, files)[name] == tree[name],
    decreases files.len(),
{
    if files.len() > 0 {
        lemma_written(tree, files.drop_last(), name);
    }
}

/// Writing the same files a second time changes nothing.
pub proof fn law_written_twice(tree: Tree, files: Seq<Record>)
    ensures
        written(written(tree, files), files) == written(tree, files),
{
    let once = written(tree, files);
    let twice = written(once, files);
    assert forall|name: Seq<u8>| #[trigger]
        twice.dom().contains(name) == once.dom().contains(name) && (once.dom().contains(name)
            ==> twice[name] == once[name]) by {
        lemma_written(tree, files, name);
        lemma_written(once, files, name);
    }
    assert(twice.dom() =~= once.dom());
    assert(twice =~= once);
}

/// One space.
pub open spec fn space() -> Seq<u8> {
    seq![0x20u8]
}

/// The pieces of `line` between its spaces. Two spaces in a row have an
/// empty piece between them, and a line without a space is one piece.
pub open spec fn words(line: Seq<u8>) -> Seq<Seq<u8>>
    decreases line.len(),
    via words_decreases
{
    match find(line, space()) {
        Some(at) => seq![line.take(at)] + words(line.skip(at + 1)),
        None => seq![line],
    }
}

#[via_fn]
proof fn words_decreases(line: Seq<u8>) {
    if find(line, space()) is Some {
        lemma_find_some(line, space());
    }
}

/// The command that a document asks to start: the pieces of its command
/// line, the first of them the program, and the body of the record `stdin`.
pub open spec fn call_of(records: Seq<Record>) -> Result<Call, RunError> {
    match command_of(records) {
        Some(line) => Ok(
            Call {
                program: words(line).first(),
                args: words(line).drop_first(),
                stdin: content_named(records, "stdin".spec_bytes()),
            },
        ),
        None => Err(RunError::NoCommand),
    }
}

/// A number of 32 bits read as a signed one.
pub open spec fn as_signed(code: u32) -> i32 {
    if code <= 0x7fff_ffff {
        code as i32
    } else {
        (code - 0x1_0000_0000) as i32
    }
}

/// The number that stands for the way a process ended, where there is one.
pub open spec fn exit_code(status: ExitStatus) -> Option<i32> {
    match status {
        ExitStatus::Exited(code) => Some(as_signed(code)),
        ExitStatus::Signaled(signal) => Some(signal as i32),
        ExitStatus::Other(code) => Some(code),
        ExitStatus::Undetermined => None,
    }
}

/// What is wrong with the bytes `got` on `stream`, of which the document
/// expects `expected`. A stream that the document does not speak of is
/// never wrong.
pub open spec fn stream_fault(expected: Option<Seq<u8>>, got: Seq<u8>, stream: Stream) -> Option<
    RunError,
> {
    match expected {
        Some(wanted) => if !valid_utf8(got) {
            Some(RunError::Utf8)
        } else if got != wanted {
            Some(RunError::OutputMismatch(stream))
        } else {
            None
        },
        None => None,
    }
}

/// What is wrong with the way the process ended. Where the document asks
/// for an exit code, that code decides and nothing else; where it asks for
/// none, only an exit with zero will do.
pub open spec fn status_fault(expected: Option<i32>, status: ExitStatus) -> Option<RunError> {
    match expected {
        Some(wanted) => match exit_code(status) {
            Some(code) => if code == wanted {
                None
            } else {
                Some(RunError::StatusMismatch(wanted, code))
            },
            None => Some(RunError::UndeterminedExit),
        },
        None => if status == ExitStatus::Exited(0) {
            None
        } else {
            Some(RunError::NonZeroExit)
        },
    }
}

/// The judgement on a run: the first thing wrong with it, looking at the
/// output, then at the errors, then at the way it ended.
pub open spec fn judged(records: Seq<Record>, out: Seq<u8>, err: Seq<u8>, status: ExitStatus)
    -> Result<(), RunError> {
    let out_fault = stream_fault(content_named(records, "stdout".spec_bytes()), out, Stream::Stdout);
    let err_fault = stream_fault(content_named(records, "stderr".spec_bytes()), err, Stream::Stderr);
    let end_fault = status_fault(status_of(records), status);
    if out_fault is Some {
        Err(out_fault->0)
    } else if err_fault is Some {
        Err(err_fault->0)
    } else if end_fault is Some {
        Err(end_fault->0)
    } else {
        Ok(())
    }
}

/// A call that may be refused, as bytes.
pub open spec fn call_view<'a>(call: Result<Invocation<'a>, RunError>) -> Result<Call, RunError> {
    match call {
        Ok(invocation) => Ok(invocation@),
        Err(error) => Err(error),
    }
}

impl ExitStatus {
    /// Whether the process exited with zero.
    pub fn success(self) -> (yes: bool)
        ensures
            yes == (self == ExitStatus::Exited(0)),
    {
        match self {
            ExitStatus::Exited(code) => code == 0,
            _ => false,
        }
    }

    /// The number that stands for the way the process ended: its exit code
    /// read as a signed number, the number of the signal, or the other
    /// number. Nothing where none is known.
    pub fn code(self) -> (code: Option<i32>)
        ensures
            code == exit_code(self),
    {
        match self {
            ExitStatus::Exited(code) => {
                if code <= 0x7fff_ffff {
                    Some(code as i32)
                } else {
                    Some((code as i64 - 0x1_0000_0000) as i32)
                }
            },
            ExitStatus::Signaled(signal) => Some(signal as i32),
            ExitStatus::Other(code) => Some(code),
            ExitStatus::Undetermined => None,
        }
    }
}

/// Whether a record of this name configures the run and is no file.
pub fn is_reserved(name: &str) -> (yes: bool)
    ensures
        yes == reserved(name.spec_bytes()),
{
    let bytes = name.as_bytes();
    same_bytes(bytes, "stdin".as_bytes()) || same_bytes(bytes, "stdout".as_bytes()) || same_bytes(
        bytes,
        "stderr".as_bytes(),
    ) || same_bytes(bytes, "command".as_bytes()) || same_bytes(bytes, "status".as_bytes())
        || same_bytes(bytes, "success".as_bytes())
}

/// The pieces of `line` between its spaces.
pub fn split_words<'a>(line: &'a str) -> (pieces: Vec<&'a str>)
    ensures
        pieces@.map_values(|piece: &'a str| piece.spec_bytes()) == words(line.spec_bytes()),
{
    let mut pieces: Vec<&'a str> = Vec::new();
    let mut rest: &'a str = line;
    proof {
        reveal_strlit(" ");
        assert(" "@ =~= seq![' ']);
        is_ascii_chars_encode_utf8(" "@);
        assert(" ".spec_bytes() =~= space());
        assert(Seq::<Seq<u8>>::empty() + words(line.spec_bytes()) =~= words(line.spec_bytes()));
    }
    loop
        invariant
            " ".spec_bytes() == space(),
            words(line.spec_bytes()) == pieces@.map_values(|piece: &'a str| piece.spec_bytes())
                + words(rest.spec_bytes()),
        decreases rest.spec_bytes().len(),
    {
        let ghost done = pieces@.map_values(|piece: &'a str| piece.spec_bytes());
        match split_once(rest, " ") {
            Some((piece, left)) => {
                proof {
                    lemma_find_some(rest.spec_bytes(), space());
                    assert(pieces@.push(piece).map_values(|piece: &'a str| piece.spec_bytes())
                        =~= done + seq![piece.spec_bytes()]);
                    assert(done + (seq![piece.spec_bytes()] + words(left.spec_bytes())) =~= (done
                        + seq![piece.spec_bytes()]) + words(left.spec_bytes()));
                }
                pieces.push(piece);
                rest = left;
            },
            None => {
                proof {
                    assert(pieces@.push(rest).map_values(|piece: &'a str| piece.spec_bytes())
                        =~= done + seq![rest.spec_bytes()]);
                }
                pieces.push(rest);
                return pieces;
            },
        }
    }
}

impl<'a> Files<'a> {
    /// The records to write as files, in their order: all but those that
    /// configure the run.
    pub fn files(&self) -> (list: Vec<File<'a>>)
        ensures
            list@.map_values(|file: File<'a>| file@) == files_of(self@),
    {
        let mut list: Vec<File<'a>> = Vec::new();
        let mut i: usize = 0;
        let ghost is_file = |record: Record| !reserved(record.name);
        proof {
            reveal(Seq::filter);
            assert(self@.take(0) =~= Seq::<Record>::empty());
        }
        while i < self.0.len()
            invariant
                i <= self.0@.len(),
                is_file == |record: Record| !reserved(record.name),
                list@.map_values(|file: File<'a>| file@) == self@.take(i as int).filter(is_file),
            decreases self.0@.len() - i,
        {
            let file = self.0[i];
            proof {
                reveal(Seq::filter);
                let seen = self@.take(i + 1);
                assert(seen.drop_last() =~= self@.take(i as int));
                assert(seen.last() == file@);
                assert(list@.push(file).map_values(|file: File<'a>| file@) =~= list@.map_values(
                    |file: File<'a>| file@,
                ).push(file@));
            }
            if !is_reserved(file.name) {
                list.push(file);
            }
            i += 1;
        }
        assert(self@.take(i as int) =~= self@);
        list
    }

    /// The command to start: the pieces of the command line between its
    /// spaces, the first of them the program and the others its arguments,
    /// with the body of the record `stdin` as its input. A document without
    /// a record `command` is refused.
    pub fn invocation(&self) -> (call: Result<Invocation<'a>, RunError>)
        ensures
            call_view(call) == call_of(self@),
    {
        let line = match self.command() {
            Some(line) => line,
            None => {
                return Err(RunError::NoCommand);
            },
        };
        let mut pieces = split_words(line);
        proof {
            if find(line.spec_bytes(), space()) is Some {
                lemma_find_some(line.spec_bytes(), space());
            }
            assert(words(line.spec_bytes()).len() > 0);
        }
        let ghost all = pieces@;
        let program = pieces.remove(0);
        proof {
            assert(pieces@.map_values(|arg: &'a str| arg.spec_bytes()) =~= all.map_values(
                |arg: &'a str| arg.spec_bytes(),
            ).drop_first());
        }
        Ok(Invocation { program, args: pieces, stdin: self.stdin() })
    }

    /// Judges a run by what the command wrote and how it ended. Of a stream
    /// that the document gives, the bytes must be UTF-8 and the same as the
    /// record's body: the output is looked at first, then the errors. Then,
    /// where the document asks for an exit code, that code must have come,
    /// whatever else is true of the end; where it asks for none, the command
    /// must have exited with zero.
    pub fn verdict(&self, out: &[u8], err: &[u8], status: ExitStatus) -> (passed: Result<
        (),
        RunError,
    >)
        ensures
            passed == judged(self@, out@, err@, status),
    {
        if let Some(fault) = check_stream(self.stdout(), out, Stream::Stdout) {
            return Err(fault);
        }
        if let Some(fault) = check_stream(self.stderr(), err, Stream::Stderr) {
            return Err(fault);
        }
        match check_status(self.status(), status) {
            Some(fault) => Err(fault),
            None => Ok(()),
        }
    }
}

/// What is wrong with the bytes `got` on `stream`, of which the document
/// expects `expected`.
pub fn check_stream(expected: Option<&str>, got: &[u8], stream: Stream) -> (fault: Option<RunError>)
    ensures
        fault == stream_fault(bytes_of(expected), got@, stream),
{
    match expected {
        Some(wanted) => {
            if !is_utf8(got) {
                Some(RunError::Utf8)
            } else if !same_bytes(got, wanted.as_bytes()) {
                Some(RunError::OutputMismatch(stream))
            } else {
                None
            }
        },
        None => None,
    }
}

/// What is wrong with the way the process ended, of which the document
/// expects the exit code `expected` or, without one, an exit with zero.
pub fn check_status(expected: Option<i32>, status: ExitStatus) -> (fault: Option<RunError>)
    ensures
        fault == status_fault(expected, status),
{
    match expected {
        Some(wanted) => match status.code() {
            Some(code) => {
                if code == wanted {
                    None
                } else {
                    Some(RunError::StatusMismatch(wanted, code))
                }
            },
            None => Some(RunError::UndeterminedExit),
        },
        None => {
            if status.success() {
                None
            } else {
                Some(RunError::NonZeroExit)
            }
        },
    }
}

} // verus!
