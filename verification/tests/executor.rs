use eerie::document::Files;
use eerie::executor::{
    check_status, check_stream, is_reserved, split_words, ExitStatus, RunError, Stream,
};

#[test]
fn create_plan_for_one_file() {
    let (files, _) = Files::from_str("## hello.txt\n```\nhi\n```\n").unwrap();
    let list = files.files();
    assert_eq!(list.len(), 1);
    assert_eq!(list[0].name, "hello.txt");
    assert_eq!(list[0].content, "hi\n");
    assert_eq!(list[0].content.as_bytes(), b"hi\n");
    assert_eq!(files.invocation().unwrap_err(), RunError::NoCommand);
}

#[test]
fn cat_round_trip_passes() {
    let text = "## stdin\n````\nabc\n````\n## stdout\n````\nabc\n````\n## command\n```\ncat\n```\n";
    let (files, _) = Files::from_str(text).unwrap();
    assert!(files.files().is_empty());
    let call = files.invocation().unwrap();
    assert_eq!(call.program, "cat");
    assert!(call.args.is_empty());
    assert_eq!(call.stdin, Some("abc"));
    assert_eq!(files.verdict(b"abc", b"", ExitStatus::Exited(0)), Ok(()));
}

#[test]
fn expected_status_passes() {
    let text = "## command\n```\nfalse\n```\n## status\n```\n1\n```\n";
    let (files, _) = Files::from_str(text).unwrap();
    let call = files.invocation().unwrap();
    assert_eq!(call.program, "false");
    assert_eq!(call.stdin, None);
    assert_eq!(files.verdict(b"", b"", ExitStatus::Exited(1)), Ok(()));
    assert_eq!(
        files.verdict(b"", b"", ExitStatus::Exited(0)),
        Err(RunError::StatusMismatch(1, 0))
    );
}

#[test]
fn output_mismatch_fails() {
    let text = "## command\n```\necho hi\n```\n## stdout\n```\nbye\n```\n";
    let (files, _) = Files::from_str(text).unwrap();
    let call = files.invocation().unwrap();
    assert_eq!(call.program, "echo");
    assert_eq!(call.args, vec!["hi"]);
    assert_eq!(
        files.verdict(b"hi\n", b"", ExitStatus::Exited(0)),
        Err(RunError::OutputMismatch(Stream::Stdout))
    );
    assert_eq!(files.verdict(b"bye\n", b"", ExitStatus::Exited(0)), Ok(()));
}

#[test]
fn stderr_mismatch_names_stderr() {
    let text = "## command\n```\nx\n```\n## stderr\n```\noops\n```\n";
    let (files, _) = Files::from_str(text).unwrap();
    assert_eq!(
        files.verdict(b"anything", b"other\n", ExitStatus::Exited(0)),
        Err(RunError::OutputMismatch(Stream::Stderr))
    );
    assert_eq!(files.verdict(b"anything", b"oops\n", ExitStatus::Exited(0)), Ok(()));
}

#[test]
fn output_is_judged_before_errors_and_errors_before_status() {
    let text = "## command\n```\nx\n```\n## stdout\n```\no\n```\n## stderr\n```\ne\n```\n## status\n```\n2\n```\n";
    let (files, _) = Files::from_str(text).unwrap();
    assert_eq!(
        files.verdict(b"bad", b"bad", ExitStatus::Exited(0)),
        Err(RunError::OutputMismatch(Stream::Stdout))
    );
    assert_eq!(
        files.verdict(b"o\n", b"bad", ExitStatus::Exited(0)),
        Err(RunError::OutputMismatch(Stream::Stderr))
    );
    assert_eq!(
        files.verdict(b"o\n", b"e\n", ExitStatus::Exited(0)),
        Err(RunError::StatusMismatch(2, 0))
    );
    assert_eq!(files.verdict(b"o\n", b"e\n", ExitStatus::Exited(2)), Ok(()));
}

#[test]
fn captured_bytes_that_are_not_utf8_fail() {
    let text = "## command\n```\nx\n```\n## stdout\n```\no\n```\n";
    let (files, _) = Files::from_str(text).unwrap();
    assert_eq!(files.verdict(&[0xff, 0xfe], b"", ExitStatus::Exited(0)), Err(RunError::Utf8));
    assert_eq!(files.verdict(b"o\n", &[0xff], ExitStatus::Exited(0)), Ok(()));
}

#[test]
fn streams_without_a_record_are_not_judged() {
    let (files, _) = Files::from_str("## command\n```\nx\n```\n").unwrap();
    assert_eq!(files.verdict(b"whatever", &[0xff], ExitStatus::Exited(0)), Ok(()));
}

#[test]
fn without_status_only_exit_zero_passes() {
    let (files, _) = Files::from_str("## command\n```\nx\n```\n").unwrap();
    assert_eq!(files.verdict(b"", b"", ExitStatus::Exited(0)), Ok(()));
    assert_eq!(files.verdict(b"", b"", ExitStatus::Exited(1)), Err(RunError::NonZeroExit));
    assert_eq!(files.verdict(b"", b"", ExitStatus::Signaled(9)), Err(RunError::NonZeroExit));
    assert_eq!(files.verdict(b"", b"", ExitStatus::Other(0)), Err(RunError::NonZeroExit));
    assert_eq!(files.verdict(b"", b"", ExitStatus::Undetermined), Err(RunError::NonZeroExit));
}

#[test]
fn matching_status_passes_even_for_a_signal() {
    let (files, _) = Files::from_str("## command\n```\nx\n```\n## status\n```\n9\n```\n").unwrap();
    assert_eq!(files.verdict(b"", b"", ExitStatus::Signaled(9)), Ok(()));
    assert_eq!(files.verdict(b"", b"", ExitStatus::Other(9)), Ok(()));
    assert_eq!(
        files.verdict(b"", b"", ExitStatus::Signaled(15)),
        Err(RunError::StatusMismatch(9, 15))
    );
    assert_eq!(
        files.verdict(b"", b"", ExitStatus::Undetermined),
        Err(RunError::UndeterminedExit)
    );
}

#[test]
fn status_that_is_no_number_counts_as_absent() {
    let (files, _) = Files::from_str("## command\n```\nx\n```\n## status\n```\none\n```\n").unwrap();
    assert_eq!(files.verdict(b"", b"", ExitStatus::Exited(0)), Ok(()));
    assert_eq!(files.verdict(b"", b"", ExitStatus::Exited(1)), Err(RunError::NonZeroExit));
}

#[test]
fn exit_code_is_read_as_a_signed_number() {
    assert_eq!(ExitStatus::Exited(0).code(), Some(0));
    assert_eq!(ExitStatus::Exited(255).code(), Some(255));
    assert_eq!(ExitStatus::Exited(0x7fff_ffff).code(), Some(i32::MAX));
    assert_eq!(ExitStatus::Exited(0x8000_0000).code(), Some(i32::MIN));
    assert_eq!(ExitStatus::Exited(u32::MAX).code(), Some(-1));
    assert_eq!(ExitStatus::Exited(0xc000_0005).code(), Some(0xc000_0005u32 as i32));
    assert_eq!(ExitStatus::Signaled(255).code(), Some(255));
    assert_eq!(ExitStatus::Other(-7).code(), Some(-7));
    assert_eq!(ExitStatus::Undetermined.code(), None);
}

#[test]
fn success_is_exit_zero() {
    assert!(ExitStatus::Exited(0).success());
    assert!(!ExitStatus::Exited(1).success());
    assert!(!ExitStatus::Signaled(0).success());
    assert!(!ExitStatus::Other(0).success());
    assert!(!ExitStatus::Undetermined.success());
}

#[test]
fn check_status_on_each_case() {
    assert_eq!(check_status(None, ExitStatus::Exited(0)), None);
    assert_eq!(check_status(None, ExitStatus::Exited(3)), Some(RunError::NonZeroExit));
    assert_eq!(check_status(Some(3), ExitStatus::Exited(3)), None);
    assert_eq!(check_status(Some(-1), ExitStatus::Exited(u32::MAX)), None);
    assert_eq!(
        check_status(Some(0), ExitStatus::Exited(3)),
        Some(RunError::StatusMismatch(0, 3))
    );
    assert_eq!(check_status(Some(0), ExitStatus::Undetermined), Some(RunError::UndeterminedExit));
}

#[test]
fn check_stream_on_each_case() {
    assert_eq!(check_stream(None, &[0xff], Stream::Stdout), None);
    assert_eq!(check_stream(Some("a"), b"a", Stream::Stdout), None);
    assert_eq!(check_stream(Some(""), b"", Stream::Stderr), None);
    assert_eq!(
        check_stream(Some("a"), b"b", Stream::Stderr),
        Some(RunError::OutputMismatch(Stream::Stderr))
    );
    assert_eq!(
        check_stream(Some("a"), b"a\n", Stream::Stdout),
        Some(RunError::OutputMismatch(Stream::Stdout))
    );
    assert_eq!(check_stream(Some("a"), &[0x61, 0x80], Stream::Stdout), Some(RunError::Utf8));
}

#[test]
fn reserved_names_are_the_six() {
    for name in ["stdin", "stdout", "stderr", "command", "status", "success"] {
        assert!(is_reserved(name));
    }
    for name in ["", "Stdin", "stdin ", "std", "stdout.txt", "a/stdin", "successes"] {
        assert!(!is_reserved(name));
    }
}

#[test]
fn files_leave_out_every_reserved_record() {
    let text = "## a.txt\n```\n1\n```\n## stdin\n```\n\n```\n## dir/b.txt\n````\n2\n````\n## stdout\n```\n\n```\n## stderr\n```\n\n```\n## command\n```\nx\n```\n## status\n```\n0\n```\n## success\n```\n\n```\n## a.txt\n```\n3\n```\n";
    let (files, _) = Files::from_str(text).unwrap();
    assert_eq!(files.0.len(), 9);
    let list = files.files();
    let names: Vec<&str> = list.iter().map(|file| file.name).collect();
    assert_eq!(names, vec!["a.txt", "dir/b.txt", "a.txt"]);
    let bodies: Vec<&str> = list.iter().map(|file| file.content).collect();
    assert_eq!(bodies, vec!["1\n", "2", "3\n"]);
}

#[test]
fn files_are_the_same_on_every_call() {
    let (files, _) = Files::from_str("## a\n```\n1\n```\n## b\n```\n2\n```\n").unwrap();
    let first: Vec<(&str, &str)> = files.files().iter().map(|f| (f.name, f.content)).collect();
    let second: Vec<(&str, &str)> = files.files().iter().map(|f| (f.name, f.content)).collect();
    assert_eq!(first, second);
}

#[test]
fn verdict_is_the_same_on_every_call() {
    let (files, _) = Files::from_str("## command\n```\nx\n```\n## stdout\n```\no\n```\n").unwrap();
    for (out, status) in [(&b"o\n"[..], ExitStatus::Exited(0)), (&b"x"[..], ExitStatus::Exited(0)), (&b"o\n"[..], ExitStatus::Exited(4))] {
        assert_eq!(files.verdict(out, b"", status), files.verdict(out, b"", status));
    }
}

#[test]
fn command_line_is_split_on_spaces() {
    assert_eq!(split_words("echo hi there"), vec!["echo", "hi", "there"]);
    assert_eq!(split_words("cat"), vec!["cat"]);
    assert_eq!(split_words(""), vec![""]);
    assert_eq!(split_words("a  b"), vec!["a", "", "b"]);
    assert_eq!(split_words(" a "), vec!["", "a", ""]);
    assert_eq!(split_words("a\tb 'c d'"), vec!["a\tb", "'c", "d'"]);
}

#[test]
fn command_line_split_agrees_with_split() {
    for line in ["", " ", "  ", "a", "a b", "a  b ", "é ü", "sh -c 'exit 3'"] {
        let expected: Vec<&str> = line.split(' ').collect();
        assert_eq!(split_words(line), expected);
    }
}

#[test]
fn invocation_takes_program_arguments_and_input() {
    let text = "## command\n```\n  sh -c  true \n```\n## stdin\n```\ninput\n```\n";
    let (files, _) = Files::from_str(text).unwrap();
    let call = files.invocation().unwrap();
    assert_eq!(call.program, "sh");
    assert_eq!(call.args, vec!["-c", "", "true"]);
    assert_eq!(call.stdin, Some("input\n"));
}

#[test]
fn invocation_of_an_empty_command_has_an_empty_program() {
    let (files, _) = Files::from_str("## command\n```\n\n```\n").unwrap();
    let call = files.invocation().unwrap();
    assert_eq!(call.program, "");
    assert!(call.args.is_empty());
}
