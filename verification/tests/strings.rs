use eerie::document::{DELIMITER_NEWLINE, DELIMITER_NO_NEWLINE};
use eerie::strings::{
    end_diff, matches_at, position, position_last, same_bytes, split_once, split_once_last,
    trim_first_line, trim_start, which_comes_first,
};

const EXAMPLE: &str = "# Example\n\nSome prose before the first record.\n\n## main.rs\n\n```rust\nfn main() {\n    println!(\"hello\");\n}\n```\n\n## note.txt\n\n````\nno line end here\n````\n\n## command\n\n```\ncat note.txt\n```\n\n## stdout\n\n````\nno line end here\n````\n";

#[test]
fn comes_first() {
    let test_str = EXAMPLE;
    let (first, _) = which_comes_first(test_str, DELIMITER_NEWLINE, DELIMITER_NO_NEWLINE).unwrap();

    assert_eq!(first, DELIMITER_NEWLINE);
}

#[test]
fn comes_first_gives_the_byte_offset() {
    let (first, at) = which_comes_first("héllo ```x", "```", "````").unwrap();
    assert_eq!(first, "```");
    assert_eq!(at, 7);
}

#[test]
fn comes_first_longer_wins_on_a_tie() {
    assert_eq!(which_comes_first("ab````cd", "```", "````"), Some(("````", 2)));
    assert_eq!(which_comes_first("ab````cd", "````", "```"), Some(("````", 2)));
}

#[test]
fn comes_first_earlier_wins() {
    assert_eq!(which_comes_first("a```b````", "```", "````"), Some(("```", 1)));
    assert_eq!(which_comes_first("xx-yy+", "+", "-"), Some(("-", 2)));
    assert_eq!(which_comes_first("xx-yy+", "-", "+"), Some(("-", 2)));
}

#[test]
fn comes_first_only_one_occurs() {
    assert_eq!(which_comes_first("abc", "c", "z"), Some(("c", 2)));
    assert_eq!(which_comes_first("abc", "z", "b"), Some(("b", 1)));
}

#[test]
fn comes_first_neither_occurs() {
    assert_eq!(which_comes_first("abc", "x", "y"), None);
    assert_eq!(which_comes_first("", "x", "y"), None);
}

#[test]
fn comes_first_same_offset_same_length_gives_second() {
    let a = String::from("b");
    let b = String::from("b");
    let (first, at) = which_comes_first("abc", &a, &b).unwrap();
    assert_eq!(at, 1);
    assert!(std::ptr::eq(first, b.as_str()));
}

#[test]
fn trim_start_strips_a_prefix() {
    assert_eq!(trim_start("hello world", "hello "), Some("world"));
    assert_eq!(trim_start("hello", "hello"), Some(""));
    assert_eq!(trim_start("hello", ""), Some("hello"));
    assert_eq!(trim_start("héllo", "h"), Some("éllo"));
    assert_eq!(trim_start("éa", "é"), Some("a"));
}

#[test]
fn trim_start_absent_without_the_prefix() {
    assert_eq!(trim_start("hello", "world"), None);
    assert_eq!(trim_start("he", "hello"), None);
    assert_eq!(trim_start("", "a"), None);
}

#[test]
fn end_diff_strips_a_suffix() {
    assert_eq!(end_diff("hello world", " world"), Some("hello"));
    assert_eq!(end_diff("hello", "hello"), Some(""));
    assert_eq!(end_diff("hello", ""), Some("hello"));
    assert_eq!(end_diff("aé", "é"), Some("a"));
}

#[test]
fn end_diff_absent_without_the_suffix() {
    assert_eq!(end_diff("hello", "hell"), None);
    assert_eq!(end_diff("lo", "hello"), None);
    assert_eq!(end_diff("", "a"), None);
}

#[test]
fn trim_first_line_drops_through_the_first_line_end() {
    assert_eq!(trim_first_line("one\ntwo\nthree"), Some("two\nthree"));
    assert_eq!(trim_first_line("\nrest"), Some("rest"));
    assert_eq!(trim_first_line("only\n"), Some(""));
    assert_eq!(trim_first_line("é\nü"), Some("ü"));
}

#[test]
fn trim_first_line_keeps_a_carriage_return_out_of_the_rest() {
    assert_eq!(trim_first_line("one\r\ntwo"), Some("two"));
}

#[test]
fn trim_first_line_absent_without_a_line_end() {
    assert_eq!(trim_first_line("no line end"), None);
    assert_eq!(trim_first_line(""), None);
}

#[test]
fn position_finds_the_first_occurrence() {
    assert_eq!(position(b"abcabc", b"bc"), Some(1));
    assert_eq!(position(b"abcabc", b"abcabc"), Some(0));
    assert_eq!(position(b"abcabc", b""), Some(0));
    assert_eq!(position(b"", b""), Some(0));
    assert_eq!(position(b"abcabc", b"cb"), None);
    assert_eq!(position(b"abc", b"abcd"), None);
    assert_eq!(position(b"aab", b"ab"), Some(1));
}

#[test]
fn position_last_finds_the_last_occurrence() {
    assert_eq!(position_last(b"abcabc", b"bc"), Some(4));
    assert_eq!(position_last(b"abcabc", b"a"), Some(3));
    assert_eq!(position_last(b"abcabc", b""), Some(6));
    assert_eq!(position_last(b"abcabc", b"x"), None);
    assert_eq!(position_last(b"ab", b"abc"), None);
    assert_eq!(position_last(b"abab", b"ab"), Some(2));
}

#[test]
fn position_agrees_with_find_on_strings() {
    let hays = ["", "a", "ab", "aab", "abab", "``` ````", "````", "## a\n## b", "héé`é"];
    let needles = ["", "a", "b", "ab", "```", "````", "## ", "é", "`é"];
    for hay in hays {
        for needle in needles {
            assert_eq!(position(hay.as_bytes(), needle.as_bytes()), hay.find(needle));
            assert_eq!(position_last(hay.as_bytes(), needle.as_bytes()), hay.rfind(needle));
        }
    }
}

#[test]
fn matches_at_tests_one_offset() {
    assert!(matches_at(b"abc", b"bc", 1));
    assert!(!matches_at(b"abc", b"bc", 0));
    assert!(!matches_at(b"abc", b"bc", 2));
    assert!(matches_at(b"abc", b"", 3));
    assert!(!matches_at(b"abc", b"", 4));
    assert!(!matches_at(b"abc", b"abcd", 0));
    assert!(!matches_at(b"abc", b"c", usize::MAX));
}

#[test]
fn same_bytes_compares_whole_slices() {
    assert!(same_bytes(b"abc", b"abc"));
    assert!(same_bytes(b"", b""));
    assert!(!same_bytes(b"abc", b"abd"));
    assert!(!same_bytes(b"abc", b"ab"));
    assert!(!same_bytes(b"ab", b"abc"));
}

#[test]
fn split_once_cuts_at_the_first_separator() {
    assert_eq!(split_once("a=b=c", "="), Some(("a", "b=c")));
    assert_eq!(split_once("=b", "="), Some(("", "b")));
    assert_eq!(split_once("a=", "="), Some(("a", "")));
    assert_eq!(split_once("abc", "="), None);
    assert_eq!(split_once("abc", ""), Some(("", "abc")));
    assert_eq!(split_once("é```ü```", "```"), Some(("é", "ü```")));
}

#[test]
fn split_once_last_cuts_at_the_last_separator() {
    assert_eq!(split_once_last("a=b=c", "="), Some(("a=b", "c")));
    assert_eq!(split_once_last("## a\n## b\n", "## "), Some(("## a\n", "b\n")));
    assert_eq!(split_once_last("abc", "="), None);
    assert_eq!(split_once_last("abc", ""), Some(("abc", "")));
    assert_eq!(split_once_last("é=ü=", "="), Some(("é=ü", "")));
}
