use eerie::number::parse_decimal;
use eerie::space::trim;
use eerie::strings::byte_len;
use eerie::validity::is_utf8;

#[test]
fn trim_takes_white_space_off_both_ends() {
    assert_eq!(trim("  hello world \t\r\n"), "hello world");
    assert_eq!(trim("hello"), "hello");
    assert_eq!(trim(""), "");
    assert_eq!(trim(" \n\t "), "");
    assert_eq!(trim("\u{a0}\u{2003}x\u{3000}\u{85}"), "x");
    assert_eq!(trim("\u{feff}x\u{200b}"), "\u{feff}x\u{200b}");
    assert_eq!(trim(" é "), "é");
    assert_eq!(trim("a b"), "a b");
}

#[test]
fn trim_agrees_with_str_trim_on_every_character() {
    for code in 0..=0x10ffffu32 {
        if let Some(c) = char::from_u32(code) {
            let mut text = String::new();
            text.push(c);
            text.push('x');
            text.push(c);
            assert_eq!(trim(&text), text.trim());
        }
    }
}

#[test]
fn trim_agrees_with_str_trim_on_mixed_text() {
    let pieces = ["", " ", "\n", "a", "é", "\u{2028}", "\u{1680}", "€", "𝄞", "\u{e000}", "\u{80}", "\u{205f}"];
    for a in pieces {
        for b in pieces {
            for c in pieces {
                for d in pieces {
                    let text = format!("{}{}{}{}", a, b, c, d);
                    assert_eq!(trim(&text), text.trim());
                }
            }
        }
    }
}

#[test]
fn trim_gives_a_piece_of_its_input() {
    let text = String::from("  x  ");
    let core = trim(&text);
    assert_eq!(core.as_ptr() as usize, text.as_ptr() as usize + 2);
}

#[test]
fn byte_len_counts_bytes() {
    assert_eq!(byte_len(""), 0);
    assert_eq!(byte_len("abc"), 3);
    assert_eq!(byte_len("é€𝄞"), 9);
}

#[test]
fn parse_decimal_reads_signed_numbers() {
    assert_eq!(parse_decimal("0"), Some(0));
    assert_eq!(parse_decimal("1"), Some(1));
    assert_eq!(parse_decimal("+17"), Some(17));
    assert_eq!(parse_decimal("-17"), Some(-17));
    assert_eq!(parse_decimal("-0"), Some(0));
    assert_eq!(parse_decimal("007"), Some(7));
    assert_eq!(parse_decimal("2147483647"), Some(i32::MAX));
    assert_eq!(parse_decimal("-2147483648"), Some(i32::MIN));
    assert_eq!(parse_decimal("00000000000000000000000000000012"), Some(12));
}

#[test]
fn parse_decimal_refuses_what_is_no_number() {
    for text in ["", "+", "-", "--1", "+-1", "1 ", " 1", "1_000", "0x10", "1.0", "one", "1e3", "١", "2147483648", "-2147483649", "99999999999999999999", "-99999999999999999999"] {
        assert_eq!(parse_decimal(text), None);
    }
}

#[test]
fn parse_decimal_agrees_with_parse() {
    let samples = ["", "0", "+0", "-0", "12", "-12", "+12", "2147483647", "2147483648", "-2147483648", "-2147483649", "4294967296", "00002147483647", "-00002147483648", "+", "-", "1-", "a", "٣", "1\n"];
    for text in samples {
        assert_eq!(parse_decimal(text), text.parse::<i32>().ok());
    }
    for value in [-1000i32, -1, 0, 1, 9, 10, 99, 100, 65535, i32::MAX, i32::MIN, i32::MAX - 1, i32::MIN + 1] {
        assert_eq!(parse_decimal(&value.to_string()), Some(value));
    }
}

#[test]
fn is_utf8_accepts_text() {
    assert!(is_utf8(b""));
    assert!(is_utf8(b"plain"));
    assert!(is_utf8("é€𝄞\u{10ffff}\u{0}\u{7f}\u{80}\u{7ff}\u{800}\u{ffff}\u{10000}\u{d7ff}\u{e000}".as_bytes()));
}

#[test]
fn is_utf8_refuses_what_is_no_text() {
    let bad: [&[u8]; 12] = [
        &[0x80],
        &[0xc2],
        &[0xc0, 0x80],
        &[0xc1, 0xbf],
        &[0xe0, 0x80, 0x80],
        &[0xe0, 0x9f, 0xbf],
        &[0xed, 0xa0, 0x80],
        &[0xf0, 0x8f, 0xbf, 0xbf],
        &[0xf4, 0x90, 0x80, 0x80],
        &[0xf5, 0x80, 0x80, 0x80],
        &[0x61, 0xe2, 0x82],
        &[0xff],
    ];
    for bytes in bad {
        assert!(!is_utf8(bytes));
    }
}

#[test]
fn is_utf8_agrees_with_from_utf8() {
    let interesting: [u8; 22] = [
        0x00, 0x41, 0x7f, 0x80, 0x8f, 0x90, 0x9f, 0xa0, 0xbf, 0xc0, 0xc1, 0xc2, 0xdf, 0xe0, 0xe1,
        0xed, 0xef, 0xf0, 0xf1, 0xf4, 0xf5, 0xff,
    ];
    for a in interesting {
        assert_eq!(is_utf8(&[a]), std::str::from_utf8(&[a]).is_ok());
        for b in interesting {
            assert_eq!(is_utf8(&[a, b]), std::str::from_utf8(&[a, b]).is_ok());
            for c in interesting {
                assert_eq!(is_utf8(&[a, b, c]), std::str::from_utf8(&[a, b, c]).is_ok());
                for d in interesting {
                    let bytes = [a, b, c, d];
                    assert_eq!(is_utf8(&bytes), std::str::from_utf8(&bytes).is_ok());
                    let longer = [0x41, a, b, c, d, 0x41];
                    assert_eq!(is_utf8(&longer), std::str::from_utf8(&longer).is_ok());
                }
            }
        }
    }
}

#[test]
fn trimming_twice_is_trimming_once() {
    for text in ["", " ", "  a  ", "\u{2003}a b\u{3000}", "a", " \n\t", "é ", " 𝄞"] {
        let once = trim(text);
        assert_eq!(trim(once), once);
        assert!(once.chars().next().map_or(true, |c| !c.is_whitespace()));
        assert!(once.chars().last().map_or(true, |c| !c.is_whitespace()));
    }
}
