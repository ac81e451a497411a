use mdvault::text::{
    bytes_eq, bytes_le, chars_of, contains_bytes, find_from, occurs_at_offset, slice_str,
    split_lines, text_eq, trim,
};

#[test]
fn lines_end_at_line_feeds() {
    assert_eq!(split_lines("a\nb"), vec!["a", "b"]);
    assert_eq!(split_lines("a\n"), vec!["a"]);
    assert_eq!(split_lines("a\n\nb\n"), vec!["a", "", "b"]);
    assert_eq!(split_lines("\n"), vec![""]);
    assert!(split_lines("").is_empty());
    assert_eq!(split_lines("one\r\ntwo\r\n"), vec!["one", "two"]);
    assert_eq!(split_lines("cr\ronly"), vec!["cr\ronly"]);
    assert_eq!(split_lines("end\r"), vec!["end\r"]);
    assert_eq!(split_lines("\r\n\r\n"), vec!["", ""]);
    assert_eq!(split_lines("x\r\r\ny"), vec!["x\r", "y"]);
    assert_eq!(split_lines("\u{e9}t\u{e9}\n\u{4e2d}\u{6587}\r\nz"), vec!["\u{e9}t\u{e9}", "\u{4e2d}\u{6587}", "z"]);
}

#[test]
fn lines_agree_with_the_standard_library() {
    for text in ["", "a", "a\nb\r\nc", "\n\n", "a\r", "\r\n", "x\ry\n", "tail\n\r"] {
        let expected: Vec<String> = text.lines().map(|l| l.to_string()).collect();
        assert_eq!(split_lines(text), expected);
    }
}

#[test]
fn trim_removes_unicode_whitespace() {
    assert_eq!(trim("  a b  "), "a b");
    assert_eq!(trim("\t\n x \r\n"), "x");
    assert_eq!(trim("\u{a0}\u{2003}x\u{3000}"), "x");
    assert_eq!(trim("   "), "");
    assert_eq!(trim(""), "");
    assert_eq!(trim("x"), "x");
    for text in [" a ", "\u{85}b\u{2028}", "c  d", " \u{feff} "] {
        assert_eq!(trim(text), text.trim());
    }
}

#[test]
fn bytewise_order() {
    assert!(bytes_le(b"", b""));
    assert!(bytes_le(b"", b"a"));
    assert!(!bytes_le(b"a", b""));
    assert!(bytes_le(b"ab", b"abc"));
    assert!(!bytes_le(b"abc", b"ab"));
    assert!(bytes_le(b"abc", b"abd"));
    assert!(!bytes_le(b"b", b"abc"));
    assert!(bytes_le(b"same", b"same"));
    assert!(bytes_eq(b"same", b"same"));
    assert!(!bytes_eq(b"same", b"sam"));
    assert!(!bytes_eq(b"same", b"sane"));
    assert!(text_eq("png", "png"));
    assert!(!text_eq("png", "PNG"));
}

#[test]
fn finding_occurrences() {
    assert_eq!(find_from(b"concatcatenate", b"cat", 0), Some(3));
    assert_eq!(find_from(b"concatcatenate", b"cat", 4), Some(6));
    assert_eq!(find_from(b"concatcatenate", b"cat", 7), None);
    assert_eq!(find_from(b"abc", b"", 0), Some(0));
    assert_eq!(find_from(b"abc", b"", 3), Some(3));
    assert_eq!(find_from(b"abc", b"", 4), None);
    assert_eq!(find_from(b"ab", b"abc", 0), None);
    assert_eq!(find_from(b"", b"", 0), Some(0));
    assert!(occurs_at_offset(b"hello", b"llo", 2));
    assert!(!occurs_at_offset(b"hello", b"llo", 3));
    assert!(!occurs_at_offset(b"hello", b"llo", 9));
    assert!(contains_bytes(b"hello", b"ell"));
    assert!(contains_bytes(b"hello", b""));
    assert!(!contains_bytes(b"hello", b"elo"));
}

#[test]
fn slicing_and_characters() {
    assert_eq!(slice_str("h\u{e9}llo", 0, 3), "h\u{e9}");
    assert_eq!(slice_str("h\u{e9}llo", 3, 6), "llo");
    assert_eq!(slice_str("abc", 1, 1), "");
    assert_eq!(chars_of("a\u{e9}\u{4e2d}"), vec!['a', '\u{e9}', '\u{4e2d}']);
}

fn listed_white_space(c: char) -> bool {
    matches!(
        c,
        '\u{9}'..='\u{d}'
            | ' '
            | '\u{85}'
            | '\u{a0}'
            | '\u{1680}'
            | '\u{2000}'..='\u{200a}'
            | '\u{2028}'
            | '\u{2029}'
            | '\u{202f}'
            | '\u{205f}'
            | '\u{3000}'
    )
}

#[test]
fn white_space_is_the_listed_set() {
    let mut count = 0;
    for code in 0..=0x10ffffu32 {
        if let Some(c) = char::from_u32(code) {
            assert_eq!(c.is_whitespace(), listed_white_space(c));
            if listed_white_space(c) {
                count += 1;
                let text = format!("{}x{}", c, c);
                assert_eq!(trim(&text), "x");
            }
        }
    }
    assert_eq!(count, 25);
    assert_eq!(trim("\u{200b}x\u{feff}"), "\u{200b}x\u{feff}");
}
