use rag::number::{i64_decimal, usize_decimal};
use rag::text::{blank, chars_utf8_len, split_lines, trim, trim_start};

fn chars(s: &str) -> Vec<char> {
    s.chars().collect()
}

fn lines(s: &str) -> Vec<String> {
    split_lines(&chars(s)).into_iter().map(|l| l.into_iter().collect()).collect()
}

#[test]
fn lines_split_as_str_lines_does() {
    for s in ["", "a", "a\n", "a\nb", "\n", "\n\n", "a\r\nb\r\n", "a\rb", "x\r", "\r\n"] {
        let expected: Vec<String> = s.lines().map(|l| l.to_string()).collect();
        assert_eq!(lines(s), expected, "source {:?}", s);
    }
}

#[test]
fn trimming_drops_unicode_whitespace() {
    assert_eq!(trim(&chars("\u{3000} a b \t\n")), chars("a b"));
    assert_eq!(trim_start(&chars("  x  ")), chars("x  "));
    assert!(blank(&chars(" \t\u{a0}\n")));
    assert!(!blank(&chars("  .")));
    assert!(blank(&chars("")));
}

#[test]
fn byte_lengths_follow_utf8() {
    assert_eq!(chars_utf8_len(&chars("aé€😀")), "aé€😀".len());
}

#[test]
fn numbers_are_written_in_decimal() {
    assert_eq!(usize_decimal(0), chars("0"));
    assert_eq!(usize_decimal(1024), chars("1024"));
    assert_eq!(usize_decimal(usize::MAX), chars(&usize::MAX.to_string()));
    assert_eq!(i64_decimal(-42), chars("-42"));
    assert_eq!(i64_decimal(i64::MIN), chars(&i64::MIN.to_string()));
}

#[test]
fn whitespace_is_the_unicode_white_space_set() {
    for c in ['\t', '\n', '\u{b}', '\u{c}', '\r', ' ', '\u{85}', '\u{a0}', '\u{1680}', '\u{2000}', '\u{200a}', '\u{2028}', '\u{2029}', '\u{202f}', '\u{205f}', '\u{3000}'] {
        assert!(blank(&vec![c]), "{:?}", c);
    }
    for c in ['\u{200b}', '\u{feff}', 'x', '\u{1c}', '\u{180e}'] {
        assert!(!blank(&vec![c]), "{:?}", c);
    }
}
