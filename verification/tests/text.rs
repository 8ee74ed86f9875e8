use makegen::generate::to_ascii_uppercase;
use makegen::text::{chars_of, contains, is_whitespace, join, split_lines, string_of};

#[test]
fn whitespace_is_what_the_standard_library_calls_whitespace() {
    let mut c = '\0';
    loop {
        assert_eq!(is_whitespace(c), c.is_whitespace(), "{:?}", c);
        if c == char::MAX {
            break;
        }
        c = match char::from_u32(c as u32 + 1) {
            Some(next) => next,
            None => '\u{e000}',
        };
    }
}

#[test]
fn upper_case_is_for_ascii_letters_only() {
    for code in 0u32..0x250 {
        let c = char::from_u32(code).unwrap();
        let s = c.to_string();
        assert_eq!(to_ascii_uppercase(&s), s.to_ascii_uppercase());
    }
}

#[test]
fn lines_are_cut_at_line_feeds() {
    let rows = |s: &str| -> Vec<String> {
        split_lines(s).iter().map(|l| l.iter().collect()).collect()
    };
    assert_eq!(rows(""), vec![""]);
    assert_eq!(rows("a"), vec!["a"]);
    assert_eq!(rows("a\n"), vec!["a", ""]);
    assert_eq!(rows("a\r\nb\n\nc"), vec!["a\r", "b", "", "c"]);
    assert_eq!(rows("\n"), vec!["", ""]);
}

#[test]
fn characters_and_back() {
    let v = chars_of("h\u{e9}llo");
    assert_eq!(v, vec!['h', '\u{e9}', 'l', 'l', 'o']);
    assert_eq!(string_of(&v, 1, 4), "\u{e9}ll");
    assert_eq!(string_of(&v, 2, 2), "");
    assert_eq!(string_of(&v, 0, 5), "h\u{e9}llo");
}

#[test]
fn joining() {
    let items = |v: &[&str]| -> Vec<String> { v.iter().map(|s| s.to_string()).collect() };
    assert_eq!(join(&items(&[]), " "), "");
    assert_eq!(join(&items(&["a"]), " "), "a");
    assert_eq!(join(&items(&["a", "b", "c"]), ", "), "a, b, c");
    assert_eq!(join(&items(&["", ""]), "-"), "-");
}

#[test]
fn substrings() {
    assert!(contains("abc", ""));
    assert!(contains("", ""));
    assert!(contains("abcabd", "abd"));
    assert!(contains("x main(", "main("));
    assert!(!contains("abc", "abcd"));
    assert!(!contains("aab", "aba"));
}
