use zvuk::text::{contains, eq_ignore_ascii_case, parse_usize, same_text, trim};

#[test]
fn trim_removes_surrounding_whitespace_only() {
    assert_eq!(trim("  a b \t\n"), "a b");
    assert_eq!(trim("   "), "");
    assert_eq!(trim(""), "");
    assert_eq!(trim("x"), "x");
}

#[test]
fn parse_accepts_what_the_standard_library_accepts() {
    for s in ["0", "12", "+7", "007", "", "+", "-1", " 1", "1 ", "1a", "18446744073709551615", "18446744073709551616"] {
        assert_eq!(parse_usize(s), s.parse::<usize>().ok(), "input {s:?}");
    }
}

#[test]
fn ascii_case_is_ignored_but_nothing_else() {
    assert!(eq_ignore_ascii_case("Left-Right-Balance", "left-right-balance"));
    assert!(!eq_ignore_ascii_case("left", "lefty"));
    assert!(!eq_ignore_ascii_case("\u{158}", "\u{159}"));
}

#[test]
fn substring_search() {
    assert!(contains("usb audio codec", "audio"));
    assert!(contains("abc", ""));
    assert!(!contains("abc", "abcd"));
    assert!(!contains("abc", "bd"));
    assert!(same_text("abc", "abc"));
    assert!(!same_text("abc", "abd"));
}

#[test]
fn trim_removes_unicode_spaces_as_well() {
    assert_eq!(trim("\u{3000}\u{a0}x\u{2009}\r"), "x");
    assert_eq!(trim("\u{200b}x"), "\u{200b}x");
}
