use dotfile_preprocessor::text::join;
use dotfile_preprocessor::text::run_end;
use dotfile_preprocessor::text::same_text;
use dotfile_preprocessor::text::split_lines;
use dotfile_preprocessor::text::string_of;
use dotfile_preprocessor::text::to_chars;
use dotfile_preprocessor::text::trailing_run_start;
use dotfile_preprocessor::text::trim;
use dotfile_preprocessor::text::trim_line_feeds;
use dotfile_preprocessor::text::CharClass;

fn lines(content: &str) -> Vec<String> {
    content.lines().map(String::from).collect()
}

#[test]
fn split_lines_splits_as_the_standard_library_does() {
    for content in [
        "",
        "\n",
        "one",
        "one\n",
        "one\ntwo",
        "one\r\ntwo\r\n",
        "one\n\ntwo\n\n",
        "\r\n\r\n",
        "a\rb\nc",
        "öüä\n@\n",
    ] {
        assert_eq!(split_lines(content), lines(content), "{:?}", content);
    }
    assert_eq!(split_lines("one\r\ntwo\n\nthree"), vec!["one", "two", "", "three"]);
    assert_eq!(split_lines("last\r"), vec!["last\r"]);
}

#[test]
fn join_puts_the_separator_between_lines() {
    let none: Vec<String> = vec![];
    assert_eq!(join(&none, "\n"), "");
    assert_eq!(join(&vec!["a".to_string()], "\n"), "a");
    assert_eq!(
        join(&vec!["a".to_string(), "".to_string(), "b".to_string()], "\n"),
        "a\n\nb"
    );
    assert_eq!(join(&vec!["a".to_string(), "b".to_string()], ", "), "a, b");
}

#[test]
fn trim_removes_unicode_whitespace_at_both_ends() {
    assert_eq!(trim("  a b \t\n"), "a b");
    assert_eq!(trim("\u{a0}\u{2003}x\u{3000}"), "x");
    assert_eq!(trim(" \r\n "), "");
    assert_eq!(trim(""), "");
    assert_eq!(trim("öüä@"), "öüä@");
    for s in [" a ", "\t\tb", "c\n", "d", "  ", "\u{85}e\u{1680}"] {
        assert_eq!(trim(s), s.trim());
    }
}

#[test]
fn trim_line_feeds_removes_only_line_feeds_at_the_end() {
    assert_eq!(trim_line_feeds("a\n\n"), "a");
    assert_eq!(trim_line_feeds("\na \n"), "\na ");
    assert_eq!(trim_line_feeds("a\r\n"), "a\r");
    assert_eq!(trim_line_feeds("\n"), "");
    assert_eq!(trim_line_feeds(""), "");
}

#[test]
fn runs_end_where_the_class_ends() {
    let chars = to_chars(" \t x\r\n\n");
    assert_eq!(chars.len(), 7);
    assert_eq!(run_end(&chars, 0, CharClass::Blank), 3);
    assert_eq!(run_end(&chars, 3, CharClass::Blank), 3);
    assert_eq!(run_end(&chars, 0, CharClass::Inline), 4);
    assert_eq!(run_end(&chars, 0, CharClass::NoLineFeed), 5);
    assert_eq!(run_end(&chars, 5, CharClass::LineFeed), 7);
    assert_eq!(run_end(&chars, 7, CharClass::LineFeed), 7);
    assert_eq!(run_end(&chars, 0, CharClass::Whitespace), 3);
    assert_eq!(trailing_run_start(&chars, 0, 7, CharClass::LineFeed), 5);
    assert_eq!(trailing_run_start(&chars, 0, 7, CharClass::Whitespace), 4);
    assert_eq!(trailing_run_start(&chars, 0, 3, CharClass::Whitespace), 0);
    assert_eq!(string_of(&chars, 2, 5), " x\r");
    assert!(CharClass::Whitespace.contains('\u{2028}'));
    assert!(!CharClass::Whitespace.contains('x'));
}

#[test]
fn same_text_compares_characters() {
    assert!(same_text("öüä@", "öüä@"));
    assert!(same_text("", ""));
    assert!(!same_text("a", "A"));
    assert!(!same_text("a", "a "));
}

#[test]
fn whitespace_is_what_the_standard_library_calls_whitespace() {
    for code in 0..=0x10ffff_u32 {
        if let Some(c) = char::from_u32(code) {
            assert_eq!(CharClass::Whitespace.contains(c), c.is_whitespace(), "{:?}", c);
        }
    }
}
