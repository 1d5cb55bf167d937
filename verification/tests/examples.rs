use deindent::{Deindenter, IndentInfo};

fn deindent(input: &str) -> Option<String> {
    Deindenter::new(input).map(|d| d.to_string())
}

fn info(input: &str) -> Option<(usize, usize, usize)> {
    IndentInfo::new(input).map(|i| (i.first_line, i.last_line, i.leading_whitespace))
}

#[test]
fn blank_lines_around_content_are_dropped() {
    let input = "\n\nfoo\n  bar\n\n";
    assert_eq!(info(input), Some((2, 3, 0)));
    assert_eq!(deindent(input).unwrap(), "foo\n  bar\n");
}

#[test]
fn uniform_indent_is_removed() {
    let input = "    a\n    b\n";
    assert_eq!(info(input), Some((0, 1, 4)));
    assert_eq!(deindent(input).unwrap(), "a\nb\n");
}

#[test]
fn unindented_first_line_keeps_everything() {
    let input = "a\n    b\n";
    assert_eq!(info(input), Some((0, 1, 0)));
    assert_eq!(deindent(input).unwrap(), input);
}

#[test]
fn whitespace_only_is_absent() {
    assert!(Deindenter::new("   \n").is_none());
    assert!(IndentInfo::new("   \n").is_none());
}

#[test]
fn empty_is_absent() {
    assert!(Deindenter::new("").is_none());
    assert!(IndentInfo::new("").is_none());
}

#[test]
fn newlines_only_is_absent() {
    assert!(Deindenter::new("\n\n\n").is_none());
    assert!(IndentInfo::new(" \t\r\n\x0c\x0b\n  ").is_none());
}

#[test]
fn missing_final_terminator_stays_missing() {
    let input = "    x";
    assert_eq!(info(input), Some((0, 0, 4)));
    assert_eq!(deindent(input).unwrap(), "x");
}

#[test]
fn short_blank_line_is_kept_as_it_is() {
    let input = "  \n      p1\n\n      p2";
    assert_eq!(info(input), Some((1, 3, 6)));
    assert_eq!(deindent(input).unwrap(), "p1\n\np2");
}

#[test]
fn short_blank_line_keeps_its_whitespace() {
    assert_eq!(deindent("    a\n  \n    b\n").unwrap(), "a\n  \nb\n");
}

#[test]
fn long_blank_line_loses_the_indent() {
    assert_eq!(deindent("  a\n     \n  b\n").unwrap(), "a\n   \nb\n");
}

#[test]
fn blank_line_as_long_as_the_indent_vanishes() {
    // Four bytes are taken from a line of four bytes, its terminator among them.
    assert_eq!(deindent("    a\n   \n    b\n").unwrap(), "a\nb\n");
}

#[test]
fn least_indent_wins() {
    let input = "      a\n  b\n    c\n";
    assert_eq!(info(input), Some((0, 2, 2)));
    assert_eq!(deindent(input).unwrap(), "    a\nb\n  c\n");
}

#[test]
fn tabs_count_one_byte_each() {
    let input = "\t\ta\n\t b\n";
    assert_eq!(info(input), Some((0, 1, 2)));
    assert_eq!(deindent(input).unwrap(), "a\nb\n");
}

#[test]
fn vertical_tab_and_form_feed_are_whitespace() {
    let input = "\x0b\x0ca\n  b\n";
    assert_eq!(info(input), Some((0, 1, 2)));
    assert_eq!(deindent(input).unwrap(), "a\nb\n");
}

#[test]
fn carriage_returns_are_kept() {
    let input = "  a\r\n  b\r\n\r\n";
    assert_eq!(info(input), Some((0, 1, 2)));
    assert_eq!(deindent(input).unwrap(), "a\r\nb\r\n");
}

#[test]
fn line_of_carriage_return_only_is_blank() {
    let input = "\r\n  a\r\n";
    assert_eq!(info(input), Some((1, 1, 2)));
    assert_eq!(deindent(input).unwrap(), "a\r\n");
}

#[test]
fn text_beyond_ascii_passes_through() {
    let input = "  h\u{e9}llo \u{4e16}\u{754c}\n    \u{1f600}\n";
    assert_eq!(info(input), Some((0, 1, 2)));
    assert_eq!(deindent(input).unwrap(), "h\u{e9}llo \u{4e16}\u{754c}\n  \u{1f600}\n");
}

#[test]
fn wide_space_is_content() {
    // U+00A0 is no ASCII whitespace: the line is not blank and has no indent.
    let input = "\u{a0}a\n  b\n";
    assert_eq!(info(input), Some((0, 1, 0)));
    assert_eq!(deindent(input).unwrap(), input);
}

#[test]
fn single_line_without_indent() {
    assert_eq!(info("x"), Some((0, 0, 0)));
    assert_eq!(deindent("x").unwrap(), "x");
}

#[test]
fn trailing_blank_line_without_terminator_is_dropped() {
    let input = "  x\n  ";
    assert_eq!(info(input), Some((0, 0, 2)));
    assert_eq!(deindent(input).unwrap(), "x\n");
}
