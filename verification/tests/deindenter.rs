use deindent::lines::{count_leading_space, find_line_end, is_ascii_space};
use deindent::{Deindenter, IndentInfo};

#[test]
fn to_writer_appends_to_the_buffer() {
    let d = Deindenter::new("  a\n  b\n").unwrap();
    let mut out = b">> ".to_vec();
    d.to_writer(&mut out);
    assert_eq!(out, b">> a\nb\n".to_vec());
}

#[test]
fn to_writer_twice_writes_twice() {
    let d = Deindenter::new("\n  a\n").unwrap();
    let mut out = Vec::new();
    d.to_writer(&mut out);
    d.to_writer(&mut out);
    assert_eq!(out, b"a\na\n".to_vec());
}

#[test]
fn to_writer_and_to_string_agree() {
    let d = Deindenter::new("    one\n\n      two\n   \n").unwrap();
    let mut out = Vec::new();
    d.to_writer(&mut out);
    assert_eq!(out, b"one\n\n  two\n".to_vec());
    assert_eq!(d.to_string().into_bytes(), out);
}

#[test]
fn indent_info_is_what_the_scan_found() {
    let input = "\n   a\n  b\n\n";
    let d = Deindenter::new(input).unwrap();
    let held = d.indent_info();
    let scanned = IndentInfo::new(input).unwrap();
    assert_eq!(held.first_line, 1);
    assert_eq!(held.last_line, 2);
    assert_eq!(held.leading_whitespace, 2);
    assert_eq!(held.first_line, scanned.first_line);
    assert_eq!(held.last_line, scanned.last_line);
    assert_eq!(held.leading_whitespace, scanned.leading_whitespace);
}

#[test]
fn indent_info_from_deindenter() {
    let d = Deindenter::new("\n\n    a\n").unwrap();
    let info = IndentInfo::from(d);
    assert_eq!(info.first_line, 2);
    assert_eq!(info.last_line, 2);
    assert_eq!(info.leading_whitespace, 4);
}

#[test]
fn deindenting_twice_changes_nothing_more() {
    let once = Deindenter::new("\n    a\n   \n      b\n  \n").unwrap().to_string();
    assert_eq!(once, "a\n  b\n");
    let twice = Deindenter::new(&once).unwrap().to_string();
    assert_eq!(twice, once);
}

#[test]
fn uniform_indent_takes_the_same_from_every_line() {
    let input = "   a\n \n   b\n   c";
    let d = Deindenter::new(input).unwrap();
    assert_eq!(d.indent_info().leading_whitespace, 3);
    assert_eq!(d.to_string(), "a\n \nb\nc");
}

#[test]
fn final_terminator_is_kept_or_left_out() {
    assert!(Deindenter::new("  a\n  b\n").unwrap().to_string().ends_with('\n'));
    assert!(!Deindenter::new("  a\n  b").unwrap().to_string().ends_with('\n'));
}

#[test]
fn whitespace_bytes() {
    for b in [b' ', b'\t', b'\n', 0x0b, 0x0c, b'\r'] {
        assert!(is_ascii_space(b));
    }
    for b in [0x00, 0x08, 0x0e, 0x1f, b'a', b'_', 0x7f, 0x85, 0xa0, 0xff] {
        assert!(!is_ascii_space(b));
    }
}

#[test]
fn line_ends() {
    let text = b"ab\n\ncd";
    assert_eq!(find_line_end(text, 0), 3);
    assert_eq!(find_line_end(text, 1), 3);
    assert_eq!(find_line_end(text, 2), 3);
    assert_eq!(find_line_end(text, 3), 4);
    assert_eq!(find_line_end(text, 4), 6);
    assert_eq!(find_line_end(text, 5), 6);
}

#[test]
fn leading_space_counts() {
    let text = b"  \t x \n";
    assert_eq!(count_leading_space(text, 0, 7), 4);
    assert_eq!(count_leading_space(text, 0, 2), 2);
    assert_eq!(count_leading_space(text, 4, 7), 0);
    assert_eq!(count_leading_space(text, 5, 7), 2);
    assert_eq!(count_leading_space(text, 3, 3), 0);
}
