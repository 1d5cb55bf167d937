use deindent::Deindenter;

fn test(input: &str, expected: &str) {
    let d = Deindenter::new(input).unwrap();
    assert_eq!(d.to_string(), expected);
}

const EXPECTED: &str = r#"impl From<Deindenter<'_>> for IndentInfo {
    fn from(value: Deindenter) -> Self {
        value.indent_info
    }
}
"#;

#[test]
fn extra_whitespace_lines() {
    let input = r#"

impl From<Deindenter<'_>> for IndentInfo {
    fn from(value: Deindenter) -> Self {
        value.indent_info
    }
}

"#;

    test(input, EXPECTED);
}

#[test]
fn noop() {
    let input = r#"impl From<Deindenter<'_>> for IndentInfo {
    fn from(value: Deindenter) -> Self {
        value.indent_info
    }
}
"#;

    test(input, input);
}

#[test]
fn indented() {
    let input = r#"                impl From<Deindenter<'_>> for IndentInfo {
                    fn from(value: Deindenter) -> Self {
                        value.indent_info
                    }
                }
"#;

    test(input, EXPECTED);
}

#[test]
fn almost_indented() {
    // First row is not indented at all == noop.
    let input = r#"impl From<Deindenter<'_>> for IndentInfo {
                    fn from(value: Deindenter) -> Self {
                        value.indent_info
                    }
                }
"#;

    test(input, input);
}

#[test]
fn no_trailing_newline() {
    let input = r#"                impl From<Deindenter<'_>> for IndentInfo {
                    fn from(value: Deindenter) -> Self {
                        value.indent_info
                    }
                }"#;

    let expected = r#"impl From<Deindenter<'_>> for IndentInfo {
    fn from(value: Deindenter) -> Self {
        value.indent_info
    }
}"#;

    test(input, expected);
}

#[test]
fn multiple_paragraphs() {
    let mut input = "  \n        this is p1\n\n        this is p2".to_owned();

    let mut expected = "this is p1\n\nthis is p2".to_owned();

    test(&input, &expected);

    // With trailing newline.
    input.push('\n');
    expected.push('\n');

    test(&input, &expected);
}
