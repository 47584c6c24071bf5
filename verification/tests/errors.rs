use cstylegen::errors::{error_context, error_report, fix_clrf, format_css_parse_error, CssErrorKind, ErrorContext};
use cstylegen::parse::parsers::ParseError;

const SOURCE: &str = "a\nbb\nccc\ndddd\n";

#[test]
fn context_of_an_error() {
    assert_eq!(error_context(SOURCE, 2), ErrorContext::Lines(b"bb".to_vec(), b"ccc".to_vec()));
    assert_eq!(error_context(SOURCE, 3), ErrorContext::Lines(b"ccc".to_vec(), b"dddd".to_vec()));
    // the first two lines are shown for the lines 0 and 1
    assert_eq!(error_context(SOURCE, 0), ErrorContext::Lines(b"bb".to_vec(), b"ccc".to_vec()));
    assert_eq!(error_context(SOURCE, 1), ErrorContext::Lines(b"bb".to_vec(), b"ccc".to_vec()));
}

#[test]
fn context_missing() {
    assert_eq!(error_context(SOURCE, 4), ErrorContext::Missing);
    assert_eq!(error_context(SOURCE, 10), ErrorContext::Missing);
    assert_eq!(error_context("abc", 2), ErrorContext::Missing);
    assert_eq!(error_context("a\nb\n", 2), ErrorContext::Missing);
}

#[test]
fn context_inverted() {
    assert_eq!(error_context("q\nx\r\n\nzzz", 1), ErrorContext::Inverted);
}

#[test]
fn clrf_positions() {
    assert_eq!(fix_clrf(b"a\rb\n", 3), 2);
    assert_eq!(fix_clrf(b"ab\r\n", 3), 3);
    assert_eq!(fix_clrf(b"\n", 1), 1);
    assert_eq!(fix_clrf(b"", 0), 0);
}

#[test]
fn report_with_source() {
    let ctx = error_context(SOURCE, 2);
    let report = error_report("x.css", "boom", 2, 2, &ctx);
    assert_eq!(
        String::from_utf8(report).unwrap(),
        "x.css:\n    1│ bb\n    2│ ccc\n        ╰─► boom\n"
    );
}

#[test]
fn report_with_wide_line_numbers() {
    let ctx = ErrorContext::Lines(b"p".to_vec(), b"q".to_vec());
    let report = error_report("f", "m", 123456, 1, &ctx);
    assert_eq!(String::from_utf8(report).unwrap(), "f:\n123455│ p\n123456│ q\n       ╰─► m\n");
}

#[test]
fn report_without_source() {
    let report = error_report("x.css", "boom", 10, 3, &ErrorContext::Missing);
    assert_eq!(String::from_utf8(report).unwrap(), "[x.css @ line 10, column 3] boom\n");
}

#[test]
fn css_error_messages() {
    assert_eq!(format_css_parse_error(&CssErrorKind::AtRuleBodyInvalid), "@-rule body is invalid");
    assert_eq!(format_css_parse_error(&CssErrorKind::AtRuleInvalid("media".to_owned())), "Invalid @-rule (media)");
    assert_eq!(format_css_parse_error(&CssErrorKind::EndOfInput), "Unexpected end of input");
    assert_eq!(format_css_parse_error(&CssErrorKind::QualifiedRuleInvalid), "Qualified rule is invalid");
    assert_eq!(
        format_css_parse_error(&CssErrorKind::UnexpectedToken("Colon".to_owned())),
        "Unexpected token (Colon)"
    );
    assert_eq!(
        format_css_parse_error(&CssErrorKind::Custom(ParseError::DuplicateRootBlock)),
        "Found duplicate :root block"
    );
}
