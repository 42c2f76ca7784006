use mdsummary::Chapters;
use mdsummary::Link;
use mdsummary::ParseError;
use mdsummary::Summary;

#[test]
fn test_preface_chapters() {
    let case = r#"# SUMMARY

[Preface 1](destination)
[Preface [2]](destination)
[Preface \[3](destination)
"#;

    let mut s = Summary::new(case);
    if let Some(ch) = s.parse() {
        if ch.prefaces.len() != 3 {
            panic!("There should be 3 preface chapters: {:?}", ch.prefaces)
        }
    }

    if s.contains_errors() {
        panic!("The parser should not contains any errors: {:?}", s.errors)
    }
}

#[test]
fn single_preface_entry() {
    let mut s = Summary::new("# SUMMARY\n\n[A](b)\n");
    let ch = s.parse().expect("the pass should succeed");
    assert_eq!(ch.prefaces.len(), 1);
    assert_eq!(ch.prefaces[0].name().as_str(), "A");
    assert_eq!(ch.prefaces[0].destination().as_str(), "b");
    assert_eq!(ch.chapters.len(), 0);
    assert_eq!(ch.appendices.len(), 0);
    assert!(!s.contains_errors());
}

#[test]
fn newline_inside_title_skips_silently() {
    let mut s = Summary::new("[A\n](b)");
    let ch = s.parse().expect("a skipped line is not an error");
    assert_eq!(ch.prefaces.len(), 0);
    assert_eq!(s.errors.len(), 0);
}

#[test]
fn unterminated_destination_skips_silently() {
    let mut s = Summary::new("[A](b");
    let ch = s.parse().expect("an unterminated destination is not an error");
    assert_eq!(ch.prefaces.len(), 0);
    assert_eq!(s.errors.len(), 0);
}

#[test]
fn missing_paren_records_diagnostic() {
    let mut s = Summary::new("[A]b");
    assert!(s.parse().is_none());
    assert_eq!(s.errors.len(), 1);
    assert_eq!(s.errors[0].desc, "expected `(`, but found `b`");
    assert_eq!(s.errors[0].byte, 3);
}

#[test]
fn nested_brackets_kept_in_title() {
    let mut s = Summary::new("[Pre [nested]](d)");
    let ch = s.parse().expect("balanced nesting is fine");
    assert_eq!(ch.prefaces.len(), 1);
    assert_eq!(ch.prefaces[0].name().as_str(), "Pre [nested]");
    assert_eq!(ch.prefaces[0].destination().as_str(), "d");
}

#[test]
fn escaped_bracket_keeps_backslash() {
    let mut s = Summary::new("[Pre \\[3](d)");
    let ch = s.parse().expect("an escaped bracket is fine");
    assert_eq!(ch.prefaces.len(), 1);
    assert_eq!(ch.prefaces[0].name().as_str(), "Pre \\[3");
}

#[test]
fn dash_ends_prefaces() {
    let mut s = Summary::new("- Chapter");
    let ch = s.parse().expect("the marker is not an error");
    assert_eq!(ch.prefaces.len(), 0);
    assert_eq!(s.errors.len(), 0);
}

#[test]
fn dash_ends_before_garbage() {
    let mut s = Summary::new("[A](b)\n- next\n???");
    let ch = s.parse().expect("nothing after the marker is read");
    assert_eq!(ch.prefaces.len(), 1);
    assert_eq!(s.errors.len(), 0);
}

#[test]
fn unexpected_character_line_discarded() {
    let mut s = Summary::new("x[A](b)\n[B](c)");
    assert!(s.parse().is_none());
    assert_eq!(s.errors.len(), 1);
    assert_eq!(s.errors[0].desc, "Unexpected character 'x'");
    assert_eq!(s.errors[0].byte, 0);
}

#[test]
fn empty_input_is_fine() {
    let mut s = Summary::new("");
    let ch = s.parse().expect("empty input parses");
    assert_eq!(ch.prefaces.len(), 0);
    assert_eq!(s.errors.len(), 0);
}

#[test]
fn whitespace_line_is_an_error() {
    let mut s = Summary::new("   \n[A](b)");
    assert!(s.parse().is_none());
    assert_eq!(s.errors.len(), 1);
    assert_eq!(s.errors[0].desc, "Unexpected character ' '");
    assert_eq!(s.errors[0].byte, 0);
}

#[test]
fn eof_after_title_records_eof_diagnostic() {
    let mut s = Summary::new("[A]");
    assert!(s.parse().is_none());
    assert_eq!(s.errors.len(), 1);
    assert_eq!(s.errors[0].desc, "expected `(`, but found eof");
    assert_eq!(s.errors[0].byte, 3);
}

#[test]
fn backslash_at_end_of_title() {
    let mut s = Summary::new("[A\\");
    assert!(s.parse().is_none());
    assert_eq!(s.errors.len(), 1);
    assert_eq!(s.errors[0].desc, "expected `(`, but found eof");
    assert_eq!(s.errors[0].byte, 3);
}

#[test]
fn escaped_newline_stays_in_title() {
    let mut s = Summary::new("[a\\\n](b)");
    let ch = s.parse().expect("an escaped line break is kept literally");
    assert_eq!(ch.prefaces.len(), 1);
    assert_eq!(ch.prefaces[0].name().as_str(), "a\\\n");
    assert_eq!(ch.prefaces[0].destination().as_str(), "b");
}

#[test]
fn newline_in_destination_discards_rest_of_line() {
    let mut s = Summary::new("[A](b\nc)");
    let ch = s.parse().expect("the aborted link is skipped silently");
    assert_eq!(ch.prefaces.len(), 0);
    assert_eq!(s.errors.len(), 0);
}

#[test]
fn multibyte_diagnostic_offsets() {
    let mut s = Summary::new("\u{e9}\n[A]b");
    assert!(s.parse().is_none());
    assert_eq!(s.errors.len(), 2);
    assert_eq!(s.errors[0].desc, "Unexpected character '\u{e9}'");
    assert_eq!(s.errors[0].byte, 0);
    assert_eq!(s.errors[1].desc, "expected `(`, but found `b`");
    assert_eq!(s.errors[1].byte, 6);
}

#[test]
fn crlf_lines_are_blank_lines() {
    let mut s = Summary::new("# T\r\n\r\n[A](b)\r\n");
    let ch = s.parse().expect("carriage-return line breaks are fine");
    assert_eq!(ch.prefaces.len(), 1);
    assert_eq!(ch.prefaces[0].name().as_str(), "A");
}

#[test]
fn link_set_children_keeps_title() {
    let mut l = Link::new("t", "d");
    l.set_children(vec![Link::new("c", "e")]);
    assert_eq!(l.name().as_str(), "t");
    assert_eq!(l.destination().as_str(), "d");
}

#[test]
fn parse_error_new_holds_fields() {
    let e = ParseError::new("msg", 7);
    assert_eq!(e.desc, "msg");
    assert_eq!(e.byte, 7);
}

#[test]
fn chapters_new_is_empty() {
    let ch = Chapters::new();
    assert_eq!(ch.prefaces.len(), 0);
    assert_eq!(ch.chapters.len(), 0);
    assert_eq!(ch.appendices.len(), 0);
}
