use jslite::diagnostic::{DiagnosticKind, JsliteError};
use jslite::regexp::{collect_literal_matches, expand_regexp_replacement_template, validate_regexp_flags};

fn runtime_message(e: JsliteError) -> String {
    match e {
        JsliteError::Message { kind, message, span } => {
            assert_eq!(kind, DiagnosticKind::Runtime);
            assert_eq!(span, None);
            message
        }
        other => panic!("unexpected error {:?}", other),
    }
}

#[test]
fn flags_are_parsed_into_their_switches() {
    let state = validate_regexp_flags("gimsuy").unwrap();
    assert!(state.global && state.ignore_case && state.multiline);
    assert!(state.dot_all && state.unicode && state.sticky);
    let state = validate_regexp_flags("i").unwrap();
    assert!(state.ignore_case && !state.global && !state.sticky);
    let state = validate_regexp_flags("").unwrap();
    assert!(!state.global && !state.ignore_case);
}

#[test]
fn repeated_flag_is_a_syntax_error() {
    let e = validate_regexp_flags("gig").unwrap_err();
    assert_eq!(runtime_message(e), "SyntaxError: duplicate regular expression flag `g`");
}

#[test]
fn unknown_flag_is_a_syntax_error() {
    let e = validate_regexp_flags("gx").unwrap_err();
    assert_eq!(runtime_message(e), "SyntaxError: unsupported regular expression flag `x`");
}

#[test]
fn literal_matches_are_leftmost_and_non_overlapping() {
    let matches = collect_literal_matches("aaaa", "aa");
    let starts: Vec<usize> = matches.iter().map(|m| m.start_index).collect();
    assert_eq!(starts, vec![0, 2]);
    assert_eq!(matches[1].end_index, 4);
    assert!(matches[0].captures.is_empty());
    assert!(matches[0].named_groups.is_empty());
}

#[test]
fn empty_needle_matches_at_every_position() {
    let matches = collect_literal_matches("ab", "");
    let starts: Vec<usize> = matches.iter().map(|m| m.start_index).collect();
    assert_eq!(starts, vec![0, 1, 2]);
}

#[test]
fn match_byte_offsets_follow_character_widths() {
    let matches = collect_literal_matches("é-é", "é");
    assert_eq!(matches.len(), 2);
    assert_eq!((matches[1].start_index, matches[1].start_byte), (2, 3));
    assert_eq!((matches[1].end_index, matches[1].end_byte), (3, 5));
}

#[test]
fn replacement_template_expands_references() {
    let input = "hello world";
    let matches = collect_literal_matches(input, "o");
    let out = expand_regexp_replacement_template("[$&|$`|$'|$$|$1|$<n>|$x]", input, &matches[0]);
    assert_eq!(out, "[o|hell| world|$|||$x]");
}

#[test]
fn unclosed_group_name_is_kept_literally() {
    let input = "abc";
    let matches = collect_literal_matches(input, "b");
    let out = expand_regexp_replacement_template("<$<name", input, &matches[0]);
    assert_eq!(out, "<$<name");
}
