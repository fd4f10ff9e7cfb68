use jslite::sidecar::{
    is_blank_request_line, refuse_protocol_version, respond, SidecarResponse, MAX_REQUEST_LINE_BYTES,
    PROTOCOL_VERSION,
};

#[test]
fn blank_lines_are_ignored() {
    assert!(is_blank_request_line(""), "blank line should be accepted");
    assert!(is_blank_request_line("   "), "whitespace line should be accepted");
}

#[test]
fn blank_request_lines_are_skipped() {
    assert!(is_blank_request_line(""));
    assert!(is_blank_request_line("   "));
    assert!(is_blank_request_line("\t\r\n\u{3000}"));
    assert!(!is_blank_request_line("  {\"method\":\"compile\"}"));
}

#[test]
fn only_the_current_protocol_version_is_served() {
    assert_eq!(PROTOCOL_VERSION, 1);
    assert_eq!(MAX_REQUEST_LINE_BYTES, 1024 * 1024);
    assert!(refuse_protocol_version::<String>(1, 7).is_none());
    let response: SidecarResponse<String> = refuse_protocol_version(2, 7).expect("version 2 is refused");
    assert_eq!(response.protocol_version, 1);
    assert_eq!(response.id, 7);
    assert!(!response.ok);
    assert!(response.result.is_none());
    assert_eq!(response.error.as_deref(), Some("unsupported sidecar protocol version 2; expected 1"));
}

#[test]
fn responses_echo_the_request_id() {
    let ok = respond(11, Ok::<u32, String>(5));
    assert_eq!((ok.protocol_version, ok.id, ok.ok, ok.result, ok.error), (1, 11, true, Some(5), None));
    let failed = respond::<u32>(12, Err("host failure".to_string()));
    assert_eq!(
        (failed.id, failed.ok, failed.result, failed.error),
        (12, false, None, Some("host failure".to_string()))
    );
}

#[test]
fn white_space_is_the_unicode_set() {
    assert!(is_blank_request_line("\u{85}\u{a0}\u{1680}\u{2009}\u{2028}\u{202f}\u{205f}"));
    assert!(!is_blank_request_line("\u{200b}"));
    assert!(!is_blank_request_line("\u{feff}"));
}
