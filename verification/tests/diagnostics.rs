use jslite::diagnostic::{
    json_stringify_cycle_error, limit_error, push_decimal, runtime_error_from, Diagnostic,
    DiagnosticKind, JsliteError,
};
use jslite::span::SourceSpan;

#[test]
fn message_error_renders_kind_message_and_span() {
    let e = JsliteError::runtime_at("boom".to_string(), SourceSpan::new(3, 17));
    assert_eq!(e.render(), "Runtime: boom [3..17]");
}

#[test]
fn error_without_span_renders_without_suffix() {
    assert_eq!(limit_error("heap limit exceeded".to_string()).render(), "Limit: heap limit exceeded");
    assert_eq!(runtime_error_from("x").render(), "Runtime: x");
}

#[test]
fn diagnostics_render_one_per_line() {
    let e = JsliteError::Diagnostics(vec![
        Diagnostic::parse("unexpected token".to_string(), Some(SourceSpan::new(0, 1))),
        Diagnostic::validation("no eval".to_string(), None),
    ]);
    assert_eq!(e.render(), "Parse: unexpected token [0..1]\nValidation: no eval");
    assert_eq!(JsliteError::Diagnostics(vec![]).render(), "");
}

#[test]
fn constructors_set_kind_and_span() {
    match JsliteError::validation("v".to_string(), Some(SourceSpan::new(1, 2))) {
        JsliteError::Message { kind, message, span } => {
            assert_eq!(kind, DiagnosticKind::Validation);
            assert_eq!(message, "v");
            assert_eq!(span, Some(SourceSpan::new(1, 2)));
        }
        other => panic!("unexpected {:?}", other),
    }
    match json_stringify_cycle_error() {
        JsliteError::Message { kind, .. } => assert_eq!(kind, DiagnosticKind::Runtime),
        other => panic!("unexpected {:?}", other),
    }
}

#[test]
fn decimal_digits_have_no_leading_zeros() {
    let mut out = Vec::new();
    push_decimal(&mut out, 0);
    out.push(' ');
    push_decimal(&mut out, 1204);
    out.push(' ');
    push_decimal(&mut out, u64::MAX);
    let text: String = out.into_iter().collect();
    assert_eq!(text, format!("0 1204 {}", u64::MAX));
}
