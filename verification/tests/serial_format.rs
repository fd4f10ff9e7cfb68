use jslite::diagnostic::{DiagnosticKind, JsliteError};
use jslite::serial_format::{check_serial_version, SerializedKind, SERIAL_FORMAT_VERSION};

#[test]
fn the_current_format_version_loads() {
    assert_eq!(SERIAL_FORMAT_VERSION, 1);
    assert!(check_serial_version(SerializedKind::Program, 1).is_ok());
    assert!(check_serial_version(SerializedKind::Snapshot, 1).is_ok());
}

#[test]
fn other_format_versions_are_refused() {
    match check_serial_version(SerializedKind::Program, 7) {
        Err(JsliteError::Message { kind, message, span }) => {
            assert_eq!(kind, DiagnosticKind::Serialization);
            assert_eq!(message, "serialized program version mismatch: expected 1, got 7");
            assert_eq!(span, None);
        }
        _ => panic!("version 7 should be refused"),
    }
    match check_serial_version(SerializedKind::Snapshot, 0) {
        Err(error) => assert_eq!(error.render(), "Serialization: serialized snapshot version mismatch: expected 1, got 0"),
        Ok(()) => panic!("version 0 should be refused"),
    }
}
