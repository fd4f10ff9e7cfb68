use vstd::prelude::*;

use crate::diagnostic::{decimal, is_message_error, push_decimal, DiagnosticKind, JsliteError};
use crate::strings::{chars_of, extend_chars, string_from_chars};

verus! {

// Serialized programs and snapshots carry the version of their format; a
// blob in any other version is refused when it is loaded.

/// The version of the serialized program and snapshot format.
pub const SERIAL_FORMAT_VERSION: u32 = 1;

/// What a serialized blob holds.
#[derive(Debug, Clone, Copy, PartialEq, Eq, Structural)]
pub enum SerializedKind {
    Program,
    Snapshot,
}

pub open spec fn kind_word(kind: SerializedKind) -> Seq<char> {
    match kind {
        SerializedKind::Program => "program"@,
        SerializedKind::Snapshot => "snapshot"@,
    }
}

/// The refusal of a blob in another format version.
pub open spec fn version_mismatch_message(kind: SerializedKind, version: u32) -> Seq<char> {
    "serialized "@ + kind_word(kind) + " version mismatch: expected "@ + decimal(
        SERIAL_FORMAT_VERSION as nat,
    ) + ", got "@ + decimal(version as nat)
}

/// Accepts a decoded blob's format version: the current one passes, any
/// other is a serialization error naming both versions.
pub fn check_serial_version(kind: SerializedKind, version: u32) -> (r: Result<(), JsliteError>)
    ensures
        r is Ok <==> version == SERIAL_FORMAT_VERSION,
        r matches Err(e) ==> is_message_error(
            e,
            DiagnosticKind::Serialization,
            version_mismatch_message(kind, version),
        ),
{
    if version == SERIAL_FORMAT_VERSION {
        return Ok(());
    }
    let mut message = chars_of("serialized ");
    match kind {
        SerializedKind::Program => extend_chars(&mut message, &chars_of("program")),
        SerializedKind::Snapshot => extend_chars(&mut message, &chars_of("snapshot")),
    }
    extend_chars(&mut message, &chars_of(" version mismatch: expected "));
    push_decimal(&mut message, SERIAL_FORMAT_VERSION as u64);
    extend_chars(&mut message, &chars_of(", got "));
    push_decimal(&mut message, version as u64);
    Err(JsliteError::Message {
        kind: DiagnosticKind::Serialization,
        message: string_from_chars(&message),
        span: None,
    })
}

} // verus!
