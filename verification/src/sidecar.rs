use vstd::prelude::*;

use crate::diagnostic::{decimal, push_decimal};
use crate::strings::{chars_of, extend_chars, string_from_chars};

verus! {

// The decisions of the sidecar's line protocol: which request lines are
// skipped, which protocol versions are served, and how the outcome of a
// request becomes its response. Each response echoes the request's id.

/// The protocol version this sidecar speaks.
pub const PROTOCOL_VERSION: u32 = 1;

/// The longest request line the sidecar reads.
pub const MAX_REQUEST_LINE_BYTES: usize = 1048576;

/// A response to one request; `result` holds what the request produced.
pub struct SidecarResponse<T> {
    pub protocol_version: u32,
    pub id: u64,
    pub ok: bool,
    pub result: Option<T>,
    pub error: Option<String>,
}

/// Whether a character has the Unicode `White_Space` property, which is
/// what `char::is_whitespace` tests.
pub open spec fn is_white_space(c: char) -> bool {
    let n = c as u32;
    ||| 0x9 <= n <= 0xD
    ||| n == 0x20
    ||| n == 0x85
    ||| n == 0xA0
    ||| n == 0x1680
    ||| 0x2000 <= n <= 0x200A
    ||| n == 0x2028
    ||| n == 0x2029
    ||| n == 0x202F
    ||| n == 0x205F
    ||| n == 0x3000
}

/// Whether `c` is Unicode white space.
fn char_is_white_space(c: char) -> (b: bool)
    ensures
        b == is_white_space(c),
{
    let n = c as u32;
    (0x9 <= n && n <= 0xD) || n == 0x20 || n == 0x85 || n == 0xA0 || n == 0x1680 || (0x2000 <= n
        && n <= 0x200A) || n == 0x2028 || n == 0x2029 || n == 0x202F || n == 0x205F || n == 0x3000
}

/// A line holding nothing but white space.
pub open spec fn blank(line: Seq<char>) -> bool {
    forall|i: int| 0 <= i < line.len() ==> is_white_space(#[trigger] line[i])
}

/// Whether a request line is skipped: an empty or all-white-space line is
/// no request.
pub fn is_blank_request_line(line: &str) -> (b: bool)
    ensures
        b == blank(line@),
{
    let chars = chars_of(line);
    let mut i: usize = 0;
    while i < chars.len()
        invariant
            i <= chars.len(),
            chars@ == line@,
            forall|k: int| 0 <= k < i ==> is_white_space(#[trigger] line@[k]),
        decreases chars.len() - i,
    {
        if !char_is_white_space(chars[i]) {
            return false;
        }
        i += 1;
    }
    true
}

/// The refusal of a request in another protocol version.
pub open spec fn version_message(version: u32) -> Seq<char> {
    "unsupported sidecar protocol version "@ + decimal(version as nat) + "; expected "@ + decimal(
        PROTOCOL_VERSION as nat,
    )
}

/// The response to a request in a protocol version this sidecar does not
/// speak, or `None` when it speaks it.
pub fn refuse_protocol_version<T>(protocol_version: u32, id: u64) -> (r: Option<SidecarResponse<T>>)
    ensures
        protocol_version == PROTOCOL_VERSION <==> r is None,
        r matches Some(response) ==> {
            &&& response.protocol_version == PROTOCOL_VERSION
            &&& response.id == id
            &&& !response.ok
            &&& response.result is None
            &&& response.error matches Some(e) && e@ == version_message(protocol_version)
        },
{
    if protocol_version == PROTOCOL_VERSION {
        return None;
    }
    let mut message = chars_of("unsupported sidecar protocol version ");
    push_decimal(&mut message, protocol_version as u64);
    extend_chars(&mut message, &chars_of("; expected "));
    push_decimal(&mut message, PROTOCOL_VERSION as u64);
    Some(
        SidecarResponse {
            protocol_version: PROTOCOL_VERSION,
            id,
            ok: false,
            result: None,
            error: Some(string_from_chars(&message)),
        },
    )
}

/// The response to a served request: its result when it succeeded, its
/// error message otherwise.
pub fn respond<T>(id: u64, outcome: Result<T, String>) -> (r: SidecarResponse<T>)
    ensures
        r.protocol_version == PROTOCOL_VERSION,
        r.id == id,
        r.ok == outcome is Ok,
        outcome matches Ok(v) ==> r.result == Some(v) && r.error is None,
        outcome matches Err(e) ==> r.result is None && r.error == Some(e),
{
    match outcome {
        Ok(result) => SidecarResponse {
            protocol_version: PROTOCOL_VERSION,
            id,
            ok: true,
            result: Some(result),
            error: None,
        },
        Err(error) => SidecarResponse {
            protocol_version: PROTOCOL_VERSION,
            id,
            ok: false,
            result: None,
            error: Some(error),
        },
    }
}

} // verus!
