use vstd::prelude::*;

use crate::span::SourceSpan;
use crate::strings::{chars_of, extend_chars, string_from_chars};

verus! {

/// The stage of the pipeline that produced a diagnostic or error.
#[derive(Debug, Clone, Copy, PartialEq, Eq, Structural)]
pub enum DiagnosticKind {
    Parse,
    Validation,
    Runtime,
    Limit,
    Serialization,
}

/// One problem found in guest source, with the span it refers to.
#[derive(Debug, Clone, PartialEq, Eq)]
pub struct Diagnostic {
    pub kind: DiagnosticKind,
    pub message: String,
    pub span: Option<SourceSpan>,
}

/// The error type of every fallible operation of the library.
#[derive(Debug, Clone)]
pub enum JsliteError {
    Diagnostics(Vec<Diagnostic>),
    Message { kind: DiagnosticKind, message: String, span: Option<SourceSpan> },
}

pub type JsliteResult<T> = Result<T, JsliteError>;

impl Diagnostic {
    /// A diagnostic reported by the parser.
    pub fn parse(message: String, span: Option<SourceSpan>) -> (d: Diagnostic)
        ensures
            d.kind == DiagnosticKind::Parse,
            d.message@ == message@,
            d.span == span,
    {
        Diagnostic { kind: DiagnosticKind::Parse, message, span }
    }

    /// A diagnostic for source that parses but uses an unsupported or
    /// forbidden construct.
    pub fn validation(message: String, span: Option<SourceSpan>) -> (d: Diagnostic)
        ensures
            d.kind == DiagnosticKind::Validation,
            d.message@ == message@,
            d.span == span,
    {
        Diagnostic { kind: DiagnosticKind::Validation, message, span }
    }
}

impl JsliteError {
    /// A single validation error.
    pub fn validation(message: String, span: Option<SourceSpan>) -> (e: JsliteError)
        ensures
            e matches JsliteError::Message { kind, message: m, span: s } && kind
                == DiagnosticKind::Validation && m@ == message@ && s == span,
    {
        JsliteError::Message { kind: DiagnosticKind::Validation, message, span }
    }

    /// A runtime error, with no source span.
    pub fn runtime(message: String) -> (e: JsliteError)
        ensures
            e matches JsliteError::Message { kind, message: m, span: s } && kind
                == DiagnosticKind::Runtime && m@ == message@ && s is None,
    {
        JsliteError::Message { kind: DiagnosticKind::Runtime, message, span: None }
    }

    /// A runtime error located at `span`.
    pub fn runtime_at(message: String, span: SourceSpan) -> (e: JsliteError)
        ensures
            e matches JsliteError::Message { kind, message: m, span: s } && kind
                == DiagnosticKind::Runtime && m@ == message@ && s == Some(span),
    {
        JsliteError::Message { kind: DiagnosticKind::Runtime, message, span: Some(span) }
    }
}

/// A runtime error whose message is `message`.
pub open spec fn is_runtime_error(e: JsliteError, message: Seq<char>) -> bool {
    e matches JsliteError::Message { kind, message: m, span } && kind == DiagnosticKind::Runtime
        && m@ == message && span is None
}

/// An error of kind `kind`, without span, whose message is `message`.
pub open spec fn is_message_error(e: JsliteError, kind: DiagnosticKind, message: Seq<char>) -> bool {
    e matches JsliteError::Message { kind: k, message: m, span } && k == kind && m@ == message
        && span is None
}


/// An error for an exhausted resource limit.
pub fn limit_error(message: String) -> (e: JsliteError)
    ensures
        is_message_error(e, DiagnosticKind::Limit, message@),
{
    JsliteError::Message { kind: DiagnosticKind::Limit, message, span: None }
}

/// An error in encoding, decoding or restoring a program or snapshot.
pub fn serialization_error(message: String) -> (e: JsliteError)
    ensures
        is_message_error(e, DiagnosticKind::Serialization, message@),
{
    JsliteError::Message { kind: DiagnosticKind::Serialization, message, span: None }
}

/// A runtime error whose message is the literal `text`.
pub fn runtime_error_from(text: &str) -> (e: JsliteError)
    ensures
        is_runtime_error(e, text@),
{
    JsliteError::runtime(text.to_owned())
}

/// A limit error whose message is the literal `text`.
pub fn limit_error_from(text: &str) -> (e: JsliteError)
    ensures
        is_message_error(e, DiagnosticKind::Limit, text@),
{
    limit_error(text.to_owned())
}

/// A serialization error whose message is the literal `text`.
pub fn serialization_error_from(text: &str) -> (e: JsliteError)
    ensures
        is_message_error(e, DiagnosticKind::Serialization, text@),
{
    serialization_error(text.to_owned())
}

/// `JSON.stringify` met a value that contains itself.
pub fn json_stringify_cycle_error() -> (e: JsliteError)
    ensures
        is_runtime_error(e, "TypeError: Converting circular structure to JSON"@),
{
    runtime_error_from("TypeError: Converting circular structure to JSON")
}

/// A value that contains itself was about to cross the host boundary.
pub fn structured_boundary_cycle_error() -> (e: JsliteError)
    ensures
        is_runtime_error(e, "cyclic values cannot cross the structured host boundary"@),
{
    runtime_error_from("cyclic values cannot cross the structured host boundary")
}

/// Arithmetic mixed a BigInt with a Number.
pub fn mixed_bigint_number_error() -> (e: JsliteError)
    ensures
        is_runtime_error(e, "TypeError: cannot mix BigInt and Number values in arithmetic"@),
{
    runtime_error_from("TypeError: cannot mix BigInt and Number values in arithmetic")
}

/// A comparison mixed a BigInt with a Number.
pub fn mixed_bigint_comparison_error() -> (e: JsliteError)
    ensures
        is_runtime_error(e, "TypeError: cannot compare BigInt and Number values"@),
{
    runtime_error_from("TypeError: cannot compare BigInt and Number values")
}


// ---------------------------------------------------------------------------
// Human-readable rendering.
// ---------------------------------------------------------------------------

/// The name of a diagnostic kind, as printed.
pub open spec fn kind_name(kind: DiagnosticKind) -> Seq<char> {
    match kind {
        DiagnosticKind::Parse => "Parse"@,
        DiagnosticKind::Validation => "Validation"@,
        DiagnosticKind::Runtime => "Runtime"@,
        DiagnosticKind::Limit => "Limit"@,
        DiagnosticKind::Serialization => "Serialization"@,
    }
}

pub open spec fn digit_char(d: int) -> char {
    seq!['0', '1', '2', '3', '4', '5', '6', '7', '8', '9'][d]
}

/// Decimal digits of `n`, most significant first, without leading zeros.
pub open spec fn decimal(n: nat) -> Seq<char>
    decreases n,
{
    if n < 10 {
        seq![digit_char(n as int)]
    } else {
        decimal(n / 10) + seq![digit_char((n % 10) as int)]
    }
}

/// ` [start..end]` for a span, nothing without one.
pub open spec fn span_suffix(span: Option<SourceSpan>) -> Seq<char> {
    match span {
        Some(s) => " ["@ + decimal(s.start as nat) + ".."@ + decimal(s.end as nat) + "]"@,
        None => seq![],
    }
}

/// One rendered line: `Kind: message [start..end]`.
pub open spec fn diagnostic_line(kind: DiagnosticKind, message: Seq<char>, span: Option<SourceSpan>) -> Seq<char> {
    kind_name(kind) + ": "@ + message + span_suffix(span)
}

/// The first `n` diagnostics rendered one per line.
pub open spec fn render_lines(items: Seq<Diagnostic>, n: int) -> Seq<char>
    decreases n,
{
    if n <= 0 || n > items.len() {
        seq![]
    } else if n == 1 {
        diagnostic_line(items[0].kind, items[0].message@, items[0].span)
    } else {
        render_lines(items, n - 1) + "\n"@ + diagnostic_line(
            items[n - 1].kind,
            items[n - 1].message@,
            items[n - 1].span,
        )
    }
}

/// The text an error renders to.
pub open spec fn render_spec(e: JsliteError) -> Seq<char> {
    match e {
        JsliteError::Diagnostics(items) => render_lines(items@, items@.len() as int),
        JsliteError::Message { kind, message, span } => diagnostic_line(kind, message@, span),
    }
}

fn push_kind_name(out: &mut Vec<char>, kind: DiagnosticKind)
    ensures
        final(out)@ == old(out)@ + kind_name(kind),
{
    let name = match kind {
        DiagnosticKind::Parse => chars_of("Parse"),
        DiagnosticKind::Validation => chars_of("Validation"),
        DiagnosticKind::Runtime => chars_of("Runtime"),
        DiagnosticKind::Limit => chars_of("Limit"),
        DiagnosticKind::Serialization => chars_of("Serialization"),
    };
    extend_chars(out, &name);
}

/// Appends the decimal digits of `n`.
pub fn push_decimal(out: &mut Vec<char>, n: u64)
    ensures
        final(out)@ == old(out)@ + decimal(n as nat),
    decreases n,
{
    let digits = ['0', '1', '2', '3', '4', '5', '6', '7', '8', '9'];
    if n < 10 {
        out.push(digits[n as usize]);
        assert(out@ =~= old(out)@ + decimal(n as nat));
    } else {
        push_decimal(out, n / 10);
        out.push(digits[(n % 10) as usize]);
        assert(out@ =~= old(out)@ + decimal(n as nat));
    }
}

fn push_span_suffix(out: &mut Vec<char>, span: Option<SourceSpan>)
    ensures
        final(out)@ == old(out)@ + span_suffix(span),
{
    match span {
        Some(s) => {
            extend_chars(out, &chars_of(" ["));
            push_decimal(out, s.start as u64);
            extend_chars(out, &chars_of(".."));
            push_decimal(out, s.end as u64);
            extend_chars(out, &chars_of("]"));
            assert(out@ =~= old(out)@ + span_suffix(span));
        },
        None => {
            assert(out@ =~= old(out)@ + span_suffix(span));
        },
    }
}

fn push_diagnostic_line(
    out: &mut Vec<char>,
    kind: DiagnosticKind,
    message: &String,
    span: Option<SourceSpan>,
)
    ensures
        final(out)@ == old(out)@ + diagnostic_line(kind, message@, span),
{
    push_kind_name(out, kind);
    extend_chars(out, &chars_of(": "));
    extend_chars(out, &chars_of(message.as_str()));
    push_span_suffix(out, span);
    assert(out@ =~= old(out)@ + diagnostic_line(kind, message@, span));
}

impl JsliteError {
    /// Renders the error as text: each diagnostic as `Kind: message`,
    /// followed by ` [start..end]` when it has a span, one per line.
    pub fn render(&self) -> (text: String)
        ensures
            text@ == render_spec(*self),
    {
        let mut out: Vec<char> = Vec::new();
        match self {
            JsliteError::Diagnostics(items) => {
                let mut i: usize = 0;
                while i < items.len()
                    invariant
                        i <= items.len(),
                        out@ == render_lines(items@, i as int),
                    decreases items.len() - i,
                {
                    if i > 0 {
                        extend_chars(&mut out, &chars_of("\n"));
                    }
                    let ghost before = out@;
                    push_diagnostic_line(&mut out, items[i].kind, &items[i].message, items[i].span);
                    assert(out@ =~= render_lines(items@, i + 1));
                    i += 1;
                }
            },
            JsliteError::Message { kind, message, span } => {
                push_diagnostic_line(&mut out, *kind, message, *span);
                assert(out@ =~= render_spec(*self));
            },
        }
        string_from_chars(&out)
    }
}

} // verus!
