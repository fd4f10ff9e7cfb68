use vstd::prelude::*;

verus! {

/// A half-open byte range `[start, end)` of guest source text.
#[derive(Debug, Clone, Copy, PartialEq, Eq, Structural)]
pub struct SourceSpan {
    pub start: u32,
    pub end: u32,
}

impl SourceSpan {
    pub fn new(start: u32, end: u32) -> (span: SourceSpan)
        ensures
            span.start == start,
            span.end == end,
    {
        SourceSpan { start, end }
    }
}

} // verus!
