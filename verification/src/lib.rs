//! Diagnostic reporting for language tooling: a source-file database that
//! converts between byte offsets and line/column coordinates (in both
//! grapheme-cluster and UTF-16 code-unit systems), a diagnostic data model,
//! and a renderer that lays out labeled source snippets as styled text.

use vstd::prelude::*;

pub mod config;
pub mod diagnostic;
pub mod file;
pub mod lsp;
pub mod render;
pub mod reporting;
pub mod text;
pub mod unicode;

verus! {

/// A half-open byte range `[start, end)` into a file's source text.
#[derive(Copy, Clone, Debug, PartialEq, Eq, Structural)]
pub struct Span {
    pub start: usize,
    pub end: usize,
}

/// The text form of a span: its half-open range in brackets.
pub open spec fn span_display_of(span: Span) -> Seq<char> {
    seq!['['] + crate::text::dec_digits(span.start as int) + ", "@ + crate::text::dec_digits(
        span.end as int,
    ) + seq![')']
}

impl Span {
    /// Create a new span from a starting and an ending byte index.
    pub fn new(start: usize, end: usize) -> (s: Span)
        ensures
            s.start == start,
            s.end == end,
    {
        Span { start, end }
    }

    /// The span as text: `[start, end)`.
    pub fn display_string(&self) -> (r: String)
        ensures
            r@ == span_display_of(*self),
    {
        let mut r = String::new();
        r.push('[');
        crate::text::push_decimal(&mut r, self.start);
        r.append(", ");
        crate::text::push_decimal(&mut r, self.end);
        r.push(')');
        proof {
            assert(r@ =~= span_display_of(*self));
        }
        r
    }
}

/// A resolved position: a zero-based line index and a zero-based column,
/// counted in grapheme clusters from the start of the line.
#[derive(Copy, Clone, Debug, PartialEq, Eq, Structural)]
pub struct Location {
    pub line: usize,
    pub column: usize,
}

impl Location {
    /// Create a new location from a line index and a column index.
    pub fn new(line: usize, column: usize) -> (loc: Location)
        ensures
            loc.line == line,
            loc.column == column,
    {
        Location { line, column }
    }
}

} // verus!
