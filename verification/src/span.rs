//! Source positions. A span covers a region of contract source text and is
//! ordered first by its start position, then by its end position, so that
//! diagnostics can be emitted in a stable source order.

use vstd::prelude::*;

verus! {

/// A region of source text, in 1-based lines and columns.
#[derive(Clone, Copy, Debug, PartialEq, Eq, Structural)]
pub struct Span {
    pub start_line: u32,
    pub start_column: u32,
    pub end_line: u32,
    pub end_column: u32,
}

impl Span {
    pub fn new(start_line: u32, start_column: u32, end_line: u32, end_column: u32) -> (s: Span)
        ensures
            s.start_line == start_line,
            s.start_column == start_column,
            s.end_line == end_line,
            s.end_column == end_column,
    {
        Span { start_line, start_column, end_line, end_column }
    }

    /// Lexicographic order on (start_line, start_column, end_line, end_column).
    pub open spec fn le_spec(self, other: Span) -> bool {
        if self.start_line != other.start_line {
            self.start_line < other.start_line
        } else if self.start_column != other.start_column {
            self.start_column < other.start_column
        } else if self.end_line != other.end_line {
            self.end_line < other.end_line
        } else {
            self.end_column <= other.end_column
        }
    }

    pub open spec fn lt_spec(self, other: Span) -> bool {
        self.le_spec(other) && self != other
    }

    /// Decides `self.le_spec(other)`.
    pub fn le(&self, other: &Span) -> (r: bool)
        ensures
            r == self.le_spec(*other),
    {
        if self.start_line != other.start_line {
            self.start_line < other.start_line
        } else if self.start_column != other.start_column {
            self.start_column < other.start_column
        } else if self.end_line != other.end_line {
            self.end_line < other.end_line
        } else {
            self.end_column <= other.end_column
        }
    }

    /// Decides `self.lt_spec(other)`.
    pub fn lt(&self, other: &Span) -> (r: bool)
        ensures
            r == self.lt_spec(*other),
    {
        self.le(other) && !(self == other)
    }
}

/// The span order is total: any two spans are comparable.
pub proof fn lemma_span_le_total(a: Span, b: Span)
    ensures
        a.le_spec(b) || b.le_spec(a),
        a.le_spec(b) && b.le_spec(a) ==> a == b,
{
}

} // verus!
