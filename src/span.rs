use vstd::prelude::*;

verus! {

/// A range of source text: the offsets of its first and last character,
/// and the line and column where it starts.
#[derive(Clone, Copy, PartialEq, Eq, Debug, Hash, Default, Structural)]
pub struct Span {
    pub start: usize,
    pub end: usize,
    pub line: u32,
    pub column: usize,
}

impl Span {
    pub open spec fn empty_spec() -> Span {
        Span { start: 0, end: 0, line: 0, column: 0 }
    }

    /// The span that covers nothing, at the start of a file.
    pub fn empty() -> (r: Span)
        ensures
            r == Span::empty_spec(),
    {
        Span { start: 0, end: 0, line: 0, column: 0 }
    }

    /// The span from the start of `self` to the end of `to`.
    pub fn between(&self, to: Span) -> (r: Span)
        ensures
            r.start == self.start,
            r.end == to.end,
            r.line == self.line,
            r.column == self.column,
    {
        Span { start: self.start, end: to.end, line: self.line, column: self.column }
    }
}

} // verus!
