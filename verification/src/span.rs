use vstd::prelude::*;

verus! {

/// Half-open byte-offset interval `[start, end)` over the source text.
///
/// Spans are the only position information carried by any event; they are
/// immutable values, grown only through `extend`.
#[derive(Debug, Clone, Copy, PartialEq, Eq, Structural)]
pub struct Span {
    pub start: usize,
    pub end: usize,
}

impl Span {
    /// A span is well formed when its start lies no later than its end.
    pub open spec fn wf(self) -> bool {
        self.start_s() <= self.end_s()
    }

    /// The start offset, as a mathematical integer.
    pub open spec fn start_s(self) -> int {
        self.start as int
    }

    /// The end offset, as a mathematical integer.
    pub open spec fn end_s(self) -> int {
        self.end as int
    }

    pub fn new(start: usize, end: usize) -> (r: Span)
        requires
            start <= end,
        ensures
            r.start_s() == start,
            r.end_s() == end,
            r.wf(),
    {
        Span { start, end }
    }

    /// A zero-width span sitting at `pos`.
    pub fn empty_at(pos: usize) -> (r: Span)
        ensures
            r.start_s() == pos,
            r.end_s() == pos,
            r.wf(),
    {
        Span { start: pos, end: pos }
    }

    /// Grow the end of the span by `len` bytes.
    pub fn extend(self, len: usize) -> (r: Span)
        requires
            self.end_s() + len <= usize::MAX,
        ensures
            r.start_s() == self.start_s(),
            r.end_s() == self.end_s() + len,
    {
        Span { start: self.start, end: self.end + len }
    }

    pub fn start(self) -> (r: usize)
        ensures
            r == self.start_s(),
    {
        self.start
    }

    pub fn end(self) -> (r: usize)
        ensures
            r == self.end_s(),
    {
        self.end
    }

    /// The number of bytes the span covers.
    pub fn len(self) -> (r: usize)
        requires
            self.wf(),
        ensures
            r == self.end_s() - self.start_s(),
    {
        self.end - self.start
    }
}

} // verus!
