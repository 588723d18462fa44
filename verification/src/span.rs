//! Byte spans into a source text.

use vstd::prelude::*;

verus! {

/// A half-open byte range `start..end` of a source text.
#[derive(Debug, Clone, Copy, PartialEq, Eq, Structural)]
pub struct Span {
    pub start: usize,
    pub end: usize,
}

/// The smallest span over two spans.
pub open spec fn joined(a: Span, b: Span) -> Span {
    Span {
        start: if a.start <= b.start {
            a.start
        } else {
            b.start
        },
        end: if a.end >= b.end {
            a.end
        } else {
            b.end
        },
    }
}

impl Span {
    pub fn new(start: usize, end: usize) -> (r: Span)
        ensures
            r == (Span { start, end }),
    {
        Span { start, end }
    }

    /// The empty span at one position.
    pub fn point(pos: usize) -> (r: Span)
        ensures
            r == (Span { start: pos, end: pos }),
    {
        Span { start: pos, end: pos }
    }

    /// The smallest span that covers both.
    pub fn join(self, other: Span) -> (r: Span)
        ensures
            r == joined(self, other),
    {
        Span {
            start: if self.start <= other.start {
                self.start
            } else {
                other.start
            },
            end: if self.end >= other.end {
                self.end
            } else {
                other.end
            },
        }
    }
}

/// Joining covers both spans and nothing before or after them.
pub proof fn join_covers(a: Span, b: Span)
    ensures
        joined(a, b).start <= a.start && joined(a, b).start <= b.start,
        a.end <= joined(a, b).end && b.end <= joined(a, b).end,
        joined(a, b).start == a.start || joined(a, b).start == b.start,
        joined(a, b).end == a.end || joined(a, b).end == b.end,
        joined(a, b) == joined(b, a),
{
}

} // verus!
