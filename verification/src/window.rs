//! Half-open source windows bounding the descendants of an adopted node:
//! children outside the window evaluate in another branch or after the
//! region.

use vstd::prelude::*;

verus! {

/// A half-open source window `[start, end)`; an absent end is unbounded.
#[derive(Clone, Copy, Debug, PartialEq, Eq)]
pub struct SourceWindow {
    pub start: usize,
    pub end: Option<usize>,
}

/// The smaller of two optional upper bounds, an absent bound being none.
pub open spec fn min_end(a: Option<usize>, b: Option<usize>) -> Option<usize> {
    match (a, b) {
        (Some(left), Some(right)) => Some(if left <= right { left } else { right }),
        (Some(end), None) => Some(end),
        (None, Some(end)) => Some(end),
        (None, None) => None,
    }
}

impl SourceWindow {
    /// Whether the byte position `pos` lies inside the window.
    pub open spec fn spec_contains(self, pos: int) -> bool {
        &&& self.start <= pos
        &&& match self.end {
            Some(end) => pos < end,
            None => true,
        }
    }

    pub open spec fn spec_bounded(start: usize, end: usize) -> SourceWindow {
        SourceWindow { start, end: Some(if end >= start { end } else { start }) }
    }

    pub open spec fn spec_with_end(self, end: usize) -> SourceWindow {
        SourceWindow { start: self.start, end: min_end(self.end, Some(end)) }
    }

    pub open spec fn spec_intersect(self, other: SourceWindow) -> SourceWindow {
        SourceWindow {
            start: if self.start >= other.start { self.start } else { other.start },
            end: min_end(self.end, other.end),
        }
    }

    pub open spec fn spec_is_empty(self) -> bool {
        match self.end {
            Some(end) => self.start >= end,
            None => false,
        }
    }

    /// The whole source.
    pub fn all() -> (window: Self)
        ensures
            window == (SourceWindow { start: 0, end: None }),
    {
        SourceWindow { start: 0, end: None }
    }

    /// `[start, max(start, end))`.
    pub fn bounded(start: usize, end: usize) -> (window: Self)
        ensures
            window == SourceWindow::spec_bounded(start, end),
    {
        SourceWindow { start, end: Some(if end >= start { end } else { start }) }
    }

    /// The same window, additionally cut off at `end`.
    pub fn with_end(self, end: usize) -> (window: Self)
        ensures
            window == self.spec_with_end(end),
    {
        let new_end = match self.end {
            Some(current) => if current <= end {
                current
            } else {
                end
            },
            None => end,
        };
        SourceWindow { start: self.start, end: Some(new_end) }
    }

    /// Whether a child starting at `start` belongs to the window.
    pub fn contains(self, start: usize) -> (inside: bool)
        ensures
            inside == self.spec_contains(start as int),
    {
        start >= self.start && match self.end {
            Some(end) => start < end,
            None => true,
        }
    }

    /// The overlap of two windows.
    pub fn intersect(self, other: Self) -> (window: Self)
        ensures
            window == self.spec_intersect(other),
    {
        let end = match (self.end, other.end) {
            (Some(left), Some(right)) => Some(
                if left <= right {
                    left
                } else {
                    right
                },
            ),
            (Some(end), None) => Some(end),
            (None, Some(end)) => Some(end),
            (None, None) => None,
        };
        SourceWindow {
            start: if self.start >= other.start {
                self.start
            } else {
                other.start
            },
            end,
        }
    }

    /// Whether the window holds no position.
    pub fn is_empty(self) -> (empty: bool)
        ensures
            empty == self.spec_is_empty(),
    {
        match self.end {
            Some(end) => self.start >= end,
            None => false,
        }
    }
}

/// A position lies in the intersection of two windows exactly when it lies
/// in both.
pub proof fn lemma_intersect_contains(a: SourceWindow, b: SourceWindow, pos: int)
    ensures
        a.spec_intersect(b).spec_contains(pos) <==> (a.spec_contains(pos) && b.spec_contains(pos)),
{
}

/// Cutting a window at `end` keeps exactly its positions before `end`.
pub proof fn lemma_with_end_contains(w: SourceWindow, end: usize, pos: int)
    ensures
        w.spec_with_end(end).spec_contains(pos) <==> (w.spec_contains(pos) && pos < end),
{
}

/// A bounded window holds exactly the positions from `start` up to `end`.
pub proof fn lemma_bounded_contains(start: usize, end: usize, pos: int)
    ensures
        SourceWindow::spec_bounded(start, end).spec_contains(pos) <==> (start <= pos && pos < end),
{
}

/// A window is empty exactly when it holds no position.
pub proof fn lemma_is_empty_iff_no_position(w: SourceWindow)
    ensures
        w.spec_is_empty() <==> !(exists|pos: int| #[trigger] w.spec_contains(pos)),
{
    if !w.spec_is_empty() {
        assert(w.spec_contains(w.start as int));
    }
}

} // verus!
