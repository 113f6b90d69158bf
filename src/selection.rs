//! Document positions and the selection between two of them.
use vstd::prelude::*;

verus! {

/// `a` comes no later than `b` in `(row, column)` order.
pub open spec fn pos_le(a: (usize, usize), b: (usize, usize)) -> bool {
    a.0 < b.0 || (a.0 == b.0 && a.1 <= b.1)
}

/// `a` comes strictly before `b` in `(row, column)` order.
pub open spec fn pos_lt(a: (usize, usize), b: (usize, usize)) -> bool {
    a.0 < b.0 || (a.0 == b.0 && a.1 < b.1)
}

/// A range of the document between `start` and `end`, with the fixed
/// endpoint `anchor` from which it was dragged.
#[derive(Clone, Copy, Debug, PartialEq, Eq)]
pub struct Selection {
    pub start: (usize, usize),
    pub end: (usize, usize),
    pub anchor: (usize, usize),
}

/// Wherever the free end goes relative to the anchor, a selection spanned
/// from the anchor to it starts no later than it ends.
pub proof fn lemma_selection_ordered(anchor: (usize, usize), moving: (usize, usize))
    ensures
        Selection::spanning(anchor, moving).wf(),
        Selection::spanning(anchor, moving).anchor == anchor,
{
}

impl Selection {
    /// `start` precedes `end` and the anchor is one of the two.
    pub open spec fn wf(self) -> bool {
        &&& pos_le(self.start, self.end)
        &&& (self.anchor == self.start || self.anchor == self.end)
    }

    /// The selection whose endpoints are the anchor and `moving`, in order.
    pub open spec fn spanning(anchor: (usize, usize), moving: (usize, usize)) -> Selection {
        if pos_lt(moving, anchor) {
            Selection { start: moving, end: anchor, anchor }
        } else {
            Selection { start: anchor, end: moving, anchor }
        }
    }

    pub fn new(pos: (usize, usize)) -> (s: Selection)
        ensures
            s == (Selection { start: pos, end: pos, anchor: pos }),
            s.wf(),
    {
        Selection { start: pos, end: pos, anchor: pos }
    }

    /// Moves the free endpoint to `new_end`; the anchor stays.
    pub fn update_end(&mut self, new_end: (usize, usize))
        ensures
            *final(self) == Selection::spanning(old(self).anchor, new_end),
            final(self).wf(),
    {
        self.end = new_end;
        if (new_end.0 < self.anchor.0) || (new_end.0 == self.anchor.0 && new_end.1
            < self.anchor.1) {
            self.start = new_end;
            self.end = self.anchor;
        } else {
            self.start = self.anchor;
            self.end = new_end;
        }
    }

    pub fn is_empty(&self) -> (r: bool)
        ensures
            r == (self.start == self.end),
    {
        self.start.0 == self.end.0 && self.start.1 == self.end.1
    }
}

} // verus!
