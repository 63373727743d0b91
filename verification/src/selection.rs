//! The selection list: a highlighted index over the currently active
//! filtered view. Movement clamps at the list boundaries (no
//! wraparound), and the index is absent exactly when the view is empty.

use vstd::prelude::*;

verus! {

/// The highlighted position within a candidate view of a known length.
pub struct SelectionList {
    selected: Option<usize>,
    len: usize,
}

impl SelectionList {
    /// The highlighted index, if any.
    pub closed spec fn selected_view(&self) -> Option<int> {
        match self.selected {
            Some(i) => Some(i as int),
            None => None,
        }
    }

    /// The length of the view the index points into.
    pub closed spec fn len_view(&self) -> int {
        self.len as int
    }

    /// The selection invariant: the index is absent exactly when the
    /// view is empty, and otherwise lies within it.
    pub open spec fn wf(&self) -> bool {
        &&& (self.selected_view() is None <==> self.len_view() == 0)
        &&& (self.selected_view() matches Some(i) ==> 0 <= i < self.len_view())
    }

    /// A selection over a view of the given length: index 0 when the
    /// view is non-empty, absent otherwise.
    pub fn new(len: usize) -> (r: Self)
        ensures
            r.wf(),
            r.len_view() == len as int,
            r.selected_view() == if len > 0 {
                Some(0int)
            } else {
                None::<int>
            },
    {
        SelectionList { selected: if len > 0 { Some(0) } else { None }, len }
    }

    /// Re-targets the selection at a freshly filtered view: index 0
    /// when the view is non-empty, absent otherwise.
    pub fn reset_to(&mut self, len: usize)
        ensures
            final(self).wf(),
            final(self).len_view() == len as int,
            final(self).selected_view() == if len > 0 {
                Some(0int)
            } else {
                None::<int>
            },
    {
        self.len = len;
        self.selected = if len > 0 { Some(0) } else { None };
    }

    /// Moves the highlight one item down, clamping at the last item.
    pub fn next(&mut self)
        requires
            old(self).wf(),
        ensures
            final(self).wf(),
            final(self).len_view() == old(self).len_view(),
            final(self).selected_view() == match old(self).selected_view() {
                Some(i) => if i + 1 < old(self).len_view() {
                    Some(i + 1)
                } else {
                    Some(i)
                },
                None => None::<int>,
            },
    {
        if let Some(i) = self.selected {
            if i + 1 < self.len {
                self.selected = Some(i + 1);
            }
        }
    }

    /// Moves the highlight one item up, clamping at the first item.
    pub fn previous(&mut self)
        requires
            old(self).wf(),
        ensures
            final(self).wf(),
            final(self).len_view() == old(self).len_view(),
            final(self).selected_view() == match old(self).selected_view() {
                Some(i) => if i > 0 {
                    Some(i - 1)
                } else {
                    Some(i)
                },
                None => None::<int>,
            },
    {
        if let Some(i) = self.selected {
            if i > 0 {
                self.selected = Some(i - 1);
            }
        }
    }

    /// The highlighted index, if any.
    pub fn selected(&self) -> (r: Option<usize>)
        ensures
            match r {
                Some(i) => self.selected_view() == Some(i as int),
                None => self.selected_view() is None,
            },
    {
        self.selected
    }
}

} // verus!
