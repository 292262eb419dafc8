//! The selected row of a list, and the first row that is shown.
use vstd::prelude::*;

verus! {

/// Which row is selected, and from which row on the list is shown.
#[derive(Clone, Copy, Debug, PartialEq, Eq, Structural)]
pub struct ScrollState {
    pub selected_idx: Option<usize>,
    pub scroll_top: usize,
}

/// The selection within a list of `len` rows: the row that was selected, or the first,
/// but not beyond the last. An empty list has none and is shown from its top.
pub open spec fn clamped(s: ScrollState, len: usize) -> ScrollState {
    if len == 0 {
        ScrollState { selected_idx: None, scroll_top: 0 }
    } else {
        ScrollState {
            selected_idx: Some(
                match s.selected_idx {
                    Some(i) if i < len => i,
                    Some(i) => (len - 1) as usize,
                    None => 0,
                },
            ),
            scroll_top: s.scroll_top,
        }
    }
}

/// The selection one row further up; above the first row comes the last.
pub open spec fn moved_up(s: ScrollState, len: usize) -> ScrollState {
    if len == 0 {
        ScrollState { selected_idx: None, scroll_top: 0 }
    } else {
        ScrollState {
            selected_idx: Some(
                match s.selected_idx {
                    Some(i) if i > 0 => (i - 1) as usize,
                    Some(_) => (len - 1) as usize,
                    None => 0,
                },
            ),
            scroll_top: s.scroll_top,
        }
    }
}

/// The selection one row further down; below the last row comes the first.
pub open spec fn moved_down(s: ScrollState, len: usize) -> ScrollState {
    if len == 0 {
        ScrollState { selected_idx: None, scroll_top: 0 }
    } else {
        ScrollState {
            selected_idx: Some(
                match s.selected_idx {
                    Some(i) if i + 1 < len => (i + 1) as usize,
                    _ => 0,
                },
            ),
            scroll_top: s.scroll_top,
        }
    }
}

/// The list moved as little as needed for the selected row to be among the
/// `visible_rows` that are shown.
pub open spec fn made_visible(s: ScrollState, len: usize, visible_rows: usize) -> ScrollState {
    ScrollState {
        selected_idx: s.selected_idx,
        scroll_top: if len == 0 || visible_rows == 0 {
            0
        } else {
            match s.selected_idx {
                Some(i) if i < s.scroll_top => i,
                Some(i) if i >= s.scroll_top + visible_rows => (i + 1 - visible_rows) as usize,
                Some(_) => s.scroll_top,
                None => 0,
            }
        },
    }
}

impl ScrollState {
    /// Nothing selected, shown from the top.
    pub fn new() -> (r: ScrollState)
        ensures
            r == (ScrollState { selected_idx: None, scroll_top: 0 }),
    {
        ScrollState { selected_idx: None, scroll_top: 0 }
    }

    /// Selects nothing and shows the list from the top.
    pub fn reset(&mut self)
        ensures
            *final(self) == (ScrollState { selected_idx: None, scroll_top: 0 }),
    {
        self.selected_idx = None;
        self.scroll_top = 0;
    }

    /// Keeps the selection within `len` rows.
    pub fn clamp_selection(&mut self, len: usize)
        ensures
            *final(self) == clamped(*old(self), len),
    {
        if len == 0 {
            self.reset();
        } else {
            let idx: usize = match self.selected_idx {
                Some(i) => if i < len {
                    i
                } else {
                    len - 1
                },
                None => 0,
            };
            self.selected_idx = Some(idx);
        }
    }

    /// Moves the selection up, around the top.
    pub fn move_up_wrap(&mut self, len: usize)
        ensures
            *final(self) == moved_up(*old(self), len),
    {
        if len == 0 {
            self.reset();
        } else {
            let idx: usize = match self.selected_idx {
                Some(i) => if i > 0 {
                    i - 1
                } else {
                    len - 1
                },
                None => 0,
            };
            self.selected_idx = Some(idx);
        }
    }

    /// Moves the selection down, around the bottom.
    pub fn move_down_wrap(&mut self, len: usize)
        ensures
            *final(self) == moved_down(*old(self), len),
    {
        if len == 0 {
            self.reset();
        } else {
            let idx: usize = match self.selected_idx {
                Some(i) => if i < len - 1 {
                    i + 1
                } else {
                    0
                },
                None => 0,
            };
            self.selected_idx = Some(idx);
        }
    }

    /// Moves the list for the selected row to be shown.
    pub fn ensure_visible(&mut self, len: usize, visible_rows: usize)
        ensures
            *final(self) == made_visible(*old(self), len, visible_rows),
    {
        if len == 0 || visible_rows == 0 {
            self.scroll_top = 0;
            return;
        }
        match self.selected_idx {
            Some(i) => {
                if i < self.scroll_top {
                    self.scroll_top = i;
                } else if i - self.scroll_top >= visible_rows {
                    self.scroll_top = i - visible_rows + 1;
                }
            },
            None => {
                self.scroll_top = 0;
            },
        }
    }
}

/// One row down and one row up, or the other way round, is where it started.
pub proof fn law_up_undoes_down(s: ScrollState, len: usize)
    requires
        s.selected_idx is Some,
        s.selected_idx->0 < len,
    ensures
        moved_up(moved_down(s, len), len) == s,
        moved_down(moved_up(s, len), len) == s,
{
}

/// After a move the selected row exists.
pub proof fn law_moves_stay_in_list(s: ScrollState, len: usize)
    requires
        len > 0,
        s.selected_idx is Some ==> s.selected_idx->0 < len,
    ensures
        moved_up(s, len).selected_idx is Some,
        moved_up(s, len).selected_idx->0 < len,
        moved_down(s, len).selected_idx is Some,
        moved_down(s, len).selected_idx->0 < len,
        clamped(s, len).selected_idx is Some,
        clamped(s, len).selected_idx->0 < len,
{
}

/// The selected row is shown once the list was moved for it.
pub proof fn law_selected_row_is_shown(s: ScrollState, len: usize, visible_rows: usize)
    requires
        len > 0,
        visible_rows > 0,
        s.selected_idx is Some,
    ensures
        ({
            let r = made_visible(s, len, visible_rows);
            r.scroll_top <= r.selected_idx->0 < r.scroll_top + visible_rows
        }),
{
}

} // verus!
