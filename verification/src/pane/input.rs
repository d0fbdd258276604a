//! The events that are routed to a pane.
use vstd::prelude::*;

verus! {

/// A key press, as far as views tell keys apart.
#[derive(Debug, Clone, Copy, PartialEq, Eq, Structural)]
pub enum Key {
    Char(char),
    Up,
    Down,
    Enter,
    Other,
}

/// A mouse event, as far as views tell them apart.
#[derive(Debug, Clone, Copy, PartialEq, Eq, Structural)]
pub enum Mouse {
    ScrollDown,
    ScrollUp,
    Other,
}

/// A range of cells of a view's content, from the cell where the user began to
/// select to the cell where they ended, both included; either can come first.
/// Rows count from the first row of the content.
#[derive(Debug, Clone, Copy, PartialEq, Eq, Structural)]
pub struct Selection {
    pub start_row: u32,
    pub start_col: u16,
    pub end_row: u32,
    pub end_col: u16,
}

impl Selection {
    /// Whether the cell where it starts is not behind the one where it ends, read
    /// row by row.
    pub open spec fn ordered(self) -> bool {
        self.start_row < self.end_row || self.start_row == self.end_row && self.start_col
            <= self.end_col
    }

    /// The same range from its other end.
    pub open spec fn reversed(self) -> Selection {
        Selection {
            start_row: self.end_row,
            start_col: self.end_col,
            end_row: self.start_row,
            end_col: self.start_col,
        }
    }

    /// The same range from its first cell to its last.
    pub open spec fn in_order(self) -> Selection {
        if self.ordered() {
            self
        } else {
            self.reversed()
        }
    }

    /// The first and the last cell of the range, each as row and column.
    pub fn ordered_cells(&self) -> (cells: ((u32, u16), (u32, u16)))
        ensures
            cells.0 == (self.in_order().start_row, self.in_order().start_col),
            cells.1 == (self.in_order().end_row, self.in_order().end_col),
    {
        let start = (self.start_row, self.start_col);
        let end = (self.end_row, self.end_col);
        if self.start_row < self.end_row || (self.start_row == self.end_row && self.start_col
            <= self.end_col) {
            (start, end)
        } else {
            (end, start)
        }
    }
}

/// What a view pane's input handler decided about a key/mouse event.
#[derive(Debug, Clone, Copy, PartialEq, Eq, Structural)]
pub enum ViewKeyOutcome {
    Handled,
    NotHandled,
}

} // verus!
