//! A sheet as the extractors see it: a grid of optional cell texts.

use vstd::prelude::*;

verus! {

/// The number of rows of a sheet that are read at most, the header row
/// included. Rows from this index on are never looked at.
pub const MAX_ROWS: usize = 1000;

/// The text cells of one sheet, row by row. A cell that is missing, or that
/// holds anything but text, is `None`; a row may be shorter than another.
#[derive(Clone, Debug, PartialEq, Eq)]
pub struct Sheet {
    pub rows: Vec<Vec<Option<String>>>,
}

/// What a cell holds, as a character sequence.
pub open spec fn cell_view(c: Option<String>) -> Option<Seq<char>> {
    match c {
        Some(s) => Some(s@),
        None => None,
    }
}

/// What a row holds.
pub open spec fn row_view(r: Vec<Option<String>>) -> Seq<Option<Seq<char>>> {
    r@.map_values(|c: Option<String>| cell_view(c))
}

impl View for Sheet {
    type V = Seq<Seq<Option<Seq<char>>>>;

    open spec fn view(&self) -> Seq<Seq<Option<Seq<char>>>> {
        self.rows@.map_values(|r: Vec<Option<String>>| row_view(r))
    }
}

/// The text at a position of the grid; `None` outside it.
pub open spec fn grid_text(g: Seq<Seq<Option<Seq<char>>>>, row: int, col: int) -> Option<
    Seq<char>,
> {
    if 0 <= row < g.len() && 0 <= col < g[row].len() {
        g[row][col]
    } else {
        None
    }
}

/// The text at a position, or the empty text where there is none.
pub open spec fn text_or_empty(g: Seq<Seq<Option<Seq<char>>>>, row: int, col: int) -> Seq<char> {
    match grid_text(g, row, col) {
        Some(t) => t,
        None => Seq::empty(),
    }
}

/// The index that ends the rows that are read: the number of rows, capped.
pub open spec fn row_limit(g: Seq<Seq<Option<Seq<char>>>>) -> int {
    if g.len() < MAX_ROWS {
        g.len() as int
    } else {
        MAX_ROWS as int
    }
}

impl Sheet {
    /// A sheet of the given rows, the header row first.
    pub fn new(rows: Vec<Vec<Option<String>>>) -> (sheet: Sheet)
        ensures
            sheet.rows == rows,
    {
        Sheet { rows }
    }

    /// The text of the cell at `row` and `col`, if it has one.
    pub fn text_at(&self, row: usize, col: usize) -> (text: Option<&String>)
        ensures
            match text {
                Some(s) => grid_text(self@, row as int, col as int) == Some(s@),
                None => grid_text(self@, row as int, col as int) is None,
            },
    {
        if row < self.rows.len() && col < self.rows[row].len() {
            match &self.rows[row][col] {
                Some(s) => Some(s),
                None => None,
            }
        } else {
            None
        }
    }

    /// The index that ends the rows that are read.
    pub fn limit(&self) -> (n: usize)
        ensures
            n == row_limit(self@),
    {
        if self.rows.len() < MAX_ROWS {
            self.rows.len()
        } else {
            MAX_ROWS
        }
    }
}

} // verus!
