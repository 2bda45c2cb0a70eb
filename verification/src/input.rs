//! The raw input of a spreadsheet: the text of every cell.

pub mod file;
pub mod raw;

use vstd::prelude::*;

verus! {

/// A spreadsheet given as the text of its cells, row by row.
pub struct Spreadsheet {
    pub cells: Vec<Vec<String>>,
}

/// The spreadsheet that a database starts with: no cells.
pub fn spreadsheet_input() -> (s: Spreadsheet)
    ensures
        s.cells@.len() == 0,
{
    Spreadsheet { cells: Vec::new() }
}

} // verus!
