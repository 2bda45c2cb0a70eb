//! The text of a spreadsheet's cells.

use vstd::prelude::*;

verus! {

/// A spreadsheet given as the text of its cells, row by row.
pub struct RawSpreadsheet {
    pub cells: Vec<Vec<String>>,
}

impl View for RawSpreadsheet {
    type V = Seq<Seq<Seq<char>>>;

    open spec fn view(&self) -> Seq<Seq<Seq<char>>> {
        Seq::new(
            self.cells@.len(),
            |r: int| Seq::new(self.cells@[r]@.len(), |c: int| self.cells@[r]@[c]@),
        )
    }
}

impl RawSpreadsheet {
    pub fn new(cells: Vec<Vec<String>>) -> (s: RawSpreadsheet)
        ensures
            s.cells == cells,
    {
        RawSpreadsheet { cells }
    }
}

} // verus!
