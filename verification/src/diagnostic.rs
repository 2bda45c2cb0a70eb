//! Diagnostics reported for cells that could not be parsed or solved.

use vstd::prelude::*;

verus! {

/// A message about the cell at `row`, `col`.
#[derive(Debug)]
pub struct Diagnostic {
    pub row: usize,
    pub col: usize,
    pub message: String,
}

impl View for Diagnostic {
    type V = (usize, usize, Seq<char>);

    open spec fn view(&self) -> (usize, usize, Seq<char>) {
        (self.row, self.col, self.message@)
    }
}

/// The concatenation of `f(r, c, g[r][c])` over the first `n` cells of row `r`.
pub open spec fn row_prefix<A, T>(g: Seq<Seq<A>>, f: spec_fn(int, int, A) -> Seq<T>, r: int, n: nat) -> Seq<T>
    decreases n,
{
    if n == 0 {
        Seq::empty()
    } else {
        row_prefix(g, f, r, (n - 1) as nat) + f(r, n - 1, g[r][n - 1])
    }
}

/// The concatenation of `f(r, c, g[r][c])` over every cell of the first `m`
/// rows, in row-major order.
pub open spec fn rows_prefix<A, T>(g: Seq<Seq<A>>, f: spec_fn(int, int, A) -> Seq<T>, m: nat) -> Seq<T>
    decreases m,
{
    if m == 0 {
        Seq::empty()
    } else {
        rows_prefix(g, f, (m - 1) as nat) + row_prefix(g, f, m - 1, g[m - 1].len())
    }
}

/// The concatenation of `f(r, c, g[r][c])` over every cell of `g`, in
/// row-major order: the order in which a grid's diagnostics are reported.
pub open spec fn row_major<A, T>(g: Seq<Seq<A>>, f: spec_fn(int, int, A) -> Seq<T>) -> Seq<T> {
    rows_prefix(g, f, g.len())
}

/// The views of a sequence of diagnostics.
pub open spec fn diagnostics_view(ds: Seq<Diagnostic>) -> Seq<(usize, usize, Seq<char>)> {
    ds.map_values(|d: Diagnostic| d@)
}

} // verus!
