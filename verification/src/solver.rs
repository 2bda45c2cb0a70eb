//! Evaluating the cells of a parsed spreadsheet.

use crate::diagnostic::{diagnostics_view, row_major, row_prefix, rows_prefix, Diagnostic};
use crate::ir::{Expr, ExprId, Op};
use crate::parser::ParsedSpreadsheet;
use vstd::prelude::*;
use vstd::relations::injective_on;
use vstd::set_lib::{lemma_int_range, lemma_len_subset, lemma_map_size, set_int_range};

verus! {

/// Why a cell has no value.
#[derive(Debug, Clone, Copy, PartialEq, Eq)]
pub enum SolveError {
    /// The value depends on a cell that did not parse.
    UnparsedDependency,
    /// The value depends on itself.
    Cycle,
}

impl SolveError {
    /// The message reported for this error.
    pub open spec fn spec_message(self) -> Seq<char> {
        match self {
            SolveError::UnparsedDependency => "Cell depending on unparsed cells"@,
            SolveError::Cycle => "Cycle detected"@,
        }
    }

    pub fn message(&self) -> (m: String)
        ensures
            m@ == self.spec_message(),
    {
        match self {
            SolveError::UnparsedDependency => String::from_str("Cell depending on unparsed cells"),
            SolveError::Cycle => String::from_str("Cycle detected"),
        }
    }
}

/// Whether `row`, `col` names a cell of `g`.
pub open spec fn valid_cell(g: Seq<Seq<Option<Expr>>>, row: int, col: int) -> bool {
    0 <= row < g.len() && 0 <= col < g[row].len()
}

/// The number of cells in the first `r` rows.
pub open spec fn row_offset(g: Seq<Seq<Option<Expr>>>, r: nat) -> nat
    decreases r,
{
    if r == 0 {
        0
    } else {
        row_offset(g, (r - 1) as nat) + g[r - 1].len()
    }
}

/// The number of cells in the grid.
pub open spec fn cell_count(g: Seq<Seq<Option<Expr>>>) -> nat {
    row_offset(g, g.len())
}

/// The cells whose evaluation is under way: the cells through which the
/// current evaluation goes, all of them cells of the grid.
pub open spec fn stack_ok(g: Seq<Seq<Option<Expr>>>, stack: Set<(u32, u32)>) -> bool {
    &&& stack.finite()
    &&& forall|p: (u32, u32)| #[trigger] stack.contains(p) ==> valid_cell(g, p.0 as int, p.1 as int)
}

/// The value of `e` in the grid `g`, while the cells of `stack` are being
/// evaluated. `None` where evaluation has no defined outcome: a reference to
/// a cell outside the grid, or a sum or difference outside the range of
/// `u32`. Operands are evaluated left to right, and the first error wins.
pub open spec fn eval(g: Seq<Seq<Option<Expr>>>, e: Expr, stack: Set<(u32, u32)>) -> Option<
    Result<u32, SolveError>,
>
    decreases cell_count(g) - stack.len(), e,
    when stack_ok(g, stack)
{
    match e {
        Expr::Number(n) => Some(Ok(n)),
        Expr::CellCords { row, col } => {
            if !valid_cell(g, row as int, col as int) {
                None
            } else {
                match g[row as int][col as int] {
                    None => Some(Err(SolveError::UnparsedDependency)),
                    Some(content) => {
                        if stack.contains((row, col)) {
                            Some(Err(SolveError::Cycle))
                        } else {
                            proof {
                                lemma_stack_bound(g, stack.insert((row, col)));
                            }
                            eval(g, content, stack.insert((row, col)))
                        }
                    },
                }
            }
        },
        Expr::Op(lhs, op, rhs) => match eval(g, *lhs.long, stack) {
            None => None,
            Some(Err(err)) => Some(Err(err)),
            Some(Ok(a)) => match eval(g, *rhs.long, stack) {
                None => None,
                Some(Err(err)) => Some(Err(err)),
                Some(Ok(b)) => match op {
                    Op::Add => if a + b <= u32::MAX {
                        Some(Ok((a + b) as u32))
                    } else {
                        None
                    },
                    Op::Subtract => if a >= b {
                        Some(Ok((a - b) as u32))
                    } else {
                        None
                    },
                },
            },
        },
    }
}

/// The position of a cell when the grid is read row by row.
pub open spec fn flat_index(g: Seq<Seq<Option<Expr>>>, p: (u32, u32)) -> int {
    row_offset(g, p.0 as nat) + p.1
}

proof fn lemma_row_offset_mono(g: Seq<Seq<Option<Expr>>>, a: nat, b: nat)
    requires
        a <= b,
    ensures
        row_offset(g, a) <= row_offset(g, b),
    decreases b,
{
    if a < b {
        lemma_row_offset_mono(g, a, (b - 1) as nat);
    }
}

proof fn lemma_flat_index(g: Seq<Seq<Option<Expr>>>, p: (u32, u32), q: (u32, u32))
    requires
        valid_cell(g, p.0 as int, p.1 as int),
        valid_cell(g, q.0 as int, q.1 as int),
    ensures
        0 <= flat_index(g, p) < cell_count(g),
        flat_index(g, p) == flat_index(g, q) ==> p == q,
{
    lemma_row_offset_mono(g, (p.0 + 1) as nat, g.len());
    lemma_row_offset_mono(g, (q.0 + 1) as nat, g.len());
    if p.0 < q.0 {
        lemma_row_offset_mono(g, (p.0 + 1) as nat, q.0 as nat);
    } else if q.0 < p.0 {
        lemma_row_offset_mono(g, (q.0 + 1) as nat, p.0 as nat);
    }
}

/// A set of distinct cells of the grid has no more elements than the grid
/// has cells.
pub proof fn lemma_stack_bound(g: Seq<Seq<Option<Expr>>>, stack: Set<(u32, u32)>)
    requires
        stack_ok(g, stack),
    ensures
        stack.len() <= cell_count(g),
{
    let f = |p: (u32, u32)| flat_index(g, p);
    assert forall|p: (u32, u32), q: (u32, u32)|
        stack.contains(p) && stack.contains(q) && #[trigger] f(p) == #[trigger] f(q) implies p
        == q by {
        lemma_flat_index(g, p, q);
    }
    assert(injective_on(f, stack));
    lemma_map_size(stack, stack.map(f), f);
    assert forall|i: int| #[trigger] stack.map(f).contains(i) implies set_int_range(
        0,
        cell_count(g) as int,
    ).contains(i) by {
        let p = choose|p: (u32, u32)| stack.contains(p) && f(p) == i;
        lemma_flat_index(g, p, p);
    }
    lemma_int_range(0, cell_count(g) as int);
    lemma_len_subset(stack.map(f), set_int_range(0, cell_count(g) as int));
}

/// The cells on a stack of cells under evaluation.
pub open spec fn stack_cells(stack: Seq<(u32, u32)>) -> Set<(u32, u32)> {
    stack.to_set()
}

fn stack_contains(stack: &Vec<(u32, u32)>, row: u32, col: u32) -> (b: bool)
    ensures
        b == stack_cells(stack@).contains((row, col)),
{
    let mut i: usize = 0;
    while i < stack.len()
        invariant
            i <= stack@.len(),
            forall|j: int| 0 <= j < i ==> stack@[j] != (row, col),
        decreases stack@.len() - i,
    {
        if stack[i].0 == row && stack[i].1 == col {
            assert(stack@[i as int] == (row, col));
            return true;
        }
        i = i + 1;
    }
    false
}

fn solve_in(parsed: &ParsedSpreadsheet, e: &Expr, stack: &mut Vec<(u32, u32)>) -> (r: Option<
    Result<u32, SolveError>,
>)
    requires
        stack_ok(parsed@, stack_cells(old(stack)@)),
    ensures
        final(stack)@ == old(stack)@,
        r == eval(parsed@, *e, stack_cells(old(stack)@)),
    decreases cell_count(parsed@) - stack_cells(old(stack)@).len(), *e,
{
    let ghost g = parsed@;
    let ghost cells = stack_cells(stack@);
    match e {
        Expr::Number(n) => Some(Ok(*n)),
        Expr::CellCords { row, col } => {
            let r = *row as usize;
            let c = *col as usize;
            if r >= parsed.cells.len() {
                return None;
            }
            if c >= parsed.cells[r].len() {
                return None;
            }
            assert(valid_cell(g, *row as int, *col as int));
            match &parsed.cells[r][c] {
                None => Some(Err(SolveError::UnparsedDependency)),
                Some(content) => {
                    assert(g[r as int][c as int] == Some(content.expr()));
                    if stack_contains(stack, *row, *col) {
                        return Some(Err(SolveError::Cycle));
                    }
                    let ghost old_stack = stack@;
                    stack.push((*row, *col));
                    proof {
                        old_stack.lemma_push_to_set_commute((*row, *col));
                        vstd::seq_lib::seq_to_set_is_finite(old_stack);
                        assert(stack_cells(stack@) == cells.insert((*row, *col)));
                        lemma_stack_bound(g, cells.insert((*row, *col)));
                    }
                    let res = solve_in(parsed, content.long(), stack);
                    stack.pop();
                    assert(stack@ =~= old_stack);
                    res
                },
            }
        },
        Expr::Op(lhs, op, rhs) => {
            proof {
                vstd::seq_lib::seq_to_set_is_finite(stack@);
            }
            let a = match solve_in(parsed, lhs.long(), stack) {
                None => {
                    return None;
                },
                Some(Err(err)) => {
                    return Some(Err(err));
                },
                Some(Ok(v)) => v,
            };
            let b = match solve_in(parsed, rhs.long(), stack) {
                None => {
                    return None;
                },
                Some(Err(err)) => {
                    return Some(Err(err));
                },
                Some(Ok(v)) => v,
            };
            match op {
                Op::Add => {
                    if b <= u32::MAX - a {
                        Some(Ok(a + b))
                    } else {
                        None
                    }
                },
                Op::Subtract => {
                    if a >= b {
                        Some(Ok(a - b))
                    } else {
                        None
                    }
                },
            }
        },
    }
}

/// Evaluates an expression in a parsed spreadsheet. `None` exactly where the
/// evaluation has no defined outcome (see `eval`).
pub fn try_solve_expr(expr_id: &ExprId, parsed_spreadsheet: &ParsedSpreadsheet) -> (r: Option<
    Result<u32, SolveError>,
>)
    ensures
        r == eval(parsed_spreadsheet@, expr_id.expr(), Set::empty()),
{
    let mut stack: Vec<(u32, u32)> = Vec::new();
    proof {
        assert(stack_cells(stack@) =~= Set::empty());
    }
    solve_in(parsed_spreadsheet, expr_id.long(), &mut stack)
}

/// Evaluates an expression in a parsed spreadsheet.
pub fn solve_expr(expr_id: &ExprId, parsed_spreadsheet: &ParsedSpreadsheet) -> (r: Result<
    u32,
    SolveError,
>)
    requires
        eval(parsed_spreadsheet@, expr_id.expr(), Set::empty()) is Some,
    ensures
        eval(parsed_spreadsheet@, expr_id.expr(), Set::empty()) == Some(r),
{
    match try_solve_expr(expr_id, parsed_spreadsheet) {
        Some(r) => r,
        None => {
            proof {
                assert(false);
            }
            Err(SolveError::Cycle)
        },
    }
}

/// The outcome of evaluating a cell with content `content`: nothing to do for
/// a cell that did not parse.
pub open spec fn cell_outcome(g: Seq<Seq<Option<Expr>>>, content: Option<Expr>) -> Option<
    Result<u32, SolveError>,
> {
    match content {
        None => Some(Err(SolveError::UnparsedDependency)),
        Some(e) => eval(g, e, Set::empty()),
    }
}

/// Whether every cell of the grid evaluates with a defined outcome.
pub open spec fn all_cells_defined(g: Seq<Seq<Option<Expr>>>) -> bool {
    forall|r: int, c: int| valid_cell(g, r, c) ==> (#[trigger] cell_outcome(g, g[r][c])) is Some
}

/// The value of a cell with content `content`, if it has one.
pub open spec fn solved_cell(g: Seq<Seq<Option<Expr>>>, content: Option<Expr>) -> Option<u32> {
    match content {
        None => None,
        Some(e) => match eval(g, e, Set::empty()) {
            Some(Ok(v)) => Some(v),
            _ => None,
        },
    }
}

/// The value of every cell of the grid.
pub open spec fn spec_solve_cells(g: Seq<Seq<Option<Expr>>>) -> Seq<Seq<Option<u32>>> {
    Seq::new(g.len(), |r: int| Seq::new(g[r].len(), |c: int| solved_cell(g, g[r][c])))
}

/// The diagnostics of the cell at `r`, `c`: one if it parsed but has no value.
pub open spec fn solve_diagnostic(
    g: Seq<Seq<Option<Expr>>>,
    r: int,
    c: int,
    content: Option<Expr>,
) -> Seq<(usize, usize, Seq<char>)> {
    match content {
        None => Seq::empty(),
        Some(e) => match eval(g, e, Set::empty()) {
            Some(Err(err)) => seq![(r as usize, c as usize, err.spec_message())],
            _ => Seq::empty(),
        },
    }
}

pub open spec fn solve_diagnostic_fn(g: Seq<Seq<Option<Expr>>>) -> spec_fn(
    int,
    int,
    Option<Expr>,
) -> Seq<(usize, usize, Seq<char>)> {
    |r: int, c: int, content: Option<Expr>| solve_diagnostic(g, r, c, content)
}

/// The diagnostics of the grid, in row-major order.
pub open spec fn spec_solve_diagnostics(g: Seq<Seq<Option<Expr>>>) -> Seq<(usize, usize, Seq<char>)> {
    row_major(g, solve_diagnostic_fn(g))
}

/// The views of the rows of a grid of values.
pub open spec fn values_view(v: Seq<Vec<Option<u32>>>) -> Seq<Seq<Option<u32>>> {
    v.map_values(|row: Vec<Option<u32>>| row@)
}

/// Evaluates every cell of a parsed spreadsheet, or returns `None` if some
/// cell's evaluation has no defined outcome.
pub fn try_solve_spreadsheet(parsed_spreadsheet: &ParsedSpreadsheet) -> (res: Option<
    (Vec<Vec<Option<u32>>>, Vec<Diagnostic>),
>)
    ensures
        res is Some <==> all_cells_defined(parsed_spreadsheet@),
        res matches Some((values, diags)) ==> {
            &&& values_view(values@) == spec_solve_cells(parsed_spreadsheet@)
            &&& diagnostics_view(diags@) == spec_solve_diagnostics(parsed_spreadsheet@)
        },
{
    let ghost g = parsed_spreadsheet@;
    let ghost f = solve_diagnostic_fn(g);
    let cells = &parsed_spreadsheet.cells;
    let mut solved: Vec<Vec<Option<u32>>> = Vec::new();
    let mut diags: Vec<Diagnostic> = Vec::new();
    let mut row_index: usize = 0;
    while row_index < cells.len()
        invariant
            g == parsed_spreadsheet@,
            cells == parsed_spreadsheet.cells,
            f == solve_diagnostic_fn(g),
            row_index <= g.len(),
            solved@.len() == row_index,
            forall|i: int| 0 <= i < row_index ==> (#[trigger] solved@[i])@ == spec_solve_cells(g)[i],
            forall|i: int, j: int|
                0 <= i < row_index && 0 <= j < g[i].len() ==> (#[trigger] cell_outcome(
                    g,
                    g[i][j],
                )) is Some,
            diagnostics_view(diags@) == rows_prefix(g, f, row_index as nat),
        decreases g.len() - row_index,
    {
        let row = &cells[row_index];
        let mut solved_row: Vec<Option<u32>> = Vec::new();
        let mut col_index: usize = 0;
        while col_index < row.len()
            invariant
                g == parsed_spreadsheet@,
                cells == parsed_spreadsheet.cells,
                f == solve_diagnostic_fn(g),
                row_index < g.len(),
                *row == cells@[row_index as int],
                col_index <= row@.len(),
                row@.len() == g[row_index as int].len(),
                solved_row@.len() == col_index,
                forall|j: int|
                    0 <= j < col_index ==> #[trigger] solved_row@[j] == solved_cell(
                        g,
                        g[row_index as int][j],
                    ),
                forall|i: int, j: int|
                    ((0 <= i < row_index && 0 <= j < g[i].len()) || (i == row_index && 0 <= j
                        < col_index)) ==> (#[trigger] cell_outcome(g, g[i][j])) is Some,
                diagnostics_view(diags@) == rows_prefix(g, f, row_index as nat) + row_prefix(
                    g,
                    f,
                    row_index as int,
                    col_index as nat,
                ),
            decreases row@.len() - col_index,
        {
            let ghost content = g[row_index as int][col_index as int];
            let ghost before = diagnostics_view(diags@);
            match &row[col_index] {
                None => {
                    solved_row.push(None);
                    assert(diagnostics_view(diags@) =~= before + f(
                        row_index as int,
                        col_index as int,
                        content,
                    ));
                },
                Some(expr_id) => {
                    assert(content == Some(expr_id.expr()));
                    match try_solve_expr(expr_id, parsed_spreadsheet) {
                        None => {
                            assert(!all_cells_defined(g)) by {
                                assert(valid_cell(g, row_index as int, col_index as int));
                                assert(cell_outcome(g, g[row_index as int][col_index as int])
                                    is None);
                            }
                            return None;
                        },
                        Some(Ok(val)) => {
                            solved_row.push(Some(val));
                            assert(diagnostics_view(diags@) =~= before + f(
                                row_index as int,
                                col_index as int,
                                content,
                            ));
                        },
                        Some(Err(err)) => {
                            let message = err.message();
                            diags.push(Diagnostic { row: row_index, col: col_index, message });
                            solved_row.push(None);
                            assert(diagnostics_view(diags@) =~= before + f(
                                row_index as int,
                                col_index as int,
                                content,
                            ));
                        },
                    }
                },
            }
            col_index = col_index + 1;
        }
        assert(solved_row@ =~= spec_solve_cells(g)[row_index as int]);
        solved.push(solved_row);
        row_index = row_index + 1;
    }
    assert(values_view(solved@) =~= spec_solve_cells(g));
    Some((solved, diags))
}

/// Evaluates every cell of a parsed spreadsheet. A cell that parsed but has no
/// value is left empty and gets a diagnostic; a cell that did not parse is
/// left empty.
pub fn solve_spreadsheet(parsed_spreadsheet: &ParsedSpreadsheet) -> (res: (
    Vec<Vec<Option<u32>>>,
    Vec<Diagnostic>,
))
    requires
        all_cells_defined(parsed_spreadsheet@),
    ensures
        values_view(res.0@) == spec_solve_cells(parsed_spreadsheet@),
        diagnostics_view(res.1@) == spec_solve_diagnostics(parsed_spreadsheet@),
{
    match try_solve_spreadsheet(parsed_spreadsheet) {
        Some(res) => res,
        None => {
            proof {
                assert(false);
            }
            (Vec::new(), Vec::new())
        },
    }
}

/// A value obtained with some cells under evaluation is obtained as well with
/// fewer of them: a value never depends on which cells are under evaluation.
pub proof fn lemma_eval_shrink_stack(
    g: Seq<Seq<Option<Expr>>>,
    e: Expr,
    big: Set<(u32, u32)>,
    small: Set<(u32, u32)>,
)
    requires
        stack_ok(g, big),
        small.subset_of(big),
        eval(g, e, big) matches Some(Ok(_)),
    ensures
        eval(g, e, small) == eval(g, e, big),
    decreases cell_count(g) - big.len(), e,
{
    vstd::set_lib::lemma_set_subset_finite(big, small);
    assert(stack_ok(g, small));
    match e {
        Expr::Number(_) => {},
        Expr::CellCords { row, col } => {
            let q = (row, col);
            let content = g[row as int][col as int]->Some_0;
            lemma_stack_bound(g, big.insert(q));
            assert(small.insert(q).subset_of(big.insert(q)));
            lemma_eval_shrink_stack(g, content, big.insert(q), small.insert(q));
        },
        Expr::Op(lhs, _, rhs) => {
            lemma_eval_shrink_stack(g, *lhs.long, big, small);
            lemma_eval_shrink_stack(g, *rhs.long, big, small);
        },
    }
}

/// With more cells under evaluation an expression gives the same outcome, or
/// it meets one of the added cells and reports a cycle.
pub proof fn lemma_eval_grow_same_or_cycle(
    g: Seq<Seq<Option<Expr>>>,
    e: Expr,
    small: Set<(u32, u32)>,
    big: Set<(u32, u32)>,
)
    requires
        stack_ok(g, big),
        small.subset_of(big),
    ensures
        eval(g, e, big) == eval(g, e, small) || eval(g, e, big) == Some(
            Err::<u32, SolveError>(SolveError::Cycle),
        ),
    decreases cell_count(g) - big.len(), e,
{
    vstd::set_lib::lemma_set_subset_finite(big, small);
    match e {
        Expr::Number(_) => {},
        Expr::CellCords { row, col } => {
            let q = (row, col);
            if valid_cell(g, row as int, col as int) && g[row as int][col as int] is Some
                && !big.contains(q) {
                let content = g[row as int][col as int]->Some_0;
                lemma_stack_bound(g, big.insert(q));
                lemma_eval_grow_same_or_cycle(g, content, small.insert(q), big.insert(q));
            }
        },
        Expr::Op(lhs, _, rhs) => {
            lemma_eval_grow_same_or_cycle(g, *lhs.long, small, big);
            lemma_eval_grow_same_or_cycle(g, *rhs.long, small, big);
        },
    }
}

/// If the expression `x` of cell `p` reports a cycle once `p` is under
/// evaluation on top of `s0`, then for every `s` above `s0` without `p`,
/// putting `p` under evaluation changes no outcome.
proof fn lemma_add_cycling_cell(
    g: Seq<Seq<Option<Expr>>>,
    e: Expr,
    s0: Set<(u32, u32)>,
    s: Set<(u32, u32)>,
    p: (u32, u32),
)
    requires
        stack_ok(g, s),
        s0.subset_of(s),
        !s.contains(p),
        valid_cell(g, p.0 as int, p.1 as int),
        g[p.0 as int][p.1 as int] is Some,
        eval(g, g[p.0 as int][p.1 as int]->Some_0, s0.insert(p)) == Some(
            Err::<u32, SolveError>(SolveError::Cycle),
        ),
    ensures
        eval(g, e, s.insert(p)) == eval(g, e, s),
    decreases cell_count(g) - s.len(), e,
{
    lemma_stack_bound(g, s.insert(p));
    match e {
        Expr::Number(_) => {},
        Expr::CellCords { row, col } => {
            let q = (row, col);
            if valid_cell(g, row as int, col as int) && g[row as int][col as int] is Some {
                let content = g[row as int][col as int]->Some_0;
                if q == p {
                    assert(s0.insert(p).subset_of(s.insert(p)));
                    lemma_eval_grow_same_or_cycle(g, content, s0.insert(p), s.insert(p));
                    assert(s.insert(p).contains(p));
                } else if !s.contains(q) {
                    lemma_stack_bound(g, s.insert(q));
                    lemma_add_cycling_cell(g, content, s0, s.insert(q), p);
                    assert(s.insert(q).insert(p) =~= s.insert(p).insert(q));
                }
            }
        },
        Expr::Op(lhs, _, rhs) => {
            lemma_add_cycling_cell(g, *lhs.long, s0, s, p);
            lemma_add_cycling_cell(g, *rhs.long, s0, s, p);
        },
    }
}

/// The expression of a cell gives the same outcome whether or not the cell
/// itself is under evaluation.
pub proof fn lemma_cell_outcome_stable(g: Seq<Seq<Option<Expr>>>, s: Set<(u32, u32)>, p: (u32, u32))
    requires
        stack_ok(g, s),
        valid_cell(g, p.0 as int, p.1 as int),
        !s.contains(p),
        g[p.0 as int][p.1 as int] is Some,
    ensures
        eval(g, g[p.0 as int][p.1 as int]->Some_0, s.insert(p)) == eval(
            g,
            g[p.0 as int][p.1 as int]->Some_0,
            s,
        ),
{
    let x = g[p.0 as int][p.1 as int]->Some_0;
    lemma_stack_bound(g, s.insert(p));
    lemma_eval_grow_same_or_cycle(g, x, s, s.insert(p));
    if eval(g, x, s.insert(p)) == Some(Err::<u32, SolveError>(SolveError::Cycle)) {
        lemma_add_cycling_cell(g, x, s, s, p);
    }
}

/// Evaluating a reference to a cell of the grid gives exactly what evaluating
/// that cell's expression gives, whatever the outcome: its value, the error
/// for a cell that did not parse, a cycle, or no defined outcome.
pub proof fn law_reference_gives_referenced_outcome(g: Seq<Seq<Option<Expr>>>, row: u32, col: u32)
    requires
        valid_cell(g, row as int, col as int),
    ensures
        g[row as int][col as int] is None ==> eval(g, Expr::CellCords { row, col }, Set::empty())
            == Some(Err::<u32, SolveError>(SolveError::UnparsedDependency)),
        g[row as int][col as int] matches Some(x) ==> eval(
            g,
            Expr::CellCords { row, col },
            Set::empty(),
        ) == eval(g, x, Set::empty()),
{
    let p = (row, col);
    let empty = Set::<(u32, u32)>::empty();
    if g[row as int][col as int] is Some {
        lemma_stack_bound(g, empty.insert(p));
        lemma_cell_outcome_stable(g, empty, p);
    }
}

/// The value of a formula when each reference is replaced by the value of the
/// cell it names in `values`; `None` if a referenced cell has no value or a
/// result leaves the range of `u32`.
pub open spec fn formula_value(values: Seq<Seq<Option<u32>>>, e: Expr) -> Option<u32>
    decreases e,
{
    match e {
        Expr::Number(n) => Some(n),
        Expr::CellCords { row, col } => {
            if 0 <= row < values.len() && 0 <= col < values[row as int].len() {
                values[row as int][col as int]
            } else {
                None
            }
        },
        Expr::Op(lhs, op, rhs) => match (formula_value(values, *lhs.long), formula_value(
            values,
            *rhs.long,
        )) {
            (Some(a), Some(b)) => match op {
                Op::Add => if a + b <= u32::MAX {
                    Some((a + b) as u32)
                } else {
                    None
                },
                Op::Subtract => if a >= b {
                    Some((a - b) as u32)
                } else {
                    None
                },
            },
            _ => None,
        },
    }
}

proof fn lemma_eval_agrees_with_values(g: Seq<Seq<Option<Expr>>>, e: Expr, s: Set<(u32, u32)>)
    requires
        stack_ok(g, s),
        eval(g, e, s) matches Some(Ok(_)),
    ensures
        formula_value(spec_solve_cells(g), e) == Some(eval(g, e, s)->Some_0->Ok_0),
    decreases e,
{
    match e {
        Expr::Number(_) => {},
        Expr::CellCords { row, col } => {
            let q = (row, col);
            let cq = g[row as int][col as int]->Some_0;
            lemma_stack_bound(g, s.insert(q));
            lemma_eval_shrink_stack(g, cq, s.insert(q), Set::empty());
        },
        Expr::Op(lhs, _, rhs) => {
            lemma_eval_agrees_with_values(g, *lhs.long, s);
            lemma_eval_agrees_with_values(g, *rhs.long, s);
        },
    }
}

/// The values that the solver gives are a solution of the spreadsheet: the
/// value of every cell that has one is what its formula gives when each
/// reference is replaced by the value of the cell it names.
pub proof fn law_values_satisfy_formulas(g: Seq<Seq<Option<Expr>>>, r: int, c: int)
    requires
        valid_cell(g, r, c),
        spec_solve_cells(g)[r][c] is Some,
    ensures
        g[r][c] is Some,
        formula_value(spec_solve_cells(g), g[r][c]->Some_0) == spec_solve_cells(g)[r][c],
{
    lemma_eval_agrees_with_values(g, g[r][c]->Some_0, Set::empty());
}

/// A cell that holds nothing but a reference to a cell of the grid has the
/// value of that cell, or no value when that cell has none.
pub proof fn law_reference_takes_referenced_value(
    g: Seq<Seq<Option<Expr>>>,
    r: int,
    c: int,
    row: u32,
    col: u32,
)
    requires
        valid_cell(g, r, c),
        valid_cell(g, row as int, col as int),
        g[r][c] == Some(Expr::CellCords { row, col }),
    ensures
        spec_solve_cells(g)[r][c] == spec_solve_cells(g)[row as int][col as int],
{
    law_reference_gives_referenced_outcome(g, row, col);
}

/// Whether each cell of `ring` holds nothing but a reference to the next one,
/// the last to the first.
pub open spec fn is_reference_ring(g: Seq<Seq<Option<Expr>>>, ring: Seq<(u32, u32)>) -> bool {
    &&& ring.len() >= 1
    &&& forall|i: int|
        0 <= i < ring.len() ==> valid_cell(g, (#[trigger] ring[i]).0 as int, ring[i].1 as int)
    &&& forall|i: int|
        0 <= i < ring.len() ==> g[(#[trigger] ring[i]).0 as int][ring[i].1 as int] == Some(
            Expr::CellCords { row: ring[(i + 1) % (ring.len() as int)].0, col: ring[(i + 1) % (ring.len() as int)].1 },
        )
}

proof fn lemma_ring_reference_is_cycle(
    g: Seq<Seq<Option<Expr>>>,
    ring: Seq<(u32, u32)>,
    i: int,
    s: Set<(u32, u32)>,
)
    requires
        is_reference_ring(g, ring),
        0 <= i < ring.len(),
        stack_ok(g, s),
    ensures
        eval(g, Expr::CellCords { row: ring[i].0, col: ring[i].1 }, s) == Some(
            Err::<u32, SolveError>(SolveError::Cycle),
        ),
    decreases cell_count(g) - s.len(),
{
    let q = ring[i];
    assert(valid_cell(g, q.0 as int, q.1 as int));
    assert(g[q.0 as int][q.1 as int] == Some(
        Expr::CellCords { row: ring[(i + 1) % (ring.len() as int)].0, col: ring[(i + 1) % (ring.len() as int)].1 },
    ));
    if !s.contains(q) {
        lemma_stack_bound(g, s.insert(q));
        let j = (i + 1) % (ring.len() as int);
        lemma_ring_reference_is_cycle(g, ring, j, s.insert(q));
    }
}

/// Every cell of a ring of references (each cell holding nothing but a
/// reference to the next, the last to the first) has no value, and is
/// reported as a cycle.
pub proof fn law_reference_ring_is_cycle(g: Seq<Seq<Option<Expr>>>, ring: Seq<(u32, u32)>, i: int)
    requires
        is_reference_ring(g, ring),
        0 <= i < ring.len(),
    ensures
        spec_solve_cells(g)[ring[i].0 as int][ring[i].1 as int] is None,
        solve_diagnostic(
            g,
            ring[i].0 as int,
            ring[i].1 as int,
            g[ring[i].0 as int][ring[i].1 as int],
        ) == seq![(ring[i].0 as usize, ring[i].1 as usize, SolveError::Cycle.spec_message())],
{
    let j = (i + 1) % (ring.len() as int);
    assert(valid_cell(g, ring[i].0 as int, ring[i].1 as int));
    assert(g[ring[i].0 as int][ring[i].1 as int] == Some(
        Expr::CellCords { row: ring[j].0, col: ring[j].1 },
    ));
    lemma_ring_reference_is_cycle(g, ring, j, Set::empty());
}

/// A cell that parsed is left without a value exactly when it gets a
/// diagnostic, and then it gets exactly one; a cell that did not parse gets
/// none.
pub proof fn law_solve_diagnostic_iff_no_value(g: Seq<Seq<Option<Expr>>>, r: int, c: int)
    requires
        valid_cell(g, r, c),
        cell_outcome(g, g[r][c]) is Some,
    ensures
        g[r][c] is None ==> solve_diagnostic(g, r, c, g[r][c]).len() == 0,
        g[r][c] is Some ==> (spec_solve_cells(g)[r][c] is None <==> solve_diagnostic(
            g,
            r,
            c,
            g[r][c],
        ).len() == 1),
        g[r][c] is Some ==> (spec_solve_cells(g)[r][c] is Some <==> solve_diagnostic(
            g,
            r,
            c,
            g[r][c],
        ).len() == 0),
{
}

/// The value of `e` under ordinary `u32` arithmetic, following references
/// down a ranking of the cells: a reference is followed only to a cell of the
/// grid that parsed and whose rank is below `bound`, and that cell's
/// expression is then read with its own rank as the bound. `None` if a
/// reference cannot be followed so, or if a sum or a difference leaves the
/// range of `u32`. No cycle can be followed down a ranking.
pub open spec fn ranked_value(
    g: Seq<Seq<Option<Expr>>>,
    rank: spec_fn((u32, u32)) -> nat,
    e: Expr,
    bound: nat,
) -> Option<u32>
    decreases bound, e,
{
    match e {
        Expr::Number(n) => Some(n),
        Expr::CellCords { row, col } => {
            if valid_cell(g, row as int, col as int) && g[row as int][col as int] is Some && rank(
                (row, col),
            ) < bound {
                ranked_value(g, rank, g[row as int][col as int]->Some_0, rank((row, col)))
            } else {
                None
            }
        },
        Expr::Op(lhs, op, rhs) => match (
            ranked_value(g, rank, *lhs.long, bound),
            ranked_value(g, rank, *rhs.long, bound),
        ) {
            (Some(a), Some(b)) => match op {
                Op::Add => if a + b <= u32::MAX {
                    Some((a + b) as u32)
                } else {
                    None
                },
                Op::Subtract => if a >= b {
                    Some((a - b) as u32)
                } else {
                    None
                },
            },
            _ => None,
        },
    }
}

proof fn lemma_ranked_value_evaluates(
    g: Seq<Seq<Option<Expr>>>,
    rank: spec_fn((u32, u32)) -> nat,
    e: Expr,
    bound: nat,
    s: Set<(u32, u32)>,
)
    requires
        stack_ok(g, s),
        forall|q: (u32, u32)| #[trigger] s.contains(q) ==> rank(q) >= bound,
        ranked_value(g, rank, e, bound) is Some,
    ensures
        eval(g, e, s) == Some(Ok::<u32, SolveError>(ranked_value(g, rank, e, bound)->Some_0)),
    decreases bound, e,
{
    match e {
        Expr::Number(_) => {},
        Expr::CellCords { row, col } => {
            let q = (row, col);
            let content = g[row as int][col as int]->Some_0;
            assert(!s.contains(q));
            lemma_stack_bound(g, s.insert(q));
            lemma_ranked_value_evaluates(g, rank, content, rank(q), s.insert(q));
        },
        Expr::Op(lhs, _, rhs) => {
            lemma_ranked_value_evaluates(g, rank, *lhs.long, bound, s);
            lemma_ranked_value_evaluates(g, rank, *rhs.long, bound, s);
        },
    }
}

/// An expression whose value follows by ordinary `u32` arithmetic down some
/// ranking of the cells (no reference outside the grid or to a cell that did
/// not parse, no cycle, no overflow or underflow) evaluates to that value: a
/// number to itself, `a - b` with `a >= b` to `a - b`, and so on.
pub proof fn law_ranked_value_is_evaluated(
    g: Seq<Seq<Option<Expr>>>,
    rank: spec_fn((u32, u32)) -> nat,
    e: Expr,
    bound: nat,
)
    requires
        ranked_value(g, rank, e, bound) is Some,
    ensures
        eval(g, e, Set::empty()) == Some(
            Ok::<u32, SolveError>(ranked_value(g, rank, e, bound)->Some_0),
        ),
{
    lemma_ranked_value_evaluates(g, rank, e, bound, Set::empty());
}

/// The rank of the cell at `r`, `c`.
pub open spec fn cell_rank(rank: spec_fn((u32, u32)) -> nat, r: int, c: int) -> nat {
    rank((r as u32, c as u32))
}

/// A cell whose expression has a value by ordinary `u32` arithmetic, following
/// references only to cells of lower rank, gets that value and no
/// diagnostic.
pub proof fn law_ranked_cell_gets_value(
    g: Seq<Seq<Option<Expr>>>,
    rank: spec_fn((u32, u32)) -> nat,
    r: int,
    c: int,
)
    requires
        valid_cell(g, r, c),
        g[r][c] is Some,
        ranked_value(g, rank, g[r][c]->Some_0, cell_rank(rank, r, c)) is Some,
    ensures
        spec_solve_cells(g)[r][c] == ranked_value(g, rank, g[r][c]->Some_0, cell_rank(rank, r, c)),
        solve_diagnostic(g, r, c, g[r][c]).len() == 0,
{
    law_ranked_value_is_evaluated(g, rank, g[r][c]->Some_0, cell_rank(rank, r, c));
}

/// Whether every cell that parsed has a value by ordinary `u32` arithmetic,
/// following references only to cells of lower rank. The grid may have rows
/// of any lengths.
pub open spec fn ranked_grid(g: Seq<Seq<Option<Expr>>>, rank: spec_fn((u32, u32)) -> nat) -> bool {
    forall|r: int, c: int|
        valid_cell(g, r, c) && g[r][c] is Some ==> (#[trigger] ranked_value(
            g,
            rank,
            g[r][c]->Some_0,
            cell_rank(rank, r, c),
        )) is Some
}

/// On a grid where every cell that parsed has a value by ordinary arithmetic
/// down some ranking, whatever the lengths of its rows, every cell has a
/// defined outcome (so `try_solve_spreadsheet` succeeds), every cell that
/// parsed gets its value, and no cell gets a diagnostic.
pub proof fn law_ranked_grid_is_solved(g: Seq<Seq<Option<Expr>>>, rank: spec_fn((u32, u32)) -> nat)
    requires
        ranked_grid(g, rank),
    ensures
        all_cells_defined(g),
        forall|r: int, c: int|
            valid_cell(g, r, c) && g[r][c] is Some ==> #[trigger] spec_solve_cells(g)[r][c]
                == ranked_value(g, rank, g[r][c]->Some_0, cell_rank(rank, r, c)),
        forall|r: int, c: int|
            valid_cell(g, r, c) ==> (#[trigger] solve_diagnostic(g, r, c, g[r][c])).len() == 0,
{
    assert forall|r: int, c: int| valid_cell(g, r, c) implies (#[trigger] cell_outcome(
        g,
        g[r][c],
    )) is Some && solve_diagnostic(g, r, c, g[r][c]).len() == 0 && (g[r][c] is Some
        ==> spec_solve_cells(g)[r][c] == ranked_value(
        g,
        rank,
        g[r][c]->Some_0,
        cell_rank(rank, r, c),
    )) by {
        if g[r][c] is Some {
            assert(ranked_value(g, rank, g[r][c]->Some_0, cell_rank(rank, r, c)) is Some);
            law_ranked_cell_gets_value(g, rank, r, c);
        }
    }
    assert forall|r: int, c: int|
        valid_cell(g, r, c) && g[r][c] is Some implies #[trigger] spec_solve_cells(g)[r][c]
        == ranked_value(g, rank, g[r][c]->Some_0, cell_rank(rank, r, c)) by {
        assert(cell_outcome(g, g[r][c]) is Some);
    }
    assert forall|r: int, c: int| valid_cell(g, r, c) implies (#[trigger] solve_diagnostic(
        g,
        r,
        c,
        g[r][c],
    )).len() == 0 by {
        assert(cell_outcome(g, g[r][c]) is Some);
    }
}

/// A reference to a cell outside the grid has no defined outcome.
pub proof fn law_reference_outside_grid_is_undefined(
    g: Seq<Seq<Option<Expr>>>,
    row: u32,
    col: u32,
    s: Set<(u32, u32)>,
)
    requires
        stack_ok(g, s),
        !valid_cell(g, row as int, col as int),
    ensures
        eval(g, Expr::CellCords { row, col }, s) is None,
{
}

/// A sum or difference of two operands that have values by ordinary
/// arithmetic has no defined outcome when the result leaves the range of
/// `u32`.
pub proof fn law_out_of_range_is_undefined(
    g: Seq<Seq<Option<Expr>>>,
    rank: spec_fn((u32, u32)) -> nat,
    lhs: Expr,
    op: Op,
    rhs: Expr,
    bound: nat,
)
    requires
        ranked_value(g, rank, lhs, bound) matches Some(a) && ranked_value(g, rank, rhs, bound)
            matches Some(b) && match op {
            Op::Add => a + b > u32::MAX,
            Op::Subtract => a < b,
        },
    ensures
        eval(g, Expr::Op(ExprId::new_spec(lhs), op, ExprId::new_spec(rhs)), Set::empty()) is None,
{
    law_ranked_value_is_evaluated(g, rank, lhs, bound);
    law_ranked_value_is_evaluated(g, rank, rhs, bound);
}

} // verus!
