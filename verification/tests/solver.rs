use spreadsheet::diagnostic::Diagnostic;
use spreadsheet::input::raw::RawSpreadsheet;
use spreadsheet::ir::{Expr, ExprId, Op};
use spreadsheet::parser::{parse_spreadsheet, ParsedSpreadsheet};
use spreadsheet::solver::{
    solve_expr, solve_spreadsheet, try_solve_expr, try_solve_spreadsheet, SolveError,
};

fn grid(rows: &[&[&str]]) -> RawSpreadsheet {
    RawSpreadsheet::new(
        rows.iter()
            .map(|row| row.iter().map(|c| c.to_string()).collect())
            .collect(),
    )
}

fn parsed(rows: &[&[&str]]) -> ParsedSpreadsheet {
    parse_spreadsheet(&grid(rows)).0
}

fn seen(diags: Vec<Diagnostic>) -> Vec<(usize, usize, String)> {
    diags.into_iter().map(|d| (d.row, d.col, d.message)).collect()
}

#[test]
fn first_revision() {
    let p = parsed(&[
        &["13 14", "5 + ", "$0:0 + $0:1"],
        &["7 + -", "12 + bro", "$1:0 + $1:1"],
        &["+ 1", "13", "$2:0 + $2:1"],
    ]);
    let (values, diags) = solve_spreadsheet(&p);
    assert_eq!(
        values,
        vec![
            vec![None, None, None],
            vec![None, None, None],
            vec![None, Some(13), None],
        ]
    );
    let unparsed = "Cell depending on unparsed cells".to_string();
    assert_eq!(
        seen(diags),
        vec![(0, 2, unparsed.clone()), (1, 2, unparsed.clone()), (2, 2, unparsed)]
    );
}

#[test]
fn sums_of_rows() {
    let p = parsed(&[
        &["3", "5 - 3", "$0:0 + $0:1"],
        &["7", "12", "$1:0 + $1:1"],
        &["1", "13", "$2:0 + $2:1"],
    ]);
    let (values, diags) = solve_spreadsheet(&p);
    assert_eq!(
        values,
        vec![
            vec![Some(3), Some(2), Some(5)],
            vec![Some(7), Some(12), Some(19)],
            vec![Some(1), Some(13), Some(14)],
        ]
    );
    assert!(diags.is_empty());
}

#[test]
fn changed_cells() {
    let p = parsed(&[
        &["3", "5 - 3", "$0:0 + $0:1"],
        &["7", "$0:0 + $2:2", "$1:0 + $1:1"],
        &["1", "13", "$2:0 + $2:1 - 5"],
    ]);
    let (values, diags) = solve_spreadsheet(&p);
    assert_eq!(
        values,
        vec![
            vec![Some(3), Some(2), Some(5)],
            vec![Some(7), Some(12), Some(19)],
            vec![Some(1), Some(13), Some(9)],
        ]
    );
    assert!(diags.is_empty());
}

#[test]
fn two_cell_cycle() {
    let p = parsed(&[&["$0:1", "$0:0"], &["$0:0 + 1", "4"]]);
    let (values, diags) = solve_spreadsheet(&p);
    assert_eq!(values, vec![vec![None, None], vec![None, Some(4)]]);
    let cycle = "Cycle detected".to_string();
    assert_eq!(
        seen(diags),
        vec![(0, 0, cycle.clone()), (0, 1, cycle.clone()), (1, 0, cycle)]
    );
}

#[test]
fn self_reference_is_cycle() {
    let p = parsed(&[&["$0:0"]]);
    let (values, diags) = solve_spreadsheet(&p);
    assert_eq!(values, vec![vec![None]]);
    assert_eq!(seen(diags), vec![(0, 0, "Cycle detected".to_string())]);
}

#[test]
fn cycle_behind_an_error_reports_the_first_error() {
    // The left operand is reached first.
    let p = parsed(&[&["$0:1 + $0:0", "x"]]);
    let (values, diags) = solve_spreadsheet(&p);
    assert_eq!(values, vec![vec![None, None]]);
    assert_eq!(
        seen(diags),
        vec![(0, 0, "Cell depending on unparsed cells".to_string())]
    );
    let p = parsed(&[&["$0:0 + $0:1", "x"]]);
    let (_, diags) = solve_spreadsheet(&p);
    assert_eq!(seen(diags), vec![(0, 0, "Cycle detected".to_string())]);
}

#[test]
fn reference_takes_referenced_value() {
    let p = parsed(&[&["$0:1", "2 + 40"], &["$0:0", "$1:0 - 2"]]);
    let (values, _) = solve_spreadsheet(&p);
    assert_eq!(values, vec![vec![Some(42), Some(42)], vec![Some(42), Some(40)]]);
}

#[test]
fn shared_reference_is_not_a_cycle() {
    let p = parsed(&[&["1", "$0:0 + $0:0", "$0:1 + $0:1"]]);
    let (values, diags) = solve_spreadsheet(&p);
    assert_eq!(values, vec![vec![Some(1), Some(2), Some(4)]]);
    assert!(diags.is_empty());
}

#[test]
fn undefined_outcomes() {
    // A sum beyond u32, a negative difference, a cell outside the grid.
    assert!(try_solve_spreadsheet(&parsed(&[&["4294967295 + 1"]])).is_none());
    assert!(try_solve_spreadsheet(&parsed(&[&["1 - 2"]])).is_none());
    assert!(try_solve_spreadsheet(&parsed(&[&["$5:5"]])).is_none());
    assert!(try_solve_spreadsheet(&parsed(&[&["1", "$0:2"]])).is_none());
    assert!(try_solve_spreadsheet(&parsed(&[&["4294967295 + 0", "2 - 2"]])).is_some());
}

#[test]
fn try_solve_spreadsheet_agrees_with_solve_spreadsheet() {
    let p = parsed(&[&["1 + $0:1", "2"], &["$0:0", "$1:1"]]);
    let (values, diags) = try_solve_spreadsheet(&p).unwrap();
    assert_eq!(values, vec![vec![Some(3), Some(2)], vec![Some(3), None]]);
    assert_eq!(seen(diags), vec![(1, 1, "Cycle detected".to_string())]);
}

#[test]
fn solve_single_expressions() {
    let p = parsed(&[&["7", "x", "$0:0 + 1"]]);
    let sum = ExprId::new(Expr::Op(
        ExprId::new(Expr::CellCords { row: 0, col: 2 }),
        Op::Subtract,
        ExprId::new(Expr::Number(3)),
    ));
    assert_eq!(solve_expr(&sum, &p), Ok(5));
    let bad = ExprId::new(Expr::CellCords { row: 0, col: 1 });
    assert_eq!(solve_expr(&bad, &p), Err(SolveError::UnparsedDependency));
    let out = ExprId::new(Expr::CellCords { row: 3, col: 0 });
    assert_eq!(try_solve_expr(&out, &p), None);
    assert_eq!(try_solve_expr(&ExprId::new(Expr::Number(9)), &p), Some(Ok(9)));
}

#[test]
fn solve_error_messages() {
    assert_eq!(
        SolveError::UnparsedDependency.message(),
        "Cell depending on unparsed cells"
    );
    assert_eq!(SolveError::Cycle.message(), "Cycle detected");
}

#[test]
fn empty_spreadsheet() {
    let (values, diags) = solve_spreadsheet(&parsed(&[]));
    assert!(values.is_empty());
    assert!(diags.is_empty());
}

#[test]
fn reference_gives_referenced_outcome_errors_included() {
    let p = parsed(&[&["x", "$0:0", "$0:3", "$0:2", "$0:1 + 1"]]);
    // (0,1) refers to an unparsed cell; (0,2) and (0,3) form a cycle;
    // (0,4) refers to (0,1) and gets its error.
    let reference = |row: u32, col: u32| ExprId::new(Expr::CellCords { row, col });
    assert_eq!(try_solve_expr(&reference(0, 0), &p), Some(Err(SolveError::UnparsedDependency)));
    assert_eq!(try_solve_expr(&reference(0, 2), &p), Some(Err(SolveError::Cycle)));
    assert_eq!(try_solve_expr(&reference(0, 3), &p), Some(Err(SolveError::Cycle)));
    let content = p.cells[0][4].as_ref().unwrap();
    assert_eq!(try_solve_expr(&reference(0, 4), &p), try_solve_expr(content, &p));
    assert_eq!(
        try_solve_expr(content, &p),
        Some(Err(SolveError::UnparsedDependency))
    );
}
