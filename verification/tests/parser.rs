use spreadsheet::input::raw::RawSpreadsheet;
use spreadsheet::ir::{Expr, ExprId, Op, StrId};
use spreadsheet::parser::{parse_cell_content, parse_spreadsheet, ParseError};

fn parse(text: &str) -> Result<ExprId, ParseError> {
    parse_cell_content(&StrId::new(text.to_string()))
}

fn num(n: u32) -> Expr {
    Expr::Number(n)
}

fn cell(row: u32, col: u32) -> Expr {
    Expr::CellCords { row, col }
}

fn bin(lhs: Expr, op: Op, rhs: Expr) -> Expr {
    Expr::Op(ExprId::new(lhs), op, ExprId::new(rhs))
}

fn grid(rows: &[&[&str]]) -> RawSpreadsheet {
    RawSpreadsheet::new(
        rows.iter()
            .map(|row| row.iter().map(|c| c.to_string()).collect())
            .collect(),
    )
}

#[test]
fn parses_number() {
    assert_eq!(*parse("13").unwrap().long(), num(13));
    assert_eq!(*parse("  13  ").unwrap().long(), num(13));
}

#[test]
fn parses_reference() {
    assert_eq!(*parse("$2:1").unwrap().long(), cell(2, 1));
}

#[test]
fn parses_sum_of_references() {
    assert_eq!(
        *parse("$0:0 + $0:1").unwrap().long(),
        bin(cell(0, 0), Op::Add, cell(0, 1))
    );
}

#[test]
fn operators_combine_from_the_left() {
    assert_eq!(
        *parse("1 - 2 + $3:4").unwrap().long(),
        bin(bin(num(1), Op::Subtract, num(2)), Op::Add, cell(3, 4))
    );
    assert_eq!(
        *parse("1+$2:3-4").unwrap().long(),
        bin(bin(num(1), Op::Add, cell(2, 3)), Op::Subtract, num(4))
    );
}

#[test]
fn error_consecutive_expressions() {
    assert_eq!(parse("13 14").unwrap_err(), ParseError::ConsecutiveExprs);
    assert_eq!(parse("$1:1 2").unwrap_err(), ParseError::ConsecutiveExprs);
}

#[test]
fn error_ends_with_op() {
    assert_eq!(parse("5 + ").unwrap_err(), ParseError::EndsWithOp);
}

#[test]
fn error_consecutive_ops() {
    assert_eq!(parse("7 + -").unwrap_err(), ParseError::ConsecutiveOps);
}

#[test]
fn error_not_fully_parsed() {
    assert_eq!(parse("12 + bro").unwrap_err(), ParseError::NotFullyParsed);
    assert_eq!(parse("12 bro").unwrap_err(), ParseError::NotFullyParsed);
    assert_eq!(parse("$1:").unwrap_err(), ParseError::EmptyCell);
}

#[test]
fn error_starts_with_op() {
    assert_eq!(parse("+ 1").unwrap_err(), ParseError::StartsWithOp);
}

#[test]
fn error_empty_cell() {
    assert_eq!(parse("").unwrap_err(), ParseError::EmptyCell);
    assert_eq!(parse("   ").unwrap_err(), ParseError::EmptyCell);
}

#[test]
fn error_number_too_large() {
    // The digits are read but do not fit in a u32; reading then stops.
    assert_eq!(parse("4294967296").unwrap_err(), ParseError::EmptyCell);
    assert_eq!(parse("1 + 4294967296").unwrap_err(), ParseError::EndsWithOp);
}

#[test]
fn error_messages() {
    assert_eq!(ParseError::StartsWithOp.message(), "Expr cannot start with op");
    assert_eq!(
        ParseError::ConsecutiveOps.message(),
        "Two consecutive ops are disallowed"
    );
    assert_eq!(
        ParseError::ConsecutiveExprs.message(),
        "Two consecutive expressions without an operand between them are disallowed"
    );
    assert_eq!(
        ParseError::NotFullyParsed.message(),
        "Cell could not be fully parsed"
    );
    assert_eq!(ParseError::EndsWithOp.message(), " Expr cannot end with op");
    assert_eq!(ParseError::EmptyCell.message(), "An empty cell.");
}

#[test]
fn parse_spreadsheet_of_first_revision() {
    let raw = grid(&[
        &["13 14", "5 + ", "$0:0 + $0:1"],
        &["7 + -", "12 + bro", "$1:0 + $1:1"],
        &["+ 1", "13", "$2:0 + $2:1"],
    ]);
    let (parsed, diags) = parse_spreadsheet(&raw);
    assert_eq!(parsed.cells.len(), 3);
    assert!(parsed.cells.iter().all(|row| row.len() == 3));
    assert!(parsed.cells[0][0].is_none());
    assert!(parsed.cells[0][1].is_none());
    assert_eq!(
        *parsed.cells[0][2].as_ref().unwrap().long(),
        bin(cell(0, 0), Op::Add, cell(0, 1))
    );
    assert!(parsed.cells[1][0].is_none());
    assert!(parsed.cells[1][1].is_none());
    assert!(parsed.cells[2][0].is_none());
    assert_eq!(*parsed.cells[2][1].as_ref().unwrap().long(), num(13));
    let seen: Vec<(usize, usize, String)> = diags
        .into_iter()
        .map(|d| (d.row, d.col, d.message))
        .collect();
    assert_eq!(
        seen,
        vec![
            (
                0,
                0,
                "Two consecutive expressions without an operand between them are disallowed: [13 14]"
                    .to_string()
            ),
            (0, 1, " Expr cannot end with op: [5 + ]".to_string()),
            (1, 0, "Two consecutive ops are disallowed: [7 + -]".to_string()),
            (1, 1, "Cell could not be fully parsed: [12 + bro]".to_string()),
            (2, 0, "Expr cannot start with op: [+ 1]".to_string()),
        ]
    );
}

#[test]
fn parse_spreadsheet_ragged_and_empty() {
    let raw = grid(&[&[], &["1", ""], &["2"]]);
    let (parsed, diags) = parse_spreadsheet(&raw);
    assert_eq!(parsed.cells.len(), 3);
    assert_eq!(parsed.cells[0].len(), 0);
    assert_eq!(parsed.cells[1].len(), 2);
    assert_eq!(parsed.cells[2].len(), 1);
    assert_eq!(diags.len(), 1);
    assert_eq!((diags[0].row, diags[0].col), (1, 1));
    assert_eq!(diags[0].message, "An empty cell.: []");
    let (parsed, diags) = parse_spreadsheet(&grid(&[]));
    assert!(parsed.cells.is_empty());
    assert!(diags.is_empty());
}

#[test]
fn rendered_chain_parses_back() {
    // law_render_then_parse on a concrete chain.
    let e = bin(bin(num(10), Op::Subtract, cell(0, 12)), Op::Add, num(0));
    assert_eq!(*parse("10-$0:12+0").unwrap().long(), e);
}

#[test]
fn handles() {
    let id = ExprId::new(num(5));
    assert_eq!(*id.long(), num(5));
    let s = StrId::new("abc".to_string());
    assert_eq!(s.long(), "abc");
}
