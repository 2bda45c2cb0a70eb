//! Parsing the text of cells into expressions.

use crate::diagnostic::{diagnostics_view, row_major, row_prefix, rows_prefix, Diagnostic};
use crate::input::raw::RawSpreadsheet;
use crate::ir::{Expr, ExprId, Op, StrId};
use crate::lexer::{
    decimal_value, is_ascii_digit, is_numeric_char, is_whitespace_char, lemma_lex_progress,
    lex_cell_cords, lex_ch, ascii_classification, lex_number, lex_op, scan_numeric, skip_ws, Lexer,
};
use vstd::prelude::*;

verus! {

/// Why the text of a cell is not an expression.
#[derive(Debug, Clone, Copy, PartialEq, Eq)]
pub enum ParseError {
    /// An operator comes before any operand.
    StartsWithOp,
    /// Two operators follow each other.
    ConsecutiveOps,
    /// Two operands follow each other with no operator between them.
    ConsecutiveExprs,
    /// Reading stopped before the end of the text.
    NotFullyParsed,
    /// The text ends with an operator.
    EndsWithOp,
    /// The text holds no operand.
    EmptyCell,
}

impl ParseError {
    /// The message reported for this error.
    pub open spec fn spec_message(self) -> Seq<char> {
        match self {
            ParseError::StartsWithOp => "Expr cannot start with op"@,
            ParseError::ConsecutiveOps => "Two consecutive ops are disallowed"@,
            ParseError::ConsecutiveExprs =>
                "Two consecutive expressions without an operand between them are disallowed"@,
            ParseError::NotFullyParsed => "Cell could not be fully parsed"@,
            ParseError::EndsWithOp => " Expr cannot end with op"@,
            ParseError::EmptyCell => "An empty cell."@,
        }
    }

    pub fn message(&self) -> (m: String)
        ensures
            m@ == self.spec_message(),
    {
        match self {
            ParseError::StartsWithOp => String::from_str("Expr cannot start with op"),
            ParseError::ConsecutiveOps => String::from_str("Two consecutive ops are disallowed"),
            ParseError::ConsecutiveExprs => String::from_str(
                "Two consecutive expressions without an operand between them are disallowed",
            ),
            ParseError::NotFullyParsed => String::from_str("Cell could not be fully parsed"),
            ParseError::EndsWithOp => String::from_str(" Expr cannot end with op"),
            ParseError::EmptyCell => String::from_str("An empty cell."),
        }
    }
}

/// `lhs op rhs` as an expression.
pub open spec fn op_expr(lhs: Expr, op: Op, rhs: Expr) -> Expr {
    Expr::Op(ExprId { long: Box::new(lhs) }, op, ExprId { long: Box::new(rhs) })
}

/// Appending an operand to what has been parsed so far: it becomes the whole
/// expression if nothing came before it, the right operand of the pending
/// operator if there is one, and an error otherwise.
pub open spec fn spec_merge(lhs: Option<Expr>, op: Option<Op>, e: Expr) -> Result<Expr, ParseError> {
    match lhs {
        None => Ok(e),
        Some(l) => match op {
            Some(o) => Ok(op_expr(l, o, e)),
            None => Err(ParseError::ConsecutiveExprs),
        },
    }
}

/// The outcome once no more input is read at `p`.
pub open spec fn parse_finish(s: Seq<char>, p: int, acc: Option<Expr>, pending: Option<Op>) -> Result<
    Expr,
    ParseError,
> {
    if p < s.len() {
        Err(ParseError::NotFullyParsed)
    } else if pending is Some {
        Err(ParseError::EndsWithOp)
    } else {
        match acc {
            Some(e) => Ok(e),
            None => Err(ParseError::EmptyCell),
        }
    }
}

/// The operand read at `p`, if any: a number, else a cell reference; and the
/// position after the attempt.
pub open spec fn lex_operand(s: Seq<char>, p: int) -> (Option<Expr>, int) {
    let (n, p1) = lex_number(s, p);
    if n is Some {
        (Some(Expr::Number(n.unwrap())), p1)
    } else {
        let (cc, p2) = lex_cell_cords(s, p1);
        if cc is Some {
            (Some(Expr::CellCords { row: cc.unwrap().0, col: cc.unwrap().1 }), p2)
        } else {
            (None, p2)
        }
    }
}

/// Parsing from position `p`, with `acc` parsed so far and `pending` the
/// operator read since. Operands and operators alternate and combine from the
/// left: `a - b + c` is `(a - b) + c`.
pub open spec fn parse_from(s: Seq<char>, p: int, acc: Option<Expr>, pending: Option<Op>) -> Result<
    Expr,
    ParseError,
>
    decreases s.len() - p,
{
    if 0 <= p < s.len() {
        proof {
            lemma_lex_progress(s, p);
            lemma_lex_progress(s, lex_number(s, p).1);
        }
        let (cur, p2) = lex_operand(s, p);
        if cur is Some {
            match spec_merge(acc, pending, cur.unwrap()) {
                Err(e) => Err(e),
                Ok(m) => parse_from(s, p2, Some(m), None),
            }
        } else {
            proof {
                lemma_lex_progress(s, p2);
            }
            let (o, p3) = lex_op(s, p2);
            if o is Some {
                if acc is None {
                    Err(ParseError::StartsWithOp)
                } else if pending is Some {
                    Err(ParseError::ConsecutiveOps)
                } else {
                    parse_from(s, p3, acc, o)
                }
            } else {
                parse_finish(s, p3, acc, pending)
            }
        }
    } else {
        parse_finish(s, p, acc, pending)
    }
}

/// What the text of a cell parses to.
pub open spec fn spec_parse_cell(s: Seq<char>) -> Result<Expr, ParseError> {
    parse_from(s, 0, None, None)
}

fn merge_expressions(maybe_lhs: Option<Expr>, maybe_op: Option<Op>, expr_to_append: Expr) -> (r:
    Result<Expr, ParseError>)
    ensures
        r == spec_merge(maybe_lhs, maybe_op, expr_to_append),
{
    match maybe_lhs {
        None => Ok(expr_to_append),
        Some(expr) => match maybe_op {
            Some(op) => {
                let lhs = ExprId::new(expr);
                let rhs = ExprId::new(expr_to_append);
                Ok(Expr::Op(lhs, op, rhs))
            },
            None => Err(ParseError::ConsecutiveExprs),
        },
    }
}

/// Parses the text of one cell.
pub fn parse_cell_content(cell_content: &StrId) -> (r: Result<ExprId, ParseError>)
    ensures
        match r {
            Ok(id) => spec_parse_cell(cell_content.long@) == Ok::<Expr, ParseError>(id.expr()),
            Err(e) => spec_parse_cell(cell_content.long@) == Err::<Expr, ParseError>(e),
        },
{
    let ghost s = cell_content.long@;
    let mut lexer = Lexer::new(cell_content.long());
    let mut already_parsed_expr: Option<Expr> = None;
    let mut pending_op: Option<Op> = None;
    while lexer.can_consume()
        invariant_except_break
            parse_from(s, lexer.pos(), already_parsed_expr, pending_op) == spec_parse_cell(s),
        invariant
            s == cell_content.long@,
            lexer.text() == s,
            0 <= lexer.pos() <= s.len(),
        ensures
            parse_finish(s, lexer.pos(), already_parsed_expr, pending_op) == spec_parse_cell(s),
        decreases s.len() - lexer.pos(),
    {
        let ghost p = lexer.pos();
        proof {
            lemma_lex_progress(s, p);
            lemma_lex_progress(s, lex_number(s, p).1);
        }
        let current_expr = match lexer.number() {
            Some(num) => Some(Expr::Number(num)),
            None => match lexer.cell_cords() {
                Some((row, col)) => Some(Expr::CellCords { row, col }),
                None => None,
            },
        };
        if let Some(current_expr) = current_expr {
            match merge_expressions(already_parsed_expr, pending_op, current_expr) {
                Ok(merged) => {
                    already_parsed_expr = Some(merged);
                },
                Err(e) => {
                    return Err(e);
                },
            }
            pending_op = None;
            continue ;
        } else {
            proof {
                lemma_lex_progress(s, lexer.pos());
            }
            if let Some(op) = lexer.op() {
                if already_parsed_expr.is_none() {
                    return Err(ParseError::StartsWithOp);
                }
                if pending_op.is_none() {
                    pending_op = Some(op);
                } else {
                    return Err(ParseError::ConsecutiveOps);
                }
                continue ;
            }
        }
        break ;
    }
    if lexer.can_consume() {
        Err(ParseError::NotFullyParsed)
    } else if pending_op.is_some() {
        Err(ParseError::EndsWithOp)
    } else {
        match already_parsed_expr {
            Some(expr) => Ok(ExprId::new(expr)),
            None => Err(ParseError::EmptyCell),
        }
    }
}

/// A parsed spreadsheet: the expression of every cell that parsed.
pub struct ParsedSpreadsheet {
    pub cells: Vec<Vec<Option<ExprId>>>,
}

/// The expression held, if any.
pub open spec fn opt_expr(o: Option<ExprId>) -> Option<Expr> {
    match o {
        Some(id) => Some(id.expr()),
        None => None,
    }
}

impl View for ParsedSpreadsheet {
    type V = Seq<Seq<Option<Expr>>>;

    open spec fn view(&self) -> Seq<Seq<Option<Expr>>> {
        Seq::new(
            self.cells@.len(),
            |r: int| Seq::new(self.cells@[r]@.len(), |c: int| opt_expr(self.cells@[r]@[c])),
        )
    }
}

/// The expression of a cell whose text is `cell`, if it parses.
pub open spec fn parsed_cell(cell: Seq<char>) -> Option<Expr> {
    match spec_parse_cell(cell) {
        Ok(e) => Some(e),
        Err(_) => None,
    }
}

/// The parsed grid: each cell's text replaced by what it parses to.
pub open spec fn spec_parse_cells(raw: Seq<Seq<Seq<char>>>) -> Seq<Seq<Option<Expr>>> {
    Seq::new(raw.len(), |r: int| Seq::new(raw[r].len(), |c: int| parsed_cell(raw[r][c])))
}

/// The message reported for a cell that does not parse: the error's message,
/// then the cell's text in square brackets.
pub open spec fn parse_diagnostic_message(e: ParseError, cell: Seq<char>) -> Seq<char> {
    e.spec_message() + ": ["@ + cell + "]"@
}

/// The diagnostics of the cell at `r`, `c`: one if it does not parse.
pub open spec fn parse_diagnostic(r: int, c: int, cell: Seq<char>) -> Seq<(usize, usize, Seq<char>)> {
    match spec_parse_cell(cell) {
        Ok(_) => Seq::empty(),
        Err(e) => seq![(r as usize, c as usize, parse_diagnostic_message(e, cell))],
    }
}

pub open spec fn parse_diagnostic_fn() -> spec_fn(int, int, Seq<char>) -> Seq<(usize, usize, Seq<char>)> {
    |r: int, c: int, cell: Seq<char>| parse_diagnostic(r, c, cell)
}

/// The diagnostics of a grid, in row-major order.
pub open spec fn spec_parse_diagnostics(raw: Seq<Seq<Seq<char>>>) -> Seq<(usize, usize, Seq<char>)> {
    row_major(raw, parse_diagnostic_fn())
}

fn diagnostic_message(e: &ParseError, cell: &str) -> (m: String)
    ensures
        m@ == parse_diagnostic_message(*e, cell@),
{
    let mut m = e.message();
    m.append(": [");
    m.append(cell);
    m.append("]");
    m
}

/// Parses every cell of a spreadsheet. A cell that does not parse is left
/// empty and gets a diagnostic.
pub fn parse_spreadsheet(raw_spreadsheet: &RawSpreadsheet) -> (res: (ParsedSpreadsheet, Vec<Diagnostic>))
    ensures
        res.0@ == spec_parse_cells(raw_spreadsheet@),
        diagnostics_view(res.1@) == spec_parse_diagnostics(raw_spreadsheet@),
{
    let ghost raw = raw_spreadsheet@;
    let ghost f = parse_diagnostic_fn();
    let raw_cells = &raw_spreadsheet.cells;
    let mut parsed_cells: Vec<Vec<Option<ExprId>>> = Vec::new();
    let mut diags: Vec<Diagnostic> = Vec::new();
    let mut row_index: usize = 0;
    while row_index < raw_cells.len()
        invariant
            raw == raw_spreadsheet@,
            raw_cells == raw_spreadsheet.cells,
            f == parse_diagnostic_fn(),
            row_index <= raw.len(),
            parsed_cells@.len() == row_index,
            forall|i: int|
                0 <= i < row_index ==> (#[trigger] parsed_cells@[i])@.len() == raw[i].len(),
            forall|i: int, j: int|
                0 <= i < row_index && 0 <= j < raw[i].len() ==> opt_expr(
                    #[trigger] parsed_cells@[i]@[j],
                ) == parsed_cell(raw[i][j]),
            diagnostics_view(diags@) == rows_prefix(raw, f, row_index as nat),
        decreases raw.len() - row_index,
    {
        let row = &raw_cells[row_index];
        let mut parsed_row: Vec<Option<ExprId>> = Vec::new();
        let mut col_index: usize = 0;
        while col_index < row.len()
            invariant
                raw == raw_spreadsheet@,
                raw_cells == raw_spreadsheet.cells,
                f == parse_diagnostic_fn(),
                row_index < raw.len(),
                *row == raw_cells@[row_index as int],
                col_index <= row@.len(),
                row@.len() == raw[row_index as int].len(),
                parsed_row@.len() == col_index,
                forall|j: int|
                    0 <= j < col_index ==> opt_expr(#[trigger] parsed_row@[j]) == parsed_cell(
                        raw[row_index as int][j],
                    ),
                diagnostics_view(diags@) == rows_prefix(raw, f, row_index as nat) + row_prefix(
                    raw,
                    f,
                    row_index as int,
                    col_index as nat,
                ),
            decreases row@.len() - col_index,
        {
            let cell = &row[col_index];
            assert(cell@ == raw[row_index as int][col_index as int]);
            let str_id = StrId::new(cell.clone());
            let ghost before = diagnostics_view(diags@);
            match parse_cell_content(&str_id) {
                Ok(expr) => {
                    parsed_row.push(Some(expr));
                    assert(f(row_index as int, col_index as int, cell@) =~= Seq::<
                        (usize, usize, Seq<char>),
                    >::empty());
                    assert(diagnostics_view(diags@) =~= before + f(
                        row_index as int,
                        col_index as int,
                        cell@,
                    ));
                },
                Err(msg) => {
                    let message = diagnostic_message(&msg, cell.as_str());
                    diags.push(Diagnostic { row: row_index, col: col_index, message });
                    parsed_row.push(None);
                    assert(diagnostics_view(diags@) =~= before + f(
                        row_index as int,
                        col_index as int,
                        cell@,
                    ));
                },
            }
            col_index = col_index + 1;
        }
        parsed_cells.push(parsed_row);
        row_index = row_index + 1;
    }
    let parsed = ParsedSpreadsheet { cells: parsed_cells };
    assert forall|i: int| 0 <= i < raw.len() implies #[trigger] parsed@[i] =~= spec_parse_cells(
        raw,
    )[i] by {
        assert(parsed.cells@[i]@.len() == raw[i].len());
    }
    assert(parsed@ =~= spec_parse_cells(raw));
    (parsed, diags)
}

/// A number or a cell reference.
pub open spec fn is_atom(e: Expr) -> bool {
    e is Number || e is CellCords
}

/// An expression of the form `a0 op1 a1 ... opk ak` combined from the left,
/// each `ai` a number or a cell reference.
pub open spec fn is_chain(e: Expr) -> bool
    decreases e,
{
    match e {
        Expr::Op(lhs, _, rhs) => is_chain(*lhs.long) && is_atom(*rhs.long),
        _ => is_atom(e),
    }
}

proof fn lemma_operand_is_atom(s: Seq<char>, p: int)
    ensures
        lex_operand(s, p).0 matches Some(e) ==> is_atom(e),
{
}

proof fn lemma_parse_from_chain(s: Seq<char>, p: int, acc: Option<Expr>, pending: Option<Op>)
    requires
        acc matches Some(a) ==> is_chain(a),
    ensures
        parse_from(s, p, acc, pending) matches Ok(e) ==> is_chain(e),
    decreases s.len() - p,
{
    if 0 <= p < s.len() {
        lemma_lex_progress(s, p);
        lemma_lex_progress(s, lex_number(s, p).1);
        let (cur, p2) = lex_operand(s, p);
        lemma_operand_is_atom(s, p);
        if cur is Some {
            if let Ok(m) = spec_merge(acc, pending, cur.unwrap()) {
                lemma_parse_from_chain(s, p2, Some(m), None);
            }
        } else {
            lemma_lex_progress(s, p2);
            let (o, p3) = lex_op(s, p2);
            if o is Some && acc is Some && pending is None {
                lemma_parse_from_chain(s, p3, acc, o);
            }
        }
    }
}

/// Every expression that a cell parses to is a chain of numbers and cell
/// references joined by operators, combined from the left.
pub proof fn law_parsed_expression_is_chain(s: Seq<char>)
    ensures
        spec_parse_cell(s) matches Ok(e) ==> is_chain(e),
{
    lemma_parse_from_chain(s, 0, None, None);
}

/// The character of a decimal digit `d < 10`.
pub open spec fn digit_char(d: nat) -> char {
    if d == 0 {
        '0'
    } else if d == 1 {
        '1'
    } else if d == 2 {
        '2'
    } else if d == 3 {
        '3'
    } else if d == 4 {
        '4'
    } else if d == 5 {
        '5'
    } else if d == 6 {
        '6'
    } else if d == 7 {
        '7'
    } else if d == 8 {
        '8'
    } else {
        '9'
    }
}

/// The decimal digits of `n`, most significant first, without leading zeros.
pub open spec fn decimal_digits(n: nat) -> Seq<char>
    decreases n,
{
    if n < 10 {
        seq![digit_char(n)]
    } else {
        decimal_digits(n / 10).push(digit_char(n % 10))
    }
}

/// The character of an operator.
pub open spec fn op_char(op: Op) -> char {
    match op {
        Op::Add => '+',
        Op::Subtract => '-',
    }
}

/// The text of an expression with no whitespace: numbers in decimal, cell
/// references as `$row:col`, operators as `+` and `-`.
pub open spec fn render(e: Expr) -> Seq<char>
    decreases e,
{
    match e {
        Expr::Number(n) => decimal_digits(n as nat),
        Expr::CellCords { row, col } => seq!['$'] + decimal_digits(row as nat) + seq![':']
            + decimal_digits(col as nat),
        Expr::Op(lhs, op, rhs) => render(*lhs.long).push(op_char(op)) + render(*rhs.long),
    }
}

/// A position where a rendered operand stops being read: the end of the
/// text, or one of the characters `+`, `-`, `$`, `:`.
pub open spec fn ends_operand(t: Seq<char>, q: int) -> bool {
    q == t.len() || (0 <= q < t.len() && (t[q] == '+' || t[q] == '-' || t[q] == '$' || t[q]
        == ':'))
}

proof fn lemma_digit_char(d: nat)
    requires
        d < 10,
    ensures
        is_ascii_digit(digit_char(d)),
        (digit_char(d) as int) - ('0' as int) == d,
{
}

proof fn lemma_decimal_digits(n: nat)
    ensures
        decimal_digits(n).len() >= 1,
        forall|i: int|
            0 <= i < decimal_digits(n).len() ==> is_ascii_digit(#[trigger] decimal_digits(n)[i]),
        decimal_value(decimal_digits(n)) == n,
    decreases n,
{
    if n < 10 {
        lemma_digit_char(n);
        let ds = decimal_digits(n);
        assert(ds.drop_last() =~= Seq::<char>::empty());
        assert(ds.last() == digit_char(n));
        assert(decimal_value(ds) == decimal_value(ds.drop_last()) * 10 + ((ds.last() as int) - ('0' as int)) as nat);
    } else {
        lemma_digit_char(n % 10);
        lemma_decimal_digits(n / 10);
        let ds = decimal_digits(n);
        assert(ds.drop_last() =~= decimal_digits(n / 10));
        assert(ds.last() == digit_char(n % 10));
        assert(decimal_value(ds) == decimal_value(ds.drop_last()) * 10 + ((ds.last() as int) - ('0' as int)) as nat);
        assert(n == (n / 10) * 10 + n % 10) by (nonlinear_arith);
    }
}

proof fn lemma_scan_digits(t: Seq<char>, p: int, q: int)
    requires
        ascii_classification(),
        0 <= p <= q <= t.len(),
        forall|i: int| p <= i < q ==> is_ascii_digit(#[trigger] t[i]),
        ends_operand(t, q),
    ensures
        scan_numeric(t, p) == q,
    decreases q - p,
{
    if p < q {
        assert(is_ascii_digit(t[p]));
        lemma_scan_digits(t, p + 1, q);
    } else if q < t.len() {
        assert(!is_numeric_char(t[q]));
    }
}

/// A number rendered at `p` is read back by `lex_number`.
proof fn lemma_lex_rendered_number(t: Seq<char>, p: int, n: u32, q: int)
    requires
        ascii_classification(),
        0 <= p,
        q == p + decimal_digits(n as nat).len(),
        q <= t.len(),
        t.subrange(p, q) == decimal_digits(n as nat),
        ends_operand(t, q) || (q < t.len() && t[q] == ':'),
    ensures
        lex_number(t, p) == (Some(n), q),
{
    lemma_decimal_digits(n as nat);
    let ds = decimal_digits(n as nat);
    assert(t[p] == ds[0]);
    assert(is_ascii_digit(t[p]));
    assert(skip_ws(t, p) == p);
    assert forall|i: int| p <= i < q implies is_ascii_digit(#[trigger] t[i]) by {
        assert(t[i] == ds[i - p]);
    }
    if q < t.len() && t[q] == ':' {
        lemma_scan_digits_colon(t, p, q);
    } else {
        lemma_scan_digits(t, p, q);
    }
    assert(!(ds.len() > 0 && ds[0] == '+'));
}

proof fn lemma_scan_digits_colon(t: Seq<char>, p: int, q: int)
    requires
        ascii_classification(),
        0 <= p <= q < t.len(),
        forall|i: int| p <= i < q ==> is_ascii_digit(#[trigger] t[i]),
        t[q] == ':',
    ensures
        scan_numeric(t, p) == q,
    decreases q - p,
{
    if p < q {
        assert(is_ascii_digit(t[p]));
        lemma_scan_digits_colon(t, p + 1, q);
    } else {
        assert(!is_numeric_char(t[q]));
    }
}

/// An operand rendered at `p` is read back by `lex_operand`.
proof fn lemma_lex_rendered_atom(t: Seq<char>, p: int, a: Expr)
    requires
        ascii_classification(),
        is_atom(a),
        0 <= p,
        p + render(a).len() <= t.len(),
        t.subrange(p, p + render(a).len()) == render(a),
        ends_operand(t, p + render(a).len()),
    ensures
        lex_operand(t, p) == (Some(a), p + render(a).len()),
{
    match a {
        Expr::Number(n) => {
            lemma_lex_rendered_number(t, p, n, p + render(a).len());
        },
        Expr::CellCords { row, col } => {
            let dr = decimal_digits(row as nat);
            let dc = decimal_digits(col as nat);
            lemma_decimal_digits(row as nat);
            lemma_decimal_digits(col as nat);
            let q1 = p + 1;
            let q2 = q1 + dr.len();
            let q3 = q2 + 1;
            let q4 = q3 + dc.len();
            assert(render(a) == seq!['$'] + dr + seq![':'] + dc);
            assert(t[p] == render(a)[0]);
            assert(t[p] == '$');
            assert(!is_numeric_char(t[p]) && !is_whitespace_char(t[p]));
            assert(skip_ws(t, p) == p);
            assert(scan_numeric(t, p) == p);
            assert(lex_number(t, p) == (None::<u32>, p));
            assert(lex_ch(t, p, '$') == (Some(()), q1));
            assert(t.subrange(q1, q2) =~= dr) by {
                assert forall|i: int| 0 <= i < dr.len() implies t.subrange(q1, q2)[i] == dr[i] by {
                    assert(t[q1 + i] == render(a)[1 + i]);
                }
            }
            assert(t[q2] == render(a)[1 + dr.len() as int]);
            assert(t[q2] == ':');
            lemma_lex_rendered_number(t, q1, row, q2);
            assert(skip_ws(t, q2) == q2);
            assert(lex_ch(t, q2, ':') == (Some(()), q3));
            assert(t.subrange(q3, q4) =~= dc) by {
                assert forall|i: int| 0 <= i < dc.len() implies t.subrange(q3, q4)[i] == dc[i] by {
                    assert(t[q3 + i] == render(a)[2 + dr.len() as int + i]);
                }
            }
            lemma_lex_rendered_number(t, q3, col, q4);
        },
        _ => {},
    }
}

/// Reading a rendered chain at the start of `t`, followed by an operator or
/// the end, leaves the chain parsed and no operator pending.
proof fn lemma_parse_rendered_prefix(t: Seq<char>, e: Expr)
    requires
        ascii_classification(),
        is_chain(e),
        render(e).len() <= t.len(),
        t.subrange(0, render(e).len() as int) == render(e),
        ends_operand(t, render(e).len() as int),
    ensures
        parse_from(t, 0, None, None) == parse_from(t, render(e).len() as int, Some(e), None),
    decreases e,
{
    match e {
        Expr::Op(lhs, op, rhs) => {
            let l = *lhs.long;
            let r = *rhs.long;
            let q = render(l).len() as int;
            let k = render(r).len() as int;
            assert(render(e) == render(l).push(op_char(op)) + render(r));
            assert(t.subrange(0, q) =~= render(l)) by {
                assert forall|i: int| 0 <= i < q implies t.subrange(0, q)[i] == render(l)[i] by {
                    assert(t[i] == render(e)[i]);
                }
            }
            assert(t[q] == render(e)[q]);
            assert(t[q] == op_char(op));
            lemma_parse_rendered_prefix(t, l);
            lemma_decimal_digits(0);
            assert(!is_numeric_char(t[q]) && !is_whitespace_char(t[q]));
            assert(skip_ws(t, q) == q);
            assert(scan_numeric(t, q) == q);
            assert(lex_number(t, q) == (None::<u32>, q));
            assert(lex_ch(t, q, '$') == (None::<()>, q));
            assert(lex_operand(t, q) == (None::<Expr>, q));
            assert(lex_op(t, q) == (Some(op), q + 1));
            assert(t.subrange(q + 1, q + 1 + k) =~= render(r)) by {
                assert forall|i: int| 0 <= i < k implies t.subrange(q + 1, q + 1 + k)[i]
                    == render(r)[i] by {
                    assert(t[q + 1 + i] == render(e)[q + 1 + i]);
                }
            }
            lemma_lex_rendered_atom(t, q + 1, r);
            assert(spec_merge(Some(l), Some(op), r) == Ok::<Expr, ParseError>(e));
            assert(parse_from(t, q, Some(l), None) == parse_from(t, q + 1, Some(l), Some(op)));
        },
        _ => {
            lemma_lex_rendered_atom(t, 0, e);
        },
    }
}

/// Rendering an expression and parsing the text gives the expression back,
/// for every expression that a cell can parse to (see
/// `law_parsed_expression_is_chain`).
pub proof fn law_render_then_parse(e: Expr)
    requires
        ascii_classification(),
        is_chain(e),
    ensures
        spec_parse_cell(render(e)) == Ok::<Expr, ParseError>(e),
{
    let t = render(e);
    assert(t.subrange(0, t.len() as int) =~= t);
    lemma_parse_rendered_prefix(t, e);
}

/// At a position holding an operator, no operand is read and the operator is.
proof fn lemma_lex_at_op(t: Seq<char>, q: int, op: Op)
    requires
        ascii_classification(),
        0 <= q < t.len(),
        t[q] == op_char(op),
    ensures
        lex_operand(t, q) == (None::<Expr>, q),
        lex_op(t, q) == (Some(op), q + 1),
{
    assert(!is_numeric_char(t[q]) && !is_whitespace_char(t[q]));
    assert(skip_ws(t, q) == q);
    assert(scan_numeric(t, q) == q);
    assert(lex_number(t, q) == (None::<u32>, q));
    assert(lex_ch(t, q, '$') == (None::<()>, q));
}

/// A text that starts with an operator is refused as starting with one.
pub proof fn law_leading_op_is_refused(t: Seq<char>, op: Op)
    requires
        ascii_classification(),
        t.len() >= 1,
        t[0] == op_char(op),
    ensures
        spec_parse_cell(t) == Err::<Expr, ParseError>(ParseError::StartsWithOp),
{
    lemma_lex_at_op(t, 0, op);
}

/// A chain followed by an operator and nothing else is refused as ending with
/// an operator.
pub proof fn law_trailing_op_is_refused(e: Expr, op: Op)
    requires
        ascii_classification(),
        is_chain(e),
    ensures
        spec_parse_cell(render(e).push(op_char(op))) == Err::<Expr, ParseError>(
            ParseError::EndsWithOp,
        ),
{
    let t = render(e).push(op_char(op));
    let q = render(e).len() as int;
    assert(t.subrange(0, q) =~= render(e));
    lemma_parse_rendered_prefix(t, e);
    lemma_lex_at_op(t, q, op);
    assert(parse_from(t, q, Some(e), None) == parse_from(t, q + 1, Some(e), Some(op)));
}

/// A chain followed by two operators in a row is refused, whatever follows.
pub proof fn law_consecutive_ops_are_refused(e: Expr, op1: Op, op2: Op, rest: Seq<char>)
    requires
        ascii_classification(),
        is_chain(e),
    ensures
        spec_parse_cell(render(e).push(op_char(op1)).push(op_char(op2)) + rest) == Err::<
            Expr,
            ParseError,
        >(ParseError::ConsecutiveOps),
{
    let t = render(e).push(op_char(op1)).push(op_char(op2)) + rest;
    let q = render(e).len() as int;
    assert(t.subrange(0, q) =~= render(e)) by {
        assert forall|i: int| 0 <= i < q implies t.subrange(0, q)[i] == render(e)[i] by {
            assert(t[i] == render(e)[i]);
        }
    }
    assert(t[q] == op_char(op1));
    assert(t[q + 1] == op_char(op2));
    lemma_parse_rendered_prefix(t, e);
    lemma_lex_at_op(t, q, op1);
    lemma_lex_at_op(t, q + 1, op2);
    assert(parse_from(t, q, Some(e), None) == parse_from(t, q + 1, Some(e), Some(op1)));
}

/// A chain followed directly by a cell reference, with no operator between
/// them, is refused as two consecutive operands.
pub proof fn law_consecutive_operands_are_refused(e: Expr, row: u32, col: u32)
    requires
        ascii_classification(),
        is_chain(e),
    ensures
        spec_parse_cell(render(e) + render(Expr::CellCords { row, col })) == Err::<
            Expr,
            ParseError,
        >(ParseError::ConsecutiveExprs),
{
    let a = Expr::CellCords { row, col };
    let t = render(e) + render(a);
    let q = render(e).len() as int;
    assert(t.subrange(0, q) =~= render(e));
    assert(t[q] == render(a)[0]);
    lemma_parse_rendered_prefix(t, e);
    assert(t.subrange(q, q + render(a).len()) =~= render(a));
    lemma_lex_rendered_atom(t, q, a);
}

/// A chain followed by a `:` is refused as not fully read, whatever follows.
pub proof fn law_stray_colon_is_refused(e: Expr, rest: Seq<char>)
    requires
        ascii_classification(),
        is_chain(e),
    ensures
        spec_parse_cell(render(e).push(':') + rest) == Err::<Expr, ParseError>(
            ParseError::NotFullyParsed,
        ),
{
    let t = render(e).push(':') + rest;
    let q = render(e).len() as int;
    assert(t.subrange(0, q) =~= render(e)) by {
        assert forall|i: int| 0 <= i < q implies t.subrange(0, q)[i] == render(e)[i] by {
            assert(t[i] == render(e)[i]);
        }
    }
    assert(t[q] == ':');
    lemma_parse_rendered_prefix(t, e);
    assert(!is_numeric_char(t[q]) && !is_whitespace_char(t[q]));
    assert(skip_ws(t, q) == q);
    assert(scan_numeric(t, q) == q);
    assert(lex_number(t, q) == (None::<u32>, q));
    assert(lex_ch(t, q, '$') == (None::<()>, q));
    assert(lex_ch(t, q, '+') == (None::<()>, q));
    assert(lex_ch(t, q, '-') == (None::<()>, q));
}

proof fn lemma_skip_blank(t: Seq<char>, p: int)
    requires
        0 <= p <= t.len(),
        forall|k: int| 0 <= k < t.len() ==> is_whitespace_char(#[trigger] t[k]),
    ensures
        skip_ws(t, p) == t.len(),
    decreases t.len() - p,
{
    if p < t.len() {
        assert(is_whitespace_char(t[p]));
        lemma_skip_blank(t, p + 1);
    }
}

/// A text of whitespace only, the empty text included, is refused as an
/// empty cell.
pub proof fn law_blank_text_is_empty_cell(t: Seq<char>)
    requires
        forall|k: int| 0 <= k < t.len() ==> is_whitespace_char(#[trigger] t[k]),
    ensures
        spec_parse_cell(t) == Err::<Expr, ParseError>(ParseError::EmptyCell),
{
    if t.len() > 0 {
        let n = t.len() as int;
        lemma_skip_blank(t, 0);
        lemma_skip_blank(t, n);
        assert(scan_numeric(t, n) == n);
        assert(lex_number(t, 0) == (None::<u32>, n));
        assert(lex_ch(t, n, '$') == (None::<()>, n));
        assert(lex_ch(t, n, '+') == (None::<()>, n));
        assert(lex_ch(t, n, '-') == (None::<()>, n));
    }
}

/// Whatever a cell parses to, its rendering parses to the same expression:
/// rendering gives a canonical text for every parsed cell.
pub proof fn law_parse_render_parse(s: Seq<char>)
    requires
        ascii_classification(),
    ensures
        spec_parse_cell(s) matches Ok(e) ==> spec_parse_cell(render(e)) == Ok::<Expr, ParseError>(e),
{
    law_parsed_expression_is_chain(s);
    if let Ok(e) = spec_parse_cell(s) {
        law_render_then_parse(e);
    }
}

/// Each cell of a parsed spreadsheet holds exactly what parsing its text
/// gives: the expression when the text parses, nothing when it does not. The
/// parsed grid has the shape of the raw one, and every expression in it is a
/// chain combined from the left.
pub proof fn law_parsed_cells_are_cell_parses(raw: Seq<Seq<Seq<char>>>, r: int, c: int)
    requires
        0 <= r < raw.len(),
        0 <= c < raw[r].len(),
    ensures
        spec_parse_cells(raw).len() == raw.len(),
        spec_parse_cells(raw)[r].len() == raw[r].len(),
        spec_parse_cell(raw[r][c]) matches Ok(e) ==> spec_parse_cells(raw)[r][c] == Some(e),
        spec_parse_cell(raw[r][c]) is Err ==> spec_parse_cells(raw)[r][c] is None,
        spec_parse_cells(raw)[r][c] matches Some(e) ==> is_chain(e),
{
    law_parsed_expression_is_chain(raw[r][c]);
}

/// A cell is left empty by parsing exactly when it gets a diagnostic, and
/// then it gets exactly one.
pub proof fn law_parse_diagnostic_iff_empty(raw: Seq<Seq<Seq<char>>>, r: int, c: int)
    requires
        0 <= r < raw.len(),
        0 <= c < raw[r].len(),
    ensures
        spec_parse_cells(raw)[r][c] is None <==> parse_diagnostic(r, c, raw[r][c]).len() == 1,
        spec_parse_cells(raw)[r][c] is Some <==> parse_diagnostic(r, c, raw[r][c]).len() == 0,
{
}

} // verus!
