//! The intermediate representation of parsed cell contents.

use vstd::prelude::*;

verus! {

/// A binary operator between two expressions.
#[derive(Clone, Copy, Debug, PartialEq, Eq, Hash)]
pub enum Op {
    Add,
    Subtract,
}

/// A parsed cell expression.
#[derive(Debug, PartialEq, Eq, Hash)]
pub enum Expr {
    /// `lhs op rhs`
    Op(ExprId, Op, ExprId),
    /// A reference `$row:col` to another cell.
    CellCords { row: u32, col: u32 },
    /// A literal number.
    Number(u32),
}

/// A handle on an expression. Two handles are equal exactly when the
/// expressions they hold are equal.
#[derive(Debug, PartialEq, Eq, Hash)]
pub struct ExprId {
    pub long: Box<Expr>,
}

impl ExprId {
    /// The expression that this handle holds.
    pub open spec fn expr(self) -> Expr {
        *self.long
    }

    /// The handle of an expression.
    pub open spec fn new_spec(long: Expr) -> ExprId {
        ExprId { long: Box::new(long) }
    }

    pub fn new(long: Expr) -> (id: ExprId)
        ensures
            id.expr() == long,
    {
        ExprId { long: Box::new(long) }
    }

    pub fn long(&self) -> (e: &Expr)
        ensures
            *e == self.expr(),
    {
        &self.long
    }
}

/// A handle on the text of a cell.
#[derive(Debug, PartialEq, Eq, Hash)]
pub struct StrId {
    pub long: String,
}

impl StrId {
    pub fn new(long: String) -> (id: StrId)
        ensures
            id.long@ == long@,
    {
        StrId { long }
    }

    pub fn long(&self) -> (s: &str)
        ensures
            s@ == self.long@,
    {
        self.long.as_str()
    }
}

} // verus!
