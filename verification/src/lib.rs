//! Spreadsheet cell formulas: a lexer and parser for cell contents, and a
//! solver that evaluates every cell of a parsed spreadsheet.

pub mod diagnostic;
pub mod input;
pub mod ir;
pub mod lexer;
pub mod parser;
pub mod solver;
