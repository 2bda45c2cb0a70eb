# spreadsheet

A spreadsheet whose cells hold formulas such as `3`, `$0:1` or
`$0:0 + $1:2 - 5`, verified with Verus.

- `src/` is the verified library:
  - `lexer.rs` reads numbers, cell references and operators from a cell's text;
  - `parser.rs` parses a cell into an expression and a whole spreadsheet into a
    grid of expressions plus diagnostics;
  - `solver.rs` evaluates every cell, detecting cycles and references to cells
    that did not parse, and proves that the values it gives solve the
    spreadsheet;
  - `input/` holds the raw spreadsheet and reads one from the text of a file.
- `app/` runs the library inside a `salsa` database, which memoizes parsing
  and solving between revisions of the input and collects the diagnostics.
- `tests/` exercises the library on concrete spreadsheets.
