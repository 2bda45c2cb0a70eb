use spreadsheet::ir::Op;
use spreadsheet::lexer::Lexer;

#[test]
fn number_skips_leading_whitespace() {
    let mut lexer = Lexer::new("   42+");
    assert_eq!(lexer.number(), Some(42));
    assert!(lexer.can_consume());
    assert_eq!(lexer.op(), Some(Op::Add));
    assert!(!lexer.can_consume());
}

#[test]
fn number_skips_unicode_whitespace() {
    let mut lexer = Lexer::new(" \u{A0}\t7");
    assert_eq!(lexer.number(), Some(7));
    assert!(!lexer.can_consume());
}

#[test]
fn number_absent() {
    let mut lexer = Lexer::new("  x");
    assert_eq!(lexer.number(), None);
    // The whitespace was taken, the `x` was not.
    assert!(lexer.can_consume());
    assert_eq!(lexer.op(), None);
    assert!(lexer.can_consume());
}

#[test]
fn number_overflowing_u32_is_taken_but_not_read() {
    let mut lexer = Lexer::new("4294967296");
    assert_eq!(lexer.number(), None);
    assert!(!lexer.can_consume());
    let mut lexer = Lexer::new("4294967295");
    assert_eq!(lexer.number(), Some(4294967295));
}

#[test]
fn number_with_non_ascii_numeric_characters_is_taken_but_not_read() {
    // '٣' (ARABIC-INDIC DIGIT THREE) is numeric but not an ASCII digit.
    let mut lexer = Lexer::new("1٣");
    assert_eq!(lexer.number(), None);
    assert!(!lexer.can_consume());
    let mut lexer = Lexer::new("½ 3");
    assert_eq!(lexer.number(), None);
    assert_eq!(lexer.number(), Some(3));
}

#[test]
fn number_with_leading_zeros() {
    let mut lexer = Lexer::new("007");
    assert_eq!(lexer.number(), Some(7));
}

#[test]
fn cell_cords_read() {
    let mut lexer = Lexer::new("$12:3");
    assert_eq!(lexer.cell_cords(), Some((12, 3)));
    assert!(!lexer.can_consume());
    let mut lexer = Lexer::new(" $ 4 : 5 ");
    assert_eq!(lexer.cell_cords(), Some((4, 5)));
    assert!(lexer.can_consume());
}

#[test]
fn cell_cords_partial_is_consumed() {
    let mut lexer = Lexer::new("$1+2");
    assert_eq!(lexer.cell_cords(), None);
    // `$1` was taken; the operator remains.
    assert_eq!(lexer.op(), Some(Op::Add));
    assert_eq!(lexer.number(), Some(2));
    let mut lexer = Lexer::new("7");
    assert_eq!(lexer.cell_cords(), None);
    assert_eq!(lexer.number(), Some(7));
}

#[test]
fn op_read() {
    let mut lexer = Lexer::new(" - +");
    assert_eq!(lexer.op(), Some(Op::Subtract));
    assert_eq!(lexer.op(), Some(Op::Add));
    assert_eq!(lexer.op(), None);
    assert!(!lexer.can_consume());
}

#[test]
fn empty_text() {
    let mut lexer = Lexer::new("");
    assert!(!lexer.can_consume());
    assert_eq!(lexer.number(), None);
    assert_eq!(lexer.cell_cords(), None);
    assert_eq!(lexer.op(), None);
}

#[test]
fn rendered_characters_are_classified_as_expected() {
    assert!(spreadsheet::lexer::check_ascii_classification());
}
