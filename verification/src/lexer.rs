//! A lexer over the text of one cell.

use crate::ir::Op;
use vstd::prelude::*;

verus! {

/// What `char::is_whitespace` returns for a character: whether it has the
/// Unicode `White_Space` property.
pub uninterp spec fn is_whitespace_char(c: char) -> bool;

/// What `char::is_numeric` returns for a character: whether its Unicode
/// general category is one of those for numbers (`Nd`, `Nl`, `No`).
pub uninterp spec fn is_numeric_char(c: char) -> bool;

/// Calls `char::is_whitespace`. Claimed: the result is `is_whitespace_char(c)`;
/// space, line feed and no-break space (the documentation's examples) are
/// whitespace; among ASCII characters exactly those with the `White_Space`
/// property in the Unicode character database are: tab, line feed, line
/// tabulation, form feed, carriage return (U+0009 to U+000D) and space.
/// Which non-ASCII characters are is left to the name.
#[verifier::external_body]
fn char_is_whitespace(c: char) -> (r: bool)
    ensures
        r == is_whitespace_char(c),
        (c == ' ' || c == '\n' || c == '\u{A0}') ==> r,
        c <= '\u{7F}' ==> (r <==> (c == ' ' || ('\t' <= c && c <= '\r'))),
{
    c.is_whitespace()
}

/// Calls `char::is_numeric`. Claimed: the result is `is_numeric_char(c)`;
/// among ASCII characters exactly the digits `0`..=`9` are numeric (they are
/// the only ASCII characters whose general category, `Nd`, is one for
/// numbers). Which non-ASCII characters are is left to the name.
#[verifier::external_body]
fn char_is_numeric(c: char) -> (r: bool)
    ensures
        r == is_numeric_char(c),
        ('0' <= c && c <= '9') ==> r,
        c <= '\u{7F}' ==> (r <==> ('0' <= c && c <= '9')),
{
    c.is_numeric()
}

/// An ASCII decimal digit.
pub open spec fn is_ascii_digit(c: char) -> bool {
    '0' <= c && c <= '9'
}

/// The value of a sequence of ASCII decimal digits, most significant first.
pub open spec fn decimal_value(ds: Seq<char>) -> nat
    decreases ds.len(),
{
    if ds.len() == 0 {
        0
    } else {
        decimal_value(ds.drop_last()) * 10 + ((ds.last() as int) - ('0' as int)) as nat
    }
}

/// What `str::parse::<u32>` accepts: an optional `+` followed by one or more
/// ASCII digits whose value fits in a `u32`.
pub open spec fn spec_parse_u32(s: Seq<char>) -> Option<u32> {
    let ds = if s.len() > 0 && s[0] == '+' {
        s.drop_first()
    } else {
        s
    };
    if ds.len() > 0 && (forall|i: int| 0 <= i < ds.len() ==> is_ascii_digit(#[trigger] ds[i]))
        && decimal_value(ds) <= u32::MAX {
        Some(decimal_value(ds) as u32)
    } else {
        None
    }
}

/// Calls `str::parse::<u32>` (`u32::from_str`, radix 10). Claimed, as its
/// documentation says: the text must be an optional `+` sign followed by only
/// ASCII digits, at least one, and the value must fit in a `u32`; otherwise
/// the parse fails.
#[verifier::external_body]
fn parse_u32(s: &str) -> (r: Option<u32>)
    ensures
        r == spec_parse_u32(s@),
{
    str::parse::<u32>(s).ok()
}

/// The first position at or after `p` that does not hold whitespace.
pub open spec fn skip_ws(s: Seq<char>, p: int) -> int
    decreases s.len() - p,
{
    if 0 <= p < s.len() && is_whitespace_char(s[p]) {
        skip_ws(s, p + 1)
    } else {
        p
    }
}

/// Skipping whitespace stops at the end of the text or at a character that is
/// not whitespace, and skipping again from there does not move.
pub proof fn law_skip_ws_idempotent(s: Seq<char>, p: int)
    requires
        0 <= p <= s.len(),
    ensures
        skip_ws(s, skip_ws(s, p)) == skip_ws(s, p),
        skip_ws(s, p) == s.len() || !is_whitespace_char(s[skip_ws(s, p)]),
    decreases s.len() - p,
{
    if p < s.len() && is_whitespace_char(s[p]) {
        law_skip_ws_idempotent(s, p + 1);
    }
}

/// How `char::is_numeric` and `char::is_whitespace` classify the ASCII
/// characters that a rendered expression holds: digits are numeric, `+`,
/// `-`, `$` and `:` are not, and none of them is whitespace.
pub open spec fn ascii_classification() -> bool {
    &&& forall|c: char|
        #![trigger is_numeric_char(c)]
        #![trigger is_whitespace_char(c)]
        is_ascii_digit(c) ==> is_numeric_char(c) && !is_whitespace_char(c)
    &&& forall|c: char|
        #![trigger is_numeric_char(c)]
        #![trigger is_whitespace_char(c)]
        (c == '+' || c == '-' || c == '$' || c == ':') ==> !is_numeric_char(c)
            && !is_whitespace_char(c)
}

fn classified_as(c: char, numeric: bool) -> (r: bool)
    ensures
        r == (is_numeric_char(c) == numeric && !is_whitespace_char(c)),
        c <= '\u{7F}' ==> (r == ((('0' <= c && c <= '9') == numeric) && !(c == ' ' || ('\t' <= c
            && c <= '\r')))),
{
    char_is_numeric(c) == numeric && !char_is_whitespace(c)
}

/// Asks `char::is_numeric` and `char::is_whitespace` how they classify the
/// characters of a rendered expression; the answer is `ascii_classification()`.
pub fn check_ascii_classification() -> (r: bool)
    ensures
        r == ascii_classification(),
        r,
{
    let digits = classified_as('0', true) && classified_as('1', true) && classified_as('2', true)
        && classified_as('3', true) && classified_as('4', true) && classified_as('5', true)
        && classified_as('6', true) && classified_as('7', true) && classified_as('8', true)
        && classified_as('9', true);
    let others = classified_as('+', false) && classified_as('-', false) && classified_as(
        '$',
        false,
    ) && classified_as(':', false);
    proof {
        if digits {
            assert forall|c: char| is_ascii_digit(c) implies is_numeric_char(c)
                && !is_whitespace_char(c) by {
                let k = c as u32;
                assert(48 <= k <= 57);
                if k == 48 {
                    assert(c == '0');
                } else if k == 49 {
                    assert(c == '1');
                } else if k == 50 {
                    assert(c == '2');
                } else if k == 51 {
                    assert(c == '3');
                } else if k == 52 {
                    assert(c == '4');
                } else if k == 53 {
                    assert(c == '5');
                } else if k == 54 {
                    assert(c == '6');
                } else if k == 55 {
                    assert(c == '7');
                } else if k == 56 {
                    assert(c == '8');
                } else {
                    assert(c == '9');
                }
            }
        }
    }
    digits && others
}

/// The first position at or after `p` that does not hold a numeric character.
pub open spec fn scan_numeric(s: Seq<char>, p: int) -> int
    decreases s.len() - p,
{
    if 0 <= p < s.len() && is_numeric_char(s[p]) {
        scan_numeric(s, p + 1)
    } else {
        p
    }
}

/// Reading a number at `p`: skip whitespace, take the numeric characters that
/// follow, and parse them. Gives the number, if any, and the new position; the
/// characters are taken even when they do not parse.
pub open spec fn lex_number(s: Seq<char>, p: int) -> (Option<u32>, int) {
    let start = skip_ws(s, p);
    let end = scan_numeric(s, start);
    if end == start {
        (None, start)
    } else {
        (spec_parse_u32(s.subrange(start, end)), end)
    }
}

/// Reading the character `c` at `p`: skip whitespace, then take `c` if it is
/// next.
pub open spec fn lex_ch(s: Seq<char>, p: int, c: char) -> (Option<()>, int) {
    let q = skip_ws(s, p);
    if 0 <= q < s.len() && s[q] == c {
        (Some(()), q + 1)
    } else {
        (None, q)
    }
}

/// Reading an operator at `p`: a `+`, else a `-`.
pub open spec fn lex_op(s: Seq<char>, p: int) -> (Option<Op>, int) {
    let (plus, p1) = lex_ch(s, p, '+');
    if plus is Some {
        (Some(Op::Add), p1)
    } else {
        let (minus, p2) = lex_ch(s, p1, '-');
        if minus is Some {
            (Some(Op::Subtract), p2)
        } else {
            (None, p2)
        }
    }
}

/// Reading a cell reference `$row:col` at `p`. On failure the position is
/// where reading stopped.
pub open spec fn lex_cell_cords(s: Seq<char>, p: int) -> (Option<(u32, u32)>, int) {
    let (dollar, p1) = lex_ch(s, p, '$');
    if dollar is None {
        (None, p1)
    } else {
        let (row, p2) = lex_number(s, p1);
        if row is None {
            (None, p2)
        } else {
            let (colon, p3) = lex_ch(s, p2, ':');
            if colon is None {
                (None, p3)
            } else {
                let (col, p4) = lex_number(s, p3);
                if col is None {
                    (None, p4)
                } else {
                    (Some((row.unwrap(), col.unwrap())), p4)
                }
            }
        }
    }
}

/// Skipping whitespace never moves back and never passes the end.
pub proof fn lemma_skip_ws_bounds(s: Seq<char>, p: int)
    requires
        0 <= p <= s.len(),
    ensures
        p <= skip_ws(s, p) <= s.len(),
    decreases s.len() - p,
{
    if p < s.len() && is_whitespace_char(s[p]) {
        lemma_skip_ws_bounds(s, p + 1);
    }
}

/// Scanning numeric characters never moves back and never passes the end.
pub proof fn lemma_scan_numeric_bounds(s: Seq<char>, p: int)
    requires
        0 <= p <= s.len(),
    ensures
        p <= scan_numeric(s, p) <= s.len(),
    decreases s.len() - p,
{
    if p < s.len() && is_numeric_char(s[p]) {
        lemma_scan_numeric_bounds(s, p + 1);
    }
}

/// Each reading step stays within the text, and a step that reads something
/// moves forward.
pub proof fn lemma_lex_progress(s: Seq<char>, p: int)
    requires
        0 <= p <= s.len(),
    ensures
        forall|c: char|
            p <= #[trigger] lex_ch(s, p, c).1 <= s.len() && (lex_ch(s, p, c).0 is Some ==> p
                < lex_ch(s, p, c).1),
        p <= lex_number(s, p).1 <= s.len(),
        lex_number(s, p).0 is Some ==> p < lex_number(s, p).1,
        p <= lex_op(s, p).1 <= s.len(),
        lex_op(s, p).0 is Some ==> p < lex_op(s, p).1,
        p <= lex_cell_cords(s, p).1 <= s.len(),
        lex_cell_cords(s, p).0 is Some ==> p < lex_cell_cords(s, p).1,
{
    lemma_skip_ws_bounds(s, p);
    let q = skip_ws(s, p);
    lemma_scan_numeric_bounds(s, q);
    let p1 = lex_ch(s, p, '+').1;
    lemma_skip_ws_bounds(s, p1);
    let d1 = lex_ch(s, p, '$').1;
    lemma_skip_ws_bounds(s, d1);
    lemma_scan_numeric_bounds(s, skip_ws(s, d1));
    let d2 = lex_number(s, d1).1;
    lemma_skip_ws_bounds(s, d2);
    let d3 = lex_ch(s, d2, ':').1;
    lemma_skip_ws_bounds(s, d3);
    lemma_scan_numeric_bounds(s, skip_ws(s, d3));
}

/// A cursor over the characters of a cell's text.
pub struct Lexer<'a> {
    source_text: &'a str,
    position: usize,
    length: usize,
}

impl<'a> Lexer<'a> {
    #[verifier::type_invariant]
    spec fn inv(self) -> bool {
        &&& self.length == self.source_text@.len()
        &&& self.position <= self.length
    }

    /// The characters being read.
    pub closed spec fn text(self) -> Seq<char> {
        self.source_text@
    }

    /// The index of the next character to read.
    pub closed spec fn pos(self) -> int {
        self.position as int
    }

    pub fn new(source_text: &'a str) -> (l: Self)
        ensures
            l.text() == source_text@,
            l.pos() == 0,
    {
        let length = source_text.unicode_len();
        Lexer { source_text, position: 0, length }
    }

    /// Whether a character is left to read.
    pub fn can_consume(&self) -> (b: bool)
        ensures
            b == (self.pos() < self.text().len()),
    {
        self.peek().is_some()
    }

    /// Reads a cell reference `$row:col`.
    pub fn cell_cords(&mut self) -> (r: Option<(u32, u32)>)
        ensures
            final(self).text() == old(self).text(),
            (r, final(self).pos()) == lex_cell_cords(old(self).text(), old(self).pos()),
    {
        self.ch('$')?;
        let row = self.number()?;
        self.ch(':')?;
        let col = self.number()?;
        Some((row, col))
    }

    /// Reads an operator.
    pub fn op(&mut self) -> (r: Option<Op>)
        ensures
            final(self).text() == old(self).text(),
            (r, final(self).pos()) == lex_op(old(self).text(), old(self).pos()),
    {
        if self.ch('+').is_some() {
            Some(Op::Add)
        } else if self.ch('-').is_some() {
            Some(Op::Subtract)
        } else {
            None
        }
    }

    /// Reads a number.
    pub fn number(&mut self) -> (r: Option<u32>)
        ensures
            final(self).text() == old(self).text(),
            (r, final(self).pos()) == lex_number(old(self).text(), old(self).pos()),
    {
        self.skip_whitespace();
        let start = self.position;
        let ghost s = self.text();
        proof {
            use_type_invariant(&*self);
        }
        loop
            invariant
                self.text() == s,
                start <= self.pos() <= s.len(),
                start == skip_ws(s, old(self).pos()),
                scan_numeric(s, self.pos()) == scan_numeric(s, start as int),
            ensures
                self.text() == s,
                self.pos() == scan_numeric(s, start as int),
                start <= self.pos() <= s.len(),
            decreases s.len() - self.pos(),
        {
            match self.peek() {
                Some(ch) => {
                    if char_is_numeric(ch) {
                        self.consume(ch);
                    } else {
                        break ;
                    }
                },
                None => {
                    break ;
                },
            }
        }
        if self.position == start {
            None
        } else {
            let digits = self.source_text.substring_char(start, self.position);
            parse_u32(digits)
        }
    }

    /// Reads the character `c`.
    fn ch(&mut self, c: char) -> (r: Option<()>)
        ensures
            final(self).text() == old(self).text(),
            (r, final(self).pos()) == lex_ch(old(self).text(), old(self).pos(), c),
    {
        self.skip_whitespace();
        match self.peek() {
            Some(p) => {
                if c == p {
                    self.consume(c);
                    Some(())
                } else {
                    None
                }
            },
            None => None,
        }
    }

    fn skip_whitespace(&mut self)
        ensures
            final(self).text() == old(self).text(),
            final(self).pos() == skip_ws(old(self).text(), old(self).pos()),
            final(self).pos() == final(self).text().len() || !is_whitespace_char(
                final(self).text()[final(self).pos()],
            ),
    {
        let ghost s = self.text();
        let ghost start = self.pos();
        proof {
            use_type_invariant(&*self);
        }
        loop
            invariant
                self.text() == s,
                start <= self.pos() <= s.len(),
                start == old(self).pos(),
                skip_ws(s, self.pos()) == skip_ws(s, start),
            ensures
                self.text() == s,
                self.pos() == skip_ws(s, start),
                self.pos() == s.len() || !is_whitespace_char(s[self.pos()]),
            decreases s.len() - self.pos(),
        {
            match self.peek() {
                Some(ch) => {
                    if char_is_whitespace(ch) {
                        self.consume(ch);
                    } else {
                        break ;
                    }
                },
                None => {
                    break ;
                },
            }
        }
    }

    fn consume(&mut self, ch: char)
        requires
            old(self).pos() < old(self).text().len(),
            old(self).text()[old(self).pos()] == ch,
        ensures
            final(self).text() == old(self).text(),
            final(self).pos() == old(self).pos() + 1,
    {
        proof {
            use_type_invariant(&*self);
        }
        self.position = self.position + 1;
    }

    fn peek(&self) -> (r: Option<char>)
        ensures
            r == (if self.pos() < self.text().len() {
                Some(self.text()[self.pos()])
            } else {
                None::<char>
            }),
    {
        proof {
            use_type_invariant(self);
        }
        if self.position < self.length {
            Some(self.source_text.get_char(self.position))
        } else {
            None
        }
    }
}

} // verus!
