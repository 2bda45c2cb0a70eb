//! Reading a spreadsheet from the text of a file: one row per line, cells
//! separated by `|`.

use crate::input::raw::RawSpreadsheet;
use vstd::prelude::*;

verus! {

/// The pieces of `s` between occurrences of `sep`, in order. There is always
/// at least one piece; `n` separators give `n + 1` pieces, empty ones
/// included.
pub open spec fn split_on(s: Seq<char>, sep: char) -> Seq<Seq<char>>
    decreases s.len(),
{
    if s.len() == 0 {
        seq![Seq::empty()]
    } else {
        let rest = split_on(s.drop_last(), sep);
        if s.last() == sep {
            rest.push(Seq::empty())
        } else {
            rest.update(rest.len() - 1, rest.last().push(s.last()))
        }
    }
}

/// The pieces joined back together, with `sep` between each two.
pub open spec fn join_with(pieces: Seq<Seq<char>>, sep: char) -> Seq<char>
    decreases pieces.len(),
{
    if pieces.len() == 0 {
        Seq::empty()
    } else if pieces.len() == 1 {
        pieces[0]
    } else {
        join_with(pieces.drop_last(), sep).push(sep) + pieces.last()
    }
}

/// The cells of a spreadsheet written as text: the lines of the text, each
/// split at `|`.
pub open spec fn spec_cells_of_text(s: Seq<char>) -> Seq<Seq<Seq<char>>> {
    split_on(s, '\n').map_values(|row: Seq<char>| split_on(row, '|'))
}

/// The views of a sequence of strings.
pub open spec fn strings_view(v: Seq<String>) -> Seq<Seq<char>> {
    v.map_values(|s: String| s@)
}

proof fn lemma_split_nonempty(s: Seq<char>, sep: char)
    ensures
        split_on(s, sep).len() >= 1,
    decreases s.len(),
{
    if s.len() > 0 {
        lemma_split_nonempty(s.drop_last(), sep);
    }
}

fn split_text(s: &str, sep: char) -> (pieces: Vec<String>)
    ensures
        strings_view(pieces@) == split_on(s@, sep),
{
    let n = s.unicode_len();
    let mut pieces: Vec<String> = Vec::new();
    let mut start: usize = 0;
    let mut i: usize = 0;
    assert(strings_view(pieces@) =~= Seq::<Seq<char>>::empty());
    assert(s@.subrange(0, 0) =~= Seq::<char>::empty());
    assert(s@.subrange(0, 0) =~= s@.subrange(0, 0));
    assert(split_on(s@.subrange(0, 0), sep) =~= strings_view(pieces@).push(s@.subrange(0, 0)));
    while i < n
        invariant
            n == s@.len(),
            start <= i <= n,
            split_on(s@.subrange(0, i as int), sep) == strings_view(pieces@).push(
                s@.subrange(start as int, i as int),
            ),
        decreases n - i,
    {
        let c = s.get_char(i);
        let ghost prefix = s@.subrange(0, i as int);
        assert(s@.subrange(0, i + 1).drop_last() =~= prefix);
        let ghost old_view = strings_view(pieces@);
        if c == sep {
            let piece = s.substring_char(start, i);
            pieces.push(String::from_str(piece));
            assert(strings_view(pieces@) =~= old_view.push(s@.subrange(start as int, i as int)));
            start = i + 1;
            assert(s@.subrange(start as int, i + 1) =~= Seq::<char>::empty());
            assert(strings_view(pieces@).push(s@.subrange(start as int, i + 1)) =~= split_on(
                prefix,
                sep,
            ).push(Seq::empty()));
        } else {
            assert(s@.subrange(start as int, i + 1) =~= s@.subrange(start as int, i as int).push(
                c,
            ));
            assert(strings_view(pieces@).push(s@.subrange(start as int, i + 1)) =~= split_on(
                prefix,
                sep,
            ).update(split_on(prefix, sep).len() - 1, split_on(prefix, sep).last().push(c)));
        }
        i = i + 1;
    }
    let piece = s.substring_char(start, n);
    pieces.push(String::from_str(piece));
    assert(s@.subrange(0, n as int) =~= s@);
    assert(strings_view(pieces@) =~= split_on(s@, sep));
    pieces
}

/// The spreadsheet written in a file, given the file's text; `None` when the
/// text could not be had.
pub fn spreadsheet_from_file(content: Option<&str>) -> (r: Option<RawSpreadsheet>)
    ensures
        r is Some <==> content is Some,
        r matches Some(sheet) ==> sheet@ == spec_cells_of_text(content.unwrap()@),
{
    let content = match content {
        Some(c) => c,
        None => {
            return None;
        },
    };
    let lines = split_text(content, '\n');
    let ghost rows = split_on(content@, '\n');
    let mut cells: Vec<Vec<String>> = Vec::new();
    let mut i: usize = 0;
    while i < lines.len()
        invariant
            strings_view(lines@) == rows,
            rows == split_on(content@, '\n'),
            i <= lines@.len(),
            cells@.len() == i,
            forall|k: int| 0 <= k < i ==> strings_view((#[trigger] cells@[k])@) == split_on(rows[k], '|'),
        decreases lines@.len() - i,
    {
        let row = split_text(lines[i].as_str(), '|');
        cells.push(row);
        i = i + 1;
    }
    let sheet = RawSpreadsheet { cells };
    assert forall|k: int| 0 <= k < rows.len() implies #[trigger] sheet@[k] =~= spec_cells_of_text(
        content@,
    )[k] by {
        assert(strings_view(cells@[k]@) == split_on(rows[k], '|'));
    }
    assert(sheet@ =~= spec_cells_of_text(content@));
    Some(sheet)
}

/// Joining the pieces of a split with the separator gives back the text.
pub proof fn law_join_split(s: Seq<char>, sep: char)
    ensures
        join_with(split_on(s, sep), sep) == s,
    decreases s.len(),
{
    if s.len() > 0 {
        let init = s.drop_last();
        let rest = split_on(init, sep);
        law_join_split(init, sep);
        lemma_split_nonempty(init, sep);
        if s.last() == sep {
            assert(rest.push(Seq::empty()).drop_last() =~= rest);
            assert(s =~= init.push(sep) + Seq::<char>::empty());
        } else {
            let k = rest.len() - 1;
            let upd = rest.update(k, rest.last().push(s.last()));
            if rest.len() == 1 {
                assert(s =~= init.push(s.last()));
            } else {
                assert(upd.drop_last() =~= rest.drop_last());
                assert(join_with(rest, sep) == join_with(rest.drop_last(), sep).push(sep)
                    + rest.last());
                let a = join_with(rest.drop_last(), sep).push(sep);
                assert(init == a + rest.last());
                assert(s =~= init.push(s.last()));
                assert((a + rest.last()).push(s.last()) =~= a + rest.last().push(s.last()));
            }
        }
    }
}

/// No piece of a split holds the separator.
pub proof fn law_split_pieces_lack_separator(s: Seq<char>, sep: char)
    ensures
        forall|i: int, j: int|
            0 <= i < split_on(s, sep).len() && 0 <= j < split_on(s, sep)[i].len() ==> #[trigger] split_on(
                s,
                sep,
            )[i][j] != sep,
    decreases s.len(),
{
    if s.len() > 0 {
        law_split_pieces_lack_separator(s.drop_last(), sep);
        lemma_split_nonempty(s.drop_last(), sep);
        let rest = split_on(s.drop_last(), sep);
        if s.last() != sep {
            let last = rest.last().push(s.last());
            assert forall|j: int| 0 <= j < last.len() implies last[j] != sep by {
                if j < rest.last().len() {
                    assert(last[j] == rest[rest.len() - 1][j]);
                }
            }
        }
    }
}

/// No piece of a split holds a character that the text lacks.
proof fn lemma_split_pieces_avoid(s: Seq<char>, sep: char, x: char)
    requires
        forall|k: int| 0 <= k < s.len() ==> s[k] != x,
    ensures
        forall|i: int, j: int|
            0 <= i < split_on(s, sep).len() && 0 <= j < split_on(s, sep)[i].len() ==> #[trigger] split_on(
                s,
                sep,
            )[i][j] != x,
    decreases s.len(),
{
    if s.len() > 0 {
        lemma_split_pieces_avoid(s.drop_last(), sep, x);
        lemma_split_nonempty(s.drop_last(), sep);
        let rest = split_on(s.drop_last(), sep);
        if s.last() != sep {
            let last = rest.last().push(s.last());
            assert forall|j: int| 0 <= j < last.len() implies last[j] != x by {
                if j < rest.last().len() {
                    assert(last[j] == rest[rest.len() - 1][j]);
                }
            }
        }
    }
}

/// No cell of a spreadsheet read from a text holds a `|` or a line break.
pub proof fn law_cells_hold_no_separator(s: Seq<char>)
    ensures
        forall|i: int, j: int, k: int|
            0 <= i < spec_cells_of_text(s).len() && 0 <= j < spec_cells_of_text(s)[i].len() && 0
                <= k < spec_cells_of_text(s)[i][j].len() ==> #[trigger] spec_cells_of_text(
                s,
            )[i][j][k] != '|' && spec_cells_of_text(s)[i][j][k] != '\n',
{
    let rows = split_on(s, '\n');
    law_split_pieces_lack_separator(s, '\n');
    assert forall|i: int, j: int, k: int|
        0 <= i < spec_cells_of_text(s).len() && 0 <= j < spec_cells_of_text(s)[i].len() && 0 <= k
            < spec_cells_of_text(s)[i][j].len() implies #[trigger] spec_cells_of_text(
        s,
    )[i][j][k] != '|' && spec_cells_of_text(s)[i][j][k] != '\n' by {
        let line = rows[i];
        assert forall|m: int| 0 <= m < line.len() implies line[m] != '\n' by {
            assert(rows[i][m] != '\n');
        }
        law_split_pieces_lack_separator(line, '|');
        lemma_split_pieces_avoid(line, '|', '\n');
        assert(spec_cells_of_text(s)[i] == split_on(line, '|'));
        assert(split_on(line, '|')[j][k] != '|');
        assert(split_on(line, '|')[j][k] != '\n');
    }
}

proof fn lemma_split_without_separator(s: Seq<char>, sep: char)
    requires
        forall|k: int| 0 <= k < s.len() ==> s[k] != sep,
    ensures
        split_on(s, sep) == seq![s],
    decreases s.len(),
{
    if s.len() > 0 {
        lemma_split_without_separator(s.drop_last(), sep);
        assert(s.drop_last().push(s.last()) =~= s);
        assert(seq![s.drop_last()].update(0, s.drop_last().push(s.last())) =~= seq![s]);
    } else {
        assert(s =~= Seq::<char>::empty());
    }
}

proof fn lemma_split_after_separator(a: Seq<char>, b: Seq<char>, sep: char)
    requires
        forall|k: int| 0 <= k < b.len() ==> b[k] != sep,
    ensures
        split_on(a.push(sep) + b, sep) == split_on(a, sep).push(b),
    decreases b.len(),
{
    if b.len() == 0 {
        assert(a.push(sep) + b =~= a.push(sep));
        assert(a.push(sep).drop_last() =~= a);
        assert(b =~= Seq::<char>::empty());
    } else {
        let b0 = b.drop_last();
        lemma_split_after_separator(a, b0, sep);
        let t = a.push(sep) + b;
        assert(t.drop_last() =~= a.push(sep) + b0);
        assert(t.last() == b.last());
        let rest = split_on(a, sep).push(b0);
        assert(rest.update(rest.len() - 1, rest.last().push(b.last())) =~= split_on(a, sep).push(
            b,
        )) by {
            assert(b0.push(b.last()) =~= b);
        }
    }
}

/// Splitting is the only way to cut a text into pieces free of the separator
/// that join back into it: any such pieces are the split.
pub proof fn law_split_is_unique(pieces: Seq<Seq<char>>, sep: char)
    requires
        pieces.len() >= 1,
        forall|i: int, j: int|
            0 <= i < pieces.len() && 0 <= j < pieces[i].len() ==> #[trigger] pieces[i][j] != sep,
    ensures
        split_on(join_with(pieces, sep), sep) == pieces,
    decreases pieces.len(),
{
    if pieces.len() == 1 {
        assert forall|k: int| 0 <= k < pieces[0].len() implies pieces[0][k] != sep by {
            assert(pieces[0][k] != sep);
        }
        lemma_split_without_separator(pieces[0], sep);
        assert(seq![pieces[0]] =~= pieces);
    } else {
        let init = pieces.drop_last();
        assert forall|i: int, j: int| 0 <= i < init.len() && 0 <= j < init[i].len() implies #[trigger] init[i][j] != sep by {
            assert(init[i][j] == pieces[i][j]);
        }
        law_split_is_unique(init, sep);
        let last = pieces.last();
        assert forall|k: int| 0 <= k < last.len() implies last[k] != sep by {
            assert(pieces[pieces.len() - 1][k] != sep);
        }
        lemma_split_after_separator(join_with(init, sep), last, sep);
        assert(init.push(last) =~= pieces);
    }
}

/// Writing the cells of a spreadsheet read from a text back out, `|` between
/// the cells of a row and a line break between rows, gives back the text.
pub proof fn law_cells_of_text_round_trip(s: Seq<char>)
    ensures
        join_with(
            spec_cells_of_text(s).map_values(|row: Seq<Seq<char>>| join_with(row, '|')),
            '\n',
        ) == s,
{
    let rows = split_on(s, '\n');
    let joined = spec_cells_of_text(s).map_values(|row: Seq<Seq<char>>| join_with(row, '|'));
    assert forall|i: int| 0 <= i < rows.len() implies #[trigger] joined[i] == rows[i] by {
        law_join_split(rows[i], '|');
    }
    assert(joined =~= rows);
    law_join_split(s, '\n');
}

proof fn lemma_join_avoids(pieces: Seq<Seq<char>>, sep: char, x: char)
    requires
        sep != x,
        forall|i: int, j: int|
            0 <= i < pieces.len() && 0 <= j < pieces[i].len() ==> #[trigger] pieces[i][j] != x,
    ensures
        forall|k: int| 0 <= k < join_with(pieces, sep).len() ==> #[trigger] join_with(pieces, sep)[k] != x,
    decreases pieces.len(),
{
    if pieces.len() > 1 {
        let init = pieces.drop_last();
        assert forall|i: int, j: int| 0 <= i < init.len() && 0 <= j < init[i].len() implies #[trigger] init[i][j] != x by {
            assert(init[i][j] == pieces[i][j]);
        }
        lemma_join_avoids(init, sep, x);
        let a = join_with(init, sep).push(sep);
        let last = pieces.last();
        assert forall|k: int| 0 <= k < (a + last).len() implies (a + last)[k] != x by {
            if k < a.len() {
                if k < a.len() - 1 {
                    assert(a[k] == join_with(init, sep)[k]);
                }
            } else {
                assert((a + last)[k] == pieces[pieces.len() - 1][k - a.len()]);
            }
        }
    } else if pieces.len() == 1 {
        assert forall|k: int| 0 <= k < join_with(pieces, sep).len() implies #[trigger] join_with(pieces, sep)[k] != x by {
            assert(pieces[0][k] != x);
        }
    }
}

/// Reading a spreadsheet from a text is the only way to get a grid of at
/// least one row, each of at least one cell, with no `|` or line break in a
/// cell, that writes back out to that text: any such grid, written out and
/// read back, is itself.
pub proof fn law_cells_of_text_unique(grid: Seq<Seq<Seq<char>>>)
    requires
        grid.len() >= 1,
        forall|i: int| 0 <= i < grid.len() ==> (#[trigger] grid[i]).len() >= 1,
        forall|i: int, j: int, k: int|
            0 <= i < grid.len() && 0 <= j < grid[i].len() && 0 <= k < grid[i][j].len()
                ==> #[trigger] grid[i][j][k] != '|' && grid[i][j][k] != '\n',
    ensures
        spec_cells_of_text(
            join_with(grid.map_values(|row: Seq<Seq<char>>| join_with(row, '|')), '\n'),
        ) == grid,
{
    let lines = grid.map_values(|row: Seq<Seq<char>>| join_with(row, '|'));
    assert forall|i: int, m: int| 0 <= i < lines.len() && 0 <= m < lines[i].len() implies #[trigger] lines[i][m] != '\n' by {
        let row = grid[i];
        assert forall|j: int, k: int| 0 <= j < row.len() && 0 <= k < row[j].len() implies #[trigger] row[j][k] != '\n' by {
            assert(grid[i][j][k] != '\n');
        }
        lemma_join_avoids(row, '|', '\n');
    }
    law_split_is_unique(lines, '\n');
    let text = join_with(lines, '\n');
    assert forall|i: int| 0 <= i < grid.len() implies #[trigger] spec_cells_of_text(text)[i] == grid[i] by {
        let row = grid[i];
        assert forall|j: int, k: int| 0 <= j < row.len() && 0 <= k < row[j].len() implies #[trigger] row[j][k] != '|' by {
            assert(grid[i][j][k] != '|');
        }
        law_split_is_unique(row, '|');
    }
    assert(spec_cells_of_text(text) =~= grid);
}

} // verus!
