//! Table layout: box-drawing borders and cells padded to the widest cell of each column.

use vstd::prelude::*;
use crate::markdown::ColumnAlign;
use crate::text::{push_char, push_repeat, push_str, spec_repeat};
use crate::width::{spec_str_width, str_width};

verus! {

/// `depth` copies of the quote marker `│ `.
pub open spec fn spec_quote_prefix(depth: nat) -> Seq<char>
    decreases depth,
{
    if depth == 0 {
        Seq::empty()
    } else {
        spec_quote_prefix((depth - 1) as nat) + seq!['│', ' ']
    }
}

/// The quote marker `│ ` repeated `depth` times.
pub fn quote_prefix(depth: usize) -> (s: String)
    ensures
        s@ == spec_quote_prefix(depth as nat),
{
    let mut s = String::new();
    let mut i: usize = 0;
    while i < depth
        invariant
            i <= depth,
            s@ == spec_quote_prefix(i as nat),
        decreases depth - i,
    {
        push_char(&mut s, '│');
        push_char(&mut s, ' ');
        i += 1;
    }
    s
}

/// The views of table rows: each row a sequence of cell texts.
pub open spec fn cells_v(rows: Seq<Vec<String>>) -> Seq<Seq<Seq<char>>> {
    rows.map_values(|r: Vec<String>| r@.map_values(|c: String| c@))
}

/// The greatest row length.
pub open spec fn max_row_len(rows: Seq<Seq<Seq<char>>>) -> nat
    decreases rows.len(),
{
    if rows.len() == 0 {
        0
    } else {
        let m = max_row_len(rows.drop_last());
        if rows.last().len() > m { rows.last().len() } else { m }
    }
}

/// Number of columns: the aligned columns or the longest row, whichever is more.
pub open spec fn table_ncols(n_aligns: nat, rows: Seq<Seq<Seq<char>>>) -> nat {
    if n_aligns >= max_row_len(rows) { n_aligns } else { max_row_len(rows) }
}

/// Text of cell `i` of a row; a missing cell is empty.
pub open spec fn cell_at(row: Seq<Seq<char>>, i: int) -> Seq<char> {
    if 0 <= i < row.len() { row[i] } else { Seq::empty() }
}

/// Width of column `i`: the widest cell in it (0 for an empty column).
pub open spec fn col_width(rows: Seq<Seq<Seq<char>>>, i: int) -> nat
    decreases rows.len(),
{
    if rows.len() == 0 {
        0
    } else {
        let m = col_width(rows.drop_last(), i);
        let w = if 0 <= i < rows.last().len() { spec_str_width(rows.last()[i]) } else { 0 };
        if w > m { w } else { m }
    }
}

/// Column widths of a table with `n` columns.
pub open spec fn col_widths(rows: Seq<Seq<Seq<char>>>, n: nat) -> Seq<nat> {
    Seq::new(n, |i: int| col_width(rows, i))
}

/// The first `k` column segments of a border: each `─` repeated the column width
/// plus two, then `m` between columns or `r` after the last.
pub open spec fn border_cols(widths: Seq<nat>, k: int, m: char, r: char) -> Seq<char>
    decreases k,
{
    if k <= 0 {
        Seq::empty()
    } else {
        border_cols(widths, k - 1, m, r) + spec_repeat('─', widths[k - 1] + 2)
            + seq![if k < widths.len() { m } else { r }]
    }
}

/// A border line: quote prefix, left corner, column segments.
pub open spec fn border_line(q: Seq<char>, widths: Seq<nat>, l: char, m: char, r: char) -> Seq<char> {
    q + seq![l] + border_cols(widths, widths.len() as int, m, r)
}

/// Spaces that pad a cell to its column width.
pub open spec fn cell_pad(cell: Seq<char>, w: nat) -> nat {
    if spec_str_width(cell) <= w { (w - spec_str_width(cell)) as nat } else { 0 }
}

/// The alignment of column `i`; a column beyond the alignments is `Default`.
pub open spec fn align_at(aligns: Seq<ColumnAlign>, i: int) -> ColumnAlign {
    if 0 <= i < aligns.len() { aligns[i] } else { ColumnAlign::Default }
}

/// How a column's alignment splits a cell's padding into spaces before and after
/// it: all before for `Right`, half (rounded down) before for `Center`, else all after.
pub open spec fn split_pad(a: ColumnAlign, pad: nat) -> (nat, nat) {
    match a {
        ColumnAlign::Right => (pad, 0),
        ColumnAlign::Center => (pad / 2, (pad - pad / 2) as nat),
        _ => (0, pad),
    }
}

/// One cell in a column of width `w` with alignment `a`: a space, the padding
/// before the cell, the cell, the padding after it, a space, `│`.
pub open spec fn cell_segment(cell: Seq<char>, w: nat, a: ColumnAlign) -> Seq<char> {
    let (lp, rp) = split_pad(a, cell_pad(cell, w));
    seq![' '] + spec_repeat(' ', lp) + cell + spec_repeat(' ', rp) + seq![' ', '│']
}

/// The first `k` cells of a row line.
pub open spec fn row_cols(row: Seq<Seq<char>>, widths: Seq<nat>, aligns: Seq<ColumnAlign>, k: int) -> Seq<char>
    decreases k,
{
    if k <= 0 {
        Seq::empty()
    } else {
        row_cols(row, widths, aligns, k - 1) + cell_segment(cell_at(row, k - 1), widths[k - 1], align_at(aligns, k - 1))
    }
}

/// A row line: quote prefix, `│`, the cells.
pub open spec fn row_line(q: Seq<char>, row: Seq<Seq<char>>, widths: Seq<nat>, aligns: Seq<ColumnAlign>) -> Seq<char> {
    q + seq!['│'] + row_cols(row, widths, aligns, widths.len() as int)
}

/// The lines of a table: nothing when it has no column; else a top border, the
/// first row and a separator when there is a row, every later row, and a bottom
/// border; each cell is placed in its column as the column's alignment says.
pub open spec fn spec_table_lines(aligns: Seq<ColumnAlign>, rows: Seq<Seq<Seq<char>>>, quote_depth: nat) -> Seq<Seq<char>> {
    let n = table_ncols(aligns.len(), rows);
    let widths = col_widths(rows, n);
    let q = spec_quote_prefix(quote_depth);
    if n == 0 {
        Seq::empty()
    } else {
        seq![border_line(q, widths, '┌', '┬', '┐')]
            + (if rows.len() > 0 {
                seq![row_line(q, rows[0], widths, aligns), border_line(q, widths, '├', '┼', '┤')]
            } else {
                Seq::empty()
            })
            + Seq::new((if rows.len() > 0 { rows.len() - 1 } else { 0 }) as nat, |j: int| row_line(q, rows[j + 1], widths, aligns))
            + seq![border_line(q, widths, '└', '┴', '┘')]
    }
}

fn border(q: &String, widths: &Vec<usize>, l: char, m: char, r: char) -> (s: String)
    ensures
        s@ == border_line(q@, widths@.map_values(|w: usize| w as nat), l, m, r),
{
    let ghost ws = widths@.map_values(|w: usize| w as nat);
    let mut s = copy_str(q);
    push_char(&mut s, l);
    let mut i: usize = 0;
    while i < widths.len()
        invariant
            i <= widths.len(),
            ws == widths@.map_values(|w: usize| w as nat),
            s@ == q@ + seq![l] + border_cols(ws, i as int, m, r),
        decreases widths.len() - i,
    {
        let w = widths[i];
        let ghost before = s@;
        push_repeat(&mut s, '─', w);
        push_char(&mut s, '─');
        push_char(&mut s, '─');
        assert(spec_repeat('─', w as nat) + seq!['─'] + seq!['─'] =~= spec_repeat('─', ws[i as int] + 2));
        if i + 1 < widths.len() {
            push_char(&mut s, m);
        } else {
            push_char(&mut s, r);
        }
        i += 1;
        assert(s@ =~= q@ + seq![l] + border_cols(ws, i as int, m, r));
    }
    s
}

proof fn lemma_views_push(s: Seq<String>, x: String)
    ensures
        s.push(x).map_values(|l: String| l@) == s.map_values(|l: String| l@).push(x@),
{
    assert(s.push(x).map_values(|l: String| l@) =~= s.map_values(|l: String| l@).push(x@));
}

fn push_line(lines: &mut Vec<String>, line: String)
    ensures
        final(lines)@.map_values(|l: String| l@) == old(lines)@.map_values(|l: String| l@).push(line@),
{
    proof { lemma_views_push(lines@, line); }
    lines.push(line);
}

fn copy_str(q: &String) -> (s: String)
    ensures
        s@ == q@,
{
    q.clone()
}

fn push_cell(s: &mut String, cell: &str, w: usize, a: ColumnAlign)
    ensures
        final(s)@ == old(s)@ + cell_segment(cell@, w as nat, a),
{
    let cw = str_width(cell);
    let pad: usize = if cw <= w { w - cw } else { 0 };
    let (lp, rp): (usize, usize) = match a {
        ColumnAlign::Right => (pad, 0),
        ColumnAlign::Center => (pad / 2, pad - pad / 2),
        _ => (0, pad),
    };
    assert(split_pad(a, cell_pad(cell@, w as nat)) == (lp as nat, rp as nat));
    push_char(s, ' ');
    push_repeat(s, ' ', lp);
    push_str(s, cell);
    push_repeat(s, ' ', rp);
    push_char(s, ' ');
    push_char(s, '│');
    assert(s@ =~= old(s)@ + cell_segment(cell@, w as nat, a));
}

fn row_string(q: &String, row: &Vec<String>, widths: &Vec<usize>, aligns: &Vec<ColumnAlign>) -> (s: String)
    ensures
        s@ == row_line(q@, row@.map_values(|c: String| c@), widths@.map_values(|w: usize| w as nat), aligns@),
{
    let ghost ws = widths@.map_values(|w: usize| w as nat);
    let ghost rv = row@.map_values(|c: String| c@);
    let mut s = copy_str(q);
    push_char(&mut s, '│');
    let mut i: usize = 0;
    while i < widths.len()
        invariant
            i <= widths.len(),
            ws == widths@.map_values(|w: usize| w as nat),
            rv == row@.map_values(|c: String| c@),
            s@ == q@ + seq!['│'] + row_cols(rv, ws, aligns@, i as int),
        decreases widths.len() - i,
    {
        let empty = String::new();
        let cell: &String = if i < row.len() { &row[i] } else { &empty };
        assert(cell@ == cell_at(rv, i as int));
        let a = if i < aligns.len() { aligns[i] } else { ColumnAlign::Default };
        push_cell(&mut s, cell.as_str(), widths[i], a);
        i += 1;
        assert(s@ =~= q@ + seq!['│'] + row_cols(rv, ws, aligns@, i as int));
    }
    s
}

/// The lines of a table with these column alignments and rows (the first row
/// is the head), inside `quote_depth` block quotes; see `spec_table_lines`.
pub fn table_lines(aligns: &Vec<ColumnAlign>, rows: &Vec<Vec<String>>, quote_depth: usize) -> (lines: Vec<String>)
    ensures
        lines@.map_values(|l: String| l@) == spec_table_lines(aligns@, cells_v(rows@), quote_depth as nat),
{
    let ghost rv = cells_v(rows@);
    // number of columns
    let mut ncols: usize = aligns.len();
    let mut mr: usize = 0;
    let mut r: usize = 0;
    while r < rows.len()
        invariant
            r <= rows.len(),
            rv == cells_v(rows@),
            mr == max_row_len(rv.take(r as int)),
        decreases rows.len() - r,
    {
        assert(rv.take(r + 1).drop_last() == rv.take(r as int));
        if rows[r].len() > mr {
            mr = rows[r].len();
        }
        r += 1;
    }
    assert(rv.take(r as int) == rv);
    if mr > ncols {
        ncols = mr;
    }
    let mut lines: Vec<String> = Vec::new();
    if ncols == 0 {
        assert(lines@.map_values(|l: String| l@) =~= Seq::<Seq<char>>::empty());
        return lines;
    }
    // column widths
    let mut widths: Vec<usize> = Vec::new();
    while widths.len() < ncols
        invariant
            widths.len() <= ncols,
            forall|i: int| 0 <= i < widths.len() ==> widths@[i] == 0,
        decreases ncols - widths.len(),
    {
        widths.push(0);
    }
    let mut r: usize = 0;
    while r < rows.len()
        invariant
            r <= rows.len(),
            rv == cells_v(rows@),
            widths.len() == ncols,
            forall|i: int| 0 <= i < ncols ==> widths@[i] == col_width(rv.take(r as int), i),
        decreases rows.len() - r,
    {
        let row = &rows[r];
        assert(rv.take(r + 1).drop_last() == rv.take(r as int));
        assert(rv.take(r + 1).last() == rv[r as int]);
        assert(rv[r as int] == row@.map_values(|c: String| c@));
        let mut i: usize = 0;
        while i < row.len()
            invariant
                i <= row.len(),
                r < rows.len(),
                row == &rows[r as int],
                rv == cells_v(rows@),
                rv[r as int] == row@.map_values(|c: String| c@),
                widths.len() == ncols,
                forall|k: int| 0 <= k < ncols ==> widths@[k] == (if k < i { col_width(rv.take(r + 1), k) } else { col_width(rv.take(r as int), k) }),
                rv.take(r + 1).drop_last() == rv.take(r as int),
                rv.take(r + 1).last() == rv[r as int],
            decreases row.len() - i,
        {
            assert(rv[r as int][i as int] == row@[i as int]@);
            if i < ncols {
                let w = str_width(row[i].as_str());
                proof {
                    let t = rv.take(r + 1);
                    assert(t.last() == rv[r as int]);
                    assert(t.last().len() == row.len());
                    assert(t.last()[i as int] == row@[i as int]@);
                    assert(t.len() == r + 1);
                    assert(t.drop_last() == rv.take(r as int));
                    assert(w == spec_str_width(t.last()[i as int]));
                    assert(col_width(t, i as int) == (if w > col_width(rv.take(r as int), i as int) { w as nat } else { col_width(rv.take(r as int), i as int) }));
                }
                if w > widths[i] {
                    widths.set(i, w);
                }
            }
            i += 1;
        }
        proof {
            assert forall|k: int| 0 <= k < ncols implies widths@[k] == col_width(rv.take(r + 1), k) by {
                if k >= i {
                    assert(!(0 <= k < rv.take(r + 1).last().len()));
                }
            }
        }
        r += 1;
    }
    assert(rv.take(r as int) == rv);
    let ghost ws = widths@.map_values(|w: usize| w as nat);
    assert(ws =~= col_widths(rv, ncols as nat));
    let q = quote_prefix(quote_depth);
    push_line(&mut lines, border(&q, &widths, '┌', '┬', '┐'));
    if rows.len() > 0 {
        push_line(&mut lines, row_string(&q, &rows[0], &widths, aligns));
        push_line(&mut lines, border(&q, &widths, '├', '┼', '┤'));
    }
    let ghost head = lines@.map_values(|l: String| l@);
    let mut k: usize = 1;
    while k < rows.len()
        invariant
            1 <= k,
            k <= rows.len() || rows.len() == 0,
            rows.len() == 0 ==> k == 1,
            rv == cells_v(rows@),
            ws == widths@.map_values(|w: usize| w as nat),
            lines@.map_values(|l: String| l@) == head + Seq::new((k - 1) as nat, |j: int| row_line(q@, rv[j + 1], ws, aligns@)),
        decreases rows.len() - k,
    {
        let line = row_string(&q, &rows[k], &widths, aligns);
        push_line(&mut lines, line);
        k += 1;
        assert(lines@.map_values(|l: String| l@) =~= head + Seq::new((k - 1) as nat, |j: int| row_line(q@, rv[j + 1], ws, aligns@)));
    }
    let ghost body = Seq::new((if rows.len() > 0 { rows.len() - 1 } else { 0 }) as nat, |j: int| row_line(q@, rv[j + 1], ws, aligns@));
    if rows.len() > 0 {
        assert(k == rows.len());
    }
    assert(Seq::new((k - 1) as nat, |j: int| row_line(q@, rv[j + 1], ws, aligns@)) =~= body);
    let ghost before = lines@.map_values(|l: String| l@);
    assert(before == head + body);
    push_line(&mut lines, border(&q, &widths, '└', '┴', '┘'));
    assert(Seq::new((k - 1) as nat, |j: int| row_line(q@, rv[j + 1], ws, aligns@)) =~= body);
    assert(head == seq![border_line(q@, ws, '┌', '┬', '┐')]
            + (if rows.len() > 0 {
                seq![row_line(q@, rv[0], ws, aligns@), border_line(q@, ws, '├', '┼', '┤')]
            } else {
                Seq::empty()
            }));
    assert(ncols == table_ncols(aligns@.len(), rv));
    assert(q@ == spec_quote_prefix(quote_depth as nat));
    assert(lines@.map_values(|l: String| l@) =~= head + body + seq![border_line(q@, ws, '└', '┴', '┘')]);
    assert(lines@.map_values(|l: String| l@) =~= spec_table_lines(aligns@, rv, quote_depth as nat));
    lines
}

proof fn lemma_col_width_ge(rows: Seq<Seq<Seq<char>>>, r: int, i: int)
    requires
        0 <= r < rows.len(),
    ensures
        spec_str_width(cell_at(rows[r], i)) <= col_width(rows, i),
    decreases rows.len(),
{
    if r < rows.len() - 1 {
        lemma_col_width_ge(rows.drop_last(), r, i);
        assert(rows.drop_last()[r] == rows[r]);
    } else if !(0 <= i < rows[r].len()) {
        assert(cell_at(rows[r], i) == Seq::<char>::empty());
        assert(spec_str_width(Seq::<char>::empty()) == 0) by {
            assert(crate::width::all_printable_ascii(Seq::<char>::empty()));
        }
    }
}

/// Columns line up: in every row, whatever the column's alignment, every cell
/// together with the padding before and after it spans exactly its column's
/// width, which is that of the widest cell in the column.
pub proof fn lemma_cells_fill_columns(rows: Seq<Seq<Seq<char>>>, aligns: Seq<ColumnAlign>, r: int, i: int)
    requires
        0 <= r < rows.len(),
    ensures
        ({
            let cell = cell_at(rows[r], i);
            let (lp, rp) = split_pad(align_at(aligns, i), cell_pad(cell, col_width(rows, i)));
            lp + spec_str_width(cell) + rp == col_width(rows, i)
        }),
{
    lemma_col_width_ge(rows, r, i);
}

} // verus!
