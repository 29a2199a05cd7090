//! The width model and the renderer: the width of each column over all rows,
//! and the rows written out with every column padded to its width.

use crate::classify::{classify, column_kind, column_kind_upto, ColumnKind};
use crate::segment::tables;
use crate::text::{
    append, append_blanks, blanks, is_space, join, join_lines, lines, pad_end, pad_start, space,
};
use vstd::prelude::*;

verus! {

/// Whether there is a row and every row has as many values as the first.
pub open spec fn uniform(rows: Seq<Seq<Seq<char>>>) -> bool {
    rows.len() > 0 && forall|r: int| 0 <= r < rows.len() ==> (#[trigger] rows[r]).len()
        == rows[0].len()
}

/// The length of the longest value of column `c` in the first `n` rows.
pub open spec fn width_upto(rows: Seq<Seq<Seq<char>>>, c: int, n: nat) -> nat
    decreases n,
{
    if n == 0 {
        0
    } else {
        let before = width_upto(rows, c, (n - 1) as nat);
        let here = rows[n - 1][c].len();
        if here > before {
            here
        } else {
            before
        }
    }
}

/// The width of column `c`: the length of its longest value.
pub open spec fn column_width(rows: Seq<Seq<Seq<char>>>, c: int) -> nat {
    width_upto(rows, c, rows.len())
}

/// The widths of all columns of a uniform table.
pub open spec fn widths_of(rows: Seq<Seq<Seq<char>>>) -> Seq<nat> {
    Seq::new(rows[0].len(), |c: int| column_width(rows, c))
}

/// The kinds of all columns of a uniform table.
pub open spec fn kinds_of(rows: Seq<Seq<Seq<char>>>) -> Seq<ColumnKind> {
    Seq::new(rows[0].len(), |c: int| column_kind(rows, c))
}

/// No value of the first `n` rows is longer than its column's width so far.
pub proof fn lemma_width_upto_covers(rows: Seq<Seq<Seq<char>>>, c: int, n: nat, r: int)
    requires
        0 <= r < n,
    ensures
        rows[r][c].len() <= width_upto(rows, c, n),
    decreases n,
{
    if r < n - 1 {
        lemma_width_upto_covers(rows, c, (n - 1) as nat, r);
    }
}

/// One value as it is written in a column of the given kind and width:
/// numbers and `NULL` to the right, strings and other text to the left, a
/// function call or expression as it is.
pub open spec fn cell(value: Seq<char>, kind: ColumnKind, width: nat) -> Seq<char> {
    match kind {
        ColumnKind::Numeric | ColumnKind::Null => pad_start(value, width),
        ColumnKind::StringLiteral | ColumnKind::Opaque => pad_end(value, width),
        ColumnKind::FunctionOrExpression => value,
    }
}

/// The cells of one row.
pub open spec fn cells(row: Seq<Seq<char>>, kinds: Seq<ColumnKind>, widths: Seq<nat>) -> Seq<
    Seq<char>,
> {
    Seq::new(row.len(), |c: int| cell(row[c], kinds[c], widths[c]))
}

/// What stands between two cells of a row.
pub open spec fn cell_gap() -> Seq<char> {
    seq![',', ' ']
}

/// What stands before the first row.
pub open spec fn indent() -> Seq<char> {
    seq![' ', ' ', ' ', ' ']
}

/// What is written between two rows that only white space and a comma part:
/// the comma, a line feed and the indent.
pub open spec fn row_gap() -> Seq<char> {
    seq![',', '\n', ' ', ' ', ' ', ' ']
}

/// Whether the text between two rows holds nothing but white space and
/// commas, so that nothing is lost where it is written anew.
pub open spec fn gap_plain(gap: Seq<char>) -> bool {
    forall|i: int| 0 <= i < gap.len() ==> is_space(#[trigger] gap[i]) || gap[i] == ','
}

/// The text between two rows as it is written: `row_gap` for a plain gap,
/// and a gap that holds a comment as it was found.
pub open spec fn gap_text(gap: Seq<char>) -> Seq<char> {
    if gap_plain(gap) {
        row_gap()
    } else {
        gap
    }
}

/// One row: the cells in parentheses with a comma and a blank between each
/// two.
pub open spec fn row_text(row: Seq<Seq<char>>, kinds: Seq<ColumnKind>, widths: Seq<nat>) -> Seq<
    char,
> {
    seq!['('] + join(cells(row, kinds, widths), cell_gap()) + seq![')']
}

/// The rows from `k` on as they are written, with the gaps between them.
pub open spec fn rows_text(rows: Seq<Seq<Seq<char>>>, gaps: Seq<Seq<char>>, k: int) -> Seq<char>
    decreases rows.len() - k,
{
    if k < 0 || k >= rows.len() {
        Seq::empty()
    } else if k == rows.len() - 1 {
        row_text(rows[k], kinds_of(rows), widths_of(rows))
    } else {
        row_text(rows[k], kinds_of(rows), widths_of(rows)) + gap_text(gaps[k]) + rows_text(
            rows,
            gaps,
            k + 1,
        )
    }
}

/// The table as it is written: the indent, and the rows with the gaps
/// between them.
pub open spec fn table_text(rows: Seq<Seq<Seq<char>>>, gaps: Seq<Seq<char>>) -> Seq<char> {
    indent() + rows_text(rows, gaps, 0)
}

/// The widths of the columns, or `None` where the rows differ in their
/// number of values or there is no row: such a table is not to be aligned.
pub fn column_widths(rows: &Vec<Vec<Vec<char>>>) -> (r: Option<Vec<usize>>)
    ensures
        uniform(tables(rows@)) <==> r is Some,
        r matches Some(w) ==> w@.len() == tables(rows@)[0].len() && forall|c: int|
            0 <= c < w@.len() ==> (#[trigger] w@[c]) == column_width(tables(rows@), c),
{
    let ghost t = tables(rows@);
    if rows.len() == 0 {
        return None;
    }
    let arity = rows[0].len();
    let mut w: Vec<usize> = Vec::new();
    let mut c: usize = 0;
    while c < arity
        invariant
            c <= arity,
            w@.len() == c,
            forall|k: int| 0 <= k < c ==> (#[trigger] w@[k]) == 0,
        decreases arity - c,
    {
        w.push(0);
        c = c + 1;
    }
    let mut r: usize = 0;
    while r < rows.len()
        invariant
            r <= rows.len(),
            rows.len() > 0,
            t == tables(rows@),
            arity == t[0].len(),
            w@.len() == arity,
            forall|k: int| 0 <= k < r ==> (#[trigger] t[k]).len() == arity,
            forall|k: int| 0 <= k < arity ==> (#[trigger] w@[k]) == width_upto(t, k, r as nat),
        decreases rows.len() - r,
    {
        if rows[r].len() != arity {
            proof {
                assert(t[r as int].len() != t[0].len());
            }
            return None;
        }
        let mut c: usize = 0;
        while c < arity
            invariant
                c <= arity,
                r < rows.len(),
                t == tables(rows@),
                rows@[r as int]@.len() == arity,
                w@.len() == arity,
                forall|k: int|
                    0 <= k < c ==> (#[trigger] w@[k]) == width_upto(t, k, (r + 1) as nat),
                forall|k: int| c <= k < arity ==> (#[trigger] w@[k]) == width_upto(t, k, r as nat),
            decreases arity - c,
        {
            let here = rows[r][c].len();
            proof {
                assert(t[r as int][c as int] == rows@[r as int]@[c as int]@);
            }
            if here > w[c] {
                w.set(c, here);
            }
            c = c + 1;
        }
        r = r + 1;
    }
    Some(w)
}

/// The kinds of the columns of a uniform table.
pub fn column_kinds(rows: &Vec<Vec<Vec<char>>>) -> (r: Vec<ColumnKind>)
    requires
        uniform(tables(rows@)),
    ensures
        r@ == kinds_of(tables(rows@)),
{
    let ghost t = tables(rows@);
    let arity = rows[0].len();
    let mut kinds: Vec<ColumnKind> = Vec::new();
    let mut c: usize = 0;
    while c < arity
        invariant
            c <= arity,
            t == tables(rows@),
            uniform(t),
            arity == t[0].len(),
            kinds@.len() == c,
            forall|k: int| 0 <= k < c ==> (#[trigger] kinds@[k]) == column_kind(t, k),
        decreases arity - c,
    {
        let mut kind = ColumnKind::Null;
        let mut r: usize = 0;
        while r < rows.len()
            invariant
                r <= rows.len(),
                c < arity,
                t == tables(rows@),
                uniform(t),
                arity == t[0].len(),
                kind == column_kind_upto(t, c as int, r as nat),
            decreases rows.len() - r,
        {
            proof {
                assert(t[r as int].len() == arity);
                assert(t[r as int][c as int] == rows@[r as int]@[c as int]@);
            }
            kind = kind.merge(classify(&rows[r][c]));
            r = r + 1;
        }
        kinds.push(kind);
        c = c + 1;
    }
    assert(kinds@ =~= kinds_of(t));
    kinds
}

/// One value as it is written in a column of the given kind and width.
pub fn render_cell(value: &Vec<char>, kind: ColumnKind, width: usize) -> (r: Vec<char>)
    ensures
        r@ == cell(value@, kind, width as nat),
{
    let mut out: Vec<char> = Vec::new();
    let room = if value.len() < width {
        width - value.len()
    } else {
        0
    };
    match kind {
        ColumnKind::Numeric | ColumnKind::Null => {
            append_blanks(&mut out, room);
            append(&mut out, value);
            proof {
                if room == 0 {
                    assert(blanks(0) + value@ =~= value@);
                }
            }
        },
        ColumnKind::StringLiteral | ColumnKind::Opaque => {
            append(&mut out, value);
            append_blanks(&mut out, room);
            proof {
                if room == 0 {
                    assert(value@ + blanks(0) =~= value@);
                }
            }
        },
        ColumnKind::FunctionOrExpression => {
            append(&mut out, value);
        },
    }
    out
}

/// One row as it is written.
pub fn render_row(row: &Vec<Vec<char>>, kinds: &Vec<ColumnKind>, widths: &Vec<usize>) -> (r: Vec<
    char,
>)
    requires
        row.len() == kinds.len(),
        row.len() == widths.len(),
    ensures
        r@ == row_text(lines(row@), kinds@, widths@.map_values(|w: usize| w as nat)),
{
    let ghost ws = widths@.map_values(|w: usize| w as nat);
    let mut parts: Vec<Vec<char>> = Vec::new();
    let mut c: usize = 0;
    while c < row.len()
        invariant
            c <= row.len(),
            row.len() == kinds.len(),
            row.len() == widths.len(),
            ws == widths@.map_values(|w: usize| w as nat),
            parts@.len() == c,
            forall|k: int|
                0 <= k < c ==> (#[trigger] parts@[k])@ == cell(row@[k]@, kinds@[k], ws[k]),
        decreases row.len() - c,
    {
        parts.push(render_cell(&row[c], kinds[c], widths[c]));
        c = c + 1;
    }
    assert(lines(parts@) =~= cells(lines(row@), kinds@, ws));
    let mut out: Vec<char> = Vec::new();
    out.push('(');
    let mut gap: Vec<char> = Vec::new();
    gap.push(',');
    gap.push(' ');
    assert(gap@ =~= cell_gap());
    let body = join_lines(&parts, &gap);
    append(&mut out, &body);
    out.push(')');
    assert(out@ =~= row_text(lines(row@), kinds@, ws));
    out
}

/// Whether the text between two rows holds nothing but white space and
/// commas.
pub fn is_gap_plain(gap: &Vec<char>) -> (b: bool)
    ensures
        b == gap_plain(gap@),
{
    let mut i: usize = 0;
    while i < gap.len()
        invariant
            i <= gap.len(),
            forall|k: int| 0 <= k < i ==> is_space(#[trigger] gap@[k]) || gap@[k] == ',',
        decreases gap.len() - i,
    {
        if !(space(gap[i]) || gap[i] == ',') {
            return false;
        }
        i = i + 1;
    }
    true
}

/// A uniform table as it is written, with the gaps between its rows.
pub fn render_table(rows: &Vec<Vec<Vec<char>>>, gaps: &Vec<Vec<char>>) -> (r: Vec<char>)
    requires
        uniform(tables(rows@)),
        gaps@.len() + 1 == rows@.len(),
    ensures
        r@ == table_text(tables(rows@), lines(gaps@)),
{
    let ghost t = tables(rows@);
    let ghost g = lines(gaps@);
    let kinds = column_kinds(rows);
    let widths = match column_widths(rows) {
        Some(w) => w,
        None => Vec::new(),
    };
    let ghost ws = widths@.map_values(|w: usize| w as nat);
    assert(ws =~= widths_of(t));
    assert(ws.len() == widths@.len());
    let mut out: Vec<char> = Vec::new();
    out.push(' ');
    out.push(' ');
    out.push(' ');
    out.push(' ');
    assert(out@ =~= indent());
    let mut r: usize = 0;
    while r < rows.len()
        invariant
            r <= rows.len(),
            t == tables(rows@),
            g == lines(gaps@),
            gaps@.len() + 1 == rows@.len(),
            uniform(t),
            kinds@ == kinds_of(t),
            ws == widths@.map_values(|w: usize| w as nat),
            ws == widths_of(t),
            widths@.len() == t[0].len(),
            kinds@.len() == t[0].len(),
            table_text(t, g) == out@ + rows_text(t, g, r as int),
        decreases rows.len() - r,
    {
        let ghost before = out@;
        proof {
            assert(t[r as int].len() == t[0].len());
            assert(t[r as int] == lines(rows@[r as int]@));
            assert(lines(rows@[r as int]@).len() == rows@[r as int]@.len());
        }
        let row = render_row(&rows[r], &kinds, &widths);
        append(&mut out, &row);
        if r + 1 < rows.len() {
            proof {
                assert(g[r as int] == gaps@[r as int]@);
            }
            if is_gap_plain(&gaps[r]) {
                out.push(',');
                out.push('\n');
                out.push(' ');
                out.push(' ');
                out.push(' ');
                out.push(' ');
                proof {
                    assert(out@ =~= before + row@ + row_gap());
                }
            } else {
                append(&mut out, &gaps[r]);
            }
            proof {
                assert(before + (row@ + gap_text(g[r as int]) + rows_text(t, g, r + 1)) =~= (
                before + row@ + gap_text(g[r as int])) + rows_text(t, g, r + 1));
            }
        } else {
            proof {
                assert(rows_text(t, g, r + 1) =~= Seq::<char>::empty());
                assert(before + row@ =~= (before + row@) + Seq::<char>::empty());
            }
        }
        r = r + 1;
    }
    proof {
        assert(out@ + Seq::<char>::empty() =~= out@);
    }
    out
}

} // verus!
