//! The proof that formatting a formatted statement changes nothing.

use crate::classify::ColumnKind;
use crate::clause::{
    all_closed, clause_cut, clause_layout, clause_output, clause_starts, closed, completed,
    insert_cut, keyword, keyword_at, keyword_offset, lead, lemma_keyword_offset_bound,
    lemma_row_fields_len, lemma_table_rows_len, opens_row, statement_text, tail_cut,
};
use crate::render::{
    cell, cell_gap, cells, gap_plain, gap_text, indent, kinds_of, row_gap, row_text, rows_text,
    table_text, uniform, widths_of,
};
use crate::scan::{lemma_scan_concat, scan, ScanState};
use crate::segment::{
    field_len, is_separator, lemma_trivia_len_bound, next_row, row_fields, table_rows, trivia_len,
};
use crate::text::{
    blanks, is_blank, is_space, is_word, join, leading_spaces, lemma_leading_spaces_bound,
    lemma_trim_end_bound, trim, trim_end, trim_start,
};
use vstd::prelude::*;

verus! {

/// Whether `s` is white space throughout.
spec fn all_space(s: Seq<char>) -> bool {
    forall|i: int| 0 <= i < s.len() ==> is_space(#[trigger] s[i])
}

/// Whether `s` neither begins nor ends with white space.
spec fn tight(s: Seq<char>) -> bool {
    s.len() == 0 || (!is_space(s[0]) && !is_space(s.last()))
}

proof fn lemma_leading_spaces_prefix(w: Seq<char>, s: Seq<char>)
    requires
        all_space(w),
    ensures
        leading_spaces(w + s) == w.len() + leading_spaces(s),
    decreases w.len(),
{
    if w.len() == 0 {
        assert(w + s =~= s);
    } else {
        assert((w + s)[0] == w[0]);
        assert((w + s).skip(1) =~= w.skip(1) + s);
        let t = w.skip(1);
        assert forall|i: int| 0 <= i < t.len() implies is_space(#[trigger] t[i]) by {
            assert(t[i] == w[i + 1]);
        }
        lemma_leading_spaces_prefix(w.skip(1), s);
    }
}

proof fn lemma_trim_end_suffix(s: Seq<char>, w: Seq<char>)
    requires
        all_space(w),
    ensures
        trim_end(s + w) == trim_end(s),
    decreases w.len(),
{
    if w.len() == 0 {
        assert(s + w =~= s);
    } else {
        assert((s + w).last() == w.last());
        assert((s + w).drop_last() =~= s + w.drop_last());
        assert forall|i: int| 0 <= i < w.drop_last().len() implies is_space(
            #[trigger] w.drop_last()[i],
        ) by {
            assert(w.drop_last()[i] == w[i]);
        }
        lemma_trim_end_suffix(s, w.drop_last());
    }
}

/// White space around a text that has none at its ends is all that trimming
/// takes away.
proof fn lemma_trim_tight(a: Seq<char>, v: Seq<char>, b: Seq<char>)
    requires
        tight(v),
        all_space(a),
        all_space(b),
    ensures
        trim(a + v + b) == v,
{
    let s = a + v + b;
    assert(s =~= a + (v + b));
    lemma_leading_spaces_prefix(a, v + b);
    if v.len() == 0 {
        assert(v + b =~= b);
        lemma_leading_spaces_prefix(b, Seq::<char>::empty());
        assert(b + Seq::<char>::empty() =~= b);
        assert(trim_start(s) =~= Seq::<char>::empty());
        assert(v =~= Seq::<char>::empty());
    } else {
        assert((v + b)[0] == v[0]);
        assert(leading_spaces(v + b) == 0);
        assert(trim_start(s) =~= v + b);
        lemma_trim_end_suffix(v, b);
    }
}

proof fn lemma_trim_is_tight(s: Seq<char>)
    ensures
        tight(trim(s)),
{
    lemma_leading_spaces_bound(s);
    let t = trim_start(s);
    lemma_trim_end_bound(t);
    let v = trim_end(t);
    if v.len() > 0 {
        assert(v[0] == t[0]);
        assert(t[0] == s[leading_spaces(s) as int]);
    }
}

proof fn lemma_blanks_are_space(n: nat)
    ensures
        all_space(blanks(n)),
        blanks(n).len() == n,
{
}

/// A white-space character changes nothing but `pending` outside strings,
/// comments and escapes.
proof fn lemma_step_space(st: ScanState, c: char)
    requires
        st.plain(),
        is_space(c),
    ensures
        st.next(c) == st.with_pending(None),
{
}

proof fn lemma_scan_spaces(w: Seq<char>, st: ScanState)
    requires
        st.plain(),
        all_space(w),
    ensures
        scan(w, st).plain(),
        scan(w, st).paren_depth == st.paren_depth,
        st.pending is None ==> scan(w, st) == st,
        w.len() > 0 ==> scan(w, st) == st.with_pending(None),
    decreases w.len(),
{
    if w.len() > 0 {
        lemma_step_space(st, w[0]);
        let t = w.skip(1);
        assert forall|i: int| 0 <= i < t.len() implies is_space(#[trigger] t[i]) by {
            assert(t[i] == w[i + 1]);
        }
        lemma_scan_spaces(w.skip(1), st.next(w[0]));
    }
}

/// Whether no separator of row level stands in `s`, read from `st`.
spec fn quiet(s: Seq<char>, st: ScanState) -> bool
    decreases s.len(),
{
    if s.len() == 0 {
        true
    } else {
        !(st.plain_at(1) && is_separator(s[0])) && quiet(s.skip(1), st.next(s[0]))
    }
}

proof fn lemma_quiet_concat(a: Seq<char>, b: Seq<char>, st: ScanState)
    ensures
        quiet(a + b, st) == (quiet(a, st) && quiet(b, scan(a, st))),
    decreases a.len(),
{
    if a.len() == 0 {
        assert(a + b =~= b);
    } else {
        assert((a + b)[0] == a[0]);
        assert((a + b).skip(1) =~= a.skip(1) + b);
        lemma_quiet_concat(a.skip(1), b, st.next(a[0]));
    }
}

/// What stands before the separator that ends a field holds no separator.
proof fn lemma_field_is_quiet(s: Seq<char>, st: ScanState)
    ensures
        field_len(s, st) matches Some(n) ==> n < s.len() && quiet(s.take(n as int), st) && scan(
            s.take(n as int),
            st,
        ).plain_at(1) && is_separator(s[n as int]),
    decreases s.len(),
{
    if s.len() > 0 {
        if st.plain_at(1) && is_separator(s[0]) {
            assert(s.take(0) =~= Seq::<char>::empty());
        } else {
            lemma_field_is_quiet(s.skip(1), st.next(s[0]));
            match field_len(s.skip(1), st.next(s[0])) {
                Some(m) => {
                    let n = m + 1;
                    assert(s.take(n as int).skip(1) =~= s.skip(1).take(m as int));
                    assert(s.take(n as int)[0] == s[0]);
                    assert(s.skip(1)[m as int] == s[n as int]);
                },
                None => {},
            }
        }
    }
}

/// A text without separators that ends at row level, and a separator behind
/// it: the field is that text.
proof fn lemma_quiet_field(a: Seq<char>, x: Seq<char>, st: ScanState)
    requires
        quiet(a, st),
        scan(a, st).plain_at(1),
        x.len() > 0,
        is_separator(x[0]),
    ensures
        field_len(a + x, st) == Some(a.len()),
    decreases a.len(),
{
    if a.len() == 0 {
        assert(a + x =~= x);
    } else {
        assert((a + x)[0] == a[0]);
        assert((a + x).skip(1) =~= a.skip(1) + x);
        lemma_quiet_field(a.skip(1), x, st.next(a[0]));
    }
}

proof fn lemma_spaces_quiet(w: Seq<char>, st: ScanState)
    requires
        st.plain(),
        all_space(w),
    ensures
        quiet(w, st),
    decreases w.len(),
{
    if w.len() > 0 {
        lemma_step_space(st, w[0]);
        let t = w.skip(1);
        assert forall|i: int| 0 <= i < t.len() implies is_space(#[trigger] t[i]) by {
            assert(t[i] == w[i + 1]);
        }
        lemma_spaces_quiet(w.skip(1), st.next(w[0]));
    }
}

/// A text is white space, its trimmed form, and white space.
proof fn lemma_trim_parts(s: Seq<char>) -> (r: (Seq<char>, Seq<char>))
    ensures
        s == r.0 + trim(s) + r.1,
        all_space(r.0),
        all_space(r.1),
{
    lemma_leading_spaces_bound(s);
    let n = leading_spaces(s) as int;
    let a = s.take(n);
    let t = trim_start(s);
    lemma_trim_end_bound(t);
    let v = trim_end(t);
    let b = t.skip(v.len() as int);
    assert forall|i: int| 0 <= i < b.len() implies is_space(#[trigger] b[i]) by {
        assert(b[i] == t[v.len() + i]);
    }
    assert(s =~= a + v + b);
    (a, b)
}

/// The state in which the scan of a column value begins.
spec fn row_level() -> ScanState {
    ScanState::at_depth(1)
}

/// What the segmenter gives and the formatter asks of a value: no white
/// space at its ends, no separator of row level in it, and closed.
spec fn sound(v: Seq<char>) -> bool {
    tight(v) && quiet(v, row_level()) && closed(v, 1)
}

/// Trimming keeps a text free of separators.
proof fn lemma_trim_quiet(raw: Seq<char>)
    requires
        quiet(raw, row_level()),
    ensures
        quiet(trim(raw), row_level()),
        tight(trim(raw)),
{
    let (a, b) = lemma_trim_parts(raw);
    let v = trim(raw);
    assert(raw =~= a + (v + b));
    lemma_quiet_concat(a, v + b, row_level());
    lemma_scan_spaces(a, row_level());
    lemma_quiet_concat(v, b, row_level());
    lemma_trim_is_tight(raw);
}

spec fn row_quiet(row: Seq<Seq<char>>) -> bool {
    forall|c: int| 0 <= c < row.len() ==> tight(#[trigger] row[c]) && quiet(row[c], row_level())
}

/// Every value that the segmenter gives for a row is trimmed and free of
/// separators, and a row has a value.
proof fn lemma_row_fields_quiet(s: Seq<char>)
    ensures
        row_fields(s) matches Some((values, n)) ==> row_quiet(values) && values.len() >= 1,
    decreases s.len(),
{
    lemma_field_is_quiet(s, row_level());
    match field_len(s, row_level()) {
        None => {},
        Some(n) => {
            lemma_trim_quiet(s.take(n as int));
            if n < s.len() && s[n as int] != ')' {
                lemma_row_fields_quiet(s.skip(n + 1 as int));
                match row_fields(s.skip(n + 1 as int)) {
                    Some((more, m)) => {
                        let values = seq![trim(s.take(n as int))] + more;
                        assert forall|c: int| 0 <= c < values.len() implies tight(
                            #[trigger] values[c],
                        ) && quiet(values[c], row_level()) by {
                            if c > 0 {
                                assert(values[c] == more[c - 1]);
                            }
                        }
                    },
                    None => {},
                }
            }
        },
    }
}

/// White space and comments end where they end, whatever follows the
/// character behind them, unless that character could open a comment.
proof fn lemma_trivia_local(s1: Seq<char>, s2: Seq<char>, st: ScanState, a: nat)
    requires
        trivia_len(s1, st) == a,
        a < s1.len(),
        a < s2.len(),
        s1.take(a + 1 as int) == s2.take(a + 1 as int),
        s1[a as int] != '-',
        s1[a as int] != '/',
    ensures
        trivia_len(s2, st) == a,
    decreases a,
{
    assert(s1[0] == s1.take(a + 1 as int)[0]);
    assert(s2[0] == s2.take(a + 1 as int)[0]);
    if a > 0 {
        assert(s1[1] == s1.take(a + 1 as int)[1]);
        assert(s2[1] == s2.take(a + 1 as int)[1]);
        assert(s1.skip(1).take(a as int) =~= s1.take(a + 1 as int).skip(1));
        assert(s2.skip(1).take(a as int) =~= s2.take(a + 1 as int).skip(1));
        assert(s1.skip(1)[a - 1] == s1[a as int]);
        lemma_trivia_local(s1.skip(1), s2.skip(1), st.next(s1[0]), (a - 1) as nat);
    }
}

/// Where the next row opens does not depend on what follows its opening
/// parenthesis.
proof fn lemma_next_row_local(s1: Seq<char>, s2: Seq<char>, b: nat)
    requires
        next_row(s1) == Some(b),
        b < s2.len(),
        s1.take(b + 1 as int) == s2.take(b + 1 as int),
    ensures
        next_row(s2) == Some(b),
{
    let st = ScanState::start();
    let a = trivia_len(s1, st);
    let t1 = s1.skip(a + 1 as int);
    let t2 = s2.skip(a + 1 as int);
    let c = trivia_len(t1, st);
    assert(b == a + 1 + c);
    assert(s1.take(a + 1 as int) =~= s1.take(b + 1 as int).take(a + 1 as int));
    assert(s2.take(a + 1 as int) =~= s2.take(b + 1 as int).take(a + 1 as int));
    lemma_trivia_local(s1, s2, st, a);
    assert(s2[a as int] == s2.take(b + 1 as int)[a as int]);
    assert(s1[a as int] == s1.take(b + 1 as int)[a as int]);
    assert(t1.take(c + 1 as int) =~= s1.take(b + 1 as int).skip(a + 1 as int));
    assert(t2.take(c + 1 as int) =~= s2.take(b + 1 as int).skip(a + 1 as int));
    assert(t1[c as int] == s1[b as int]);
    lemma_trivia_local(t1, t2, st, c);
    assert(s2[b as int] == s2.take(b + 1 as int)[b as int]);
    assert(s1[b as int] == s1.take(b + 1 as int)[b as int]);
}

/// Whether the text `gap` leads from one row to the next: behind it, a row
/// that opens is found where `gap` ends.
#[verifier::opaque]
spec fn gap_leads(gap: Seq<char>) -> bool {
    next_row(gap.push('(')) == Some(gap.len())
}

proof fn lemma_gap_leads(gap: Seq<char>, open: Seq<char>)
    requires
        gap_leads(gap),
        open.len() > 0,
        open[0] == '(',
    ensures
        next_row(gap + open) == Some(gap.len()),
        (gap + open).skip(gap.len() as int) == open,
        (gap + open).subrange(0, gap.len() as int) == gap,
{
    reveal(gap_leads);
    let s1 = gap.push('(');
    let s2 = gap + open;
    assert(s1.take(gap.len() + 1 as int) =~= s2.take(gap.len() + 1 as int));
    lemma_next_row_local(s1, s2, gap.len());
    assert(s2.skip(gap.len() as int) =~= open);
    assert(s2.subrange(0, gap.len() as int) =~= gap);
}

spec fn gaps_lead(gaps: Seq<Seq<char>>) -> bool {
    forall|k: int| 0 <= k < gaps.len() ==> gap_leads(#[trigger] gaps[k])
}

spec fn table_quiet(rows: Seq<Seq<Seq<char>>>) -> bool {
    forall|r: int| 0 <= r < rows.len() ==> row_quiet(#[trigger] rows[r]) && rows[r].len() >= 1
}

/// What the segmenter gives for a clause: rows of trimmed values without
/// separators, one row more than gaps, gaps that lead from row to row, and
/// no further row behind the last.
proof fn lemma_table_rows_facts(s: Seq<char>)
    ensures
        table_rows(s) matches Some((rows, gaps, n)) ==> table_quiet(rows) && rows.len()
            == gaps.len() + 1 && gaps_lead(gaps) && n <= s.len() && next_row(s.skip(n as int))
            is None,
    decreases s.len(),
{
    if s.len() > 0 && s[0] == '(' {
        lemma_row_fields_quiet(s.skip(1));
        lemma_row_fields_len(s.skip(1));
        match row_fields(s.skip(1)) {
            None => {},
            Some((values, n)) => {
                let used = 1 + n;
                let sx = s.skip(used as int);
                match next_row(sx) {
                    Some(b) => {
                        if used + b < s.len() {
                            let t = s.skip((used + b) as int);
                            lemma_table_rows_facts(t);
                            match table_rows(t) {
                                Some((more, between, m)) => {
                                    let gap = s.subrange(used as int, (used + b) as int);
                                    let rows = seq![values] + more;
                                    let gaps = seq![gap] + between;
                                    assert forall|r: int| 0 <= r < rows.len() implies row_quiet(
                                        #[trigger] rows[r],
                                    ) && rows[r].len() >= 1 by {
                                        if r > 0 {
                                            assert(rows[r] == more[r - 1]);
                                        }
                                    }
                                    reveal(gap_leads);
                                    assert(sx.take(b + 1 as int) =~= gap.push('('));
                                    assert(gap.push('(').take(b + 1 as int) =~= gap.push('('));
                                    lemma_next_row_local(sx, gap.push('('), b);
                                    assert forall|k: int| 0 <= k < gaps.len() implies gap_leads(
                                        #[trigger] gaps[k],
                                    ) by {
                                        if k > 0 {
                                            assert(gaps[k] == between[k - 1]);
                                        }
                                    }
                                    assert(s.skip((used + b + m) as int) =~= t.skip(m as int));
                                },
                                None => {},
                            }
                        }
                    },
                    None => {
                        assert(seq![values][0] == values);
                    },
                }
            },
        }
    }
}

/// The items from `k` on with `sep` between each two, the first item first.
pub open spec fn join_from(items: Seq<Seq<char>>, sep: Seq<char>, k: int) -> Seq<char>
    decreases items.len() - k,
{
    if k < 0 || k >= items.len() {
        Seq::empty()
    } else if k == items.len() - 1 {
        items[k]
    } else {
        items[k] + sep + join_from(items, sep, k + 1)
    }
}

proof fn lemma_join_from_last(items: Seq<Seq<char>>, sep: Seq<char>, k: int)
    requires
        0 <= k < items.len() - 1,
    ensures
        join_from(items, sep, k) == join_from(items.drop_last(), sep, k) + sep + items.last(),
    decreases items.len() - k,
{
    let short = items.drop_last();
    if k == items.len() - 2 {
        assert(join_from(items, sep, k + 1) == items.last());
        assert(join_from(short, sep, k) == short[k]);
    } else {
        lemma_join_from_last(items, sep, k + 1);
        assert(short[k] == items[k]);
        assert(items[k] + sep + (join_from(short, sep, k + 1) + sep + items.last()) =~= (items[k]
            + sep + join_from(short, sep, k + 1)) + sep + items.last());
    }
}

/// Joining from the last item on and from the first give the same text.
pub proof fn lemma_join_is_join_from(items: Seq<Seq<char>>, sep: Seq<char>)
    ensures
        join(items, sep) == join_from(items, sep, 0),
    decreases items.len(),
{
    if items.len() >= 2 {
        lemma_join_is_join_from(items.drop_last(), sep);
        lemma_join_from_last(items, sep, 0);
    }
}

/// A sound value with white space around it is read as one field, and
/// trimmed back to the value.
proof fn lemma_padded(a: Seq<char>, v: Seq<char>, b: Seq<char>)
    requires
        sound(v),
        all_space(a),
        all_space(b),
    ensures
        quiet(a + v + b, row_level()),
        scan(a + v + b, row_level()).plain_at(1),
        trim(a + v + b) == v,
{
    lemma_trim_tight(a, v, b);
    assert(a + v + b =~= a + (v + b));
    lemma_quiet_concat(a, v + b, row_level());
    lemma_spaces_quiet(a, row_level());
    lemma_scan_spaces(a, row_level());
    lemma_quiet_concat(v, b, row_level());
    lemma_spaces_quiet(b, scan(v, row_level()));
    lemma_scan_concat(a, v + b, row_level());
    lemma_scan_concat(v, b, row_level());
    lemma_scan_spaces(b, scan(v, row_level()));
}

/// A cell behind white space is read as one field, and trimmed back to its
/// value.
proof fn lemma_cell(v: Seq<char>, kind: ColumnKind, width: nat, w: Seq<char>)
    requires
        sound(v),
        all_space(w),
    ensures
        quiet(w + cell(v, kind, width), row_level()),
        scan(w + cell(v, kind, width), row_level()).plain_at(1),
        trim(w + cell(v, kind, width)) == v,
{
    let f = cell(v, kind, width);
    let pad = blanks((width - v.len()) as nat);
    let none = Seq::<char>::empty();
    lemma_blanks_are_space((width - v.len()) as nat);
    if f == v {
        assert(w + f =~= w + v + none);
        lemma_padded(w, v, none);
    } else if f == pad + v {
        assert(w + f =~= (w + pad) + v + none);
        lemma_padded(w + pad, v, none);
    } else {
        assert(f == v + pad);
        assert(w + f =~= w + v + pad);
        lemma_padded(w, v, pad);
    }
}

spec fn row_sound(row: Seq<Seq<char>>) -> bool {
    forall|c: int| 0 <= c < row.len() ==> sound(#[trigger] row[c])
}

/// The cells of a row from `k` on, written out behind white space and with
/// the closing parenthesis behind them, are read back as the values of the
/// row from `k` on.
proof fn lemma_parse_cells(
    row: Seq<Seq<char>>,
    kinds: Seq<ColumnKind>,
    widths: Seq<nat>,
    k: int,
    w: Seq<char>,
    rest: Seq<char>,
)
    requires
        0 <= k < row.len(),
        all_space(w),
        row_sound(row),
    ensures
        row_fields(
            w + join_from(cells(row, kinds, widths), cell_gap(), k) + seq![')'] + rest,
        ) == Some(
            (
                row.skip(k),
                (w.len() + join_from(cells(row, kinds, widths), cell_gap(), k).len() + 1) as nat,
            ),
        ),
    decreases row.len() - k,
{
    let fs = cells(row, kinds, widths);
    let f = fs[k];
    let j = join_from(fs, cell_gap(), k);
    let text = w + j + seq![')'] + rest;
    let a = w + f;
    assert(sound(row[k]));
    lemma_cell(row[k], kinds[k], widths[k], w);
    if k == row.len() - 1 {
        let x = seq![')'] + rest;
        assert(text =~= a + x);
        lemma_quiet_field(a, x, row_level());
        assert(text[a.len() as int] == ')');
        assert(text.take(a.len() as int) =~= a);
        assert(row.skip(k) =~= seq![row[k]]);
    } else {
        let j2 = join_from(fs, cell_gap(), k + 1);
        let blank = seq![' '];
        let x = seq![','] + (blank + j2 + seq![')'] + rest);
        assert(j == f + cell_gap() + j2);
        assert(text =~= a + x);
        lemma_quiet_field(a, x, row_level());
        assert(text[a.len() as int] == ',');
        assert(text.take(a.len() as int) =~= a);
        assert(text.skip(a.len() + 1 as int) =~= blank + j2 + seq![')'] + rest);
        lemma_parse_cells(row, kinds, widths, k + 1, blank, rest);
        assert(seq![row[k]] + row.skip(k + 1) =~= row.skip(k));
    }
}

spec fn table_sound(rows: Seq<Seq<Seq<char>>>) -> bool {
    forall|r: int| 0 <= r < rows.len() ==> row_sound(#[trigger] rows[r]) && rows[r].len() >= 1
}

/// The rows from `k` on as they are written.
#[verifier::opaque]
spec fn rows_from(rows: Seq<Seq<Seq<char>>>, gaps: Seq<Seq<char>>, k: int) -> Seq<char> {
    rows_text(rows, gaps, k)
}

/// One row as it is written.
#[verifier::opaque]
spec fn bare_row(rows: Seq<Seq<Seq<char>>>, k: int) -> Seq<char> {
    row_text(rows[k], kinds_of(rows), widths_of(rows))
}

/// The gaps as they are written.
spec fn written_gaps(gaps: Seq<Seq<char>>) -> Seq<Seq<char>> {
    Seq::new(gaps.len(), |i: int| gap_text(gaps[i]))
}

/// White space is passed over as trivia.
proof fn lemma_trivia_spaces(w: Seq<char>, s: Seq<char>)
    requires
        all_space(w),
    ensures
        trivia_len(w + s, ScanState::start()) == w.len() + trivia_len(s, ScanState::start()),
    decreases w.len(),
{
    if w.len() == 0 {
        assert(w + s =~= s);
    } else {
        assert((w + s)[0] == w[0]);
        assert((w + s).skip(1) =~= w.skip(1) + s);
        lemma_step_space(ScanState::start(), w[0]);
        let t = w.skip(1);
        assert forall|i: int| 0 <= i < t.len() implies is_space(#[trigger] t[i]) by {
            assert(t[i] == w[i + 1]);
        }
        lemma_trivia_spaces(w.skip(1), s);
    }
}

/// A comma, a line feed and the indent lead to the next row.
proof fn lemma_row_gap_leads()
    ensures
        gap_leads(row_gap()),
        gap_plain(row_gap()),
{
    reveal(gap_leads);
    let open = seq!['('];
    let rest = row_gap().push('(');
    let white = seq!['\n', ' ', ' ', ' ', ' '];
    assert(rest[0] == ',');
    assert(trivia_len(rest, ScanState::start()) == 0);
    assert(rest.skip(1) =~= white + open);
    assert(all_space(white));
    lemma_trivia_spaces(white, open);
    assert(trivia_len(open, ScanState::start()) == 0);
    assert(rest[6] == '(');
}

/// A gap as it is written leads to the next row, and is written again as it
/// is.
proof fn lemma_gap_text_leads(gap: Seq<char>)
    requires
        gap_leads(gap),
    ensures
        gap_leads(gap_text(gap)),
        gap_text(gap_text(gap)) == gap_text(gap),
{
    lemma_row_gap_leads();
}

proof fn lemma_bare_row_shape(rows: Seq<Seq<Seq<char>>>, k: int)
    ensures
        bare_row(rows, k).len() >= 2,
        bare_row(rows, k)[0] == '(',
{
    reveal(bare_row);
}

proof fn lemma_rows_from_unfold(rows: Seq<Seq<Seq<char>>>, gaps: Seq<Seq<char>>, k: int)
    requires
        0 <= k < rows.len(),
    ensures
        k == rows.len() - 1 ==> rows_from(rows, gaps, k) == bare_row(rows, k),
        k < rows.len() - 1 ==> rows_from(rows, gaps, k) == bare_row(rows, k) + (gap_text(gaps[k])
            + rows_from(rows, gaps, k + 1)),
        rows_from(rows, gaps, k).len() > 0,
        rows_from(rows, gaps, k)[0] == '(',
{
    reveal(rows_from);
    reveal(bare_row);
    lemma_bare_row_shape(rows, k);
    if k < rows.len() - 1 {
        assert(rows_text(rows, gaps, k) =~= bare_row(rows, k) + (gap_text(gaps[k]) + rows_text(
            rows,
            gaps,
            k + 1,
        )));
    }
}

/// A row as it is written is read back as the values of the row.
proof fn lemma_parse_row(rows: Seq<Seq<Seq<char>>>, k: int, rest: Seq<char>)
    requires
        0 <= k < rows.len(),
        table_sound(rows),
    ensures
        row_fields((bare_row(rows, k) + rest).skip(1)) == Some(
            (rows[k], (bare_row(rows, k).len() - 1) as nat),
        ),
        (bare_row(rows, k) + rest)[0] == '(',
        (bare_row(rows, k) + rest).skip(bare_row(rows, k).len() as int) == rest,
        bare_row(rows, k).len() >= 2,
{
    reveal(bare_row);
    let kinds = kinds_of(rows);
    let widths = widths_of(rows);
    let row = rows[k];
    let fs = cells(row, kinds, widths);
    let inner = join(fs, cell_gap());
    let none = Seq::<char>::empty();
    let text = bare_row(rows, k) + rest;
    lemma_join_is_join_from(fs, cell_gap());
    assert(row_sound(row) && row.len() >= 1);
    assert(text.skip(1) =~= none + inner + seq![')'] + rest);
    lemma_parse_cells(row, kinds, widths, 0, none, rest);
    assert(row.skip(0) =~= row);
    assert(text.skip(bare_row(rows, k).len() as int) =~= rest);
}

/// One step of the segmenter over a row that another row follows.
proof fn lemma_table_step(
    s: Seq<char>,
    values: Seq<Seq<char>>,
    n: nat,
    b: nat,
    more: Seq<Seq<Seq<char>>>,
    between: Seq<Seq<char>>,
    m: nat,
)
    requires
        s.len() > 0,
        s[0] == '(',
        row_fields(s.skip(1)) == Some((values, n)),
        next_row(s.skip(1 + n as int)) == Some(b),
        1 + n + b < s.len(),
        table_rows(s.skip(1 + n + b as int)) == Some((more, between, m)),
    ensures
        table_rows(s) == Some(
            (
                seq![values] + more,
                seq![s.subrange(1 + n as int, 1 + n + b as int)] + between,
                (1 + n + b + m) as nat,
            ),
        ),
{
}

/// The step of the segmenter over the last row.
proof fn lemma_table_last(s: Seq<char>, values: Seq<Seq<char>>, n: nat)
    requires
        s.len() > 0,
        s[0] == '(',
        row_fields(s.skip(1)) == Some((values, n)),
        next_row(s.skip(1 + n as int)) is None,
    ensures
        table_rows(s) == Some((seq![values], Seq::<Seq<char>>::empty(), (1 + n) as nat)),
{
}

/// The text of a row that another row follows, in its parts.
proof fn lemma_row_then_gap(
    rows: Seq<Seq<Seq<char>>>,
    gaps: Seq<Seq<char>>,
    k: int,
    tail: Seq<char>,
)
    requires
        0 <= k < rows.len() - 1,
        rows.len() == gaps.len() + 1,
        table_sound(rows),
        gaps_lead(gaps),
    ensures
        ({
            let text = rows_from(rows, gaps, k) + tail;
            let n = (bare_row(rows, k).len() - 1) as nat;
            let sep = gap_text(gaps[k]);
            let b = sep.len();
            let open = rows_from(rows, gaps, k + 1) + tail;
            &&& text.len() > 0
            &&& text[0] == '('
            &&& row_fields(text.skip(1)) == Some((rows[k], n))
            &&& next_row(text.skip(1 + n as int)) == Some(b)
            &&& 1 + n + b < text.len()
            &&& text.skip(1 + n + b as int) == open
            &&& text.subrange(1 + n as int, 1 + n + b as int) == sep
            &&& rows_from(rows, gaps, k).len() == 1 + n + b + rows_from(rows, gaps, k + 1).len()
        }),
{
    let bare = bare_row(rows, k);
    let text = rows_from(rows, gaps, k) + tail;
    let n = (bare.len() - 1) as nat;
    let open = rows_from(rows, gaps, k + 1) + tail;
    let sep = gap_text(gaps[k]);
    let rest = sep + open;
    let b = sep.len();
    lemma_rows_from_unfold(rows, gaps, k);
    lemma_rows_from_unfold(rows, gaps, k + 1);
    assert(text =~= bare + rest);
    lemma_parse_row(rows, k, rest);
    assert(gap_leads(gaps[k]));
    lemma_gap_text_leads(gaps[k]);
    lemma_gap_leads(sep, open);
    assert(1 + n == bare.len());
    assert(text.skip(1 + n as int) == rest);
    assert(text.skip(1 + n + b as int) =~= rest.skip(b as int));
    assert(text.subrange(1 + n as int, 1 + n + b as int) =~= rest.subrange(0, b as int));
}

proof fn lemma_written_gaps_skip(gaps: Seq<Seq<char>>, k: int)
    requires
        0 <= k < gaps.len(),
    ensures
        seq![gap_text(gaps[k])] + written_gaps(gaps).skip(k + 1) == written_gaps(gaps).skip(k),
{
    assert(seq![gap_text(gaps[k])] + written_gaps(gaps).skip(k + 1) =~= written_gaps(gaps).skip(
        k,
    ));
}

/// The rows from `k` on as they are written, with a text behind them that is
/// no further row, are read back as the rows from `k` on, with the gaps as
/// they are written.
proof fn lemma_parse_rows(
    rows: Seq<Seq<Seq<char>>>,
    gaps: Seq<Seq<char>>,
    k: int,
    tail: Seq<char>,
)
    requires
        0 <= k < rows.len(),
        rows.len() == gaps.len() + 1,
        table_sound(rows),
        gaps_lead(gaps),
        next_row(tail) is None,
    ensures
        table_rows(rows_from(rows, gaps, k) + tail) == Some(
            (rows.skip(k), written_gaps(gaps).skip(k), rows_from(rows, gaps, k).len()),
        ),
    decreases rows.len() - k,
{
    let bare = bare_row(rows, k);
    let text = rows_from(rows, gaps, k) + tail;
    let n = (bare.len() - 1) as nat;
    if k == rows.len() - 1 {
        lemma_rows_from_unfold(rows, gaps, k);
        lemma_parse_row(rows, k, tail);
        assert(text == bare + tail);
        assert(1 + n == bare.len());
        assert(text.skip(1 + n as int) == tail);
        lemma_table_last(text, rows[k], n);
        assert(rows.skip(k) =~= seq![rows[k]]);
        assert(written_gaps(gaps).skip(k) =~= Seq::<Seq<char>>::empty());
    } else {
        let b = gap_text(gaps[k]).len();
        lemma_row_then_gap(rows, gaps, k, tail);
        lemma_parse_rows(rows, gaps, k + 1, tail);
        lemma_table_step(
            text,
            rows[k],
            n,
            b,
            rows.skip(k + 1),
            written_gaps(gaps).skip(k + 1),
            rows_from(rows, gaps, k + 1).len(),
        );
        assert(seq![rows[k]] + rows.skip(k + 1) =~= rows.skip(k));
        lemma_written_gaps_skip(gaps, k);
    }
}

/// Gaps that are written as they were written before give the same text.
proof fn lemma_rows_text_written(rows: Seq<Seq<Seq<char>>>, gaps: Seq<Seq<char>>, k: int)
    requires
        0 <= k < rows.len(),
        rows.len() == gaps.len() + 1,
        gaps_lead(gaps),
    ensures
        rows_text(rows, written_gaps(gaps), k) == rows_text(rows, gaps, k),
    decreases rows.len() - k,
{
    if k < rows.len() - 1 {
        assert(gap_leads(gaps[k]));
        lemma_gap_text_leads(gaps[k]);
        lemma_rows_text_written(rows, gaps, k + 1);
    }
}

/// What is written behind the last row, for the text `s` that follows it:
/// what `tail_cut` gives, and what follows the end of the clause.
spec fn tail_text(s: Seq<char>) -> Option<Seq<char>> {
    let a = trivia_len(s, ScanState::start());
    let clear = a >= s.len() || s[a as int] == ';' || (s[a as int] == ',' && a + 1 + trivia_len(
        s.skip(a + 1 as int),
        ScanState::start(),
    ) == s.len());
    if !clear {
        None
    } else if !is_blank(s.take(a as int)) {
        Some(s)
    } else if a >= s.len() {
        Some(seq![';'])
    } else {
        Some(s.skip(a as int))
    }
}

/// What `insert_cut` gives with what follows the end of the clause, written
/// as one statement whose tail holds what follows.
spec fn flat_insert(header: Seq<char>, body: Seq<char>) -> Option<Seq<char>> {
    let a = leading_spaces(body);
    match table_rows(body.skip(a as int)) {
        None => None,
        Some((rows, gaps, n)) => match tail_text(body.skip((a + n) as int)) {
            None => None,
            Some(tail) => if uniform(rows) && all_closed(rows) {
                Some(statement_text(header, rows, gaps, tail))
            } else {
                None
            },
        },
    }
}

/// What `clause_cut` gives with what follows the end of the clause, written
/// as one statement whose tail holds what follows.
spec fn flat_clause(text: Seq<char>) -> Option<Seq<char>> {
    match keyword_offset(text, ScanState::start(), false) {
        None => None,
        Some(p) => {
            let header = trim_end(text.take(p as int));
            if closed(header, 0) {
                flat_insert(header, text.skip(p + 6 as int))
            } else {
                None
            }
        },
    }
}

proof fn lemma_tail_cut(s: Seq<char>)
    ensures
        tail_text(s) == completed(tail_cut(s), s),
        tail_cut(s) matches Some((head, used)) ==> used <= s.len(),
{
    let a = trivia_len(s, ScanState::start());
    lemma_trivia_len_bound(s, ScanState::start());
    match tail_cut(s) {
        None => {},
        Some((head, used)) => {
            if a >= s.len() {
                assert(s.take(a as int) =~= s);
                assert(s.skip(s.len() as int) =~= Seq::<char>::empty());
                assert(head + s.skip(used as int) =~= head);
            } else if is_blank(s.take(a as int)) {
                assert(seq![s[a as int]] + s.skip(a + 1 as int) =~= s.skip(a as int));
            } else {
                assert(s.take(a + 1 as int) + s.skip(a + 1 as int) =~= s);
            }
        },
    }
}

proof fn lemma_insert_cut(header: Seq<char>, body: Seq<char>)
    ensures
        flat_insert(header, body) == completed(insert_cut(header, body), body),
        insert_cut(header, body) matches Some((head, used)) ==> used <= body.len(),
{
    let a = leading_spaces(body);
    lemma_leading_spaces_bound(body);
    lemma_table_rows_len(body.skip(a as int));
    match table_rows(body.skip(a as int)) {
        None => {},
        Some((rows, gaps, n)) => {
            let rest = body.skip((a + n) as int);
            lemma_tail_cut(rest);
            match tail_cut(rest) {
                None => {},
                Some((tail, used)) => {
                    assert(rest.skip(used as int) =~= body.skip((a + n + used) as int));
                    assert(statement_text(header, rows, gaps, tail + rest.skip(used as int))
                        =~= statement_text(header, rows, gaps, tail) + rest.skip(used as int));
                },
            }
        },
    }
}

proof fn lemma_clause_cut(text: Seq<char>)
    ensures
        flat_clause(text) == completed(clause_cut(text), text),
        clause_cut(text) matches Some((head, used)) ==> used <= text.len(),
{
    lemma_keyword_offset_bound(text, ScanState::start(), false);
    match keyword_offset(text, ScanState::start(), false) {
        None => {},
        Some(p) => {
            let header = trim_end(text.take(p as int));
            let body = text.skip(p + 6 as int);
            lemma_insert_cut(header, body);
            match insert_cut(header, body) {
                Some((head, used)) => {
                    assert(body.skip(used as int) =~= text.skip((p + 6 + used) as int));
                },
                None => {},
            }
        },
    }
}

/// What is written behind the last row is read as the end of the clause,
/// and is written again as it is.
proof fn lemma_tail_is_fixed(s: Seq<char>)
    requires
        next_row(s) is None,
    ensures
        tail_text(s) matches Some(t) ==> tail_text(t) == Some(t) && next_row(t) is None,
{
    let st = ScanState::start();
    let a = trivia_len(s, st);
    lemma_trivia_len_bound(s, st);
    match tail_text(s) {
        None => {},
        Some(t) => {
            if is_blank(s.take(a as int)) {
                assert(t.len() > 0);
                assert(t[0] == ';' || t[0] == ',');
                assert(trivia_len(t, st) == 0);
                assert(t.skip(0) =~= t);
                assert(t.take(0) =~= Seq::<char>::empty());
                assert(is_blank(t.take(0)));
                if t[0] == ',' {
                    assert(a < s.len() && s[a as int] == ',');
                    assert(t.skip(1) =~= s.skip(a + 1 as int));
                }
            }
        },
    }
}

spec fn word_before(s: Seq<char>, after_word: bool, i: int) -> bool {
    if i == 0 {
        after_word
    } else {
        is_word(s[i - 1])
    }
}

/// Whether the clause keyword stands at the offset `i` of `s`.
spec fn starts_at(s: Seq<char>, st: ScanState, after_word: bool, i: int) -> bool {
    clause_starts(s.skip(i), scan(s.take(i), st), word_before(s, after_word, i))
}

proof fn lemma_starts_shift(s: Seq<char>, st: ScanState, after_word: bool, i: int)
    requires
        0 <= i < s.len(),
    ensures
        starts_at(s.skip(1), st.next(s[0]), is_word(s[0]), i) == starts_at(
            s,
            st,
            after_word,
            i + 1,
        ),
{
    assert(s.skip(1).skip(i) =~= s.skip(i + 1));
    assert(s.take(i + 1).skip(1) =~= s.skip(1).take(i));
    assert(s.take(i + 1)[0] == s[0]);
    if i > 0 {
        assert(s.skip(1)[i - 1] == s[i]);
    }
}

/// The keyword is found at the first offset at which it stands.
proof fn lemma_keyword_found(s: Seq<char>, st: ScanState, after_word: bool, m: int)
    requires
        0 <= m < s.len(),
        forall|i: int| 0 <= i < m ==> !#[trigger] starts_at(s, st, after_word, i),
        starts_at(s, st, after_word, m),
    ensures
        keyword_offset(s, st, after_word) == Some(m as nat),
    decreases m,
{
    assert(s.skip(0) =~= s);
    assert(s.take(0) =~= Seq::<char>::empty());
    if m > 0 {
        assert(!starts_at(s, st, after_word, 0));
        let t = s.skip(1);
        assert forall|i: int| 0 <= i < m - 1 implies !#[trigger] starts_at(
            t,
            st.next(s[0]),
            is_word(s[0]),
            i,
        ) by {
            lemma_starts_shift(s, st, after_word, i);
            assert(!starts_at(s, st, after_word, i + 1));
        }
        lemma_starts_shift(s, st, after_word, m - 1);
        lemma_keyword_found(t, st.next(s[0]), is_word(s[0]), m - 1);
    }
}

/// Where the keyword is found it stands, and at no offset before.
proof fn lemma_keyword_first(s: Seq<char>, st: ScanState, after_word: bool)
    ensures
        keyword_offset(s, st, after_word) matches Some(m) ==> m < s.len() && starts_at(
            s,
            st,
            after_word,
            m as int,
        ) && forall|i: int| 0 <= i < m ==> !#[trigger] starts_at(s, st, after_word, i),
    decreases s.len(),
{
    assert(s.skip(0) =~= s);
    assert(s.take(0) =~= Seq::<char>::empty());
    if s.len() > 0 && !clause_starts(s, st, after_word) {
        let t = s.skip(1);
        lemma_keyword_first(t, st.next(s[0]), is_word(s[0]));
        match keyword_offset(t, st.next(s[0]), is_word(s[0])) {
            Some(k) => {
                lemma_starts_shift(s, st, after_word, k as int);
                assert forall|i: int| 0 <= i < k + 1 implies !#[trigger] starts_at(
                    s,
                    st,
                    after_word,
                    i,
                ) by {
                    if i > 0 {
                        lemma_starts_shift(s, st, after_word, i - 1);
                        assert(!starts_at(t, st.next(s[0]), is_word(s[0]), i - 1));
                    }
                }
            },
            None => {},
        }
    }
}

/// The number of leading white-space characters is `k` where `k` of them
/// stand before a character that is none.
proof fn lemma_leading_spaces_is(s: Seq<char>, k: int)
    requires
        0 <= k < s.len(),
        forall|j: int| 0 <= j < k ==> is_space(#[trigger] s[j]),
        !is_space(s[k]),
    ensures
        leading_spaces(s) == k,
    decreases k,
{
    if k > 0 {
        assert(is_space(s[0]));
        let t = s.skip(1);
        assert forall|j: int| 0 <= j < k - 1 implies is_space(#[trigger] t[j]) by {
            assert(t[j] == s[j + 1]);
        }
        assert(t[k - 1] == s[k]);
        lemma_leading_spaces_is(t, k - 1);
    }
}

/// The header that the keyword at `p` leaves of `x`.
spec fn header_of(x: Seq<char>, p: nat) -> Seq<char> {
    trim_end(x.take(p as int))
}

/// No keyword stands in the header as it is written, whatever text that
/// begins with `V` is written behind it.
proof fn lemma_no_early_keyword(x: Seq<char>, p: nat, w: Seq<char>, i: int)
    requires
        keyword_offset(x, ScanState::start(), false) == Some(p),
        w.len() > 0,
        w[0] == 'V',
        0 <= i < lead(header_of(x, p)).len(),
    ensures
        !starts_at(lead(header_of(x, p)) + w, ScanState::start(), false, i),
{
    let st = ScanState::start();
    let h = header_of(x, p);
    let y = lead(h) + w;
    let n = h.len() as int;
    lemma_keyword_first(x, st, false);
    lemma_trim_end_bound(x.take(p as int));
    assert(h.len() > 0);
    assert(lead(h) == h.push('\n'));
    assert(y[n] == '\n');
    assert forall|j: int| 0 <= j < n implies y[j] == x[j] by {
        assert(y[j] == h[j]);
        assert(h[j] == x.take(p as int)[j]);
    }
    let ys = y.skip(i);
    if i == n {
        assert(ys[0] == '\n');
    } else if starts_at(y, st, false, i) {
        let xs = x.skip(i);
        assert(y.take(i) =~= x.take(i));
        assert(word_before(y, false, i) == word_before(x, false, i));
        assert(keyword_at(ys));
        assert(ys[0] == y[i] && ys[1] == y[i + 1] && ys[2] == y[i + 2] && ys[3] == y[i + 3]
            && ys[4] == y[i + 4] && ys[5] == y[i + 5]);
        assert(i + 6 <= n);
        assert(xs[0] == x[i] && xs[1] == x[i + 1] && xs[2] == x[i + 2] && xs[3] == x[i + 3]
            && xs[4] == x[i + 4] && xs[5] == x[i + 5]);
        assert(keyword_at(xs));
        let yr = y.skip(i + 6);
        let xr = x.skip(i + 6);
        assert(ys.skip(6) =~= yr);
        assert(xs.skip(6) =~= xr);
        let k = leading_spaces(yr) as int;
        lemma_leading_spaces_bound(yr);
        assert(opens_row(yr));
        if i + 6 == n {
            assert(yr[0] == '\n');
            assert(yr[1] == 'V');
            lemma_leading_spaces_is(yr, 1);
            assert(false);
        } else {
            let e = n - 1 - (i + 6);
            assert(yr[e] == h.last());
            assert(!is_space(yr[e]));
            assert(k <= e);
            assert forall|j: int| 0 <= j <= k implies xr[j] == yr[j] by {
                assert(xr[j] == x[i + 6 + j]);
                assert(yr[j] == y[i + 6 + j]);
            }
            lemma_leading_spaces_is(xr, k);
            assert(opens_row(xr));
        }
        assert(starts_at(x, st, false, i));
        assert(false);
    }
}

/// A line feed behind a closed header leaves the scanner where a statement
/// may begin.
proof fn lemma_lead_is_plain(h: Seq<char>)
    requires
        closed(h, 0),
    ensures
        scan(lead(h), ScanState::start()).plain_at(0),
        !word_before(lead(h), false, lead(h).len() as int),
        trim_end(lead(h)) == trim_end(h),
{
    if h.len() > 0 {
        let nl = seq!['\n'];
        assert(lead(h) =~= h + nl);
        lemma_scan_concat(h, nl, ScanState::start());
        assert(all_space(nl));
        lemma_scan_spaces(nl, scan(h, ScanState::start()));
        lemma_trim_end_suffix(h, nl);
    }
}

/// What is written behind the header: the keyword on its line, the rows and
/// the tail.
/// What is written behind the header: the keyword on its line, the rows and
/// the tail.
spec fn written(rows: Seq<Seq<Seq<char>>>, gaps: Seq<Seq<char>>, tail: Seq<char>) -> Seq<char> {
    keyword().push('\n') + table_text(rows, gaps) + tail
}

/// The shape of what is written behind the header.
proof fn lemma_written_shape(rows: Seq<Seq<Seq<char>>>, gaps: Seq<Seq<char>>, tail: Seq<char>)
    requires
        rows.len() > 0,
    ensures
        written(rows, gaps, tail).len() > 6,
        keyword_at(written(rows, gaps, tail)),
        written(rows, gaps, tail)[0] == 'V',
        opens_row(written(rows, gaps, tail).skip(6)),
        leading_spaces(written(rows, gaps, tail).skip(6)) == 5,
        written(rows, gaps, tail).skip(11) == rows_from(rows, gaps, 0) + tail,
{
    let w = written(rows, gaps, tail);
    lemma_rows_from_unfold(rows, gaps, 0);
    assert(rows_from(rows, gaps, 0) == rows_text(rows, gaps, 0)) by {
        reveal(rows_from);
    }
    let open = rows_from(rows, gaps, 0) + tail;
    let white = seq!['\n'] + indent();
    assert(w =~= keyword() + white + open);
    assert(w.skip(6) =~= white + open);
    assert(all_space(white));
    lemma_leading_spaces_prefix(white, open);
    assert(open[0] == '(');
    assert(leading_spaces(open) == 0);
    assert(w.skip(6)[5] == '(');
    assert(w.skip(11) =~= open);
}

/// The keyword of a written statement is found just behind its header.
proof fn lemma_keyword_of_output(
    x: Seq<char>,
    p: nat,
    rows: Seq<Seq<Seq<char>>>,
    gaps: Seq<Seq<char>>,
    tail: Seq<char>,
)
    requires
        keyword_offset(x, ScanState::start(), false) == Some(p),
        closed(header_of(x, p), 0),
        rows.len() > 0,
    ensures
        keyword_offset(
            lead(header_of(x, p)) + written(rows, gaps, tail),
            ScanState::start(),
            false,
        ) == Some(lead(header_of(x, p)).len()),
{
    let st = ScanState::start();
    let l = lead(header_of(x, p));
    let w = written(rows, gaps, tail);
    let y = l + w;
    let m = l.len() as int;
    lemma_written_shape(rows, gaps, tail);
    lemma_lead_is_plain(header_of(x, p));
    assert forall|i: int| 0 <= i < m implies !#[trigger] starts_at(y, st, false, i) by {
        lemma_no_early_keyword(x, p, w, i);
    }
    assert(y.skip(m) =~= w);
    assert(y.take(m) =~= l);
    if m > 0 {
        assert(y[m - 1] == l[m - 1]);
    }
    assert(word_before(y, false, m) == word_before(l, false, m));
    assert(starts_at(y, st, false, m));
    lemma_keyword_found(y, st, false, m);
}

/// The rows of a written statement are read back as they were, and the
/// statement is written again as it is.
proof fn lemma_layout_of_output(
    header: Seq<char>,
    rows: Seq<Seq<Seq<char>>>,
    gaps: Seq<Seq<char>>,
    tail: Seq<char>,
    origin: Seq<char>,
)
    requires
        uniform(rows),
        all_closed(rows),
        table_quiet(rows),
        rows.len() == gaps.len() + 1,
        gaps_lead(gaps),
        next_row(origin) is None,
        tail_text(origin) == Some(tail),
    ensures
        flat_insert(header, written(rows, gaps, tail).skip(6)) == Some(
            statement_text(header, rows, gaps, tail),
        ),
{
    let body = written(rows, gaps, tail).skip(6);
    lemma_written_shape(rows, gaps, tail);
    lemma_tail_is_fixed(origin);
    assert forall|r: int| 0 <= r < rows.len() implies row_sound(#[trigger] rows[r])
        && rows[r].len() >= 1 by {
        assert(row_quiet(rows[r]));
        assert forall|c: int| 0 <= c < rows[r].len() implies sound(#[trigger] rows[r][c]) by {
            assert(closed(rows[r][c], 1));
        }
    }
    lemma_parse_rows(rows, gaps, 0, tail);
    lemma_rows_text_written(rows, gaps, 0);
    assert(rows.skip(0) =~= rows);
    assert(written_gaps(gaps).skip(0) =~= written_gaps(gaps));
    let open = rows_from(rows, gaps, 0);
    assert(body.skip(5) =~= open + tail);
    assert(body.skip((5 + open.len()) as int) =~= tail);
    assert(table_text(rows, written_gaps(gaps)) == table_text(rows, gaps));
}

/// A statement that has been formatted is its own formatted form.
#[verifier::rlimit(50)]
pub proof fn lemma_output_is_fixed(x: Seq<char>)
    ensures
        clause_output(clause_output(x)) == clause_output(x),
{
    let st = ScanState::start();
    lemma_clause_cut(x);
    match keyword_offset(x, st, false) {
        None => {},
        Some(p) => {
            let header = header_of(x, p);
            let body = x.skip(p + 6 as int);
            let a = leading_spaces(body);
            if closed(header, 0) {
                match table_rows(body.skip(a as int)) {
                    None => {},
                    Some((rows, gaps, n)) => {
                        let origin = body.skip((a + n) as int);
                        match tail_text(origin) {
                            None => {},
                            Some(tail) => {
                                if uniform(rows) && all_closed(rows) {
                                    let y = statement_text(header, rows, gaps, tail);
                                    assert(flat_clause(x) == Some(y));
                                    let l = lead(header);
                                    let w = written(rows, gaps, tail);
                                    assert(y =~= l + w);
                                    lemma_table_rows_facts(body.skip(a as int));
                                    lemma_leading_spaces_bound(body);
                                    assert(body.skip(a as int).skip(n as int) =~= origin);
                                    lemma_keyword_of_output(x, p, rows, gaps, tail);
                                    lemma_lead_is_plain(header);
                                    lemma_trim_end_bound(x.take(p as int));
                                    assert(y.take(l.len() as int) =~= l);
                                    assert(trim_end(header) == header);
                                    assert(y.skip(l.len() + 6 as int) =~= w.skip(6));
                                    lemma_layout_of_output(header, rows, gaps, tail, origin);
                                    assert(flat_clause(y) == Some(y));
                                    lemma_clause_cut(y);
                                    assert(clause_layout(y) is None || clause_layout(y) == Some(
                                        y,
                                    ));
                                }
                            },
                        }
                    },
                }
            }
        },
    }
}

} // verus!
