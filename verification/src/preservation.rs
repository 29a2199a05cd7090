//! The proof that formatting a statement changes white space only: what is
//! written holds the visible characters of what it stands for.

use crate::classify::ColumnKind;
use crate::clause::{
    clause_cut, insert_cut, keyword, keyword_offset, lead, lemma_insert_cut_bound,
    lemma_keyword_offset_bound, lemma_row_fields_len, lemma_table_rows_len, tail_cut,
};
use crate::idempotence::{join_from, lemma_join_is_join_from};
use crate::render::{
    cell, cell_gap, cells, gap_plain, gap_text, indent, kinds_of, row_gap, row_text, rows_text,
    widths_of,
};
use crate::scan::ScanState;
use crate::segment::{
    field_len, lemma_field_len_bound, lemma_trivia_len_bound, next_row, row_fields, table_rows,
    trivia_len,
};
use crate::text::{
    blanks, is_blank, is_space, leading_spaces, lemma_leading_spaces_bound, lemma_trim_end_bound,
    lemma_visible_concat, lemma_visible_spaces, lemma_visible_trim, trim, trim_end, visible,
};
use vstd::prelude::*;

verus! {

/// One visible character is all that is visible of it.
proof fn lemma_visible_one(c: char)
    requires
        !is_space(c),
    ensures
        visible(seq![c]) == seq![c],
{
    let s = seq![c];
    let e = s.drop_last();
    assert(e =~= Seq::<char>::empty());
    assert(visible(e) == e);
    assert(s.last() == c);
    assert(e.push(c) =~= s);
}

/// A value is visible in its cell as it is outside it.
proof fn lemma_visible_cell(v: Seq<char>, kind: ColumnKind, width: nat)
    ensures
        visible(cell(v, kind, width)) == visible(v),
{
    let pad = blanks((width - v.len()) as nat);
    lemma_visible_spaces(pad);
    lemma_visible_concat(v, pad);
    lemma_visible_concat(pad, v);
    assert(visible(v) + visible(pad) =~= visible(v));
    assert(visible(pad) + visible(v) =~= visible(v));
}

/// What is visible of a row: its values, a comma between each two, and the
/// closing parenthesis.
spec fn row_visible(values: Seq<Seq<char>>) -> Seq<char>
    decreases values.len(),
{
    if values.len() <= 1 {
        visible(values[0]).push(')')
    } else {
        visible(values[0]).push(',') + row_visible(values.skip(1))
    }
}

/// What the segmenter reads as a row is visible as its values are.
proof fn lemma_row_read(s: Seq<char>)
    ensures
        row_fields(s) matches Some((values, n)) ==> n <= s.len() && values.len() >= 1 && visible(
            s.take(n as int),
        ) == row_visible(values),
    decreases s.len(),
{
    lemma_field_len_bound(s, ScanState::at_depth(1));
    lemma_row_fields_len(s);
    match field_len(s, ScanState::at_depth(1)) {
        None => {},
        Some(m) => {
            let raw = s.take(m as int);
            let c = s[m as int];
            lemma_visible_trim(raw);
            lemma_visible_one(c);
            if c == ')' {
                assert(s.take(m + 1 as int) =~= raw + seq![c]);
                lemma_visible_concat(raw, seq![c]);
                assert(visible(raw) + seq![c] =~= visible(raw).push(c));
            } else {
                let t = s.skip(m + 1 as int);
                lemma_row_read(t);
                match row_fields(t) {
                    None => {},
                    Some((more, k)) => {
                        let values = seq![trim(raw)] + more;
                        let n = m + 1 + k;
                        assert(values.skip(1) =~= more);
                        assert(s.take(n as int) =~= raw + seq![c] + t.take(k as int));
                        lemma_visible_concat(raw + seq![c], t.take(k as int));
                        lemma_visible_concat(raw, seq![c]);
                        assert(visible(raw) + seq![c] =~= visible(raw).push(c));
                    },
                }
            }
        },
    }
}

/// A row as it is written is visible as its values are.
proof fn lemma_row_written(row: Seq<Seq<char>>, kinds: Seq<ColumnKind>, widths: Seq<nat>, k: int)
    requires
        0 <= k < row.len(),
    ensures
        visible(join_from(cells(row, kinds, widths), cell_gap(), k).push(')')) == row_visible(
            row.skip(k),
        ),
    decreases row.len() - k,
{
    let fs = cells(row, kinds, widths);
    let f = fs[k];
    lemma_visible_cell(row[k], kinds[k], widths[k]);
    lemma_visible_one(')');
    lemma_visible_one(',');
    assert(row.skip(k)[0] == row[k]);
    if k == row.len() - 1 {
        assert(f.push(')') =~= f + seq![')']);
        lemma_visible_concat(f, seq![')']);
        assert(visible(f) + seq![')'] =~= visible(f).push(')'));
    } else {
        let rest = join_from(fs, cell_gap(), k + 1);
        lemma_row_written(row, kinds, widths, k + 1);
        assert(row.skip(k).skip(1) =~= row.skip(k + 1));
        assert(join_from(fs, cell_gap(), k).push(')') =~= f + cell_gap() + rest.push(')'));
        lemma_visible_concat(f + cell_gap(), rest.push(')'));
        lemma_visible_concat(f, cell_gap());
        assert(cell_gap() =~= seq![','] + seq![' ']);
        lemma_visible_concat(seq![','], seq![' ']);
        assert(all_blank(seq![' ']));
        lemma_visible_spaces(seq![' ']);
        assert(visible(cell_gap()) =~= seq![',']);
        assert(visible(f) + seq![','] =~= visible(f).push(','));
    }
}

spec fn all_blank(s: Seq<char>) -> bool {
    forall|i: int| 0 <= i < s.len() ==> is_space(#[trigger] s[i])
}

/// What is visible of a table: its rows and the gaps between them.
spec fn table_visible(rows: Seq<Seq<Seq<char>>>, gaps: Seq<Seq<char>>) -> Seq<char>
    decreases rows.len(),
{
    if rows.len() <= 1 {
        seq!['('] + row_visible(rows[0])
    } else {
        seq!['('] + row_visible(rows[0]) + visible(gaps[0]) + table_visible(
            rows.skip(1),
            gaps.skip(1),
        )
    }
}

/// White space and comments that hold white space and commas only are white
/// space.
proof fn lemma_plain_trivia(s: Seq<char>, a: nat)
    requires
        a == trivia_len(s, ScanState::start()),
        forall|i: int| 0 <= i < a ==> is_space(#[trigger] s[i]) || s[i] == ',',
    ensures
        a <= s.len(),
        all_blank(s.take(a as int)),
    decreases s.len(),
{
    lemma_trivia_len_bound(s, ScanState::start());
    if a > 0 {
        let st = ScanState::start();
        assert(is_space(s[0]) || s[0] == ',');
        assert(is_space(s[0]));
        assert(st.next(s[0]) == st);
        let t = s.skip(1);
        assert forall|i: int| 0 <= i < a - 1 implies is_space(#[trigger] t[i]) || t[i] == ',' by {
            assert(t[i] == s[i + 1]);
        }
        lemma_plain_trivia(t, (a - 1) as nat);
        assert forall|i: int| 0 <= i < a implies is_space(#[trigger] s.take(a as int)[i]) by {
            if i > 0 {
                assert(s.take(a as int)[i] == t.take(a - 1)[i - 1]);
            }
        }
    }
}

/// A gap is visible as it is written as it was visible before.
proof fn lemma_gap_written(s: Seq<char>)
    ensures
        next_row(s) matches Some(b) ==> visible(gap_text(s.take(b as int))) == visible(
            s.take(b as int),
        ),
{
    match next_row(s) {
        None => {},
        Some(b) => {
            let gap = s.take(b as int);
            if gap_plain(gap) {
                let st = ScanState::start();
                let a = trivia_len(s, st);
                let t = s.skip(a + 1 as int);
                let c = trivia_len(t, st);
                assert forall|i: int| 0 <= i < a implies is_space(#[trigger] s[i]) || s[i]
                    == ',' by {
                    assert(s[i] == gap[i]);
                }
                lemma_plain_trivia(s, a);
                assert forall|i: int| 0 <= i < c implies is_space(#[trigger] t[i]) || t[i]
                    == ',' by {
                    assert(t[i] == gap[a + 1 + i]);
                }
                lemma_plain_trivia(t, c);
                let before = s.take(a as int);
                let behind = t.take(c as int);
                assert(gap =~= before + seq![','] + behind);
                lemma_visible_spaces(before);
                lemma_visible_spaces(behind);
                lemma_visible_one(',');
                lemma_visible_concat(before + seq![','], behind);
                lemma_visible_concat(before, seq![',']);
                assert(visible(gap) =~= seq![',']);
                let white = seq!['\n', ' ', ' ', ' ', ' '];
                assert(row_gap() =~= seq![','] + white);
                assert(all_blank(white));
                lemma_visible_spaces(white);
                lemma_visible_concat(seq![','], white);
                assert(visible(row_gap()) =~= seq![',']);
            }
        },
    }
}

/// Whether every gap is visible as it is written as it was visible before.
spec fn gaps_kept(gaps: Seq<Seq<char>>) -> bool {
    forall|k: int| 0 <= k < gaps.len() ==> visible(gap_text(#[trigger] gaps[k])) == visible(gaps[k])
}

/// Whether every row has a value.
spec fn rows_filled(rows: Seq<Seq<Seq<char>>>) -> bool {
    forall|r: int| 0 <= r < rows.len() ==> (#[trigger] rows[r]).len() >= 1
}

/// What the segmenter reads as a table is visible as its rows and gaps are.
#[verifier::rlimit(30)]
proof fn lemma_table_read(s: Seq<char>)
    ensures
        table_rows(s) matches Some((rows, gaps, n)) ==> n <= s.len() && rows.len() == gaps.len()
            + 1 && gaps_kept(gaps) && rows_filled(rows) && visible(s.take(n as int))
            == table_visible(rows, gaps),
    decreases s.len(),
{
    lemma_table_rows_len(s);
    if s.len() > 0 && s[0] == '(' {
        let r = s.skip(1);
        lemma_row_read(r);
        lemma_visible_one('(');
        match row_fields(r) {
            None => {},
            Some((values, m)) => {
                let used = 1 + m;
                let sx = s.skip(used as int);
                let head = s.take(used as int);
                assert(head =~= seq!['('] + r.take(m as int));
                lemma_visible_concat(seq!['('], r.take(m as int));
                match next_row(sx) {
                    None => {
                        assert(seq![values][0] == values);
                    },
                    Some(b) => {
                        if used + b < s.len() {
                            let t = s.skip((used + b) as int);
                            lemma_table_read(t);
                            lemma_gap_written(sx);
                            match table_rows(t) {
                                None => {},
                                Some((more, between, k)) => {
                                    let gap = s.subrange(used as int, (used + b) as int);
                                    let rows = seq![values] + more;
                                    let gaps = seq![gap] + between;
                                    let n = used + b + k;
                                    assert(gap =~= sx.take(b as int));
                                    assert(rows.skip(1) =~= more);
                                    assert(gaps.skip(1) =~= between);
                                    assert(s.take(n as int) =~= head + gap + t.take(k as int));
                                    lemma_visible_concat(head + gap, t.take(k as int));
                                    lemma_visible_concat(head, gap);
                                    assert forall|i: int| 0 <= i < gaps.len() implies visible(
                                        gap_text(#[trigger] gaps[i]),
                                    ) == visible(gaps[i]) by {
                                        if i > 0 {
                                            assert(gaps[i] == between[i - 1]);
                                        }
                                    }
                                    assert forall|i: int| 0 <= i < rows.len() implies (
                                    #[trigger] rows[i]).len() >= 1 by {
                                        if i > 0 {
                                            assert(rows[i] == more[i - 1]);
                                        }
                                    }
                                },
                            }
                        }
                    },
                }
            },
        }
    }
}

/// The rows from `k` on as they are written are visible as the rows and gaps
/// from `k` on are.
proof fn lemma_table_written(rows: Seq<Seq<Seq<char>>>, gaps: Seq<Seq<char>>, k: int)
    requires
        0 <= k < rows.len(),
        rows.len() == gaps.len() + 1,
        gaps_kept(gaps),
        rows_filled(rows),
    ensures
        visible(rows_text(rows, gaps, k)) == table_visible(rows.skip(k), gaps.skip(k)),
    decreases rows.len() - k,
{
    let kinds = kinds_of(rows);
    let widths = widths_of(rows);
    let row = rows[k];
    let fs = cells(row, kinds, widths);
    let written = row_text(row, kinds, widths);
    assert(row.len() >= 1);
    lemma_join_is_join_from(fs, cell_gap());
    lemma_row_written(row, kinds, widths, 0);
    assert(row.skip(0) =~= row);
    lemma_visible_one('(');
    assert(written =~= seq!['('] + join_from(fs, cell_gap(), 0).push(')'));
    lemma_visible_concat(seq!['('], join_from(fs, cell_gap(), 0).push(')'));
    assert(rows.skip(k)[0] == row);
    if k < rows.len() - 1 {
        lemma_table_written(rows, gaps, k + 1);
        let sep = gap_text(gaps[k]);
        let rest = rows_text(rows, gaps, k + 1);
        assert(rows.skip(k).skip(1) =~= rows.skip(k + 1));
        assert(gaps.skip(k).skip(1) =~= gaps.skip(k + 1));
        assert(gaps.skip(k)[0] == gaps[k]);
        lemma_visible_concat(written + sep, rest);
        lemma_visible_concat(written, sep);
    }
}

/// The end of the clause as it is written is visible as what it stands for,
/// but for the semicolon that is written where the text ends without one.
proof fn lemma_tail_written(s: Seq<char>)
    ensures
        tail_cut(s) matches Some((head, used)) ==> used <= s.len() && (visible(head) == visible(
            s.take(used as int),
        ) || (used == s.len() && visible(head) == visible(s.take(used as int)).push(';'))),
{
    let a = trivia_len(s, ScanState::start());
    lemma_trivia_len_bound(s, ScanState::start());
    match tail_cut(s) {
        None => {},
        Some((head, used)) => {
            if a >= s.len() {
                assert(s.take(s.len() as int) =~= s);
                if is_blank(s) {
                    lemma_leading_spaces_bound(s);
                    lemma_visible_spaces(s);
                    lemma_visible_one(';');
                    assert(visible(s).push(';') =~= seq![';']);
                }
            } else if is_blank(s.take(a as int)) {
                let before = s.take(a as int);
                let c = s[a as int];
                lemma_leading_spaces_bound(before);
                lemma_visible_spaces(before);
                lemma_visible_one(c);
                assert(s.take(a + 1 as int) =~= before + seq![c]);
                lemma_visible_concat(before, seq![c]);
                assert(visible(before) + seq![c] =~= seq![c]);
            }
        },
    }
}

/// A text without white space is all visible.
proof fn lemma_visible_all(s: Seq<char>)
    requires
        forall|i: int| 0 <= i < s.len() ==> !is_space(#[trigger] s[i]),
    ensures
        visible(s) == s,
    decreases s.len(),
{
    if s.len() > 0 {
        let t = s.drop_last();
        assert forall|i: int| 0 <= i < t.len() implies !is_space(#[trigger] t[i]) by {
            assert(t[i] == s[i]);
        }
        lemma_visible_all(t);
        assert(t.push(s.last()) =~= s);
    }
}

/// The header and the keyword as they are written are visible as the header
/// was, with the keyword in capitals.
proof fn lemma_lead_written(raw: Seq<char>)
    ensures
        visible(lead(trim_end(raw)) + keyword().push('\n') + indent()) == visible(raw)
            + keyword(),
{
    let header = trim_end(raw);
    lemma_trim_end_bound(raw);
    let rest = raw.skip(header.len() as int);
    assert(raw =~= header + rest);
    assert forall|i: int| 0 <= i < rest.len() implies is_space(#[trigger] rest[i]) by {
        assert(rest[i] == raw[header.len() + i]);
    }
    lemma_visible_spaces(rest);
    lemma_visible_concat(header, rest);
    assert(visible(header) + visible(rest) =~= visible(header));
    let nl = seq!['\n'];
    assert(all_blank(nl));
    lemma_visible_spaces(nl);
    lemma_visible_concat(header, nl);
    assert(header.push('\n') =~= header + nl);
    assert(visible(header) + visible(nl) =~= visible(header));
    assert(visible(lead(header)) == visible(raw));
    lemma_visible_all(keyword());
    let white = nl + indent();
    assert(all_blank(white));
    lemma_visible_spaces(white);
    assert(keyword().push('\n') + indent() =~= keyword() + white);
    lemma_visible_concat(keyword(), white);
    assert(visible(keyword()) + visible(white) =~= keyword());
    assert(lead(header) + keyword().push('\n') + indent() =~= lead(header) + (keyword() + white));
    lemma_visible_concat(lead(header), keyword() + white);
}

/// What is written behind the header holds the visible characters of what
/// it stands for, but for the semicolon that is written where the text ends
/// without one.
#[verifier::rlimit(50)]
proof fn lemma_body_written(header: Seq<char>, body: Seq<char>)
    ensures
        insert_cut(header, body) matches Some((head, used)) ==> {
            let front = lead(header) + keyword().push('\n') + indent();
            let kept = visible(front) + visible(body.take(used as int));
            &&& used <= body.len()
            &&& (visible(head) == kept || (used == body.len() && visible(head) == kept.push(';')))
        },
{
    let a = leading_spaces(body);
    lemma_insert_cut_bound(header, body);
    lemma_leading_spaces_bound(body);
    let s = body.skip(a as int);
    lemma_table_read(s);
    match table_rows(s) {
        None => {},
        Some((rows, gaps, n)) => {
            let origin = body.skip((a + n) as int);
            lemma_tail_written(origin);
            match tail_cut(origin) {
                None => {},
                Some((tail, c)) => {
                    if insert_cut(header, body) is Some {
                        let cut = insert_cut(header, body)->0;
                        let head = cut.0;
                        let used = a + n + c;
                        let front = lead(header) + keyword().push('\n') + indent();
                        let table = rows_text(rows, gaps, 0);
                        lemma_table_written(rows, gaps, 0);
                        assert(rows.skip(0) =~= rows);
                        assert(gaps.skip(0) =~= gaps);
                        assert(head =~= front + table + tail);
                        lemma_parts_visible(front, table, tail);
                        let white = body.take(a as int);
                        assert forall|i: int| 0 <= i < white.len() implies is_space(
                            #[trigger] white[i],
                        ) by {
                            assert(white[i] == body[i]);
                        }
                        lemma_visible_spaces(white);
                        assert(body.take(used as int) =~= white + s.take(n as int) + origin.take(
                            c as int,
                        ));
                        lemma_parts_visible(white, s.take(n as int), origin.take(c as int));
                        let kept = visible(front) + visible(body.take(used as int));
                        if visible(tail) == visible(origin.take(c as int)) {
                            assert(visible(head) =~= kept);
                        } else {
                            assert(visible(head) =~= kept.push(';'));
                        }
                    }
                },
            }
        },
    }
}

/// Three texts in a row are visible as each of them is.
proof fn lemma_parts_visible(a: Seq<char>, b: Seq<char>, c: Seq<char>)
    ensures
        visible(a + b + c) == visible(a) + visible(b) + visible(c),
{
    lemma_visible_concat(a + b, c);
    lemma_visible_concat(a, b);
}

/// What is written in place of a statement holds the visible characters of
/// what it stands for: those of the header, the keyword in capitals, and
/// those of the rows and the end of the clause; and the semicolon behind
/// them that is written where the text ends without one.
pub proof fn lemma_cut_is_visible(text: Seq<char>)
    ensures
        clause_cut(text) matches Some((head, used)) ==> {
            let p = keyword_offset(text, ScanState::start(), false)->0;
            let kept = visible(text.take(p as int)) + keyword() + visible(
                text.subrange(p + 6 as int, used as int),
            );
            &&& p + 6 <= used <= text.len()
            &&& (visible(head) == kept || (used == text.len() && visible(head) == kept.push(';')))
        },
{
    let st = ScanState::start();
    lemma_keyword_offset_bound(text, st, false);
    match clause_cut(text) {
        None => {},
        Some((head, used)) => {
            let p = keyword_offset(text, st, false)->0;
            let raw = text.take(p as int);
            let header = trim_end(raw);
            let body = text.skip(p + 6 as int);
            lemma_body_written(header, body);
            lemma_lead_written(raw);
            let c = (used - p - 6) as nat;
            assert(body.take(c as int) =~= text.subrange(p + 6 as int, used as int));
            let kept = visible(raw) + keyword() + visible(body.take(c as int));
            assert(kept.push(';') =~= visible(raw) + keyword() + visible(body.take(c as int)).push(
                ';',
            ));
        },
    }
}

} // verus!
