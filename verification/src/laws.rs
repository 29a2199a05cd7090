//! What holds of the formatter for every input, stated over the functions
//! that specify it.

use crate::classify::{column_kind, ColumnKind};
use crate::clause::{
    body_rows, clause_cut, clause_layout, clause_output, clause_rows, insert_layout, keyword,
    keyword_offset,
};
use crate::document::{
    edited, inserts_output, matches_output, pattern_of, spliced, Change, StatementKind,
};
use crate::idempotence::lemma_output_is_fixed;
use crate::locate::{captures_of, INSERT_PATTERN};
use crate::preservation::lemma_cut_is_visible;
use crate::render::{cell, column_width, lemma_width_upto_covers, uniform};
use crate::scan::{lemma_scan_well_formed, scan, ScanState};
use crate::text::{
    blanks, lemma_visible_concat, lemma_visible_spaces, lemma_visible_trim, trim, visible,
};
use vstd::prelude::*;

verus! {

/// Content is preserved: a value as it is written in its column holds the
/// same characters other than white space, in the same order, as the text
/// that stood between its separators in the input. Their multisets are
/// therefore equal too.
pub proof fn law_content_preserved(raw: Seq<char>, kind: ColumnKind, width: nat)
    ensures
        visible(cell(trim(raw), kind, width)) == visible(raw),
        visible(cell(trim(raw), kind, width)).to_multiset() == visible(raw).to_multiset(),
{
    let v = trim(raw);
    lemma_visible_trim(raw);
    let pad = blanks((width - v.len()) as nat);
    lemma_visible_spaces(pad);
    lemma_visible_concat(v, pad);
    lemma_visible_concat(pad, v);
    assert(visible(v) + visible(pad) =~= visible(v));
    assert(visible(pad) + visible(v) =~= visible(v));
}

/// The width invariant: in a table whose rows have the same number of
/// values, a value written in a column that is no function call or
/// expression is exactly as long as the column's width, which no value of
/// the column exceeds; in a column of function calls or expressions it is
/// written as it was found.
pub proof fn law_width(rows: Seq<Seq<Seq<char>>>, r: int, c: int)
    requires
        uniform(rows),
        0 <= r < rows.len(),
        0 <= c < rows[0].len(),
    ensures
        rows[r][c].len() <= column_width(rows, c),
        column_kind(rows, c) != ColumnKind::FunctionOrExpression ==> cell(
            rows[r][c],
            column_kind(rows, c),
            column_width(rows, c),
        ).len() == column_width(rows, c),
        column_kind(rows, c) == ColumnKind::FunctionOrExpression ==> cell(
            rows[r][c],
            column_kind(rows, c),
            column_width(rows, c),
        ) == rows[r][c],
{
    lemma_width_upto_covers(rows, c, rows.len(), r);
}

/// Ragged rows are left alone: where two rows behind the keyword differ in
/// their number of values, no layout is given for the statement.
pub proof fn law_ragged_rows_unchanged(header: Seq<char>, body: Seq<char>, r1: int, r2: int)
    requires
        body_rows(body) matches Some(rows) && 0 <= r1 < rows.len() && 0 <= r2 < rows.len()
            && rows[r1].len() != rows[r2].len(),
    ensures
        insert_layout(header, body) is None,
{
}

/// Ragged rows are left alone: where two rows of the clause of `text` differ
/// in their number of values, the output is `text` itself.
pub proof fn law_ragged_clause_unchanged(text: Seq<char>, r1: int, r2: int)
    requires
        clause_rows(text) matches Some(rows) && 0 <= r1 < rows.len() && 0 <= r2 < rows.len()
            && rows[r1].len() != rows[r2].len(),
    ensures
        clause_layout(text) is None,
        clause_output(text) == text,
{
}

/// A text without a clause keyword is left alone.
pub proof fn law_no_clause_unchanged(text: Seq<char>)
    requires
        keyword_offset(text, ScanState::start(), false) is None,
    ensures
        clause_layout(text) is None,
        clause_output(text) == text,
{
}

/// Formatting is idempotent: formatting the output of the formatter again
/// changes nothing, whatever the input was.
pub proof fn law_idempotent(text: Seq<char>)
    ensures
        clause_output(clause_output(text)) == clause_output(text),
{
    lemma_output_is_fixed(text);
}

/// A document in which the locator finds no `INSERT` statement is left
/// alone.
pub proof fn law_no_insert_unchanged(sql: Seq<char>)
    requires
        captures_of(INSERT_PATTERN@, sql) matches Some(found) ==> found.len() == 0,
    ensures
        inserts_output(sql) == sql,
{
}

/// A document in which the locator finds no statement of a kind is left
/// alone by the formatting of that kind.
pub proof fn law_no_match_unchanged(kind: StatementKind, sql: Seq<char>)
    requires
        captures_of(pattern_of(kind), sql) matches Some(found) ==> found.len() == 0,
    ensures
        matches_output(kind, sql) == sql,
{
}

/// The contexts of the scanner shut each other out: in every state that a
/// scan of a text reaches, no two of string, line comment and block comment
/// are open at once, and a string delimiter is held while a string is open
/// and only then.
pub proof fn law_contexts_exclusive(text: Seq<char>, i: int)
    requires
        0 <= i <= text.len(),
    ensures
        scan(text.take(i), ScanState::start()).well_formed(),
{
    lemma_scan_well_formed(text.take(i), ScanState::start());
}

/// Replacements keep their place: of two replacements that do not overlap,
/// each stands where its span stood, with the text before, between and
/// behind them as it was, whatever the lengths of the new texts.
pub proof fn law_replacements_keep_their_place(text: Seq<char>, first: Change, second: Change)
    requires
        first.0 <= first.1 <= second.0 <= second.1 <= text.len(),
    ensures
        edited(text, seq![Some(first), Some(second)]) == text.take(first.0 as int) + first.2
            + text.subrange(first.1 as int, second.0 as int) + second.2 + text.skip(
            second.1 as int,
        ),
{
    let both = seq![Some(first), Some(second)];
    let one = both.drop_last();
    let none = one.drop_last();
    let empty = Seq::<char>::empty();
    assert(both.last() == Some(second));
    assert(one.last() == Some(first));
    assert(none.len() == 0);
    let behind = second.2 + text.subrange(second.1 as int, text.len() as int) + empty;
    let middle = first.2 + text.subrange(first.1 as int, second.0 as int) + behind;
    assert(edited(text, both) == spliced(text, one, second.0, behind));
    assert(spliced(text, one, second.0, behind) == spliced(text, none, first.0, middle));
    assert(text.take(first.0 as int) + middle =~= text.take(first.0 as int) + first.2
        + text.subrange(first.1 as int, second.0 as int) + second.2 + text.skip(second.1 as int));
}

/// Formatting changes white space only: what is written in place of a
/// statement holds the characters other than white space of what it stands
/// for, in the same order: those before the keyword, the keyword in
/// capitals, and those behind it up to the end of the clause. Behind them
/// stands at most the semicolon that is written where the text ends without
/// one.
pub proof fn law_white_space_only(text: Seq<char>)
    ensures
        clause_cut(text) matches Some((head, used)) ==> {
            let p = keyword_offset(text, ScanState::start(), false)->0;
            let kept = visible(text.take(p as int)) + keyword() + visible(
                text.subrange(p + 6 as int, used as int),
            );
            &&& p + 6 <= used <= text.len()
            &&& (visible(head) == kept || (used == text.len() && visible(head) == kept.push(';')))
        },
{
    lemma_cut_is_visible(text);
}

} // verus!
