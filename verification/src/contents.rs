//! The contents of lists and statements are kept: a list or a `SELECT`,
//! `UPDATE` or `CREATE TABLE` statement that is written anew holds the
//! characters other than white space that it held before, in the same order.

use crate::create::{
    after_name, blank_offset, column_parts, create_text, definition_text, definition_texts,
    first_match, has_empty, is_constraint, names_upto, parts_with, type_split, types_upto,
};
use crate::idempotence::{join_from, lemma_join_is_join_from};
use crate::lists::{
    equals_offset, item_len, items_closed, lemma_equals_offset_bound, list_items, list_text,
};
use crate::locate::{captures_of, char_span, lemma_chars_within_bound, TYPE_PATTERN};
use crate::scan::ScanState;
use crate::statements::{
    assignment, assignments, hung, labelled, select_text, set_text, update_text,
};
use crate::text::{
    blanks, is_space, join, lemma_trim_end_bound, lemma_visible_concat, lemma_visible_spaces,
    lemma_visible_trim, pad_end, trim, trim_end, visible,
};
use vstd::prelude::*;

verus! {

/// What is visible of a list: its items, a comma between each two.
spec fn items_visible(items: Seq<Seq<char>>) -> Seq<char>
    decreases items.len(),
{
    if items.len() <= 1 {
        visible(items[0])
    } else {
        visible(items[0]).push(',') + items_visible(items.skip(1))
    }
}

/// An item ends at a comma or with the list.
proof fn lemma_item_ends(s: Seq<char>, st: ScanState)
    ensures
        item_len(s, st) <= s.len(),
        item_len(s, st) < s.len() ==> s[item_len(s, st) as int] == ',',
    decreases s.len(),
{
    if !(s.len() == 0 || (st.plain_at(0) && s[0] == ',')) {
        lemma_item_ends(s.skip(1), st.next(s[0]));
    }
}

/// One comma is all that is visible of it.
proof fn lemma_visible_comma()
    ensures
        visible(seq![',']) == seq![','],
{
    let s = seq![','];
    let e = s.drop_last();
    assert(e =~= Seq::<char>::empty());
    assert(visible(e) == e);
    assert(s.last() == ',');
    assert(e.push(',') =~= s);
}

/// A list is visible as its items are.
proof fn lemma_list_read(s: Seq<char>)
    ensures
        list_items(s).len() >= 1,
        visible(s) == items_visible(list_items(s)),
    decreases s.len(),
{
    let n = item_len(s, ScanState::start());
    lemma_item_ends(s, ScanState::start());
    if n >= s.len() {
        lemma_visible_trim(s);
    } else {
        let raw = s.take(n as int);
        let t = s.skip(n + 1 as int);
        lemma_list_read(t);
        lemma_visible_trim(raw);
        lemma_visible_comma();
        let items = seq![trim(raw)] + list_items(t);
        assert(items.skip(1) =~= list_items(t));
        assert(s =~= raw + seq![','] + t);
        lemma_visible_concat(raw + seq![','], t);
        lemma_visible_concat(raw, seq![',']);
        assert(visible(raw) + seq![','] =~= visible(raw).push(','));
    }
}

/// Items that are written so that each is visible as it was, with a
/// separator between them of which a comma is all that is visible, are
/// visible as the list was.
proof fn lemma_list_written(items: Seq<Seq<char>>, shown: Seq<Seq<char>>, sep: Seq<char>, k: int)
    requires
        0 <= k < items.len(),
        shown.len() == items.len(),
        forall|i: int| 0 <= i < items.len() ==> visible(#[trigger] shown[i]) == visible(items[i]),
        visible(sep) == seq![','],
    ensures
        visible(join_from(shown, sep, k)) == items_visible(items.skip(k)),
    decreases items.len() - k,
{
    assert(items.skip(k)[0] == items[k]);
    assert(visible(shown[k]) == visible(items[k]));
    if k < items.len() - 1 {
        lemma_list_written(items, shown, sep, k + 1);
        let rest = join_from(shown, sep, k + 1);
        assert(items.skip(k).skip(1) =~= items.skip(k + 1));
        lemma_visible_concat(shown[k] + sep, rest);
        lemma_visible_concat(shown[k], sep);
        assert(visible(shown[k]) + seq![','] =~= visible(shown[k]).push(','));
    }
}

/// A list that is written anew holds the visible characters that it held.
pub proof fn law_list_keeps_contents(s: Seq<char>, sep: Seq<char>)
    requires
        visible(sep) == seq![','],
    ensures
        visible(list_text(s, sep)) == visible(s),
{
    let items = list_items(s);
    lemma_list_read(s);
    lemma_join_is_join_from(items, sep);
    lemma_list_written(items, items, sep, 0);
    assert(items.skip(0) =~= items);
}

/// An indent before a list changes nothing that is visible.
proof fn lemma_hung_kept(list: Seq<char>, indent: Seq<char>)
    requires
        forall|i: int| 0 <= i < indent.len() ==> is_space(#[trigger] indent[i]),
    ensures
        visible(hung(list, indent)) == visible(list),
{
    lemma_visible_spaces(indent);
    lemma_visible_concat(indent, list);
    assert(visible(indent) + visible(list) =~= visible(list));
}

/// An assignment with its `=` aligned is visible as it was.
proof fn lemma_assignment_kept(item: Seq<char>, width: nat)
    ensures
        visible(assignment(item, width)) == visible(item),
{
    lemma_equals_offset_bound(item, ScanState::start());
    match equals_offset(item, ScanState::start()) {
        None => {},
        Some(e) => {
            let name = item.take(e as int);
            let value = item.skip(e as int);
            let pad = blanks((width - name.len()) as nat);
            assert(item =~= name + value);
            lemma_visible_concat(name, value);
            lemma_visible_spaces(pad);
            lemma_visible_concat(name, pad);
            assert(visible(name) + visible(pad) =~= visible(name));
            lemma_visible_concat(name + pad, value);
        },
    }
}

/// The list of assignments as it is written holds the visible characters
/// that it held.
pub proof fn law_assignments_keep_contents(s: Seq<char>)
    ensures
        visible(set_text(s)) == visible(s),
{
    let items = list_items(s);
    let shown = assignments(items);
    lemma_list_read(s);
    assert forall|i: int| 0 <= i < items.len() implies visible(#[trigger] shown[i]) == visible(
        items[i],
    ) by {
        lemma_assignment_kept(items[i], crate::statements::name_width(items));
    }
    reveal_strlit("\n  ");
    reveal_strlit(",\n  ");
    let sep = ",\n  "@;
    let lead = "\n  "@;
    let white = seq!['\n', ' ', ' '];
    assert(lead =~= white);
    assert(sep =~= seq![','] + white);
    lemma_visible_spaces(white);
    lemma_visible_comma();
    lemma_visible_concat(seq![','], white);
    assert(visible(sep) =~= seq![',']);
    lemma_join_is_join_from(shown, sep);
    lemma_list_written(items, shown, sep, 0);
    assert(items.skip(0) =~= items);
    lemma_visible_concat(lead, join(shown, sep));
    assert(visible(lead) + visible(join(shown, sep)) =~= visible(join(shown, sep)));
    if items.len() == 1 {
        assert(items_visible(items) == visible(items[0]));
    }
}

/// Four texts in a row are visible as each of them is.
proof fn lemma_visible_four(a: Seq<char>, b: Seq<char>, c: Seq<char>, d: Seq<char>)
    ensures
        visible(a + b + c + d) == visible(a) + visible(b) + visible(c) + visible(d),
{
    lemma_visible_concat(a + b + c, d);
    lemma_visible_concat(a + b, c);
    lemma_visible_concat(a, b);
}

/// A `SELECT` statement as it is written holds the visible characters of
/// its parts, each clause behind its keyword.
pub proof fn law_select_keeps_contents(
    select_keyword: Seq<char>,
    columns: Seq<char>,
    from_keyword: Seq<char>,
    tables: Seq<char>,
    where_clause: Seq<char>,
    group_by: Seq<char>,
    having: Seq<char>,
    order_by: Seq<char>,
    limit: Seq<char>,
    offset_val: Seq<char>,
    terminator: Seq<char>,
)
    ensures
        visible(
            select_text(
                select_keyword,
                columns,
                from_keyword,
                tables,
                where_clause,
                group_by,
                having,
                order_by,
                limit,
                offset_val,
                terminator,
            ),
        ) == visible(select_keyword) + visible(columns) + visible(from_keyword) + visible(tables)
            + visible(labelled("\nWHERE "@, where_clause)) + visible(
            labelled("\nGROUP BY "@, group_by),
        ) + visible(labelled("\nHAVING "@, having)) + visible(labelled("\nORDER BY "@, order_by))
            + visible(labelled("\nLIMIT "@, limit)) + visible(labelled("\nOFFSET "@, offset_val))
            + visible(terminator),
{
    reveal_strlit(",\n       ");
    reveal_strlit("\n       ");
    reveal_strlit(",\n     ");
    reveal_strlit("\n     ");
    let wide = "\n       "@;
    let narrow = "\n     "@;
    lemma_visible_comma();
    assert(",\n       "@ =~= seq![','] + wide);
    assert(",\n     "@ =~= seq![','] + narrow);
    lemma_visible_spaces(wide);
    lemma_visible_spaces(narrow);
    lemma_visible_concat(seq![','], wide);
    lemma_visible_concat(seq![','], narrow);
    assert(visible(",\n       "@) =~= seq![',']);
    assert(visible(",\n     "@) =~= seq![',']);
    let a = hung(list_text(columns, ",\n       "@), wide);
    let b = hung(list_text(tables, ",\n     "@), narrow);
    law_list_keeps_contents(columns, ",\n       "@);
    law_list_keeps_contents(tables, ",\n     "@);
    lemma_hung_kept(list_text(columns, ",\n       "@), wide);
    lemma_hung_kept(list_text(tables, ",\n     "@), narrow);
    let w = labelled("\nWHERE "@, where_clause);
    let g = labelled("\nGROUP BY "@, group_by);
    let h = labelled("\nHAVING "@, having);
    let o = labelled("\nORDER BY "@, order_by);
    let l = labelled("\nLIMIT "@, limit);
    let f = labelled("\nOFFSET "@, offset_val);
    let first = select_keyword + a + from_keyword + b;
    let second = first + w + g + h;
    let third = second + o + l + f;
    lemma_visible_four(select_keyword, a, from_keyword, b);
    lemma_visible_four(first, w, g, h);
    lemma_visible_four(second, o, l, f);
    lemma_visible_concat(third, terminator);
}

/// An `UPDATE` statement as it is written holds the visible characters of
/// its parts, the `WHERE` clause behind its keyword.
pub proof fn law_update_keeps_contents(
    update_keyword: Seq<char>,
    table: Seq<char>,
    set_keyword: Seq<char>,
    set_clauses: Seq<char>,
    where_clause: Seq<char>,
    terminator: Seq<char>,
)
    ensures
        visible(
            update_text(update_keyword, table, set_keyword, set_clauses, where_clause, terminator),
        ) == visible(update_keyword) + visible(table) + visible(set_keyword) + visible(set_clauses)
            + visible(labelled("\nWHERE "@, where_clause)) + visible(terminator),
{
    law_assignments_keep_contents(set_clauses);
    let first = update_keyword + table + set_keyword + set_text(set_clauses);
    lemma_visible_four(update_keyword, table, set_keyword, set_text(set_clauses));
    lemma_visible_concat(first, labelled("\nWHERE "@, where_clause));
    lemma_visible_concat(first + labelled("\nWHERE "@, where_clause), terminator);
}

/// The first blank that is found is a blank of the text.
proof fn lemma_blank_offset_bound(s: Seq<char>, st: ScanState)
    ensures
        blank_offset(s, st) matches Some(e) ==> e < s.len() && s[e as int] == ' ',
    decreases s.len(),
{
    if s.len() > 0 && !(st.plain() && s[0] == ' ') {
        lemma_blank_offset_bound(s.skip(1), st.next(s[0]));
    }
}

/// The parts of a column definition hold the visible characters of the
/// definition, whatever the type pattern matched.
proof fn lemma_parts_kept(line: Seq<char>, groups: Option<Seq<Option<(usize, usize)>>>)
    ensures
        ({
            let p = parts_with(line, groups);
            visible(p.0) + visible(p.1) + visible(p.2) == visible(line)
        }),
{
    let none = Seq::<char>::empty();
    let st = ScanState::start();
    lemma_blank_offset_bound(line, st);
    match blank_offset(line, st) {
        None => {
            assert(visible(line) + visible(none) + visible(none) =~= visible(line));
        },
        Some(e) => {
            let before = line.take(e as int);
            let behind = line.skip(e + 1 as int);
            let blank = seq![' '];
            let rest = trim(behind);
            assert(line =~= before + blank + behind);
            lemma_visible_concat(before + blank, behind);
            lemma_visible_concat(before, blank);
            lemma_visible_spaces(blank);
            lemma_visible_trim(before);
            lemma_visible_trim(behind);
            assert(visible(before) + visible(blank) =~= visible(before));
            match type_split(rest, groups) {
                Some((t, c)) => {
                    let g = groups->0;
                    let first = char_span(rest, g[1])->0;
                    let b = first.1;
                    let second = g[2]->0;
                    lemma_chars_within_bound(rest, second.0 as nat);
                    lemma_chars_within_bound(rest, second.1 as nat);
                    assert(b <= rest.len());
                    assert(rest =~= rest.take(b as int) + rest.skip(b as int));
                    lemma_visible_concat(rest.take(b as int), rest.skip(b as int));
                    lemma_visible_trim(rest.take(b as int));
                    lemma_visible_trim(rest.skip(b as int));
                },
                None => {
                    assert(visible(trim(before)) + visible(rest) + visible(none) =~= visible(
                        trim(before),
                    ) + visible(rest));
                },
            }
        },
    }
}

/// Trimming the end takes away nothing that is visible.
proof fn lemma_visible_trim_end(s: Seq<char>)
    ensures
        visible(trim_end(s)) == visible(s),
{
    lemma_trim_end_bound(s);
    let kept = trim_end(s);
    let rest = s.skip(kept.len() as int);
    assert(s =~= kept + rest);
    assert forall|i: int| 0 <= i < rest.len() implies is_space(#[trigger] rest[i]) by {
        assert(rest[i] == s[kept.len() + i]);
    }
    lemma_visible_spaces(rest);
    lemma_visible_concat(kept, rest);
    assert(visible(kept) + visible(rest) =~= visible(kept));
}

/// A definition as it is written is visible as it was.
proof fn lemma_definition_kept(line: Seq<char>, name_width: nat, type_width: nat)
    ensures
        visible(definition_text(line, name_width, type_width)) == visible(line),
{
    let two = seq![' ', ' '];
    let one = seq![' '];
    lemma_visible_spaces(two);
    lemma_visible_spaces(one);
    if is_constraint(line) {
        lemma_visible_concat(two, line);
        assert(visible(two) + visible(line) =~= visible(line));
    } else {
        let p = column_parts(line);
        lemma_parts_kept(line, first_match(captures_of(TYPE_PATTERN@, after_name(line))));
        let name = pad_end(p.0, name_width);
        let kind = pad_end(p.1, type_width);
        let a = blanks((name_width - p.0.len()) as nat);
        let b = blanks((type_width - p.1.len()) as nat);
        lemma_visible_spaces(a);
        lemma_visible_spaces(b);
        lemma_visible_concat(p.0, a);
        lemma_visible_concat(p.1, b);
        assert(visible(p.0) + visible(a) =~= visible(p.0));
        assert(visible(p.1) + visible(b) =~= visible(p.1));
        let whole = two + name + one + kind + one + p.2;
        lemma_visible_trim_end(whole);
        lemma_visible_four(two, name, one, kind);
        lemma_visible_concat(two + name + one + kind, one);
        lemma_visible_concat(two + name + one + kind + one, p.2);
        assert(visible(two) + visible(name) + visible(one) + visible(kind) + visible(one)
            + visible(p.2) =~= visible(p.0) + visible(p.1) + visible(p.2));
    }
}

/// A `CREATE TABLE` statement as it is written holds the visible characters
/// of its header, its definitions and its footer.
pub proof fn law_create_keeps_contents(header: Seq<char>, columns: Seq<char>, footer: Seq<char>)
    ensures
        visible(create_text(header, columns, footer)) == visible(header) + visible(columns)
            + visible(footer),
{
    let items = list_items(columns);
    if !items_closed(items) || has_empty(items) {
        lemma_visible_concat(header + columns, footer);
        lemma_visible_concat(header, columns);
    } else {
        let shown = definition_texts(items);
        let sep = seq![',', '\n'];
        let nl = seq!['\n'];
        lemma_list_read(columns);
        assert forall|i: int| 0 <= i < items.len() implies visible(#[trigger] shown[i])
            == visible(items[i]) by {
            lemma_definition_kept(
                items[i],
                names_upto(items, items.len()),
                types_upto(items, items.len()),
            );
        }
        lemma_visible_comma();
        lemma_visible_spaces(nl);
        assert(sep =~= seq![','] + nl);
        lemma_visible_concat(seq![','], nl);
        assert(visible(sep) =~= seq![',']);
        lemma_join_is_join_from(shown, sep);
        lemma_list_written(items, shown, sep, 0);
        assert(items.skip(0) =~= items);
        let body = join(shown, sep);
        lemma_visible_four(header, nl, body, nl);
        lemma_visible_concat(header + nl + body + nl, footer);
        assert(visible(header) + visible(nl) + visible(body) + visible(nl) =~= visible(header)
            + visible(body));
    }
}

} // verus!
