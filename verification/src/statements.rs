//! The layout of `SELECT`, `UPDATE` and `DELETE` statements, given the parts
//! that the statement locator found, and a plausibility test for SQL text.

use crate::lists::{
    all_items_closed, equals_offset, find_equals, items_closed, list_items, list_text,
    render_list, split_list,
};
use crate::scan::ScanState;
use crate::text::{
    append, append_blanks, contains_char, count_char, join, join_lines, lines, occurrences,
    pad_end, slice, to_chars, to_string,
};
use vstd::prelude::*;

verus! {

/// Whether `sql` passes the plausibility test.
pub open spec fn plausible(sql: Seq<char>) -> bool {
    occurrences(sql, '(') == occurrences(sql, ')') && occurrences(sql, '\'') % 2 == 0
}

/// A plausibility test for SQL text: as many opening as closing parentheses,
/// and an even number of single quotes. It does not show that the text is
/// valid SQL.
pub fn is_valid_sql(sql: &str) -> (b: bool)
    ensures
        b == plausible(sql@),
{
    let v = to_chars(sql);
    let open = count_char(&v, '(');
    let close = count_char(&v, ')');
    if open != close {
        return false;
    }
    let quotes = count_char(&v, '\'');
    quotes % 2 == 0
}

/// `list` behind `indent` where it runs over several lines, else `list`.
pub open spec fn hung(list: Seq<char>, indent: Seq<char>) -> Seq<char> {
    if list.contains('\n') {
        indent + list
    } else {
        list
    }
}

/// `label` and `body`, or nothing where `body` is empty.
pub open spec fn labelled(label: Seq<char>, body: Seq<char>) -> Seq<char> {
    if body.len() == 0 {
        body
    } else {
        label + body
    }
}

/// A `SELECT` statement as it is written: each column and each table on a
/// line of its own where there are several, and every further clause on a new
/// line behind its keyword.
pub open spec fn select_text(
    select_keyword: Seq<char>,
    columns: Seq<char>,
    from_keyword: Seq<char>,
    tables: Seq<char>,
    where_clause: Seq<char>,
    group_by: Seq<char>,
    having: Seq<char>,
    order_by: Seq<char>,
    limit: Seq<char>,
    offset_val: Seq<char>,
    terminator: Seq<char>,
) -> Seq<char> {
    select_keyword + hung(list_text(columns, ",\n       "@), "\n       "@) + from_keyword + hung(
        list_text(tables, ",\n     "@),
        "\n     "@,
    ) + labelled("\nWHERE "@, where_clause) + labelled("\nGROUP BY "@, group_by) + labelled(
        "\nHAVING "@,
        having,
    ) + labelled("\nORDER BY "@, order_by) + labelled("\nLIMIT "@, limit) + labelled(
        "\nOFFSET "@,
        offset_val,
    ) + terminator
}

fn push_str(out: &mut Vec<char>, s: &str)
    ensures
        final(out)@ == old(out)@ + s@,
{
    let v = to_chars(s);
    append(out, &v);
}

fn push_hung(out: &mut Vec<char>, list: &str, sep: &str, indent: &str)
    ensures
        final(out)@ == old(out)@ + hung(list_text(list@, sep@), indent@),
{
    let text = render_list(&to_chars(list), &to_chars(sep));
    if contains_char(&text, '\n') {
        push_str(out, indent);
    }
    append(out, &text);
    proof {
        assert(old(out)@ + indent@ + text@ =~= old(out)@ + (indent@ + text@));
    }
}

fn push_labelled(out: &mut Vec<char>, label: &str, body: &str)
    ensures
        final(out)@ == old(out)@ + labelled(label@, body@),
{
    let b = to_chars(body);
    if b.len() > 0 {
        push_str(out, label);
        append(out, &b);
        proof {
            assert(old(out)@ + label@ + body@ =~= old(out)@ + (label@ + body@));
        }
    } else {
        assert(old(out)@ + body@ =~= old(out)@);
    }
}

/// Lays out a `SELECT` statement from its parts: the keywords with the white
/// space that the locator found around them, the column list, the table list,
/// the bodies of the further clauses (empty where a clause is absent) and the
/// terminator.
pub fn format_select_statement(
    select_keyword: &str,
    columns: &str,
    from_keyword: &str,
    tables: &str,
    where_clause: &str,
    group_by: &str,
    having: &str,
    order_by: &str,
    limit: &str,
    offset_val: &str,
    terminator: &str,
) -> (r: String)
    ensures
        r@ == select_text(
            select_keyword@,
            columns@,
            from_keyword@,
            tables@,
            where_clause@,
            group_by@,
            having@,
            order_by@,
            limit@,
            offset_val@,
            terminator@,
        ),
{
    let mut out: Vec<char> = Vec::new();
    push_str(&mut out, select_keyword);
    assert(out@ =~= select_keyword@);
    push_hung(&mut out, columns, ",\n       ", "\n       ");
    push_str(&mut out, from_keyword);
    push_hung(&mut out, tables, ",\n     ", "\n     ");
    push_labelled(&mut out, "\nWHERE ", where_clause);
    push_labelled(&mut out, "\nGROUP BY ", group_by);
    push_labelled(&mut out, "\nHAVING ", having);
    push_labelled(&mut out, "\nORDER BY ", order_by);
    push_labelled(&mut out, "\nLIMIT ", limit);
    push_labelled(&mut out, "\nOFFSET ", offset_val);
    push_str(&mut out, terminator);
    to_string(&out)
}

/// The greatest offset of an assignment's `=` among the first `n` items, and
/// 0 where none has one.
pub open spec fn name_width_upto(items: Seq<Seq<char>>, n: nat) -> nat
    decreases n,
{
    if n == 0 {
        0
    } else {
        let before = name_width_upto(items, (n - 1) as nat);
        match equals_offset(items[n - 1], ScanState::start()) {
            Some(e) => if e > before {
                e
            } else {
                before
            },
            None => before,
        }
    }
}

/// The width to which the names of the assignments are padded.
pub open spec fn name_width(items: Seq<Seq<char>>) -> nat {
    name_width_upto(items, items.len())
}

/// One assignment with what stands before its `=` padded to `width`; an item
/// without `=` as it is.
pub open spec fn assignment(item: Seq<char>, width: nat) -> Seq<char> {
    match equals_offset(item, ScanState::start()) {
        Some(e) => pad_end(item.take(e as int), width) + item.skip(e as int),
        None => item,
    }
}

/// The assignments with their `=` aligned.
pub open spec fn assignments(items: Seq<Seq<char>>) -> Seq<Seq<char>> {
    Seq::new(items.len(), |i: int| assignment(items[i], name_width(items)))
}

/// The `SET` list as it is written: several assignments one to a line with
/// their `=` aligned, a single one in place, and the list as it is where an
/// item is not closed.
pub open spec fn set_text(set_clauses: Seq<char>) -> Seq<char> {
    let items = list_items(set_clauses);
    if !items_closed(items) {
        set_clauses
    } else if items.len() > 1 {
        "\n  "@ + join(assignments(items), ",\n  "@)
    } else {
        assignments(items)[0]
    }
}

/// An `UPDATE` statement as it is written.
pub open spec fn update_text(
    update_keyword: Seq<char>,
    table: Seq<char>,
    set_keyword: Seq<char>,
    set_clauses: Seq<char>,
    where_clause: Seq<char>,
    terminator: Seq<char>,
) -> Seq<char> {
    update_keyword + table + set_keyword + set_text(set_clauses) + labelled(
        "\nWHERE "@,
        where_clause,
    ) + terminator
}

fn measure_names(items: &Vec<Vec<char>>) -> (w: usize)
    ensures
        w == name_width(lines(items@)),
{
    let ghost t = lines(items@);
    let mut w: usize = 0;
    let mut i: usize = 0;
    while i < items.len()
        invariant
            i <= items.len(),
            t == lines(items@),
            w == name_width_upto(t, i as nat),
        decreases items.len() - i,
    {
        proof {
            assert(t[i as int] == items@[i as int]@);
        }
        match find_equals(&items[i]) {
            Some(e) => {
                if e > w {
                    w = e;
                }
            },
            None => {},
        }
        i = i + 1;
    }
    w
}

fn render_assignment(item: &Vec<char>, width: usize) -> (r: Vec<char>)
    ensures
        r@ == assignment(item@, width as nat),
{
    match find_equals(item) {
        Some(e) => {
            let mut out = slice(item, 0, e);
            if e < width {
                append_blanks(&mut out, width - e);
            }
            let rest = slice(item, e, item.len());
            append(&mut out, &rest);
            proof {
                assert(item@.take(e as int) =~= item@.subrange(0, e as int));
                assert(item@.skip(e as int) =~= item@.subrange(e as int, item@.len() as int));
            }
            out
        },
        None => {
            assert(item@.subrange(0, item@.len() as int) =~= item@);
            slice(item, 0, item.len())
        },
    }
}

fn render_set(set_clauses: &Vec<char>) -> (r: Vec<char>)
    ensures
        r@ == set_text(set_clauses@),
{
    let items = split_list(set_clauses);
    let ghost t = lines(items@);
    if !all_items_closed(&items) {
        assert(set_clauses@.subrange(0, set_clauses@.len() as int) =~= set_clauses@);
        return slice(set_clauses, 0, set_clauses.len());
    }
    proof {
        crate::lists::lemma_list_items_nonempty(set_clauses@);
    }
    let width = measure_names(&items);
    let mut parts: Vec<Vec<char>> = Vec::new();
    let mut i: usize = 0;
    while i < items.len()
        invariant
            i <= items.len(),
            t == lines(items@),
            width == name_width(t),
            parts@.len() == i,
            forall|k: int| 0 <= k < i ==> (#[trigger] parts@[k])@ == assignment(t[k], width as nat),
        decreases items.len() - i,
    {
        proof {
            assert(t[i as int] == items@[i as int]@);
        }
        parts.push(render_assignment(&items[i], width));
        i = i + 1;
    }
    assert(lines(parts@) =~= assignments(t));
    if parts.len() > 1 {
        let mut out: Vec<char> = Vec::new();
        push_str(&mut out, "\n  ");
        let body = join_lines(&parts, &to_chars(",\n  "));
        append(&mut out, &body);
        assert(out@ =~= "\n  "@ + join(assignments(t), ",\n  "@));
        out
    } else {
        assert(lines(parts@)[0] == parts@[0]@);
        assert(parts@[0]@.subrange(0, parts@[0]@.len() as int) =~= parts@[0]@);
        slice(&parts[0], 0, parts[0].len())
    }
}

/// Lays out an `UPDATE` statement from its parts: the keywords with the white
/// space that the locator found around them, the table, the list of
/// assignments, the body of the `WHERE` clause (empty where it is absent) and
/// the terminator.
pub fn format_update_statement(
    update_keyword: &str,
    table: &str,
    set_keyword: &str,
    set_clauses: &str,
    where_clause: &str,
    terminator: &str,
) -> (r: String)
    ensures
        r@ == update_text(
            update_keyword@,
            table@,
            set_keyword@,
            set_clauses@,
            where_clause@,
            terminator@,
        ),
{
    let mut out: Vec<char> = Vec::new();
    push_str(&mut out, update_keyword);
    assert(out@ =~= update_keyword@);
    push_str(&mut out, table);
    push_str(&mut out, set_keyword);
    let set = render_set(&to_chars(set_clauses));
    append(&mut out, &set);
    push_labelled(&mut out, "\nWHERE ", where_clause);
    push_str(&mut out, terminator);
    to_string(&out)
}

/// A `DELETE` statement as it is written: the `WHERE` clause on a new line.
pub open spec fn delete_text(
    delete_from: Seq<char>,
    table: Seq<char>,
    where_clause: Seq<char>,
    terminator: Seq<char>,
) -> Seq<char> {
    delete_from + table + labelled("\nWHERE "@, where_clause) + terminator
}

/// Lays out a `DELETE` statement from its parts.
pub fn format_delete_statement(
    delete_from: &str,
    table: &str,
    where_clause: &str,
    terminator: &str,
) -> (r: String)
    ensures
        r@ == delete_text(delete_from@, table@, where_clause@, terminator@),
{
    let mut out: Vec<char> = Vec::new();
    push_str(&mut out, delete_from);
    assert(out@ =~= delete_from@);
    push_str(&mut out, table);
    push_labelled(&mut out, "\nWHERE ", where_clause);
    push_str(&mut out, terminator);
    to_string(&out)
}

} // verus!
