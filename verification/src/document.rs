//! Whole documents: every statement that the locator finds gives a
//! replacement for a span of the document, and the replacements are put in
//! from the last to the first, so that none moves the span of another.

use crate::clause::{
    clause_cut, closed, cut_clause, find_keyword_from, first_row_offset, is_closed,
    lemma_first_row_bound, KEYWORD_LEN,
};
use crate::create::{create_text, format_create_statement};
use crate::locate::{
    captures_of, char_span, find_captures, found_view, Cursor, Groups, CREATE_PATTERN,
    DELETE_PATTERN, INSERT_PATTERN, SELECT_PATTERN, UPDATE_PATTERN,
};
use crate::scan::{scan, scan_chars, ScanState};
use crate::statements::{
    delete_text, format_delete_statement, format_select_statement, format_update_statement,
    select_text, update_text,
};
use crate::text::{append, lines, skip_spaces, slice, to_chars, to_string};
use vstd::prelude::*;

verus! {

/// A replacement: the text that takes the place of the characters from
/// `start` up to `end` of a document.
pub struct Edit {
    pub start: usize,
    pub end: usize,
    pub text: Vec<char>,
}

/// A replacement as a value of specifications: start, end and text.
pub type Change = (nat, nat, Seq<char>);

/// The replacements of `v`, in order.
pub open spec fn changes(v: Seq<Option<Edit>>) -> Seq<Option<Change>> {
    Seq::new(
        v.len(),
        |i: int|
            match v[i] {
                Some(e) => Some((e.start as nat, e.end as nat, e.text@)),
                None => None,
            },
    )
}

/// The text from `bound` on that `tail` stands for, with the text before
/// `bound` and the replacements of `edits` put in before it, the last
/// replacement first. A replacement that does not end at or before the start
/// of the one put in before it, or that runs backwards, is passed over.
pub open spec fn spliced(
    text: Seq<char>,
    edits: Seq<Option<Change>>,
    bound: nat,
    tail: Seq<char>,
) -> Seq<char>
    decreases edits.len(),
{
    if edits.len() == 0 {
        text.take(bound as int) + tail
    } else {
        match edits.last() {
            Some((start, end, new)) => if start <= end <= bound {
                spliced(
                    text,
                    edits.drop_last(),
                    start,
                    new + text.subrange(end as int, bound as int) + tail,
                )
            } else {
                spliced(text, edits.drop_last(), bound, tail)
            },
            None => spliced(text, edits.drop_last(), bound, tail),
        }
    }
}

/// `text` with the replacements of `edits` put in.
pub open spec fn edited(text: Seq<char>, edits: Seq<Option<Change>>) -> Seq<char> {
    spliced(text, edits, text.len(), Seq::empty())
}

/// The texts of `pieces` one behind the other, the last first.
pub open spec fn stacked(pieces: Seq<Seq<char>>) -> Seq<char>
    decreases pieces.len(),
{
    if pieces.len() == 0 {
        Seq::empty()
    } else {
        pieces.last() + stacked(pieces.drop_last())
    }
}

/// Puts the replacements of `edits` into `text`, from the last to the first.
pub fn apply_edits(text: &Vec<char>, edits: &Vec<Option<Edit>>) -> (r: Vec<char>)
    ensures
        r@ == edited(text@, changes(edits@)),
{
    let ghost all = changes(edits@);
    let mut pieces: Vec<Vec<char>> = Vec::new();
    let mut bound = text.len();
    let mut k = edits.len();
    proof {
        assert(all.take(k as int) =~= all);
        assert(stacked(lines(pieces@)) =~= Seq::<char>::empty());
    }
    while k > 0
        invariant
            k <= edits.len(),
            bound <= text.len(),
            all == changes(edits@),
            edited(text@, all) == spliced(
                text@,
                all.take(k as int),
                bound as nat,
                stacked(lines(pieces@)),
            ),
        decreases k,
    {
        k = k - 1;
        proof {
            let part = all.take(k + 1);
            assert(part.last() == all[k as int]);
            assert(part.drop_last() =~= all.take(k as int));
        }
        match &edits[k] {
            Some(e) => {
                if e.start <= e.end && e.end <= bound {
                    let ghost before = lines(pieces@);
                    let kept = slice(text, e.end, bound);
                    let new = slice(&e.text, 0, e.text.len());
                    proof {
                        assert(e.text@.subrange(0, e.text@.len() as int) =~= e.text@);
                    }
                    pieces.push(kept);
                    let ghost mid = lines(pieces@);
                    proof {
                        assert(mid.last() == kept@);
                        assert(mid.drop_last() =~= before);
                        assert(stacked(mid) == kept@ + stacked(before));
                    }
                    pieces.push(new);
                    proof {
                        let now = lines(pieces@);
                        assert(now.last() == new@);
                        assert(now.drop_last() =~= mid);
                        assert(stacked(now) == new@ + stacked(mid));
                        assert(stacked(now) =~= new@ + kept@ + stacked(before));
                    }
                    bound = e.start;
                }
            },
            None => {},
        }
    }
    let mut out = slice(text, 0, bound);
    let ghost parts = lines(pieces@);
    let mut i = pieces.len();
    proof {
        assert(text@.take(bound as int) =~= text@.subrange(0, bound as int));
        assert(parts.take(i as int) =~= parts);
    }
    while i > 0
        invariant
            i <= pieces.len(),
            parts == lines(pieces@),
            out@ + stacked(parts.take(i as int)) == text@.take(bound as int) + stacked(parts),
        decreases i,
    {
        i = i - 1;
        proof {
            let part = parts.take(i + 1);
            assert(part.last() == pieces@[i as int]@);
            assert(part.drop_last() =~= parts.take(i as int));
            assert(out@ + (part.last() + stacked(part.drop_last())) =~= (out@ + part.last())
                + stacked(part.drop_last()));
        }
        append(&mut out, &pieces[i]);
    }
    proof {
        assert(stacked(parts.take(0)) =~= Seq::<char>::empty());
        assert(out@ + Seq::<char>::empty() =~= out@);
    }
    out
}

/// The character span in `text` of the whole of a match.
pub open spec fn whole_span(text: Seq<char>, groups: Seq<Option<(usize, usize)>>) -> Option<
    (nat, nat),
> {
    if groups.len() > 0 {
        char_span(text, groups[0])
    } else {
        None
    }
}

/// The replacement that formats the `INSERT` statement of a match, which
/// runs from the start of the statement to just behind the parenthesis that
/// opens its first row. There is none unless the match begins outside every
/// string, comment and parenthesis of `text`, the scanner finds the first row
/// where the locator did, and the clause can be written anew.
pub open spec fn insert_change(text: Seq<char>, groups: Seq<Option<(usize, usize)>>) -> Option<
    Change,
> {
    match whole_span(text, groups) {
        Some((cs, ce)) => if scan(text.take(cs as int), ScanState::start()).plain_at(0)
            && first_row_offset(text.skip(cs as int)) == Some((ce - cs) as nat) {
            match clause_cut(text.skip(cs as int)) {
                Some((head, used)) => Some((cs, cs + used, head)),
                None => None,
            }
        } else {
            None
        },
        None => None,
    }
}

/// The replacements for the matches `found`.
pub open spec fn insert_changes(text: Seq<char>, found: Seq<Seq<Option<(usize, usize)>>>) -> Seq<
    Option<Change>,
> {
    Seq::new(found.len(), |i: int| insert_change(text, found[i]))
}

/// The document `text` with the `INSERT` statements of the matches `found`
/// formatted.
pub open spec fn inserts_text(text: Seq<char>, found: Seq<Seq<Option<(usize, usize)>>>) -> Seq<
    char,
> {
    edited(text, insert_changes(text, found))
}

/// The replacement that formats the `INSERT` statement of a match.
#[verifier::rlimit(30)]
pub fn insert_edit(text: &Vec<char>, cursor: &mut Cursor, groups: &Groups) -> (r: Option<Edit>)
    requires
        old(cursor).on(text@),
    ensures
        final(cursor).on(text@),
        match insert_change(text@, groups@) {
            Some((start, end, new)) => r matches Some(e) && e.start == start && e.end == end
                && e.text@ == new,
            None => r is None,
        },
{
    if groups.len() == 0 {
        return None;
    }
    match groups[0] {
        Some((a, b)) => {
            cursor.seek(text, a);
        },
        None => {},
    }
    let top = cursor.state.is_plain_at(0);
    match cursor.span(text, groups[0]) {
        None => None,
        Some((cs, ce)) => {
            if !top {
                return None;
            }
            let ghost s = text@.skip(cs as int);
            proof {
                lemma_first_row_bound(s);
            }
            match find_keyword_from(text, cs, ce) {
                None => None,
                Some(p) => {
                    let open = skip_spaces(text, p + KEYWORD_LEN, text.len());
                    proof {
                        assert(s.skip(p - cs + 6) =~= text@.subrange(
                            p + 6,
                            text@.len() as int,
                        ));
                    }
                    if open >= text.len() || open + 1 != ce {
                        return None;
                    }
                    match cut_clause(text, cs, ce) {
                        None => None,
                        Some((head, end)) => Some(Edit { start: cs, end: end, text: head }),
                    }
                },
            }
        },
    }
}

/// Formats the `INSERT` statements of `sql` that the matches `found` point
/// to. Each match gives, as group 0, the byte span from the start of a
/// statement to just behind the parenthesis that opens its first row.
pub fn format_inserts_at(sql: &str, found: &Vec<Groups>) -> (r: String)
    ensures
        r@ == inserts_text(sql@, found_view(found@)),
{
    let text = to_chars(sql);
    let mut cursor = Cursor::start(&text);
    let mut edits: Vec<Option<Edit>> = Vec::new();
    let mut k: usize = 0;
    while k < found.len()
        invariant
            k <= found.len(),
            text@ == sql@,
            cursor.on(text@),
            edits@.len() == k,
            forall|i: int|
                0 <= i < k ==> (#[trigger] changes(edits@)[i]) == insert_change(
                    text@,
                    found@[i]@,
                ),
        decreases found.len() - k,
    {
        let ghost before = changes(edits@);
        let e = insert_edit(&text, &mut cursor, &found[k]);
        edits.push(e);
        proof {
            assert forall|i: int| 0 <= i < k + 1 implies (#[trigger] changes(edits@)[i])
                == insert_change(text@, found@[i]@) by {
                if i < k {
                    assert(changes(edits@)[i] == before[i]);
                }
            }
        }
        k = k + 1;
    }
    proof {
        assert(changes(edits@) =~= insert_changes(sql@, found_view(found@)));
    }
    to_string(&apply_edits(&text, &edits))
}

/// The document `sql` with its `INSERT` statements formatted: `sql` itself
/// where the search cannot be made, else the text that `inserts_text` gives
/// for what the search finds.
pub open spec fn inserts_output(sql: Seq<char>) -> Seq<char> {
    match captures_of(INSERT_PATTERN@, sql) {
        Some(found) => inserts_text(sql, found),
        None => sql,
    }
}

/// Formats every `INSERT ... VALUES` statement of a document.
pub fn format_sql_inserts(sql: &str) -> (r: String)
    ensures
        r@ == inserts_output(sql@),
{
    match find_captures(INSERT_PATTERN, sql) {
        Some(found) => format_inserts_at(sql, &found),
        None => to_string(&to_chars(sql)),
    }
}

/// The statements that are formatted from the parts of a match.
#[derive(Clone, Copy, Debug, PartialEq, Eq)]
pub enum StatementKind {
    Create,
    Select,
    Update,
    Delete,
}

/// The pattern by which the statements of a kind are found.
pub open spec fn pattern_of(kind: StatementKind) -> Seq<char> {
    match kind {
        StatementKind::Create => CREATE_PATTERN@,
        StatementKind::Select => SELECT_PATTERN@,
        StatementKind::Update => UPDATE_PATTERN@,
        StatementKind::Delete => DELETE_PATTERN@,
    }
}

/// For each group of the pattern behind group 0, whether a match must hold
/// it; a group that may be absent stands for an empty text then.
pub open spec fn required_groups(kind: StatementKind) -> Seq<bool> {
    match kind {
        StatementKind::Create => seq![true, true, true],
        StatementKind::Select => seq![
            true,
            true,
            true,
            true,
            false,
            false,
            false,
            false,
            false,
            false,
            true,
        ],
        StatementKind::Update => seq![true, true, true, true, false, true],
        StatementKind::Delete => seq![true, true, false, true],
    }
}

/// The text of group `i` of a match: the characters of its span, nothing for
/// an absent group that is not required, and `None` for an absent group that
/// is required or a span that does not fit the text.
pub open spec fn part(
    text: Seq<char>,
    groups: Seq<Option<(usize, usize)>>,
    i: int,
    required: bool,
) -> Option<Seq<char>> {
    if !(0 <= i < groups.len()) {
        None
    } else if groups[i] is None {
        if required {
            None
        } else {
            Some(Seq::empty())
        }
    } else {
        match char_span(text, groups[i]) {
            Some((a, b)) => Some(text.subrange(a as int, b as int)),
            None => None,
        }
    }
}

/// The text of the group behind group `i`, which `required[i]` speaks of.
pub open spec fn nth_part(
    text: Seq<char>,
    groups: Seq<Option<(usize, usize)>>,
    required: Seq<bool>,
    i: int,
) -> Option<Seq<char>> {
    part(text, groups, i + 1, required[i])
}

/// The texts of the groups of a match behind group 0, where the match has
/// one group more than `required` has entries and each of them has a text.
pub open spec fn parts(
    text: Seq<char>,
    groups: Seq<Option<(usize, usize)>>,
    required: Seq<bool>,
) -> Option<Seq<Seq<char>>> {
    if groups.len() == required.len() + 1 && forall|i: int|
        0 <= i < required.len() ==> (#[trigger] nth_part(text, groups, required, i)) is Some {
        Some(Seq::new(required.len(), |i: int| nth_part(text, groups, required, i)->0))
    } else {
        None
    }
}

/// Whether every part is closed, so that no string, comment or parenthesis
/// runs from one part into the next.
pub open spec fn parts_closed(p: Seq<Seq<char>>) -> bool {
    forall|i: int| 0 <= i < p.len() ==> closed(#[trigger] p[i], 0)
}

/// The statement of the given kind as it is written, from the texts of its
/// parts; `None` where the parts do not part the statement safely: for
/// `CREATE TABLE`, the header must end one parenthesis deep outside strings
/// and comments; for the others, every part must be closed.
pub open spec fn statement_layout(kind: StatementKind, p: Seq<Seq<char>>) -> Option<Seq<char>> {
    match kind {
        StatementKind::Create => if scan(p[0], ScanState::start()).plain_at(1) {
            Some(create_text(p[0], p[1], p[2]))
        } else {
            None
        },
        StatementKind::Select => if parts_closed(p) {
            Some(select_text(p[0], p[1], p[2], p[3], p[4], p[5], p[6], p[7], p[8], p[9], p[10]))
        } else {
            None
        },
        StatementKind::Update => if parts_closed(p) {
            Some(update_text(p[0], p[1], p[2], p[3], p[4], p[5]))
        } else {
            None
        },
        StatementKind::Delete => if parts_closed(p) {
            Some(delete_text(p[0], p[1], p[2], p[3]))
        } else {
            None
        },
    }
}

/// What is written in place of a match, or `None` where the match is left
/// as it is.
pub open spec fn replacement(
    kind: StatementKind,
    text: Seq<char>,
    groups: Seq<Option<(usize, usize)>>,
) -> Option<Seq<char>> {
    match parts(text, groups, required_groups(kind)) {
        Some(p) => statement_layout(kind, p),
        None => None,
    }
}

/// The replacement that formats the statement of a match: its whole span
/// and the text that `replacement` gives. There is none where the match
/// begins inside a string or comment of `text`.
pub open spec fn statement_change(
    kind: StatementKind,
    text: Seq<char>,
    groups: Seq<Option<(usize, usize)>>,
) -> Option<Change> {
    match whole_span(text, groups) {
        Some((cs, ce)) => if scan(text.take(cs as int), ScanState::start()).plain() {
            match replacement(kind, text, groups) {
                Some(new) => Some((cs, ce, new)),
                None => None,
            }
        } else {
            None
        },
        None => None,
    }
}

/// The replacements for the matches `found`.
pub open spec fn statement_changes(
    kind: StatementKind,
    text: Seq<char>,
    found: Seq<Seq<Option<(usize, usize)>>>,
) -> Seq<Option<Change>> {
    Seq::new(found.len(), |i: int| statement_change(kind, text, found[i]))
}

/// The document `text` with the statements of the matches `found` formatted.
pub open spec fn matches_text(
    kind: StatementKind,
    text: Seq<char>,
    found: Seq<Seq<Option<(usize, usize)>>>,
) -> Seq<char> {
    edited(text, statement_changes(kind, text, found))
}

/// The document `sql` with its statements of one kind formatted: `sql`
/// itself where the search cannot be made, else the text that `matches_text`
/// gives for what the search finds.
pub open spec fn matches_output(kind: StatementKind, sql: Seq<char>) -> Seq<char> {
    match captures_of(pattern_of(kind), sql) {
        Some(found) => matches_text(kind, sql, found),
        None => sql,
    }
}

fn required_of(kind: StatementKind) -> (r: Vec<bool>)
    ensures
        r@ == required_groups(kind),
{
    let r = match kind {
        StatementKind::Create => vec![true, true, true],
        StatementKind::Select => vec![
            true,
            true,
            true,
            true,
            false,
            false,
            false,
            false,
            false,
            false,
            true,
        ],
        StatementKind::Update => vec![true, true, true, true, false, true],
        StatementKind::Delete => vec![true, true, false, true],
    };
    assert(r@ =~= required_groups(kind));
    r
}

fn take_part(text: &Vec<char>, mark: &Cursor, groups: &Groups, i: usize, required: bool) -> (r:
    Option<Vec<char>>)
    requires
        mark.on(text@),
    ensures
        match part(text@, groups@, i as int, required) {
            Some(t) => r matches Some(v) && v@ == t,
            None => r is None,
        },
{
    if i >= groups.len() {
        return None;
    }
    if groups[i].is_none() {
        if required {
            return None;
        }
        return Some(Vec::new());
    }
    let mut cursor = *mark;
    match cursor.span(text, groups[i]) {
        Some((a, b)) => Some(slice(text, a, b)),
        None => None,
    }
}

/// The texts of the groups of a match, each found from `mark`, a place at or
/// before the match.
fn take_parts(text: &Vec<char>, mark: &Cursor, groups: &Groups, required: &Vec<bool>) -> (r: Option<
    Vec<Vec<char>>,
>)
    requires
        mark.on(text@),
    ensures
        match parts(text@, groups@, required@) {
            Some(p) => r matches Some(v) && lines(v@) == p && v@.len() == required@.len(),
            None => r is None,
        },
{
    let wanted = required.len();
    let given = groups.len();
    if wanted == usize::MAX || given != wanted + 1 {
        return None;
    }
    let mut out: Vec<Vec<char>> = Vec::new();
    let mut i: usize = 0;
    while i < required.len()
        invariant
            i <= required.len(),
            groups.len() == required.len() + 1,
            mark.on(text@),
            out@.len() == i,
            forall|k: int|
                0 <= k < i ==> (#[trigger] nth_part(text@, groups@, required@, k)) == Some(
                    out@[k]@,
                ),
        decreases required.len() - i,
    {
        match take_part(text, mark, groups, i + 1, required[i]) {
            Some(v) => {
                out.push(v);
            },
            None => {
                proof {
                    assert(nth_part(text@, groups@, required@, i as int) is None);
                }
                return None;
            },
        }
        i = i + 1;
    }
    proof {
        assert forall|k: int| 0 <= k < required@.len() implies (#[trigger] nth_part(
            text@,
            groups@,
            required@,
            k,
        )) is Some by {}
        assert(lines(out@) =~= parts(text@, groups@, required@)->0);
    }
    Some(out)
}

fn all_parts_closed(p: &Vec<Vec<char>>) -> (b: bool)
    ensures
        b == parts_closed(lines(p@)),
{
    let mut i: usize = 0;
    while i < p.len()
        invariant
            i <= p.len(),
            forall|k: int| 0 <= k < i ==> closed(#[trigger] lines(p@)[k], 0),
        decreases p.len() - i,
    {
        proof {
            assert(lines(p@)[i as int] == p@[i as int]@);
            assert(p@[i as int]@.subrange(0, p@[i as int]@.len() as int) =~= p@[i as int]@);
        }
        if !is_closed(&p[i], 0, p[i].len(), 0) {
            return false;
        }
        i = i + 1;
    }
    true
}

fn strings(p: &Vec<Vec<char>>) -> (r: Vec<String>)
    ensures
        r@.len() == p@.len(),
        forall|k: int| 0 <= k < p@.len() ==> (#[trigger] r@[k])@ == p@[k]@,
{
    let mut r: Vec<String> = Vec::new();
    let mut i: usize = 0;
    while i < p.len()
        invariant
            i <= p.len(),
            r@.len() == i,
            forall|k: int| 0 <= k < i ==> (#[trigger] r@[k])@ == p@[k]@,
        decreases p.len() - i,
    {
        r.push(to_string(&p[i]));
        i = i + 1;
    }
    r
}

/// Lays out a statement of the given kind from the texts of its parts.
pub fn layout_statement(kind: StatementKind, p: &Vec<Vec<char>>) -> (r: Option<Vec<char>>)
    requires
        p@.len() == required_groups(kind).len(),
    ensures
        match statement_layout(kind, lines(p@)) {
            Some(t) => r matches Some(v) && v@ == t,
            None => r is None,
        },
{
    let ghost t = lines(p@);
    let s = strings(p);
    proof {
        assert forall|k: int| 0 <= k < p@.len() implies (#[trigger] s@[k])@ == t[k] by {
            assert(t[k] == p@[k]@);
        }
    }
    match kind {
        StatementKind::Create => {
            if !scan_chars(&p[0], ScanState::new()).is_plain_at(1) {
                return None;
            }
            let out = format_create_statement(s[0].as_str(), s[1].as_str(), s[2].as_str());
            Some(to_chars(out.as_str()))
        },
        StatementKind::Select => {
            if !all_parts_closed(p) {
                return None;
            }
            let out = format_select_statement(
                s[0].as_str(),
                s[1].as_str(),
                s[2].as_str(),
                s[3].as_str(),
                s[4].as_str(),
                s[5].as_str(),
                s[6].as_str(),
                s[7].as_str(),
                s[8].as_str(),
                s[9].as_str(),
                s[10].as_str(),
            );
            Some(to_chars(out.as_str()))
        },
        StatementKind::Update => {
            if !all_parts_closed(p) {
                return None;
            }
            let out = format_update_statement(
                s[0].as_str(),
                s[1].as_str(),
                s[2].as_str(),
                s[3].as_str(),
                s[4].as_str(),
                s[5].as_str(),
            );
            Some(to_chars(out.as_str()))
        },
        StatementKind::Delete => {
            if !all_parts_closed(p) {
                return None;
            }
            let out = format_delete_statement(
                s[0].as_str(),
                s[1].as_str(),
                s[2].as_str(),
                s[3].as_str(),
            );
            Some(to_chars(out.as_str()))
        },
    }
}

/// The replacement that formats the statement of a match.
pub fn statement_edit(
    kind: StatementKind,
    text: &Vec<char>,
    cursor: &mut Cursor,
    groups: &Groups,
) -> (r: Option<Edit>)
    requires
        old(cursor).on(text@),
    ensures
        final(cursor).on(text@),
        match statement_change(kind, text@, groups@) {
            Some((start, end, new)) => r matches Some(e) && e.start == start && e.end == end
                && e.text@ == new,
            None => r is None,
        },
{
    if groups.len() == 0 {
        return None;
    }
    match groups[0] {
        Some((a, b)) => {
            cursor.seek(text, a);
        },
        None => {},
    }
    let mark = *cursor;
    match cursor.span(text, groups[0]) {
        None => None,
        Some((cs, ce)) => {
            if !mark.state.is_plain() {
                return None;
            }
            let required = required_of(kind);
            match take_parts(text, &mark, groups, &required) {
                None => None,
                Some(p) => match layout_statement(kind, &p) {
                    None => None,
                    Some(new) => Some(Edit { start: cs, end: ce, text: new }),
                },
            }
        },
    }
}

/// Formats the statements of one kind in `sql` that the matches `found`
/// point to, as the pattern of that kind would give them.
pub fn format_matches_at(kind: StatementKind, sql: &str, found: &Vec<Groups>) -> (r: String)
    ensures
        r@ == matches_text(kind, sql@, found_view(found@)),
{
    let text = to_chars(sql);
    let mut cursor = Cursor::start(&text);
    let mut edits: Vec<Option<Edit>> = Vec::new();
    let mut k: usize = 0;
    while k < found.len()
        invariant
            k <= found.len(),
            text@ == sql@,
            cursor.on(text@),
            edits@.len() == k,
            forall|i: int|
                0 <= i < k ==> (#[trigger] changes(edits@)[i]) == statement_change(
                    kind,
                    text@,
                    found@[i]@,
                ),
        decreases found.len() - k,
    {
        let ghost before = changes(edits@);
        let e = statement_edit(kind, &text, &mut cursor, &found[k]);
        edits.push(e);
        proof {
            assert forall|i: int| 0 <= i < k + 1 implies (#[trigger] changes(edits@)[i])
                == statement_change(kind, text@, found@[i]@) by {
                if i < k {
                    assert(changes(edits@)[i] == before[i]);
                }
            }
        }
        k = k + 1;
    }
    proof {
        assert(changes(edits@) =~= statement_changes(kind, sql@, found_view(found@)));
    }
    to_string(&apply_edits(&text, &edits))
}

fn format_kind(kind: StatementKind, pattern: &str, sql: &str) -> (r: String)
    requires
        pattern@ == pattern_of(kind),
    ensures
        r@ == matches_output(kind, sql@),
{
    match find_captures(pattern, sql) {
        Some(found) => format_matches_at(kind, sql, &found),
        None => to_string(&to_chars(sql)),
    }
}

/// Formats every `CREATE TABLE` statement of a document.
pub fn format_sql_creates(sql: &str) -> (r: String)
    ensures
        r@ == matches_output(StatementKind::Create, sql@),
{
    format_kind(StatementKind::Create, CREATE_PATTERN, sql)
}

/// Formats every `SELECT` statement of a document.
pub fn format_sql_selects(sql: &str) -> (r: String)
    ensures
        r@ == matches_output(StatementKind::Select, sql@),
{
    format_kind(StatementKind::Select, SELECT_PATTERN, sql)
}

/// Formats every `UPDATE` statement of a document.
pub fn format_sql_updates(sql: &str) -> (r: String)
    ensures
        r@ == matches_output(StatementKind::Update, sql@),
{
    format_kind(StatementKind::Update, UPDATE_PATTERN, sql)
}

/// Formats every `DELETE` statement of a document.
pub fn format_sql_deletes(sql: &str) -> (r: String)
    ensures
        r@ == matches_output(StatementKind::Delete, sql@),
{
    format_kind(StatementKind::Delete, DELETE_PATTERN, sql)
}

/// The document `sql` with its statements of every kind formatted, one kind
/// after the other.
pub open spec fn document_output(sql: Seq<char>) -> Seq<char> {
    matches_output(
        StatementKind::Delete,
        matches_output(
            StatementKind::Update,
            matches_output(
                StatementKind::Select,
                matches_output(StatementKind::Create, inserts_output(sql)),
            ),
        ),
    )
}

/// Formats a document: its `INSERT`, `CREATE TABLE`, `SELECT`, `UPDATE` and
/// `DELETE` statements, in that order.
pub fn format_sql(sql: &str) -> (r: String)
    ensures
        r@ == document_output(sql@),
{
    let a = format_sql_inserts(sql);
    let b = format_sql_creates(a.as_str());
    let c = format_sql_selects(b.as_str());
    let d = format_sql_updates(c.as_str());
    format_sql_deletes(d.as_str())
}

} // verus!
