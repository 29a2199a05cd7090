//! The layout of a `CREATE TABLE` statement: one column definition to a line,
//! with names and types padded to a common width.

use crate::lists::{all_items_closed, items_closed, list_items, split_list};
use crate::locate::{
    captures_of, char_span, find_captures, found_view, to_char_span, Groups, TYPE_PATTERN,
};
use crate::scan::{scan, scan_range, ScanState};
use crate::segment::shifted;
use crate::text::{
    append, append_blanks, join, join_lines, lines, pad_end, skip_spaces_back, slice, to_chars,
    to_string, trim, trim_end, trimmed,
};
use vstd::prelude::*;

verus! {

/// Whether `s` begins with `prefix`.
pub open spec fn begins_with(s: Seq<char>, prefix: Seq<char>) -> bool {
    prefix.len() <= s.len() && s.take(prefix.len() as int) == prefix
}

/// Whether `s` begins with `prefix`.
pub fn starts_with(s: &Vec<char>, prefix: &Vec<char>) -> (b: bool)
    ensures
        b == begins_with(s@, prefix@),
{
    if prefix.len() > s.len() {
        return false;
    }
    let mut i: usize = 0;
    while i < prefix.len()
        invariant
            i <= prefix.len() <= s.len(),
            forall|k: int| 0 <= k < i ==> s@[k] == prefix@[k],
        decreases prefix.len() - i,
    {
        if s[i] != prefix[i] {
            proof {
                assert(s@.take(prefix@.len() as int)[i as int] != prefix@[i as int]);
            }
            return false;
        }
        i = i + 1;
    }
    assert(s@.take(prefix@.len() as int) =~= prefix@);
    true
}

/// Whether a definition is a table constraint, which is written as it is.
pub open spec fn is_constraint(line: Seq<char>) -> bool {
    begins_with(line, "PRIMARY KEY"@) || begins_with(line, "FOREIGN KEY"@) || begins_with(
        line,
        "CONSTRAINT"@,
    )
}
/// Whether a definition is a table constraint.

pub fn constraint(line: &Vec<char>) -> (b: bool)
    ensures
        b == is_constraint(line@),
{
    starts_with(line, &to_chars("PRIMARY KEY")) || starts_with(line, &to_chars("FOREIGN KEY"))
        || starts_with(line, &to_chars("CONSTRAINT"))
}

/// The offset of the first blank of `s`, read from `st`, that stands outside
/// strings and comments.
pub open spec fn blank_offset(s: Seq<char>, st: ScanState) -> Option<nat>
    decreases s.len(),
{
    if s.len() == 0 {
        None
    } else if st.plain() && s[0] == ' ' {
        Some(0)
    } else {
        shifted(blank_offset(s.skip(1), st.next(s[0])), 1)
    }
}

fn find_blank(text: &Vec<char>) -> (r: Option<usize>)
    ensures
        match blank_offset(text@, ScanState::start()) {
            Some(n) => r == Some(n as usize) && n < text.len(),
            None => r is None,
        },
{
    let mut i: usize = 0;
    let mut st = ScanState::new();
    assert(text@.skip(0) =~= text@);
    while i < text.len()
        invariant
            i <= text.len(),
            blank_offset(text@, ScanState::start()) == shifted(
                blank_offset(text@.skip(i as int), st),
                i as nat,
            ),
        decreases text.len() - i,
    {
        let c = text[i];
        proof {
            let s = text@.skip(i as int);
            assert(s[0] == c);
            assert(s.skip(1) =~= text@.skip(i + 1));
        }
        if st.is_plain() && c == ' ' {
            return Some(i);
        }
        st = st.step(c);
        i = i + 1;
    }
    None
}

/// The first match of a search, if it found any.
pub open spec fn first_match(found: Option<Seq<Seq<Option<(usize, usize)>>>>) -> Option<
    Seq<Option<(usize, usize)>>,
> {
    match found {
        Some(all) => if all.len() > 0 {
            Some(all[0])
        } else {
            None
        },
        None => None,
    }
}

/// The type and the constraints of a column, from what follows its name and
/// the groups of the type pattern's match on it. `None` unless the two groups
/// cover `rest` from end to end and part outside every string and comment, so
/// that nothing is lost and no literal is cut.
pub open spec fn type_split(rest: Seq<char>, groups: Option<Seq<Option<(usize, usize)>>>) -> Option<
    (Seq<char>, Seq<char>),
> {
    match groups {
        Some(g) => if g.len() == 3 {
            match (char_span(rest, g[1]), char_span(rest, g[2])) {
                (Some((a, b)), Some((c, d))) => if a == 0 && b == c && d == rest.len() && scan(
                    rest.take(b as int),
                    ScanState::start(),
                ).plain() {
                    Some((trim(rest.take(b as int)), trim(rest.skip(b as int))))
                } else {
                    None
                },
                _ => None,
            }
        } else {
            None
        },
        None => None,
    }
}

/// The type and the constraints of a column, from what follows its name and
/// the groups of the type pattern's match on it.
pub fn split_type(rest: &Vec<char>, groups: &Option<Groups>) -> (r: Option<(Vec<char>, Vec<char>)>)
    ensures
        match type_split(
            rest@,
            match groups {
                Some(g) => Some(g@),
                None => None,
            },
        ) {
            Some((t, c)) => r matches Some((rt, rc)) && rt@ == t && rc@ == c,
            None => r is None,
        },
{
    match groups {
        Some(g) => {
            if g.len() != 3 {
                return None;
            }
            match to_char_span(rest, g[1]) {
                Some((a, b)) => match to_char_span(rest, g[2]) {
                    Some((c, d)) => {
                        proof {
                            assert(rest@.take(b as int) =~= rest@.subrange(0, b as int));
                            assert(rest@.skip(b as int) =~= rest@.subrange(
                                b as int,
                                rest@.len() as int,
                            ));
                        }
                        if a == 0 && b == c && d == rest.len() && scan_range(
                            rest,
                            0,
                            b,
                            ScanState::new(),
                        ).is_plain() {
                            Some((trimmed(rest, 0, b), trimmed(rest, b, rest.len())))
                        } else {
                            None
                        }
                    },
                    None => None,
                },
                None => None,
            }
        },
        None => None,
    }
}

/// The name, the type and the constraints of a column definition.
pub type Parts = (Seq<char>, Seq<char>, Seq<char>);

/// The parts of a definition, given what the type pattern matches on the
/// text behind the name: the name ends at the first blank outside strings
/// and comments; a definition without one is all name.
pub open spec fn parts_with(line: Seq<char>, groups: Option<Seq<Option<(usize, usize)>>>) -> Parts {
    match blank_offset(line, ScanState::start()) {
        None => (line, Seq::empty(), Seq::empty()),
        Some(e) => {
            let name = trim(line.take(e as int));
            let rest = trim(line.skip(e + 1 as int));
            match type_split(rest, groups) {
                Some((t, c)) => (name, t, c),
                None => (name, rest, Seq::empty()),
            }
        },
    }
}

/// What follows the name of a definition, without the white space around
/// it; nothing for a definition that is all name.
pub open spec fn after_name(line: Seq<char>) -> Seq<char> {
    match blank_offset(line, ScanState::start()) {
        None => Seq::empty(),
        Some(e) => trim(line.skip(e + 1 as int)),
    }
}

/// The parts of a definition.
pub open spec fn column_parts(line: Seq<char>) -> Parts {
    parts_with(line, first_match(captures_of(TYPE_PATTERN@, after_name(line))))
}

/// The greatest length of a name among the first `n` definitions that are no
/// constraints.
pub open spec fn names_upto(items: Seq<Seq<char>>, n: nat) -> nat
    decreases n,
{
    if n == 0 {
        0
    } else {
        let before = names_upto(items, (n - 1) as nat);
        let here = column_parts(items[n - 1]).0.len();
        if !is_constraint(items[n - 1]) && here > before {
            here
        } else {
            before
        }
    }
}

/// The greatest length of a type among the first `n` definitions that are no
/// constraints.
pub open spec fn types_upto(items: Seq<Seq<char>>, n: nat) -> nat
    decreases n,
{
    if n == 0 {
        0
    } else {
        let before = types_upto(items, (n - 1) as nat);
        let here = column_parts(items[n - 1]).1.len();
        if !is_constraint(items[n - 1]) && here > before {
            here
        } else {
            before
        }
    }
}

/// One definition as it is written: a constraint as it is behind two blanks,
/// a column with its name and type padded, without white space at the end.
pub open spec fn definition_text(line: Seq<char>, name_width: nat, type_width: nat) -> Seq<char> {
    if is_constraint(line) {
        seq![' ', ' '] + line
    } else {
        let p = column_parts(line);
        trim_end(
            seq![' ', ' '] + pad_end(p.0, name_width) + seq![' '] + pad_end(p.1, type_width) + seq![
                ' ',
            ] + p.2,
        )
    }
}

/// The definitions as they are written.
pub open spec fn definition_texts(items: Seq<Seq<char>>) -> Seq<Seq<char>> {
    Seq::new(
        items.len(),
        |i: int|
            definition_text(
                items[i],
                names_upto(items, items.len()),
                types_upto(items, items.len()),
            ),
    )
}

/// Whether some item is empty.
pub open spec fn has_empty(items: Seq<Seq<char>>) -> bool {
    exists|i: int| 0 <= i < items.len() && (#[trigger] items[i]).len() == 0
}

/// A `CREATE TABLE` statement as it is written: the header, each definition
/// on a line of its own, and the footer on the last line. The statement is
/// written as it was found where a definition is empty or not closed.
pub open spec fn create_text(header: Seq<char>, columns: Seq<char>, footer: Seq<char>) -> Seq<
    char,
> {
    let items = list_items(columns);
    if !items_closed(items) || has_empty(items) {
        header + columns + footer
    } else {
        header + seq!['\n'] + join(definition_texts(items), seq![',', '\n']) + seq!['\n'] + footer
    }
}

/// The name, the type and the constraints of a column definition.
pub fn split_column(line: &Vec<char>) -> (r: (Vec<char>, Vec<char>, Vec<char>))
    ensures
        (r.0@, r.1@, r.2@) == column_parts(line@),
{
    match find_blank(line) {
        None => {
            assert(line@.subrange(0, line@.len() as int) =~= line@);
            (slice(line, 0, line.len()), Vec::new(), Vec::new())
        },
        Some(e) => {
            proof {
                assert(line@.take(e as int) =~= line@.subrange(0, e as int));
                assert(line@.skip(e + 1) =~= line@.subrange(e + 1, line@.len() as int));
            }
            let name = trimmed(line, 0, e);
            let rest = trimmed(line, e + 1, line.len());
            let text = to_string(&rest);
            let found = find_captures(TYPE_PATTERN, text.as_str());
            let first: Option<Groups> = match found {
                Some(mut all) => if all.len() > 0 {
                    proof {
                        assert(found_view(all@)[0] == all@[0]@);
                    }
                    Some(all.swap_remove(0))
                } else {
                    None
                },
                None => None,
            };
            match split_type(&rest, &first) {
                Some((t, c)) => (name, t, c),
                None => (name, rest, Vec::new()),
            }
        },
    }
}

fn has_empty_item(items: &Vec<Vec<char>>) -> (b: bool)
    ensures
        b == has_empty(lines(items@)),
{
    let mut i: usize = 0;
    while i < items.len()
        invariant
            i <= items.len(),
            forall|k: int| 0 <= k < i ==> (#[trigger] lines(items@)[k]).len() != 0,
        decreases items.len() - i,
    {
        proof {
            assert(lines(items@)[i as int] == items@[i as int]@);
        }
        if items[i].len() == 0 {
            return true;
        }
        i = i + 1;
    }
    false
}

#[verifier::rlimit(30)]
fn render_definition(
    line: &Vec<char>,
    parts: &(Vec<char>, Vec<char>, Vec<char>),
    name_width: usize,
    type_width: usize,
) -> (r: Vec<char>)
    requires
        (parts.0@, parts.1@, parts.2@) == column_parts(line@),
    ensures
        r@ == definition_text(line@, name_width as nat, type_width as nat),
{
    let mut out: Vec<char> = Vec::new();
    out.push(' ');
    out.push(' ');
    if constraint(line) {
        append(&mut out, line);
        return out;
    }
    append(&mut out, &parts.0);
    if parts.0.len() < name_width {
        append_blanks(&mut out, name_width - parts.0.len());
    }
    out.push(' ');
    append(&mut out, &parts.1);
    if parts.1.len() < type_width {
        append_blanks(&mut out, type_width - parts.1.len());
    }
    out.push(' ');
    append(&mut out, &parts.2);
    proof {
        let p = column_parts(line@);
        assert(out@ =~= seq![' ', ' '] + pad_end(p.0, name_width as nat) + seq![' '] + pad_end(
            p.1,
            type_width as nat,
        ) + seq![' '] + p.2);
        assert(out@.subrange(0, out@.len() as int) =~= out@);
    }
    let e = skip_spaces_back(&out, 0, out.len());
    slice(&out, 0, e)
}

/// Lays out a `CREATE TABLE` statement from its header, which ends with the
/// opening parenthesis, the column definitions and the footer.
pub fn format_create_statement(header: &str, columns_section: &str, footer: &str) -> (r: String)
    ensures
        r@ == create_text(header@, columns_section@, footer@),
{
    let columns = to_chars(columns_section);
    let items = split_list(&columns);
    let ghost t = lines(items@);
    let mut out = to_chars(header);
    if !all_items_closed(&items) || has_empty_item(&items) {
        append(&mut out, &columns);
        append(&mut out, &to_chars(footer));
        return to_string(&out);
    }
    let mut parts: Vec<(Vec<char>, Vec<char>, Vec<char>)> = Vec::new();
    let mut name_width: usize = 0;
    let mut type_width: usize = 0;
    let mut i: usize = 0;
    while i < items.len()
        invariant
            i <= items.len(),
            t == lines(items@),
            parts@.len() == i,
            forall|k: int|
                0 <= k < i ==> ((#[trigger] parts@[k]).0@, parts@[k].1@, parts@[k].2@)
                    == column_parts(t[k]),
            name_width == names_upto(t, i as nat),
            type_width == types_upto(t, i as nat),
        decreases items.len() - i,
    {
        proof {
            assert(t[i as int] == items@[i as int]@);
        }
        let p = split_column(&items[i]);
        if !constraint(&items[i]) {
            if p.0.len() > name_width {
                name_width = p.0.len();
            }
            if p.1.len() > type_width {
                type_width = p.1.len();
            }
        }
        parts.push(p);
        i = i + 1;
    }
    let mut texts: Vec<Vec<char>> = Vec::new();
    let mut i: usize = 0;
    while i < items.len()
        invariant
            i <= items.len(),
            t == lines(items@),
            parts@.len() == items.len(),
            forall|k: int|
                0 <= k < items.len() ==> ((#[trigger] parts@[k]).0@, parts@[k].1@, parts@[k].2@)
                    == column_parts(t[k]),
            texts@.len() == i,
            forall|k: int|
                0 <= k < i ==> (#[trigger] texts@[k])@ == definition_text(
                    t[k],
                    name_width as nat,
                    type_width as nat,
                ),
        decreases items.len() - i,
    {
        proof {
            assert(t[i as int] == items@[i as int]@);
        }
        texts.push(render_definition(&items[i], &parts[i], name_width, type_width));
        i = i + 1;
    }
    assert(lines(texts@) =~= definition_texts(t));
    out.push('\n');
    let mut gap: Vec<char> = Vec::new();
    gap.push(',');
    gap.push('\n');
    assert(gap@ =~= seq![',', '\n']);
    let body = join_lines(&texts, &gap);
    append(&mut out, &body);
    out.push('\n');
    append(&mut out, &to_chars(footer));
    proof {
        assert(out@ =~= header@ + seq!['\n'] + join(definition_texts(t), seq![',', '\n']) + seq![
            '\n',
        ] + footer@);
    }
    to_string(&out)
}

} // verus!
