//! The segmenter: splits the text behind a `VALUES` keyword into rows, and a
//! row into its column values, by the scanner's view of strings, comments and
//! parentheses.

use crate::scan::ScanState;
use crate::text::{is_space, lines, slice, space, trim, trimmed};
use vstd::prelude::*;

verus! {

/// A character that ends a column value where it stands at row level.
pub open spec fn is_separator(c: char) -> bool {
    c == ',' || c == ')'
}

/// `Some(n + k)` for `Some(n)`.
pub open spec fn shifted(o: Option<nat>, k: nat) -> Option<nat> {
    match o {
        Some(n) => Some(n + k),
        None => None,
    }
}

/// How many characters of `s`, read from `st`, come before the first comma
/// or closing parenthesis that stands outside strings and comments, one
/// parenthesis deep. `None` where `s` ends before one is met.
pub open spec fn field_len(s: Seq<char>, st: ScanState) -> Option<nat>
    decreases s.len(),
{
    if s.len() == 0 {
        None
    } else if st.plain_at(1) && is_separator(s[0]) {
        Some(0)
    } else {
        shifted(field_len(s.skip(1), st.next(s[0])), 1)
    }
}
/// The separator that ends a field stands in the text.

pub proof fn lemma_field_len_bound(s: Seq<char>, st: ScanState)
    ensures
        field_len(s, st) matches Some(n) ==> n < s.len() && is_separator(s[n as int]),
    decreases s.len(),
{
    if s.len() > 0 && !(st.plain_at(1) && is_separator(s[0])) {
        lemma_field_len_bound(s.skip(1), st.next(s[0]));
    }
}

/// A row's values and its length.
pub type RowCut = Option<(Seq<Seq<char>>, nat)>;

/// `Some((head + values, k + n))` for `Some((values, n))`.
pub open spec fn row_after(head: Seq<Seq<char>>, k: nat, o: RowCut) -> RowCut {
    match o {
        Some((values, n)) => Some((head + values, k + n)),
        None => None,
    }
}

/// The column values of the row whose opening parenthesis stands just before
/// `s`, each without the white space around it, and the number of characters
/// up to and with the parenthesis that closes the row. `None` where the row
/// is not closed in `s`.
pub open spec fn row_fields(s: Seq<char>) -> RowCut
    decreases s.len(),
{
    match field_len(s, ScanState::at_depth(1)) {
        None => None,
        Some(n) => {
            if n >= s.len() {
                None
            } else if s[n as int] == ')' {
                Some((seq![trim(s.take(n as int))], n + 1))
            } else {
                row_after(seq![trim(s.take(n as int))], n + 1, row_fields(s.skip(n + 1 as int)))
            }
        },
    }
}

/// Whether the first character of `s`, read in the state `st`, belongs to
/// the two characters that open a comment.
pub open spec fn opens_comment(s: Seq<char>, st: ScanState) -> bool {
    ||| s[0] == '-' && (st.pending == Some('-') || (s.len() > 1 && s[1] == '-'))
    ||| s[0] == '/' && s.len() > 1 && s[1] == '*'
    ||| s[0] == '*' && st.pending == Some('/')
}

/// How many characters `s`, read from `st`, begins with that are white space
/// or belong to a comment.
pub open spec fn trivia_len(s: Seq<char>, st: ScanState) -> nat
    decreases s.len(),
{
    if s.len() > 0 && (st.in_comment() || (st.plain() && (is_space(s[0]) || opens_comment(
        s,
        st,
    )))) {
        1 + trivia_len(s.skip(1), st.next(s[0]))
    } else {
        0
    }
}
/// No more characters are passed over than the text has.

pub proof fn lemma_trivia_len_bound(s: Seq<char>, st: ScanState)
    ensures
        trivia_len(s, st) <= s.len(),
    decreases s.len(),
{
    if s.len() > 0 && (st.in_comment() || (st.plain() && (is_space(s[0]) || opens_comment(
        s,
        st,
    )))) {
        lemma_trivia_len_bound(s.skip(1), st.next(s[0]));
    }
}

/// Where the next row opens behind a row that ends just before `s`: the
/// offset of its opening parenthesis, if `s` is one comma, with white space
/// and comments before and behind it, and that parenthesis.
pub open spec fn next_row(s: Seq<char>) -> Option<nat> {
    let a = trivia_len(s, ScanState::start());
    if a < s.len() && s[a as int] == ',' {
        let b = a + 1 + trivia_len(s.skip(a + 1 as int), ScanState::start());
        if b < s.len() && s[b as int] == '(' {
            Some(b)
        } else {
            None
        }
    } else {
        None
    }
}

/// The rows of a clause, the texts between them, and the length of it all.
pub type TableCut = Option<(Seq<Seq<Seq<char>>>, Seq<Seq<char>>, nat)>;

/// `o` with a row and the gap behind it put before its rows and gaps, and
/// `k` more characters.
pub open spec fn table_after(row: Seq<Seq<char>>, gap: Seq<char>, k: nat, o: TableCut) -> TableCut {
    match o {
        Some((rows, gaps, n)) => Some((seq![row] + rows, seq![gap] + gaps, k + n)),
        None => None,
    }
}

/// The rows that `s` begins with, the text between each two of them, and the
/// number of characters up to and with the parenthesis that closes the last
/// row. `s` begins with the opening parenthesis of the first row; between two
/// rows stands one comma, with white space and comments around it. `None`
/// where `s` does not begin with that parenthesis or a row is not closed.
pub open spec fn table_rows(s: Seq<char>) -> TableCut
    decreases s.len(),
{
    if s.len() == 0 || s[0] != '(' {
        None
    } else {
        match row_fields(s.skip(1)) {
            None => None,
            Some((values, n)) => {
                let used = 1 + n;
                match next_row(s.skip(used as int)) {
                    Some(b) => if used + b >= s.len() {
                        None
                    } else {
                        table_after(
                            values,
                            s.subrange(used as int, (used + b) as int),
                            used + b,
                            table_rows(s.skip((used + b) as int)),
                        )
                    },
                    None => Some((seq![values], Seq::empty(), used)),
                }
            },
        }
    }
}

/// The index of the separator that ends the column value beginning at `from`.
pub fn read_field(text: &Vec<char>, from: usize) -> (r: Option<usize>)
    requires
        from <= text.len(),
    ensures
        match field_len(text@.skip(from as int), ScanState::at_depth(1)) {
            Some(n) => r == Some((from + n) as usize) && from + n < text.len(),
            None => r is None,
        },
{
    let mut i = from;
    let mut st = ScanState::level(1);
    while i < text.len()
        invariant
            from <= i <= text.len(),
            field_len(text@.skip(from as int), ScanState::at_depth(1)) == shifted(
                field_len(text@.skip(i as int), st),
                (i - from) as nat,
            ),
        decreases text.len() - i,
    {
        let c = text[i];
        proof {
            let s = text@.skip(i as int);
            assert(s[0] == c);
            assert(s.skip(1) =~= text@.skip(i + 1));
        }
        if st.is_plain_at(1) && (c == ',' || c == ')') {
            return Some(i);
        }
        st = st.step(c);
        i = i + 1;
    }
    None
}

/// The values of the row whose opening parenthesis stands just before `from`,
/// and the index just behind the parenthesis that closes it.
pub fn read_row(text: &Vec<char>, from: usize) -> (r: Option<(Vec<Vec<char>>, usize)>)
    requires
        from <= text.len(),
    ensures
        match row_fields(text@.skip(from as int)) {
            Some((values, n)) => r matches Some((v, e)) && lines(v@) == values && e == from + n
                && e <= text.len(),
            None => r is None,
        },
{
    let mut values: Vec<Vec<char>> = Vec::new();
    let mut i = from;
    loop
        invariant
            from <= i <= text.len(),
            row_fields(text@.skip(from as int)) == row_after(
                lines(values@),
                (i - from) as nat,
                row_fields(text@.skip(i as int)),
            ),
        decreases text.len() - i,
    {
        let ghost s = text@.skip(i as int);
        match read_field(text, i) {
            None => {
                return None;
            },
            Some(e) => {
                let value = trimmed(text, i, e);
                let ghost before = lines(values@);
                values.push(value);
                proof {
                    let n = (e - i) as nat;
                    assert(s.take(n as int) =~= text@.subrange(i as int, e as int));
                    assert(s[n as int] == text@[e as int]);
                    assert(lines(values@) =~= before + seq![value@]);
                    assert(s.skip(n + 1 as int) =~= text@.skip(e + 1));
                    match row_fields(s.skip(n + 1 as int)) {
                        Some((more, m)) => {
                            assert(before + (seq![value@] + more) =~= (before + seq![value@])
                                + more);
                        },
                        None => {},
                    }
                    assert(before + seq![value@] =~= lines(values@));
                }
                if text[e] == ')' {
                    return Some((values, e + 1));
                }
                i = e + 1;
            },
        }
    }
}

/// The index of the first character at or behind `from` that is neither
/// white space nor part of a comment, where the scan begins outside every
/// string, comment and parenthesis at `from`.
pub fn skip_trivia(text: &Vec<char>, from: usize) -> (r: usize)
    requires
        from <= text.len(),
    ensures
        r == from + trivia_len(text@.skip(from as int), ScanState::start()),
        from <= r <= text.len(),
{
    let n = text.len();
    let mut i = from;
    let mut st = ScanState::new();
    while i < n
        invariant
            from <= i <= n,
            n == text.len(),
            trivia_len(text@.skip(from as int), ScanState::start()) == (i - from) + trivia_len(
                text@.skip(i as int),
                st,
            ),
        decreases n - i,
    {
        let c = text[i];
        proof {
            let s = text@.skip(i as int);
            assert(s[0] == c);
            assert(s.skip(1) =~= text@.skip(i + 1));
            if i + 1 < n {
                assert(s[1] == text@[i + 1]);
            }
        }
        let opener = (c == '-' && (is_pending(&st, '-') || (i + 1 < n && text[i + 1] == '-')))
            || (c == '/' && i + 1 < n && text[i + 1] == '*') || (c == '*' && is_pending(&st, '/'));
        if !(st.is_in_comment() || (st.is_plain() && (space(c) || opener))) {
            return i;
        }
        st = st.step(c);
        i = i + 1;
    }
    i
}

fn is_pending(st: &ScanState, c: char) -> (b: bool)
    ensures
        b == (st.pending == Some(c)),
{
    match st.pending {
        Some(d) => d == c,
        None => false,
    }
}

/// The index of the opening parenthesis of the row behind the row that ends
/// just before `from`.
pub fn find_next_row(text: &Vec<char>, from: usize) -> (r: Option<usize>)
    requires
        from <= text.len(),
    ensures
        match next_row(text@.skip(from as int)) {
            Some(b) => r == Some((from + b) as usize) && from + b < text.len(),
            None => r is None,
        },
{
    let n = text.len();
    let a = skip_trivia(text, from);
    proof {
        let s = text@.skip(from as int);
        if a < n {
            assert(s[a - from] == text@[a as int]);
            assert(s.skip(a - from + 1) =~= text@.skip(a + 1));
        }
    }
    if a < n && text[a] == ',' {
        let b = skip_trivia(text, a + 1);
        proof {
            let s = text@.skip(from as int);
            if b < n {
                assert(s[b - from] == text@[b as int]);
            }
        }
        if b < n && text[b] == '(' {
            Some(b)
        } else {
            None
        }
    } else {
        None
    }
}

/// The views of the rows of `t`, in order.
pub open spec fn tables(t: Seq<Vec<Vec<char>>>) -> Seq<Seq<Seq<char>>> {
    Seq::new(t.len(), |i: int| lines(t[i]@))
}

/// The rows of a clause as they are read: the values of each row, and the
/// text between each two rows.
pub struct Table {
    pub rows: Vec<Vec<Vec<char>>>,
    pub gaps: Vec<Vec<char>>,
}

/// `o` behind the rows `head` and the gaps `between`, which took `k`
/// characters.
pub open spec fn table_with(
    head: Seq<Seq<Seq<char>>>,
    between: Seq<Seq<char>>,
    k: nat,
    o: TableCut,
) -> TableCut {
    match o {
        Some((rows, gaps, n)) => Some((head + rows, between + gaps, k + n)),
        None => None,
    }
}

proof fn lemma_table_with_step(
    head: Seq<Seq<Seq<char>>>,
    between: Seq<Seq<char>>,
    k: nat,
    row: Seq<Seq<char>>,
    gap: Seq<char>,
    m: nat,
    o: TableCut,
)
    ensures
        table_with(head, between, k, table_after(row, gap, m, o)) == table_with(
            head.push(row),
            between.push(gap),
            k + m,
            o,
        ),
{
    match o {
        Some((rows, gaps, n)) => {
            assert(head + (seq![row] + rows) =~= head.push(row) + rows);
            assert(between + (seq![gap] + gaps) =~= between.push(gap) + gaps);
        },
        None => {},
    }
}

proof fn lemma_table_with_last(
    head: Seq<Seq<Seq<char>>>,
    between: Seq<Seq<char>>,
    k: nat,
    row: Seq<Seq<char>>,
    m: nat,
)
    ensures
        table_with(head, between, k, Some((seq![row], Seq::empty(), m))) == Some(
            (head.push(row), between, k + m),
        ),
{
    assert(head + seq![row] =~= head.push(row));
    assert(between + Seq::<Seq<char>>::empty() =~= between);
}

proof fn lemma_tables_push(rows: Seq<Vec<Vec<char>>>, row: Vec<Vec<char>>)
    ensures
        tables(rows.push(row)) == tables(rows).push(lines(row@)),
{
    assert(tables(rows.push(row)) =~= tables(rows).push(lines(row@)));
}

proof fn lemma_lines_push(items: Seq<Vec<char>>, item: Vec<char>)
    ensures
        lines(items.push(item)) == lines(items).push(item@),
{
    assert(lines(items.push(item)) =~= lines(items).push(item@));
}

/// The rows that begin at `from`, the texts between them, and the index just
/// behind the parenthesis that closes the last of them.
#[verifier::rlimit(50)]
pub fn read_table(text: &Vec<char>, from: usize) -> (r: Option<(Table, usize)>)
    requires
        from <= text.len(),
    ensures
        match table_rows(text@.skip(from as int)) {
            Some((rows, gaps, n)) => r matches Some((t, e)) && tables(t.rows@) == rows && lines(
                t.gaps@,
            ) == gaps && e == from + n && e <= text.len(),
            None => r is None,
        },
{
    let mut rows: Vec<Vec<Vec<char>>> = Vec::new();
    let mut gaps: Vec<Vec<char>> = Vec::new();
    let mut i = from;
    proof {
        let o = table_rows(text@.skip(from as int));
        assert(tables(rows@) =~= Seq::<Seq<Seq<char>>>::empty());
        assert(lines(gaps@) =~= Seq::<Seq<char>>::empty());
        match o {
            Some((r0, g0, n0)) => {
                assert(tables(rows@) + r0 =~= r0);
                assert(lines(gaps@) + g0 =~= g0);
            },
            None => {},
        }
    }
    loop
        invariant
            from <= i <= text.len(),
            table_rows(text@.skip(from as int)) == table_with(
                tables(rows@),
                lines(gaps@),
                (i - from) as nat,
                table_rows(text@.skip(i as int)),
            ),
        decreases text.len() - i,
    {
        let ghost s = text@.skip(i as int);
        let ghost head = tables(rows@);
        let ghost between = lines(gaps@);
        if i >= text.len() || text[i] != '(' {
            proof {
                if i < text.len() {
                    assert(s[0] == text@[i as int]);
                }
            }
            return None;
        }
        proof {
            assert(s[0] == text@[i as int]);
            assert(s.skip(1) =~= text@.skip(i + 1));
        }
        match read_row(text, i + 1) {
            None => {
                return None;
            },
            Some((values, e)) => {
                let ghost row = lines(values@);
                proof {
                    lemma_tables_push(rows@, values);
                    assert(s.skip(e - i) =~= text@.skip(e as int));
                }
                rows.push(values);
                match find_next_row(text, e) {
                    None => {
                        proof {
                            lemma_table_with_last(
                                head,
                                between,
                                (i - from) as nat,
                                row,
                                (e - i) as nat,
                            );
                        }
                        return Some((Table { rows, gaps }, e));
                    },
                    Some(b) => {
                        let gap = slice(text, e, b);
                        proof {
                            assert(s.skip(b - i) =~= text@.skip(b as int));
                            assert(s.subrange(e - i, b - i) =~= gap@);
                            lemma_lines_push(gaps@, gap);
                            lemma_table_with_step(
                                head,
                                between,
                                (i - from) as nat,
                                row,
                                gap@,
                                (b - i) as nat,
                                table_rows(text@.skip(b as int)),
                            );
                        }
                        gaps.push(gap);
                        i = b;
                    },
                }
            },
        }
    }
}

} // verus!
