//! Formatting of one `INSERT ... VALUES` statement: the keyword is located,
//! the rows behind it are segmented, and the statement is written out with
//! aligned columns, or left alone where that cannot be done safely.

use crate::render::{column_widths, render_table, table_text, uniform};
use crate::scan::{scan, scan_chars, scan_range, ScanState};
use crate::segment::{
    field_len, lemma_field_len_bound, lemma_trivia_len_bound, next_row, read_table, row_fields,
    shifted, skip_trivia, table_rows, tables, trivia_len,
};
use crate::text::{
    append, is_blank, is_word, leading_spaces, lemma_leading_spaces_bound, lines, skip_spaces,
    skip_spaces_back, slice, to_chars, to_string, trim_end, word,
};
use vstd::prelude::*;

verus! {

/// What formatting a clause gives: the text to put in its place, or the
/// signal to leave the text as it is.
#[derive(Clone, Debug, PartialEq, Eq)]
pub enum ClauseFormatResult {
    Formatted(String),
    Unchanged,
}

impl View for ClauseFormatResult {
    type V = Option<Seq<char>>;

    open spec fn view(&self) -> Option<Seq<char>> {
        match self {
            ClauseFormatResult::Formatted(s) => Some(s@),
            ClauseFormatResult::Unchanged => None,
        }
    }
}

/// The text that stands after formatting: the replacement, or the input.
pub open spec fn or_input(r: Option<Seq<char>>, input: Seq<char>) -> Seq<char> {
    match r {
        Some(t) => t,
        None => input,
    }
}

impl ClauseFormatResult {
    /// Whether there is a replacement.
    pub fn is_formatted(&self) -> (b: bool)
        ensures
            b == (self@ is Some),
    {
        match self {
            ClauseFormatResult::Formatted(_) => true,
            ClauseFormatResult::Unchanged => false,
        }
    }

    /// The replacement text, or `input` where the clause is unchanged.
    pub fn unwrap_or(self, input: &str) -> (r: String)
        ensures
            r@ == or_input(self@, input@),
    {
        match self {
            ClauseFormatResult::Formatted(s) => s,
            ClauseFormatResult::Unchanged => {
                let v = to_chars(input);
                to_string(&v)
            },
        }
    }
}

/// The length of the keyword `VALUES`.
pub const KEYWORD_LEN: usize = 6;

/// The keyword as it is written out.
pub open spec fn keyword() -> Seq<char> {
    seq!['V', 'A', 'L', 'U', 'E', 'S']
}

/// Whether `s` begins with the keyword `VALUES`, in any mix of cases.
pub open spec fn keyword_at(s: Seq<char>) -> bool {
    &&& s.len() >= 6
    &&& (s[0] == 'v' || s[0] == 'V')
    &&& (s[1] == 'a' || s[1] == 'A')
    &&& (s[2] == 'l' || s[2] == 'L')
    &&& (s[3] == 'u' || s[3] == 'U')
    &&& (s[4] == 'e' || s[4] == 'E')
    &&& (s[5] == 's' || s[5] == 'S')
}

/// Whether `s` is white space and then an opening parenthesis.
pub open spec fn opens_row(s: Seq<char>) -> bool {
    leading_spaces(s) < s.len() && s[leading_spaces(s) as int] == '('
}

/// Whether the clause keyword stands at the start of `s`: the scanner is
/// outside strings, comments and parentheses, no name runs into the keyword,
/// and a row opens behind it.
pub open spec fn clause_starts(s: Seq<char>, st: ScanState, after_word: bool) -> bool {
    st.plain_at(0) && !after_word && keyword_at(s) && opens_row(s.skip(6))
}

/// The offset just behind the parenthesis that opens the first row of the
/// first clause of `s`.
pub open spec fn first_row_offset(s: Seq<char>) -> Option<nat> {
    match keyword_offset(s, ScanState::start(), false) {
        Some(p) => Some(p + 6 + leading_spaces(s.skip(p + 6 as int)) + 1),
        None => None,
    }
}

/// The offset in `s` of the first clause keyword, where `s` is read from the
/// state `st` and `after_word` says whether a name character stands just
/// before `s`.
pub open spec fn keyword_offset(s: Seq<char>, st: ScanState, after_word: bool) -> Option<nat>
    decreases s.len(),
{
    if s.len() == 0 {
        None
    } else if clause_starts(s, st, after_word) {
        Some(0)
    } else {
        shifted(keyword_offset(s.skip(1), st.next(s[0]), is_word(s[0])), 1)
    }
}
/// Behind the keyword that is found stands at least the parenthesis that
/// opens a row.

pub proof fn lemma_keyword_offset_bound(s: Seq<char>, st: ScanState, after_word: bool)
    ensures
        keyword_offset(s, st, after_word) matches Some(p) ==> p + 6 < s.len(),
    decreases s.len(),
{
    if s.len() > 0 && !clause_starts(s, st, after_word) {
        lemma_keyword_offset_bound(s.skip(1), st.next(s[0]), is_word(s[0]));
    }
}

/// Whether `s`, read `depth` parentheses deep outside strings and comments,
/// ends as it began: every string, comment, escape and parenthesis that opens
/// in `s` is closed in `s`.
pub open spec fn closed(s: Seq<char>, depth: i32) -> bool {
    scan(s, ScanState::at_depth(depth)).plain_at(depth)
}

/// Whether every value of every row is closed at row level.
pub open spec fn all_closed(rows: Seq<Seq<Seq<char>>>) -> bool {
    forall|r: int, c: int|
        0 <= r < rows.len() && 0 <= c < rows[r].len() ==> closed(#[trigger] rows[r][c], 1)
}

/// The header as it is written: nothing for an empty header, else the header
/// and a line feed.
pub open spec fn lead(header: Seq<char>) -> Seq<char> {
    if header.len() == 0 {
        header
    } else {
        header.push('\n')
    }
}

/// The statement as it is written: the header, the keyword on a line of its
/// own, the rows and the tail.
pub open spec fn statement_text(
    header: Seq<char>,
    rows: Seq<Seq<Seq<char>>>,
    gaps: Seq<Seq<char>>,
    tail: Seq<char>,
) -> Seq<char> {
    lead(header) + keyword().push('\n') + table_text(rows, gaps) + tail
}

/// A replacement and the number of characters of the input that it
/// stands for.
pub type Cut = Option<(Seq<char>, nat)>;

/// The whole text that a cut of `s` gives: the replacement, and what follows
/// the characters that it stands for.
pub open spec fn completed(cut: Cut, s: Seq<char>) -> Option<Seq<char>> {
    match cut {
        Some((head, used)) => Some(head + s.skip(used as int)),
        None => None,
    }
}

/// What is written in place of the end of the clause, for the text `s` that
/// follows the last row, and how many characters of `s` it stands for.
/// Behind white space and comments must stand a semicolon, the end of the
/// text, or a comma with nothing but white space and comments behind it (a
/// clause that is part of a longer batch); anything else gives `None`, the
/// end of the clause is not clear. Where only white space stands before that
/// end, it is dropped, and a semicolon is written where the text ends; where
/// a comment stands there, the text up to that end is kept as it is.
pub open spec fn tail_cut(s: Seq<char>) -> Cut {
    let a = trivia_len(s, ScanState::start());
    let clear = a >= s.len() || s[a as int] == ';' || (s[a as int] == ',' && a + 1 + trivia_len(
        s.skip(a + 1 as int),
        ScanState::start(),
    ) == s.len());
    if !clear {
        None
    } else if a >= s.len() {
        if is_blank(s) {
            Some((seq![';'], s.len()))
        } else {
            Some((s, s.len()))
        }
    } else if is_blank(s.take(a as int)) {
        Some((seq![s[a as int]], a + 1))
    } else {
        Some((s.take(a + 1 as int), a + 1))
    }
}

/// The statement as it is written up to the end of its clause, for a header
/// and the text `body` behind the keyword, and how many characters of `body`
/// it stands for. `None` where the statement is to stay as it is: no row
/// opens behind the keyword, a row is not closed, the end of the clause is not
/// clear, two rows differ in their number of values, or a value is not
/// closed.
pub open spec fn insert_cut(header: Seq<char>, body: Seq<char>) -> Cut {
    let a = leading_spaces(body);
    match table_rows(body.skip(a as int)) {
        None => None,
        Some((rows, gaps, n)) => match tail_cut(body.skip((a + n) as int)) {
            None => None,
            Some((tail, used)) => if uniform(rows) && all_closed(rows) {
                Some((statement_text(header, rows, gaps, tail), a + n + used))
            } else {
                None
            },
        },
    }
}

/// The statement that `text` begins with as it is written up to the end of
/// its clause, and how many characters of `text` it stands for. `None` where
/// the statement is to stay as it is: the text holds no clause keyword
/// outside strings, comments and parentheses, has a header that is not
/// closed, or `insert_cut` gives `None` for what follows the keyword.
pub open spec fn clause_cut(text: Seq<char>) -> Cut {
    match keyword_offset(text, ScanState::start(), false) {
        None => None,
        Some(p) => {
            let header = trim_end(text.take(p as int));
            if closed(header, 0) {
                match insert_cut(header, text.skip(p + 6 as int)) {
                    Some((head, used)) => Some((head, p + 6 + used)),
                    None => None,
                }
            } else {
                None
            }
        },
    }
}

/// The formatted statement for a header and the text behind the keyword,
/// with what follows the end of the clause kept as it is. `None` where the
/// text behind the keyword ends inside a string or with parentheses that do
/// not balance, or `insert_cut` gives `None`.
pub open spec fn insert_layout(header: Seq<char>, body: Seq<char>) -> Option<Seq<char>> {
    if scan(body, ScanState::start()).unterminated() {
        None
    } else {
        completed(insert_cut(header, body), body)
    }
}

/// The formatted text for a statement, with what follows the end of its
/// clause kept as it is. `None` where the text ends inside a string or with
/// parentheses that do not balance, or `clause_cut` gives `None`.
pub open spec fn clause_layout(text: Seq<char>) -> Option<Seq<char>> {
    if scan(text, ScanState::start()).unterminated() {
        None
    } else {
        completed(clause_cut(text), text)
    }
}

/// The end of a clause lies within the text.
pub proof fn lemma_tail_cut_bound(s: Seq<char>)
    ensures
        tail_cut(s) matches Some((head, used)) ==> used <= s.len(),
{
    lemma_trivia_len_bound(s, ScanState::start());
}

/// The end of a clause lies within the text behind the keyword.
pub proof fn lemma_insert_cut_bound(header: Seq<char>, body: Seq<char>)
    ensures
        insert_cut(header, body) matches Some((head, used)) ==> used <= body.len(),
{
    let a = leading_spaces(body);
    lemma_leading_spaces_bound(body);
    lemma_table_rows_len(body.skip(a as int));
    match table_rows(body.skip(a as int)) {
        None => {},
        Some((rows, gaps, n)) => {
            lemma_tail_cut_bound(body.skip((a + n) as int));
        },
    }
}

/// The end of a clause lies within the statement.
pub proof fn lemma_clause_cut_bound(text: Seq<char>)
    ensures
        clause_cut(text) matches Some((head, used)) ==> used <= text.len(),
{
    lemma_keyword_offset_bound(text, ScanState::start(), false);
    match keyword_offset(text, ScanState::start(), false) {
        None => {},
        Some(p) => {
            lemma_insert_cut_bound(trim_end(text.take(p as int)), text.skip(p + 6 as int));
        },
    }
}

/// Where the first row opens, the keyword stands before it.
pub proof fn lemma_first_row_bound(s: Seq<char>)
    ensures
        match keyword_offset(s, ScanState::start(), false) {
            Some(p) => first_row_offset(s) matches Some(e) && p + 7 <= e && p + 6 < s.len(),
            None => first_row_offset(s) is None,
        },
{
    lemma_keyword_offset_bound(s, ScanState::start(), false);
}

/// The segmenter reads no further than the text goes.
pub proof fn lemma_table_rows_len(s: Seq<char>)
    ensures
        table_rows(s) matches Some((rows, gaps, n)) ==> n <= s.len() && rows.len() == gaps.len()
            + 1,
    decreases s.len(),
{
    if s.len() > 0 && s[0] == '(' {
        lemma_row_fields_len(s.skip(1));
        match row_fields(s.skip(1)) {
            None => {},
            Some((values, n)) => {
                let used = 1 + n;
                match next_row(s.skip(used as int)) {
                    Some(b) => {
                        if used + b < s.len() {
                            lemma_table_rows_len(s.skip((used + b) as int));
                        }
                    },
                    None => {},
                }
            },
        }
    }
}
/// A row is read no further than the text goes.

pub proof fn lemma_row_fields_len(s: Seq<char>)
    ensures
        row_fields(s) matches Some((values, n)) ==> n <= s.len(),
    decreases s.len(),
{
    lemma_field_len_bound(s, ScanState::at_depth(1));
    match field_len(s, ScanState::at_depth(1)) {
        None => {},
        Some(n) => {
            if n < s.len() && s[n as int] != ')' {
                lemma_row_fields_len(s.skip(n + 1 as int));
            }
        },
    }
}

/// The rows that stand behind the keyword, for the text `body` that follows
/// it, each value without the white space around it.
pub open spec fn body_rows(body: Seq<char>) -> Option<Seq<Seq<Seq<char>>>> {
    match table_rows(body.skip(leading_spaces(body) as int)) {
        Some((rows, gaps, n)) => Some(rows),
        None => None,
    }
}

/// The rows of the first `VALUES` clause of `text`.
pub open spec fn clause_rows(text: Seq<char>) -> Option<Seq<Seq<Seq<char>>>> {
    match keyword_offset(text, ScanState::start(), false) {
        Some(p) => body_rows(text.skip(p + 6 as int)),
        None => None,
    }
}

/// The text that stands in place of `text` after formatting.
pub open spec fn clause_output(text: Seq<char>) -> Seq<char> {
    or_input(clause_layout(text), text)
}

fn starts_keyword(text: &Vec<char>, i: usize) -> (b: bool)
    requires
        i <= text.len(),
    ensures
        b == keyword_at(text@.skip(i as int)),
{
    let n = text.len();
    if n - i < 6 {
        return false;
    }
    proof {
        let s = text@.skip(i as int);
        assert(s[0] == text@[i as int]);
        assert(s[1] == text@[i + 1]);
        assert(s[2] == text@[i + 2]);
        assert(s[3] == text@[i + 3]);
        assert(s[4] == text@[i + 4]);
        assert(s[5] == text@[i + 5]);
    }
    (text[i] == 'v' || text[i] == 'V') && (text[i + 1] == 'a' || text[i + 1] == 'A') && (text[i
        + 2] == 'l' || text[i + 2] == 'L') && (text[i + 3] == 'u' || text[i + 3] == 'U') && (text[i
        + 4] == 'e' || text[i + 4] == 'E') && (text[i + 5] == 's' || text[i + 5] == 'S')
}

fn row_opens(text: &Vec<char>, from: usize) -> (b: bool)
    requires
        from <= text.len(),
    ensures
        b == opens_row(text@.skip(from as int)),
{
    let n = text.len();
    let a = skip_spaces(text, from, n);
    proof {
        assert(text@.skip(from as int) =~= text@.subrange(from as int, n as int));
        if a < n {
            assert(text@.skip(from as int)[a - from] == text@[a as int]);
        }
    }
    a < n && text[a] == '('
}

/// The index of the first clause keyword of `text` at or behind `from`, where
/// the scan begins at `from`, if it stands before `limit`.
pub fn find_keyword_from(text: &Vec<char>, from: usize, limit: usize) -> (r: Option<usize>)
    requires
        from <= limit <= text.len(),
    ensures
        match keyword_offset(text@.skip(from as int), ScanState::start(), false) {
            Some(p) => if from + p < limit {
                r == Some((from + p) as usize) && from + p + 6 < text.len()
            } else {
                r is None
            },
            None => r is None,
        },
{
    let n = text.len();
    let mut st = ScanState::new();
    let mut after_word = false;
    let mut i: usize = from;
    while i < limit
        invariant
            from <= i <= limit <= n,
            n == text.len(),
            keyword_offset(text@.skip(from as int), ScanState::start(), false) == shifted(
                keyword_offset(text@.skip(i as int), st, after_word),
                (i - from) as nat,
            ),
        decreases limit - i,
    {
        let c = text[i];
        proof {
            let s = text@.skip(i as int);
            assert(s[0] == c);
            assert(s.skip(1) =~= text@.skip(i + 1));
            lemma_keyword_offset_bound(s, st, after_word);
            if n - i >= 6 {
                assert(s.skip(6) =~= text@.skip(i + 6));
            }
        }
        if st.is_plain_at(0) && !after_word && starts_keyword(text, i) && row_opens(text, i + 6) {
            return Some(i);
        }
        st = st.step(c);
        after_word = word(c);
        i = i + 1;
    }
    None
}

/// Whether `s[from..to]` is closed, read `depth` parentheses deep.
pub fn is_closed(s: &Vec<char>, from: usize, to: usize, depth: i32) -> (b: bool)
    requires
        from <= to <= s.len(),
    ensures
        b == closed(s@.subrange(from as int, to as int), depth),
{
    scan_range(s, from, to, ScanState::level(depth)).is_plain_at(depth)
}

fn rows_closed(rows: &Vec<Vec<Vec<char>>>) -> (b: bool)
    ensures
        b == all_closed(tables(rows@)),
{
    let ghost t = tables(rows@);
    let mut r: usize = 0;
    while r < rows.len()
        invariant
            r <= rows.len(),
            t == tables(rows@),
            forall|i: int, c: int|
                0 <= i < r && 0 <= c < t[i].len() ==> closed(#[trigger] t[i][c], 1),
        decreases rows.len() - r,
    {
        let row = &rows[r];
        let mut c: usize = 0;
        while c < row.len()
            invariant
                c <= row.len(),
                r < rows.len(),
                row == &rows@[r as int],
                t == tables(rows@),
                forall|k: int| 0 <= k < c ==> closed(#[trigger] t[r as int][k], 1),
            decreases row.len() - c,
        {
            proof {
                assert(t[r as int][c as int] == row@[c as int]@);
                assert(row@[c as int]@.subrange(0, row@[c as int]@.len() as int)
                    =~= row@[c as int]@);
            }
            if !is_closed(&row[c], 0, row[c].len(), 1) {
                return false;
            }
            c = c + 1;
        }
        proof {
            assert(t[r as int].len() == row@.len());
        }
        r = r + 1;
    }
    true
}

/// What is written in place of the end of the clause behind the last row,
/// which ends just before `from`, and the index at which that end ends.
fn read_tail(text: &Vec<char>, from: usize) -> (r: Option<(Vec<char>, usize)>)
    requires
        from <= text.len(),
    ensures
        match tail_cut(text@.skip(from as int)) {
            Some((head, used)) => r matches Some((v, e)) && v@ == head && e == from + used && e
                <= text.len(),
            None => r is None,
        },
{
    let n = text.len();
    let ghost s = text@.skip(from as int);
    let a = skip_trivia(text, from);
    proof {
        assert(s =~= text@.subrange(from as int, n as int));
        assert(s.take(a - from) =~= text@.subrange(from as int, a as int));
        if a < n {
            assert(s[a - from] == text@[a as int]);
            assert(s.skip(a - from + 1) =~= text@.skip(a + 1));
            assert(s.take(a - from + 1) =~= text@.subrange(from as int, a + 1));
        }
    }
    let clear = a >= n || text[a] == ';' || (text[a] == ',' && skip_trivia(text, a + 1) == n);
    if !clear {
        return None;
    }
    let blank = skip_spaces(text, from, a) == a;
    if a >= n {
        if blank {
            let mut v: Vec<char> = Vec::new();
            v.push(';');
            return Some((v, n));
        }
        return Some((slice(text, from, n), n));
    }
    if blank {
        let mut v: Vec<char> = Vec::new();
        v.push(text[a]);
        return Some((v, a + 1));
    }
    Some((slice(text, from, a + 1), a + 1))
}

/// The statement as it is written up to the end of its clause, for `header`
/// and the text of `text` from `from` on, which is what follows the keyword;
/// and the index at which the clause ends.
#[verifier::rlimit(30)]
pub fn cut_insert(header: &Vec<char>, text: &Vec<char>, from: usize) -> (r: Option<
    (Vec<char>, usize),
>)
    requires
        from <= text.len(),
    ensures
        match insert_cut(header@, text@.skip(from as int)) {
            Some((head, used)) => r matches Some((v, e)) && v@ == head && e == from + used && e
                <= text.len(),
            None => r is None,
        },
{
    let n = text.len();
    let ghost body = text@.skip(from as int);
    let a = skip_spaces(text, from, n);
    proof {
        assert(body =~= text@.subrange(from as int, n as int));
        assert(body.skip(a - from) =~= text@.skip(a as int));
    }
    match read_table(text, a) {
        None => None,
        Some((table, e)) => {
            let rows = table.rows;
            let gaps = table.gaps;
            proof {
                assert(body.skip(e - from) =~= text@.skip(e as int));
                lemma_table_rows_len(text@.skip(a as int));
            }
            match read_tail(text, e) {
                None => None,
                Some((tail, end)) => {
                    if column_widths(&rows).is_some() && rows_closed(&rows) {
                        let mut out: Vec<char> = Vec::new();
                        append(&mut out, header);
                        if header.len() > 0 {
                            out.push('\n');
                        }
                        out.push('V');
                        out.push('A');
                        out.push('L');
                        out.push('U');
                        out.push('E');
                        out.push('S');
                        out.push('\n');
                        let written = render_table(&rows, &gaps);
                        append(&mut out, &written);
                        append(&mut out, &tail);
                        proof {
                            assert(out@ =~= statement_text(
                                header@,
                                tables(rows@),
                                lines(gaps@),
                                tail@,
                            ));
                        }
                        Some((out, end))
                    } else {
                        None
                    }
                },
            }
        },
    }
}

/// The statement that begins at `from` as it is written up to the end of its
/// clause, and the index at which the clause ends, where the keyword stands
/// before `limit`; `None` where it stands at or behind `limit`.
pub fn cut_clause(text: &Vec<char>, from: usize, limit: usize) -> (r: Option<(Vec<char>, usize)>)
    requires
        from <= limit <= text.len(),
    ensures
        match keyword_offset(text@.skip(from as int), ScanState::start(), false) {
            Some(p) => if from + p < limit {
                match clause_cut(text@.skip(from as int)) {
                    Some((head, used)) => r matches Some((v, e)) && v@ == head && e == from + used
                        && e <= text.len(),
                    None => r is None,
                }
            } else {
                r is None
            },
            None => r is None,
        },
{
    match find_keyword_from(text, from, limit) {
        None => None,
        Some(p) => {
            let h = skip_spaces_back(text, from, p);
            let ghost s = text@.skip(from as int);
            proof {
                assert(s.take(p - from) =~= text@.subrange(from as int, p as int));
                assert(s.skip(p - from + 6) =~= text@.skip(p + 6));
            }
            if !is_closed(text, from, h, 0) {
                return None;
            }
            let header = slice(text, from, h);
            match cut_insert(&header, text, p + KEYWORD_LEN) {
                Some((head, e)) => Some((head, e)),
                None => None,
            }
        },
    }
}

/// The formatted text for the statement `text`.
pub fn layout_clause(text: &Vec<char>) -> (r: Option<Vec<char>>)
    ensures
        match clause_layout(text@) {
            Some(t) => r matches Some(v) && v@ == t,
            None => r is None,
        },
{
    proof {
        assert(text@.skip(0) =~= text@);
        lemma_clause_cut_bound(text@);
        lemma_keyword_offset_bound(text@, ScanState::start(), false);
    }
    if scan_chars(text, ScanState::new()).is_unterminated() {
        return None;
    }
    match cut_clause(text, 0, text.len()) {
        None => None,
        Some((head, e)) => {
            let mut out = head;
            let rest = slice(text, e, text.len());
            append(&mut out, &rest);
            proof {
                assert(text@.skip(e as int) =~= text@.subrange(e as int, text@.len() as int));
            }
            Some(out)
        },
    }
}

/// The formatted statement for `header` and the text of `text` from `from`
/// on, which is what follows the keyword.
pub fn layout_insert(header: &Vec<char>, text: &Vec<char>, from: usize) -> (r: Option<Vec<char>>)
    requires
        from <= text.len(),
    ensures
        match insert_layout(header@, text@.skip(from as int)) {
            Some(t) => r matches Some(v) && v@ == t,
            None => r is None,
        },
{
    proof {
        lemma_insert_cut_bound(header@, text@.skip(from as int));
        assert(text@.skip(from as int) =~= text@.subrange(from as int, text@.len() as int));
    }
    if scan_range(text, from, text.len(), ScanState::new()).is_unterminated() {
        return None;
    }
    match cut_insert(header, text, from) {
        None => None,
        Some((head, e)) => {
            let mut out = head;
            let rest = slice(text, e, text.len());
            append(&mut out, &rest);
            proof {
                assert(text@.skip(from as int).skip(e - from) =~= text@.subrange(
                    e as int,
                    text@.len() as int,
                ));
            }
            Some(out)
        },
    }
}

fn wrap(r: Option<Vec<char>>) -> (out: ClauseFormatResult)
    ensures
        match r {
            Some(v) => out@ == Some(v@),
            None => out@ is None,
        },
{
    match r {
        Some(v) => ClauseFormatResult::Formatted(to_string(&v)),
        None => ClauseFormatResult::Unchanged,
    }
}

/// Formats one statement of the shape header, `VALUES`, rows: the rows are
/// written one to a line with every column padded to the width of its longest
/// value. Gives `Unchanged` where `clause_layout` gives `None`: for a text
/// that ends inside a string or with unbalanced parentheses, that holds no
/// clause, or whose clause has ragged rows or cannot be taken apart without
/// doubt.
pub fn format_clause(text: &str) -> (r: ClauseFormatResult)
    ensures
        r@ == clause_layout(text@),
{
    let chars = to_chars(text);
    wrap(layout_clause(&chars))
}

/// Formats the rows of one `INSERT` statement, given its header and the text
/// that follows the keyword `VALUES`. Gives `Unchanged` where `insert_layout`
/// gives `None`.
pub fn format_insert_statement(header: &str, values_section: &str) -> (r: ClauseFormatResult)
    ensures
        r@ == insert_layout(header@, values_section@),
{
    let h = to_chars(header);
    let body = to_chars(values_section);
    assert(body@.skip(0) =~= body@);
    wrap(layout_insert(&h, &body, 0))
}

} // verus!
