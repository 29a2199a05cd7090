//! The classifier: what kind of SQL expression a column value is, and what
//! kind a whole column is, which decides how the column is aligned.

use crate::scan::ScanState;
use crate::text::{contains_char, digit, is_digit};
use vstd::prelude::*;

verus! {

/// The kind of a column value, from the most specific to the least.
#[derive(Clone, Copy, Debug, PartialEq, Eq)]
pub enum ColumnKind {
    Null,
    Numeric,
    StringLiteral,
    Opaque,
    FunctionOrExpression,
}

impl ColumnKind {
    /// The place of a kind in the order from the most specific to the least.
    pub open spec fn rank(self) -> nat {
        match self {
            ColumnKind::Null => 0,
            ColumnKind::Numeric => 1,
            ColumnKind::StringLiteral => 2,
            ColumnKind::Opaque => 3,
            ColumnKind::FunctionOrExpression => 4,
        }
    }

    /// The less specific of two kinds.
    pub open spec fn wider(self, other: ColumnKind) -> ColumnKind {
        if self.rank() >= other.rank() {
            self
        } else {
            other
        }
    }
    /// The less specific of two kinds.

    pub fn merge(self, other: ColumnKind) -> (r: ColumnKind)
        ensures
            r == self.wider(other),
    {
        if self.level() >= other.level() {
            self
        } else {
            other
        }
    }
    /// The place of a kind in the order from the most specific to the least.

    pub fn level(self) -> (r: u8)
        ensures
            r == self.rank(),
    {
        match self {
            ColumnKind::Null => 0,
            ColumnKind::Numeric => 1,
            ColumnKind::StringLiteral => 2,
            ColumnKind::Opaque => 3,
            ColumnKind::FunctionOrExpression => 4,
        }
    }
}

/// How many digits `s` begins with.
pub open spec fn leading_digits(s: Seq<char>) -> nat
    decreases s.len(),
{
    if s.len() > 0 && is_digit(s[0]) {
        1 + leading_digits(s.skip(1))
    } else {
        0
    }
}
/// No more digits lead a text than it has characters.

pub proof fn lemma_leading_digits_bound(s: Seq<char>)
    ensures
        leading_digits(s) <= s.len(),
    decreases s.len(),
{
    if s.len() > 0 && is_digit(s[0]) {
        lemma_leading_digits_bound(s.skip(1));
    }
}
/// A plus or a minus sign.

pub open spec fn is_sign(c: char) -> bool {
    c == '+' || c == '-'
}

/// Whether `s` is an exponent: `e` or `E`, an optional sign, and one digit or
/// more, to the end.
pub open spec fn is_exponent(s: Seq<char>) -> bool {
    &&& s.len() >= 2
    &&& (s[0] == 'e' || s[0] == 'E')
    &&& {
        let t = if is_sign(s[1]) {
            s.skip(2)
        } else {
            s.skip(1)
        };
        t.len() > 0 && leading_digits(t) == t.len()
    }
}

/// Whether `s` is nothing, or an exponent.
pub open spec fn is_number_end(s: Seq<char>) -> bool {
    s.len() == 0 || is_exponent(s)
}

/// Whether `s` is a number without its sign: digits with an optional point
/// and fraction, or a point and a fraction, then an optional exponent.
pub open spec fn is_unsigned_number(s: Seq<char>) -> bool {
    let a = leading_digits(s);
    let t = s.skip(a as int);
    if t.len() > 0 && t[0] == '.' {
        let b = leading_digits(t.skip(1));
        a + b > 0 && is_number_end(t.skip(1 + b as int))
    } else {
        a > 0 && is_number_end(t)
    }
}

/// Whether `s` is a signed integer or floating-point literal.
pub open spec fn is_number(s: Seq<char>) -> bool {
    if s.len() > 0 && is_sign(s[0]) {
        is_unsigned_number(s.skip(1))
    } else {
        is_unsigned_number(s)
    }
}

/// Whether `s` is the word `NULL`, in any mix of cases.
pub open spec fn is_null(s: Seq<char>) -> bool {
    &&& s.len() == 4
    &&& (s[0] == 'n' || s[0] == 'N')
    &&& (s[1] == 'u' || s[1] == 'U')
    &&& (s[2] == 'l' || s[2] == 'L')
    &&& (s[3] == 'l' || s[3] == 'L')
}

/// Whether `s`, read in the state `st`, stays inside the string that is open
/// in `st` up to its last character, which closes that string.
pub open spec fn closes_string(s: Seq<char>, st: ScanState) -> bool
    decreases s.len(),
{
    if s.len() == 0 {
        false
    } else if s.len() == 1 {
        st.in_string && st.next(s[0]).plain()
    } else {
        st.in_string && st.next(s[0]).in_string && closes_string(s.skip(1), st.next(s[0]))
    }
}

/// Whether `s` is one string literal in single quotes, by the scanner's
/// rules: the quote that `s` begins with is closed by its last character and
/// not before.
pub open spec fn is_string_literal(s: Seq<char>) -> bool {
    s.len() >= 2 && s[0] == '\'' && closes_string(s.skip(1), ScanState::start().next('\''))
}

/// Whether `s` holds an opening and a closing parenthesis.
pub open spec fn has_call(s: Seq<char>) -> bool {
    s.contains('(') && s.contains(')')
}

/// The kind of one column value.
pub open spec fn kind_of(s: Seq<char>) -> ColumnKind {
    if is_string_literal(s) {
        ColumnKind::StringLiteral
    } else if is_number(s) {
        ColumnKind::Numeric
    } else if is_null(s) {
        ColumnKind::Null
    } else if has_call(s) {
        ColumnKind::FunctionOrExpression
    } else {
        ColumnKind::Opaque
    }
}

/// The index of the first character of `v` at or behind `from` that is no
/// digit.
fn skip_digits(v: &Vec<char>, from: usize) -> (r: usize)
    requires
        from <= v.len(),
    ensures
        r == from + leading_digits(v@.skip(from as int)),
        from <= r <= v.len(),
{
    let mut i = from;
    while i < v.len() && digit(v[i])
        invariant
            from <= i <= v.len(),
            leading_digits(v@.skip(from as int)) == (i - from) + leading_digits(
                v@.skip(i as int),
            ),
        decreases v.len() - i,
    {
        proof {
            let s = v@.skip(i as int);
            assert(s[0] == v@[i as int]);
            assert(s.skip(1) =~= v@.skip(i + 1));
        }
        i = i + 1;
    }
    proof {
        let s = v@.skip(i as int);
        if i < v.len() {
            assert(s[0] == v@[i as int]);
        }
    }
    i
}

fn sign(c: char) -> (b: bool)
    ensures
        b == is_sign(c),
{
    c == '+' || c == '-'
}

fn number_end(v: &Vec<char>, from: usize) -> (b: bool)
    requires
        from <= v.len(),
    ensures
        b == is_number_end(v@.skip(from as int)),
{
    let n = v.len();
    let ghost s = v@.skip(from as int);
    if from == n {
        return true;
    }
    if n - from < 2 {
        return false;
    }
    proof {
        assert(s[0] == v@[from as int]);
        assert(s[1] == v@[from + 1]);
        assert(s.skip(1) =~= v@.skip(from + 1));
        assert(s.skip(2) =~= v@.skip(from + 2));
    }
    if !(v[from] == 'e' || v[from] == 'E') {
        return false;
    }
    let start = if sign(v[from + 1]) {
        from + 2
    } else {
        from + 1
    };
    let end = skip_digits(v, start);
    start < n && end == n
}

fn unsigned_number(v: &Vec<char>, from: usize) -> (b: bool)
    requires
        from <= v.len(),
    ensures
        b == is_unsigned_number(v@.skip(from as int)),
{
    let n = v.len();
    let ghost s = v@.skip(from as int);
    let a = skip_digits(v, from);
    proof {
        assert(s.skip(a - from) =~= v@.skip(a as int));
        if a < n {
            assert(v@.skip(a as int)[0] == v@[a as int]);
            assert(v@.skip(a as int).skip(1) =~= v@.skip(a + 1));
        }
    }
    if a < n && v[a] == '.' {
        let b = skip_digits(v, a + 1);
        proof {
            assert(v@.skip(a as int).skip(1 + (b - a - 1)) =~= v@.skip(b as int));
        }
        (a - from) + (b - a - 1) > 0 && number_end(v, b)
    } else {
        a > from && number_end(v, a)
    }
}

/// Whether `v` is a signed integer or floating-point literal.
pub fn number(v: &Vec<char>) -> (b: bool)
    ensures
        b == is_number(v@),
{
    assert(v@.skip(0) =~= v@);
    if v.len() > 0 && sign(v[0]) {
        unsigned_number(v, 1)
    } else {
        unsigned_number(v, 0)
    }
}

/// Whether `v` is the word `NULL`, in any mix of cases.
pub fn null(v: &Vec<char>) -> (b: bool)
    ensures
        b == is_null(v@),
{
    v.len() == 4 && (v[0] == 'n' || v[0] == 'N') && (v[1] == 'u' || v[1] == 'U') && (v[2] == 'l'
        || v[2] == 'L') && (v[3] == 'l' || v[3] == 'L')
}

/// Whether `v` is one string literal in single quotes.
pub fn string_literal(v: &Vec<char>) -> (b: bool)
    ensures
        b == is_string_literal(v@),
{
    let n = v.len();
    if n < 2 || v[0] != '\'' {
        return false;
    }
    let mut st = ScanState::new().step('\'');
    let mut i: usize = 1;
    while i < n - 1
        invariant
            1 <= i <= n - 1,
            n == v.len(),
            closes_string(v@.skip(1), ScanState::start().next('\'')) == closes_string(
                v@.skip(i as int),
                st,
            ),
        decreases n - i,
    {
        proof {
            let s = v@.skip(i as int);
            assert(s[0] == v@[i as int]);
            assert(s.skip(1) =~= v@.skip(i + 1));
        }
        let nx = st.step(v[i]);
        if !(st.in_string && nx.in_string) {
            return false;
        }
        st = nx;
        i = i + 1;
    }
    proof {
        let s = v@.skip(i as int);
        assert(s[0] == v@[i as int]);
    }
    st.in_string && st.step(v[i]).is_plain()
}

/// The kind of one column value.
pub fn classify(v: &Vec<char>) -> (k: ColumnKind)
    ensures
        k == kind_of(v@),
{
    if string_literal(v) {
        ColumnKind::StringLiteral
    } else if number(v) {
        ColumnKind::Numeric
    } else if null(v) {
        ColumnKind::Null
    } else if contains_char(v, '(') && contains_char(v, ')') {
        ColumnKind::FunctionOrExpression
    } else {
        ColumnKind::Opaque
    }
}

/// The kind of the column `c` over the first `n` rows: the least specific
/// kind among its values, and `Null` where there is no row.
pub open spec fn column_kind_upto(rows: Seq<Seq<Seq<char>>>, c: int, n: nat) -> ColumnKind
    decreases n,
{
    if n == 0 {
        ColumnKind::Null
    } else {
        column_kind_upto(rows, c, (n - 1) as nat).wider(kind_of(rows[n - 1][c]))
    }
}

/// The kind of the column `c`: the least specific kind among its values, so
/// that one function call or expression makes the column
/// `FunctionOrExpression`.
pub open spec fn column_kind(rows: Seq<Seq<Seq<char>>>, c: int) -> ColumnKind {
    column_kind_upto(rows, c, rows.len())
}

} // verus!
