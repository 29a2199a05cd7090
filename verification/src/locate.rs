//! The statement locator: the patterns by which statements are found in a
//! document, the search itself, and the conversion of the byte offsets that
//! the search gives into character offsets.

use crate::scan::{lemma_scan_push, scan, ScanState};
use crate::segment::shifted;
use regex::Regex;
use vstd::prelude::*;

verus! {

/// The groups of one match: for each group of the pattern its byte span in
/// the text, or `None` where the group took no part in the match. Group 0 is
/// the whole match.
pub type Groups = Vec<Option<(usize, usize)>>;

/// The header of an `INSERT` statement up to the parenthesis that opens its
/// first row. Group 1 is the header before the keyword `VALUES`.
pub const INSERT_PATTERN: &'static str =
    r"(?is)(INSERT\s+INTO\s+\w+(?:\.\w+)?\s*\([^)]+\))\s*VALUES\s*\n?\s*\(";

/// A `CREATE TABLE` statement: its header up to the opening parenthesis, the
/// column definitions, and the footer.
pub const CREATE_PATTERN: &'static str =
    r"(?is)(CREATE\s+TABLE\s+(?:IF\s+NOT\s+EXISTS\s+)?[^\s(]+\s*\()([^;]+)(\);)";

/// A `SELECT` statement: the keyword, the columns, `FROM`, the tables, the
/// bodies of the optional clauses, and the terminator.
pub const SELECT_PATTERN: &'static str =
    r"(?is)(SELECT\s+)(.+?)(\s+FROM\s+)(.+?)(?:(?:\s+WHERE\s+)(.+?))?(?:(?:\s+GROUP\s+BY\s+)(.+?))?(?:(?:\s+HAVING\s+)(.+?))?(?:(?:\s+ORDER\s+BY\s+)(.+?))?(?:(?:\s+LIMIT\s+)(\d+))?(?:(?:\s+OFFSET\s+)(\d+))?(\s*;|\s*$)";

/// An `UPDATE` statement: the keyword, the table, `SET`, the assignments, the
/// body of the optional `WHERE` clause, and the terminator.
pub const UPDATE_PATTERN: &'static str =
    r"(?is)(UPDATE\s+)(.+?)(\s+SET\s+)(.+?)(?:(?:\s+WHERE\s+)(.+?))?(\s*;|\s*$)";

/// A `DELETE` statement: the keyword, the table, the body of the optional
/// `WHERE` clause, and the terminator.
pub const DELETE_PATTERN: &'static str =
    r"(?is)(DELETE\s+FROM\s+)(.+?)(?:(?:\s+WHERE\s+)(.+?))?(\s*;|\s*$)";

/// The type of a column definition, with its optional length in parentheses,
/// and the constraints that follow it.
pub const TYPE_PATTERN: &'static str = r"^([A-Za-z0-9_]+(?:\s*\([^)]+\))?)(.*)$";

/// The views of the matches of `v`, in order.
pub open spec fn found_view(v: Seq<Groups>) -> Seq<Seq<Option<(usize, usize)>>> {
    Seq::new(v.len(), |i: int| v[i]@)
}

/// What a search of `text` for the regular expression `pattern` finds: the
/// successive matches that do not overlap, each with the byte spans of its
/// groups; `None` where `pattern` is no regular expression that can be
/// compiled.
pub uninterp spec fn captures_of(pattern: Seq<char>, text: Seq<char>) -> Option<
    Seq<Seq<Option<(usize, usize)>>>,
>;

/// Compiles `pattern` with `regex::Regex::new` and searches `text` with
/// `Regex::captures_iter`, reading each group's span from `Captures::iter`
/// and `Match::start` and `Match::end`. The contract only names the result:
/// the compilation and the search depend on the pattern and the text alone.
#[verifier::external_body]
pub(crate) fn find_captures(pattern: &str, text: &str) -> (r: Option<Vec<Groups>>)
    ensures
        match r {
            Some(v) => captures_of(pattern@, text@) == Some(found_view(v@)),
            None => captures_of(pattern@, text@) is None,
        },
{
    match Regex::new(pattern) {
        Ok(re) => Some(
            re.captures_iter(text).map(
                |c| c.iter().map(|g| g.map(|m| (m.start(), m.end()))).collect(),
            ).collect(),
        ),
        Err(_) => None,
    }
}

/// The number of bytes that UTF-8 takes for `c`.
pub open spec fn utf8_width(c: char) -> nat {
    if c <= '\u{7f}' {
        1
    } else if c <= '\u{7ff}' {
        2
    } else if c <= '\u{ffff}' {
        3
    } else {
        4
    }
}
/// The number of bytes that UTF-8 takes for `c`.

pub fn width_of(c: char) -> (w: usize)
    ensures
        w == utf8_width(c),
{
    if c <= '\u{7f}' {
        1
    } else if c <= '\u{7ff}' {
        2
    } else if c <= '\u{ffff}' {
        3
    } else {
        4
    }
}

/// How many characters `s` begins with whose encodings take `b` bytes
/// together; `None` where `b` falls inside a character or behind the end.
pub open spec fn chars_within(s: Seq<char>, b: nat) -> Option<nat>
    decreases s.len(),
{
    if b == 0 {
        Some(0)
    } else if s.len() == 0 || utf8_width(s[0]) > b {
        None
    } else {
        shifted(chars_within(s.skip(1), (b - utf8_width(s[0])) as nat), 1)
    }
}
/// No more characters fill a number of bytes than the text has.

pub proof fn lemma_chars_within_bound(s: Seq<char>, b: nat)
    ensures
        chars_within(s, b) matches Some(n) ==> n <= s.len(),
    decreases s.len(),
{
    if !(b == 0) && !(s.len() == 0 || utf8_width(s[0]) > b) {
        lemma_chars_within_bound(s.skip(1), (b - utf8_width(s[0])) as nat);
    }
}

/// The character offset in `text` of the byte offset `b`.
pub fn char_offset(text: &Vec<char>, b: usize) -> (r: Option<usize>)
    ensures
        match chars_within(text@, b as nat) {
            Some(n) => r == Some(n as usize) && n <= text.len(),
            None => r is None,
        },
{
    let mut i: usize = 0;
    let mut left = b;
    assert(text@.skip(0) =~= text@);
    while left > 0
        invariant
            i <= text.len(),
            chars_within(text@, b as nat) == shifted(
                chars_within(text@.skip(i as int), left as nat),
                i as nat,
            ),
        decreases text.len() - i,
    {
        if i >= text.len() {
            return None;
        }
        let w = width_of(text[i]);
        proof {
            let s = text@.skip(i as int);
            assert(s[0] == text@[i as int]);
            assert(s.skip(1) =~= text@.skip(i + 1));
        }
        if w > left {
            return None;
        }
        left = left - w;
        i = i + 1;
    }
    Some(i)
}

/// The character span in `text` of a byte span: `None` where an end is no
/// character boundary of `text` or the span runs backwards.
pub open spec fn char_span(text: Seq<char>, span: Option<(usize, usize)>) -> Option<(nat, nat)> {
    match span {
        Some((a, b)) => match (chars_within(text, a as nat), chars_within(text, b as nat)) {
            (Some(ca), Some(cb)) => if ca <= cb {
                Some((ca, cb))
            } else {
                None
            },
            _ => None,
        },
        None => None,
    }
}

/// The character span in `text` of a byte span.
pub fn to_char_span(text: &Vec<char>, span: Option<(usize, usize)>) -> (r: Option<(usize, usize)>)
    ensures
        match char_span(text@, span) {
            Some((a, b)) => r == Some((a as usize, b as usize)) && a <= b <= text.len(),
            None => r is None,
        },
{
    match span {
        Some((a, b)) => match char_offset(text, a) {
            Some(ca) => match char_offset(text, b) {
                Some(cb) => if ca <= cb {
                    Some((ca, cb))
                } else {
                    None
                },
                None => None,
            },
            None => None,
        },
        None => None,
    }
}

/// The characters behind a boundary are counted from that boundary on.
pub proof fn lemma_chars_within_ahead(s: Seq<char>, b0: nat, b: nat)
    requires
        chars_within(s, b0) is Some,
        b0 <= b,
    ensures
        chars_within(s, b0)->0 <= s.len(),
        chars_within(s, b) == shifted(
            chars_within(s.skip(chars_within(s, b0)->0 as int), (b - b0) as nat),
            chars_within(s, b0)->0,
        ),
    decreases s.len(),
{
    let i = chars_within(s, b0)->0;
    if b0 == 0 {
        assert(s.skip(0) =~= s);
    } else {
        let w = utf8_width(s[0]);
        let t = s.skip(1);
        lemma_chars_within_ahead(t, (b0 - w) as nat, (b - w) as nat);
        assert(t.skip(i - 1) =~= s.skip(i as int));
    }
}

/// A place in a text that is known by its character offset, its byte offset
/// and the state in which the scanner reaches it from the start of the text.
#[derive(Clone, Copy, Debug)]
pub struct Cursor {
    pub chars: usize,
    pub bytes: usize,
    pub state: ScanState,
}

impl Cursor {
    /// Whether the cursor stands on a character boundary of `text`, with the
    /// scanner's state for that place.
    pub open spec fn on(self, text: Seq<char>) -> bool {
        &&& self.chars <= text.len()
        &&& chars_within(text, self.bytes as nat) == Some(self.chars as nat)
        &&& self.state == scan(text.take(self.chars as int), ScanState::start())
    }

    /// The cursor at the start of `text`.
    pub fn start(text: &Vec<char>) -> (c: Cursor)
        ensures
            c.on(text@),
            c.chars == 0,
            c.bytes == 0,
    {
        assert(text@.take(0) =~= Seq::<char>::empty());
        Cursor { chars: 0, bytes: 0, state: ScanState::new() }
    }

    /// Moves the cursor to the byte offset `b` of `text` and gives the
    /// character offset of that place, or `None` where `b` is no character
    /// boundary of `text`.
    pub fn seek(&mut self, text: &Vec<char>, b: usize) -> (r: Option<usize>)
        requires
            old(self).on(text@),
        ensures
            final(self).on(text@),
            match chars_within(text@, b as nat) {
                Some(n) => r == Some(n as usize) && final(self).chars == n && final(self).bytes
                    == b,
                None => r is None,
            },
    {
        if b < self.bytes {
            proof {
                assert(text@.take(0) =~= Seq::<char>::empty());
            }
            self.chars = 0;
            self.bytes = 0;
            self.state = ScanState::new();
        }
        while self.bytes < b
            invariant
                self.on(text@),
                self.bytes <= b,
            decreases text.len() - self.chars,
        {
            proof {
                lemma_chars_within_ahead(text@, self.bytes as nat, b as nat);
                let s = text@.skip(self.chars as int);
                if self.chars < text.len() {
                    assert(s[0] == text@[self.chars as int]);
                }
            }
            if self.chars >= text.len() {
                return None;
            }
            let c = text[self.chars];
            let w = width_of(c);
            if w > b - self.bytes {
                return None;
            }
            proof {
                lemma_chars_within_ahead(text@, self.bytes as nat, (self.bytes + w) as nat);
                let s = text@.skip(self.chars as int);
                assert(chars_within(s.skip(1), 0) == Some(0nat));
                assert(text@.take(self.chars + 1) =~= text@.take(self.chars as int).push(c));
                lemma_scan_push(text@.take(self.chars as int), c, ScanState::start());
            }
            self.bytes = self.bytes + w;
            self.state = self.state.step(c);
            self.chars = self.chars + 1;
        }
        proof {
            lemma_chars_within_ahead(text@, self.bytes as nat, b as nat);
        }
        Some(self.chars)
    }

    /// The character span in `text` of a byte span, with the cursor left at
    /// its end.
    pub fn span(&mut self, text: &Vec<char>, span: Option<(usize, usize)>) -> (r: Option<
        (usize, usize),
    >)
        requires
            old(self).on(text@),
        ensures
            final(self).on(text@),
            match char_span(text@, span) {
                Some((a, b)) => r == Some((a as usize, b as usize)) && a <= b <= text.len(),
                None => r is None,
            },
    {
        match span {
            Some((a, b)) => match self.seek(text, a) {
                Some(ca) => match self.seek(text, b) {
                    Some(cb) => if ca <= cb {
                        Some((ca, cb))
                    } else {
                        None
                    },
                    None => None,
                },
                None => {
                    None
                },
            },
            None => None,
        }
    }
}

} // verus!
