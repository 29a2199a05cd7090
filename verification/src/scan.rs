//! The scanner: a state machine that walks SQL text one character at a time
//! and keeps track of string literals, escapes, comments and the depth of
//! parentheses.

use vstd::prelude::*;

verus! {

/// What the scanner knows between two characters.
///
/// `pending` holds the character just read where it may be the first half of
/// a two-character delimiter: `-` or `/` outside strings and comments, `*`
/// inside a block comment. A delimiter is recognised on its second character.
#[derive(Clone, Copy, Debug, PartialEq, Eq)]
pub struct ScanState {
    pub in_string: bool,
    pub string_delimiter: Option<char>,
    pub escaped: bool,
    pub paren_depth: i32,
    pub in_line_comment: bool,
    pub in_block_comment: bool,
    pub pending: Option<char>,
}

/// One of the three characters that open and close a string.
pub open spec fn is_quote(c: char) -> bool {
    c == '\'' || c == '"' || c == '`'
}
/// Whether `c` is one of the three characters that open and close a string.

pub fn quote(c: char) -> (b: bool)
    ensures
        b == is_quote(c),
{
    c == '\'' || c == '"' || c == '`'
}

/// `d + 1`, held at the largest `i32`.
pub open spec fn deeper(d: i32) -> i32 {
    if d < i32::MAX {
        (d + 1) as i32
    } else {
        d
    }
}

/// `d - 1`, held at the smallest `i32`.
pub open spec fn shallower(d: i32) -> i32 {
    if d > i32::MIN {
        (d - 1) as i32
    } else {
        d
    }
}

impl ScanState {
    /// The state outside every string, comment and escape, `depth`
    /// parentheses deep.
    pub open spec fn at_depth(depth: i32) -> ScanState {
        ScanState {
            in_string: false,
            string_delimiter: None,
            escaped: false,
            paren_depth: depth,
            in_line_comment: false,
            in_block_comment: false,
            pending: None,
        }
    }

    /// The state in which a scan of a whole text begins.
    pub open spec fn start() -> ScanState {
        Self::at_depth(0)
    }

    /// What holds of every state that a scan reaches: a string, a line
    /// comment and a block comment shut each other out; a delimiter is
    /// recorded while a string is open and only then, and it is a quote;
    /// and `pending` holds `*` only inside a block comment, `-` or `/` only
    /// outside strings and comments, and nothing else.
    pub open spec fn well_formed(self) -> bool {
        &&& !(self.in_string && self.in_line_comment)
        &&& !(self.in_string && self.in_block_comment)
        &&& !(self.in_line_comment && self.in_block_comment)
        &&& self.in_string ==> (self.string_delimiter matches Some(q) && is_quote(q))
        &&& !self.in_string ==> self.string_delimiter is None
        &&& self.pending matches Some(p) ==> (p == '*' && self.in_block_comment && !self.escaped)
            || ((p == '-' || p == '/') && self.plain())
    }

    /// Outside every string and comment, with no escape open: only here do
    /// parentheses and commas structure the text.
    pub open spec fn plain(self) -> bool {
        &&& !self.in_string
        &&& self.string_delimiter is None
        &&& !self.escaped
        &&& !self.in_line_comment
        &&& !self.in_block_comment
    }

    /// Plain, and exactly `depth` parentheses deep.
    pub open spec fn plain_at(self, depth: i32) -> bool {
        self.plain() && self.paren_depth == depth
    }

    /// Inside a line comment or a block comment.
    pub open spec fn in_comment(self) -> bool {
        self.in_line_comment || self.in_block_comment
    }

    /// A text that ends in this state has an open string or parentheses that
    /// do not balance.
    pub open spec fn unterminated(self) -> bool {
        self.in_string || self.paren_depth != 0
    }

    /// This state with `pending` set to `p`.
    pub open spec fn with_pending(self, p: Option<char>) -> ScanState {
        ScanState { pending: p, ..self }
    }

    /// The state after the character `c` is read in this state. The rules, the
    /// first that applies:
    /// 1. after an escape, `c` is taken literally and the escape ends;
    /// 2. a backslash opens an escape for the next character only;
    /// 3. a line comment ends with the line feed that closes it, a block
    ///    comment with the `/` of `*/`;
    /// 4. inside a string, only the quote that opened it closes it;
    /// 5. elsewhere a quote opens a string, the second `-` of `--` a line
    ///    comment, the `*` of `/*` a block comment, and `(` and `)` change the
    ///    depth.
    pub open spec fn next(self, c: char) -> ScanState {
        let quiet = self.with_pending(None);
        if self.escaped {
            ScanState { escaped: false, ..quiet }
        } else if c == '\\' {
            ScanState { escaped: true, ..quiet }
        } else if self.in_line_comment {
            if c == '\n' {
                ScanState { in_line_comment: false, ..quiet }
            } else {
                quiet
            }
        } else if self.in_block_comment {
            if c == '/' && self.pending == Some('*') {
                ScanState { in_block_comment: false, ..quiet }
            } else if c == '*' {
                self.with_pending(Some('*'))
            } else {
                quiet
            }
        } else if self.in_string {
            if self.string_delimiter == Some(c) {
                ScanState { in_string: false, string_delimiter: None, ..quiet }
            } else {
                quiet
            }
        } else if is_quote(c) {
            ScanState { in_string: true, string_delimiter: Some(c), ..quiet }
        } else if c == '-' {
            if self.pending == Some('-') {
                ScanState { in_line_comment: true, ..quiet }
            } else {
                self.with_pending(Some('-'))
            }
        } else if c == '/' {
            self.with_pending(Some('/'))
        } else if c == '*' {
            if self.pending == Some('/') {
                ScanState { in_block_comment: true, ..quiet }
            } else {
                quiet
            }
        } else if c == '(' {
            ScanState { paren_depth: deeper(self.paren_depth), ..quiet }
        } else if c == ')' {
            ScanState { paren_depth: shallower(self.paren_depth), ..quiet }
        } else {
            quiet
        }
    }
    /// The state in which a scan of a whole text begins.

    pub fn new() -> (s: ScanState)
        ensures
            s == ScanState::start(),
            s.well_formed(),
    {
        ScanState::level(0)
    }
    /// The state outside every string, comment and escape, `depth`
    /// parentheses deep.

    pub fn level(depth: i32) -> (s: ScanState)
        ensures
            s == ScanState::at_depth(depth),
            s.well_formed(),
    {
        ScanState {
            in_string: false,
            string_delimiter: None,
            escaped: false,
            paren_depth: depth,
            in_line_comment: false,
            in_block_comment: false,
            pending: None,
        }
    }
    /// Whether the state is outside every string and comment, with no escape
    /// open.

    pub fn is_plain(&self) -> (b: bool)
        ensures
            b == self.plain(),
    {
        !self.in_string && self.string_delimiter.is_none() && !self.escaped
            && !self.in_line_comment && !self.in_block_comment
    }
    /// Whether the state is plain and exactly `depth` parentheses deep.

    pub fn is_plain_at(&self, depth: i32) -> (b: bool)
        ensures
            b == self.plain_at(depth),
    {
        self.is_plain() && self.paren_depth == depth
    }
    /// Whether the state is inside a line comment or a block comment.

    pub fn is_in_comment(&self) -> (b: bool)
        ensures
            b == self.in_comment(),
    {
        self.in_line_comment || self.in_block_comment
    }
    /// Whether a text that ends in this state has an open string or
    /// parentheses that do not balance.

    pub fn is_unterminated(&self) -> (b: bool)
        ensures
            b == self.unterminated(),
    {
        self.in_string || self.paren_depth != 0
    }

    /// Reads one character.
    pub fn step(&self, c: char) -> (r: ScanState)
        ensures
            r == self.next(c),
            self.well_formed() ==> r.well_formed(),
    {
        let mut r = *self;
        r.pending = None;
        if self.escaped {
            r.escaped = false;
        } else if c == '\\' {
            r.escaped = true;
        } else if self.in_line_comment {
            if c == '\n' {
                r.in_line_comment = false;
            }
        } else if self.in_block_comment {
            if c == '/' && is_some_char(self.pending, '*') {
                r.in_block_comment = false;
            } else if c == '*' {
                r.pending = Some('*');
            }
        } else if self.in_string {
            if is_some_char(self.string_delimiter, c) {
                r.in_string = false;
                r.string_delimiter = None;
            }
        } else if quote(c) {
            r.in_string = true;
            r.string_delimiter = Some(c);
        } else if c == '-' {
            if is_some_char(self.pending, '-') {
                r.in_line_comment = true;
            } else {
                r.pending = Some('-');
            }
        } else if c == '/' {
            r.pending = Some('/');
        } else if c == '*' {
            if is_some_char(self.pending, '/') {
                r.in_block_comment = true;
            }
        } else if c == '(' {
            if self.paren_depth < i32::MAX {
                r.paren_depth = self.paren_depth + 1;
            }
        } else if c == ')' {
            if self.paren_depth > i32::MIN {
                r.paren_depth = self.paren_depth - 1;
            }
        }
        r
    }
}

fn is_some_char(o: Option<char>, c: char) -> (b: bool)
    ensures
        b == (o == Some(c)),
{
    match o {
        Some(d) => d == c,
        None => false,
    }
}

/// The state after all of `text` is read from the state `st`.
pub open spec fn scan(text: Seq<char>, st: ScanState) -> ScanState
    decreases text.len(),
{
    if text.len() == 0 {
        st
    } else {
        scan(text.skip(1), st.next(text[0]))
    }
}

/// The state before each character of `text`, read from `st`: as many states
/// as `text` has characters.
pub open spec fn trace(text: Seq<char>, st: ScanState) -> Seq<ScanState> {
    Seq::new(text.len(), |i: int| scan(text.take(i), st))
}

/// A scan that begins in a well-formed state ends in one.
pub proof fn lemma_scan_well_formed(text: Seq<char>, st: ScanState)
    requires
        st.well_formed(),
    ensures
        scan(text, st).well_formed(),
    decreases text.len(),
{
    if text.len() > 0 {
        lemma_scan_well_formed(text.skip(1), st.next(text[0]));
    }
}

/// Reading `a` and then `b` is reading `a + b`.
pub proof fn lemma_scan_concat(a: Seq<char>, b: Seq<char>, st: ScanState)
    ensures
        scan(a + b, st) == scan(b, scan(a, st)),
    decreases a.len(),
{
    if a.len() == 0 {
        assert(a + b =~= b);
    } else {
        assert((a + b).skip(1) =~= a.skip(1) + b);
        lemma_scan_concat(a.skip(1), b, st.next(a[0]));
    }
}

/// Reading one more character is one more step.
pub proof fn lemma_scan_push(a: Seq<char>, c: char, st: ScanState)
    ensures
        scan(a.push(c), st) == scan(a, st).next(c),
{
    let b = seq![c];
    assert(a.push(c) =~= a + b);
    lemma_scan_concat(a, b, st);
    assert(b.skip(1) =~= Seq::<char>::empty());
    assert(scan(b, scan(a, st)) == scan(b.skip(1), scan(a, st).next(c)));
}

/// The state after `text[from..to]` is read from `st`.
pub fn scan_range(text: &Vec<char>, from: usize, to: usize, st: ScanState) -> (r: ScanState)
    requires
        from <= to <= text.len(),
    ensures
        r == scan(text@.subrange(from as int, to as int), st),
        st.well_formed() ==> r.well_formed(),
{
    let mut cur = st;
    let mut i = from;
    while i < to
        invariant
            from <= i <= to <= text.len(),
            scan(text@.subrange(from as int, to as int), st) == scan(
                text@.subrange(i as int, to as int),
                cur,
            ),
            st.well_formed() ==> cur.well_formed(),
        decreases to - i,
    {
        proof {
            let s = text@.subrange(i as int, to as int);
            assert(s[0] == text@[i as int]);
            assert(s.skip(1) =~= text@.subrange(i + 1, to as int));
        }
        cur = cur.step(text[i]);
        i = i + 1;
    }
    cur
}

/// The state after all of `text` is read from `st`.
pub fn scan_chars(text: &Vec<char>, st: ScanState) -> (r: ScanState)
    ensures
        r == scan(text@, st),
        st.well_formed() ==> r.well_formed(),
{
    assert(text@.subrange(0, text.len() as int) =~= text@);
    scan_range(text, 0, text.len(), st)
}

/// The state before each character of `text`, read from `st`.
pub fn trace_chars(text: &Vec<char>, st: ScanState) -> (r: Vec<ScanState>)
    ensures
        r@ == trace(text@, st),
        st.well_formed() ==> forall|i: int| 0 <= i < r@.len() ==> (#[trigger] r@[i]).well_formed(),
{
    let mut r: Vec<ScanState> = Vec::new();
    let mut cur = st;
    let mut i: usize = 0;
    while i < text.len()
        invariant
            i <= text.len(),
            cur == scan(text@.take(i as int), st),
            r@ == trace(text@, st).take(i as int),
            st.well_formed() ==> cur.well_formed(),
            st.well_formed() ==> forall|k: int|
                0 <= k < r@.len() ==> (#[trigger] r@[k]).well_formed(),
        decreases text.len() - i,
    {
        proof {
            assert(text@.take(i + 1) =~= text@.take(i as int).push(text@[i as int]));
            lemma_scan_push(text@.take(i as int), text@[i as int], st);
        }
        r.push(cur);
        cur = cur.step(text[i]);
        i = i + 1;
    }
    assert(trace(text@, st).take(text.len() as int) =~= trace(text@, st));
    r
}

} // verus!
