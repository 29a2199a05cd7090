//! Flat lists: the items of a comma-separated list such as the columns of a
//! `SELECT` or the assignments of an `UPDATE`, split where the scanner says a
//! comma stands outside every string, comment and parenthesis.

use crate::clause::{closed, is_closed};
use crate::scan::ScanState;
use crate::segment::shifted;
use crate::text::{join, join_lines, lines, slice, trim, trimmed};
use vstd::prelude::*;

verus! {

/// How many characters of `s`, read from `st`, come before the first comma
/// that stands outside strings, comments and parentheses; the length of `s`
/// where there is none.
pub open spec fn item_len(s: Seq<char>, st: ScanState) -> nat
    decreases s.len(),
{
    if s.len() == 0 || (st.plain_at(0) && s[0] == ',') {
        0
    } else {
        1 + item_len(s.skip(1), st.next(s[0]))
    }
}
/// An item is no longer than the list.

pub proof fn lemma_item_len_bound(s: Seq<char>, st: ScanState)
    ensures
        item_len(s, st) <= s.len(),
    decreases s.len(),
{
    if !(s.len() == 0 || (st.plain_at(0) && s[0] == ',')) {
        lemma_item_len_bound(s.skip(1), st.next(s[0]));
    }
}

/// The items of the list `s`, each without the white space around it. A list
/// without a separating comma has one item, the empty list too.
pub open spec fn list_items(s: Seq<char>) -> Seq<Seq<char>>
    decreases s.len(),
{
    let n = item_len(s, ScanState::start());
    if n >= s.len() {
        seq![trim(s)]
    } else {
        seq![trim(s.take(n as int))] + list_items(s.skip(n + 1 as int))
    }
}
/// Every list has an item.

pub proof fn lemma_list_items_nonempty(s: Seq<char>)
    ensures
        list_items(s).len() >= 1,
    decreases s.len(),
{
    let n = item_len(s, ScanState::start());
    if n < s.len() {
        lemma_list_items_nonempty(s.skip(n + 1 as int));
    }
}

/// Whether every item is closed: no string, comment, escape or parenthesis
/// runs from one item into what follows it.
pub open spec fn items_closed(items: Seq<Seq<char>>) -> bool {
    forall|i: int| 0 <= i < items.len() ==> closed(#[trigger] items[i], 0)
}

/// The list `s` with `sep` between its items, or `s` as it is where an item
/// is not closed.
pub open spec fn list_text(s: Seq<char>, sep: Seq<char>) -> Seq<char> {
    if items_closed(list_items(s)) {
        join(list_items(s), sep)
    } else {
        s
    }
}

/// The offset of the first `=` of `s`, read from `st`, that stands outside
/// strings, comments and parentheses.
pub open spec fn equals_offset(s: Seq<char>, st: ScanState) -> Option<nat>
    decreases s.len(),
{
    if s.len() == 0 {
        None
    } else if st.plain_at(0) && s[0] == '=' {
        Some(0)
    } else {
        shifted(equals_offset(s.skip(1), st.next(s[0])), 1)
    }
}
/// The `=` that is found stands in the text.

pub proof fn lemma_equals_offset_bound(s: Seq<char>, st: ScanState)
    ensures
        equals_offset(s, st) matches Some(n) ==> n < s.len(),
    decreases s.len(),
{
    if s.len() > 0 && !(st.plain_at(0) && s[0] == '=') {
        lemma_equals_offset_bound(s.skip(1), st.next(s[0]));
    }
}

/// The index of the comma that ends the item beginning at `from`, or the
/// length of `text`.
fn item_end(text: &Vec<char>, from: usize) -> (r: usize)
    requires
        from <= text.len(),
    ensures
        r == from + item_len(text@.skip(from as int), ScanState::start()),
        from <= r <= text.len(),
{
    let mut i = from;
    let mut st = ScanState::new();
    while i < text.len()
        invariant
            from <= i <= text.len(),
            item_len(text@.skip(from as int), ScanState::start()) == (i - from) + item_len(
                text@.skip(i as int),
                st,
            ),
        decreases text.len() - i,
    {
        let c = text[i];
        proof {
            let s = text@.skip(i as int);
            assert(s[0] == c);
            assert(s.skip(1) =~= text@.skip(i + 1));
        }
        if st.is_plain_at(0) && c == ',' {
            return i;
        }
        st = st.step(c);
        i = i + 1;
    }
    i
}

/// The items of the list `text`.
pub fn split_list(text: &Vec<char>) -> (r: Vec<Vec<char>>)
    ensures
        lines(r@) == list_items(text@),
{
    let n = text.len();
    let mut items: Vec<Vec<char>> = Vec::new();
    let mut i: usize = 0;
    assert(text@.skip(0) =~= text@);
    loop
        invariant
            i <= n,
            n == text.len(),
            list_items(text@) == lines(items@) + list_items(text@.skip(i as int)),
        decreases n - i,
    {
        let ghost s = text@.skip(i as int);
        let ghost before = lines(items@);
        let e = item_end(text, i);
        let item = trimmed(text, i, e);
        items.push(item);
        proof {
            assert(lines(items@) =~= before + seq![item@]);
            assert(s.take(e - i) =~= text@.subrange(i as int, e as int));
        }
        if e >= n {
            proof {
                assert(s.take(s.len() as int) =~= s);
            }
            return items;
        }
        proof {
            assert(s.skip(e - i + 1) =~= text@.skip(e + 1));
            assert(before + (seq![item@] + list_items(text@.skip(e + 1))) =~= (before + seq![
                item@,
            ]) + list_items(text@.skip(e + 1)));
        }
        i = e + 1;
    }
}

/// Whether every item is closed.
pub fn all_items_closed(items: &Vec<Vec<char>>) -> (b: bool)
    ensures
        b == items_closed(lines(items@)),
{
    let mut i: usize = 0;
    while i < items.len()
        invariant
            i <= items.len(),
            forall|k: int| 0 <= k < i ==> closed(#[trigger] lines(items@)[k], 0),
        decreases items.len() - i,
    {
        proof {
            assert(lines(items@)[i as int] == items@[i as int]@);
            assert(items@[i as int]@.subrange(0, items@[i as int]@.len() as int)
                =~= items@[i as int]@);
        }
        if !is_closed(&items[i], 0, items[i].len(), 0) {
            return false;
        }
        i = i + 1;
    }
    true
}

/// The list `text` with `sep` between its items, or `text` as it is where an
/// item is not closed.
pub fn render_list(text: &Vec<char>, sep: &Vec<char>) -> (r: Vec<char>)
    ensures
        r@ == list_text(text@, sep@),
{
    let items = split_list(text);
    if all_items_closed(&items) {
        join_lines(&items, sep)
    } else {
        assert(text@.subrange(0, text.len() as int) =~= text@);
        slice(text, 0, text.len())
    }
}

/// The index of the first `=` of `text` outside strings, comments and
/// parentheses.
pub fn find_equals(text: &Vec<char>) -> (r: Option<usize>)
    ensures
        match equals_offset(text@, ScanState::start()) {
            Some(n) => r == Some(n as usize) && n < text.len(),
            None => r is None,
        },
{
    let mut i: usize = 0;
    let mut st = ScanState::new();
    assert(text@.skip(0) =~= text@);
    while i < text.len()
        invariant
            i <= text.len(),
            equals_offset(text@, ScanState::start()) == shifted(
                equals_offset(text@.skip(i as int), st),
                i as nat,
            ),
        decreases text.len() - i,
    {
        let c = text[i];
        proof {
            let s = text@.skip(i as int);
            assert(s[0] == c);
            assert(s.skip(1) =~= text@.skip(i + 1));
        }
        if st.is_plain_at(0) && c == '=' {
            return Some(i);
        }
        st = st.step(c);
        i = i + 1;
    }
    None
}

} // verus!
