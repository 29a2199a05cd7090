use sql_fmt::locate::{char_offset, to_char_span, width_of, Cursor};
use sql_fmt::text::to_chars;

#[test]
fn width_of_a_character_in_bytes() {
    for c in ['a', '\u{7f}', '\u{80}', '\u{e9}', '\u{7ff}', '\u{800}', '\u{4e2d}', '\u{ffff}', '\u{10000}', '\u{1f600}'] {
        assert_eq!(width_of(c), c.len_utf8(), "{:?}", c);
    }
}

#[test]
fn byte_offsets_become_character_offsets() {
    let text = to_chars("\u{e9}\u{4e2d}a");
    assert_eq!(char_offset(&text, 0), Some(0));
    assert_eq!(char_offset(&text, 2), Some(1));
    assert_eq!(char_offset(&text, 5), Some(2));
    assert_eq!(char_offset(&text, 6), Some(3));
    assert_eq!(char_offset(&text, 1), None);
    assert_eq!(char_offset(&text, 4), None);
    assert_eq!(char_offset(&text, 7), None);
}

#[test]
fn spans_must_run_forwards_on_boundaries() {
    let text = to_chars("\u{e9}\u{4e2d}a");
    assert_eq!(to_char_span(&text, Some((2, 6))), Some((1, 3)));
    assert_eq!(to_char_span(&text, Some((5, 5))), Some((2, 2)));
    assert_eq!(to_char_span(&text, Some((5, 2))), None);
    assert_eq!(to_char_span(&text, Some((1, 5))), None);
    assert_eq!(to_char_span(&text, None), None);
}

#[test]
fn cursor_moves_forwards_and_backwards() {
    let text = to_chars("\u{e9}('\u{4e2d}");
    let mut cursor = Cursor::start(&text);
    assert_eq!(cursor.seek(&text, 3), Some(2));
    assert_eq!(cursor.state.paren_depth, 1);
    assert!(!cursor.state.in_string);
    assert_eq!(cursor.seek(&text, 4), Some(3));
    assert!(cursor.state.in_string);
    assert_eq!(cursor.seek(&text, 2), Some(1));
    assert_eq!(cursor.state.paren_depth, 0);
    assert_eq!(cursor.seek(&text, 5), None);
    assert_eq!(cursor.seek(&text, 7), Some(4));
    assert_eq!(cursor.seek(&text, 8), None);
    assert_eq!(cursor.span(&text, Some((0, 2))), Some((0, 1)));
}
