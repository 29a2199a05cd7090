use sql_fmt::text::{
    contains_char, count_char, join_lines, skip_spaces, skip_spaces_back, slice, space, to_chars,
    to_string, trimmed, word,
};

#[test]
fn characters_round_trip() {
    for text in ["", "abc", "caf\u{e9} \u{4e2d}\u{6587} \u{1f600}\n\t"] {
        let chars = to_chars(text);
        assert_eq!(chars, text.chars().collect::<Vec<char>>());
        assert_eq!(to_string(&chars), text);
    }
}

#[test]
fn white_space_is_what_unicode_says() {
    for c in [' ', '\t', '\n', '\u{b}', '\u{c}', '\r', '\u{85}', '\u{a0}', '\u{2003}', '\u{3000}'] {
        assert!(space(c), "{:?}", c);
    }
    for c in ['a', '0', '_', ',', '\u{200b}', '\u{1c}'] {
        assert!(!space(c), "{:?}", c);
    }
    let mut code = 0u32;
    while code < 0x3100 {
        if let Some(c) = char::from_u32(code) {
            assert_eq!(space(c), c.is_whitespace(), "{:?}", c);
        }
        code += 1;
    }
}

#[test]
fn name_characters() {
    assert!(word('a') && word('Z') && word('5') && word('_'));
    assert!(!word(' ') && !word('(') && !word('\u{e9}'));
}

#[test]
fn trimming() {
    let v = to_chars("  a b \n");
    assert_eq!(skip_spaces(&v, 0, v.len()), 2);
    assert_eq!(skip_spaces_back(&v, 0, v.len()), 5);
    assert_eq!(to_string(&trimmed(&v, 0, v.len())), "a b");
    assert_eq!(to_string(&trimmed(&v, 3, v.len())), "b");
    assert_eq!(to_string(&trimmed(&to_chars(" \t "), 0, 3)), "");
    assert_eq!(to_string(&slice(&v, 2, 5)), "a b");
}

#[test]
fn joining() {
    let items = vec![to_chars("a"), to_chars(""), to_chars("c")];
    assert_eq!(to_string(&join_lines(&items, &to_chars(", "))), "a, , c");
    assert_eq!(to_string(&join_lines(&vec![to_chars("a")], &to_chars(", "))), "a");
    assert_eq!(to_string(&join_lines(&Vec::new(), &to_chars(", "))), "");
}

#[test]
fn counting() {
    let v = to_chars("(a)(b))");
    assert_eq!(count_char(&v, '('), 2);
    assert_eq!(count_char(&v, ')'), 3);
    assert_eq!(count_char(&v, 'x'), 0);
    assert!(contains_char(&v, 'b'));
    assert!(!contains_char(&v, 'x'));
}
