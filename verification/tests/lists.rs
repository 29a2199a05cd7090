use sql_fmt::lists::{all_items_closed, find_equals, render_list, split_list};
use sql_fmt::text::{to_chars, to_string};

fn items(text: &str) -> Vec<String> {
    split_list(&to_chars(text)).iter().map(to_string).collect()
}

#[test]
fn list_is_split_at_commas_outside_strings_and_parentheses() {
    assert_eq!(items("a, f(b, c), 'd,e'"), vec!["a", "f(b, c)", "'d,e'"]);
    assert_eq!(items("a -- x, y\n, b"), vec!["a -- x, y", "b"]);
    assert_eq!(items(" a "), vec!["a"]);
    assert_eq!(items(""), vec![""]);
    assert_eq!(items("a,,b,"), vec!["a", "", "b", ""]);
}

#[test]
fn items_must_be_closed_to_be_joined() {
    assert!(all_items_closed(&split_list(&to_chars("a, f(b), 'c'"))));
    assert!(!all_items_closed(&split_list(&to_chars("a -- x\n, b"))));
    assert!(!all_items_closed(&split_list(&to_chars("a, 'b"))));
    let sep = to_chars(",\n  ");
    assert_eq!(to_string(&render_list(&to_chars("a ,b"), &sep)), "a,\n  b");
    assert_eq!(to_string(&render_list(&to_chars("a -- x\n, b"), &sep)), "a -- x\n, b");
}

#[test]
fn first_equals_sign_outside_strings() {
    assert_eq!(find_equals(&to_chars("a = '='")), Some(2));
    assert_eq!(find_equals(&to_chars("'a=b' = c")), Some(6));
    assert_eq!(find_equals(&to_chars("f(a = b)")), None);
    assert_eq!(find_equals(&to_chars("'a=b'")), None);
    assert_eq!(find_equals(&to_chars("")), None);
}
