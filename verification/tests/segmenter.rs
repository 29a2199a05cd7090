use sql_fmt::segment::{find_next_row, read_field, read_row, read_table, skip_trivia};
use sql_fmt::text::{to_chars, to_string};

fn strings(values: &Vec<Vec<char>>) -> Vec<String> {
    values.iter().map(to_string).collect()
}

#[test]
fn field_ends_at_the_first_separator_of_row_level() {
    assert_eq!(read_field(&to_chars("f(a, b), c)"), 0), Some(7));
    assert_eq!(read_field(&to_chars("'a,b') x"), 0), Some(5));
    assert_eq!(read_field(&to_chars("1 /* , */ )"), 0), Some(10));
    assert_eq!(read_field(&to_chars(")"), 0), Some(0));
    assert_eq!(read_field(&to_chars("'a, b"), 0), None);
    assert_eq!(read_field(&to_chars(""), 0), None);
}

#[test]
fn row_is_split_into_trimmed_values() {
    let text = to_chars("1, 'a,b', f(x, y))rest");
    let (values, end) = read_row(&text, 0).unwrap();
    assert_eq!(strings(&values), vec!["1", "'a,b'", "f(x, y)"]);
    assert_eq!(end, 18);
}

#[test]
fn row_keeps_empty_values() {
    let (values, end) = read_row(&to_chars(" , )"), 0).unwrap();
    assert_eq!(strings(&values), vec!["", ""]);
    assert_eq!(end, 4);
    let (values, _) = read_row(&to_chars(")"), 0).unwrap();
    assert_eq!(strings(&values), vec![""]);
}

#[test]
fn row_that_is_not_closed_is_refused() {
    assert!(read_row(&to_chars("1, 'a"), 0).is_none());
    assert!(read_row(&to_chars("1, (2"), 0).is_none());
}

#[test]
fn table_is_split_into_rows_and_gaps() {
    let text = to_chars("(1,2) , (3)x");
    let (table, end) = read_table(&text, 0).unwrap();
    assert_eq!(end, 11);
    assert_eq!(table.rows.len(), 2);
    assert_eq!(strings(&table.rows[0]), vec!["1", "2"]);
    assert_eq!(strings(&table.rows[1]), vec!["3"]);
    assert_eq!(strings(&table.gaps), vec![" , "]);
}

#[test]
fn table_with_a_comment_between_rows() {
    let text = to_chars("(1) -- a, (b)\n , /* ( */ (2);");
    let (table, end) = read_table(&text, 0).unwrap();
    assert_eq!(table.rows.len(), 2);
    assert_eq!(strings(&table.gaps), vec![" -- a, (b)\n , /* ( */ "]);
    assert_eq!(end, text.len() - 1);
}

#[test]
fn table_must_begin_with_a_row() {
    assert!(read_table(&to_chars(" (1)"), 0).is_none());
    assert!(read_table(&to_chars(""), 0).is_none());
    assert!(read_table(&to_chars("(1), (2"), 0).is_none());
}

#[test]
fn trivia_is_white_space_and_comments() {
    assert_eq!(skip_trivia(&to_chars("  -- c\n /* d */ x"), 0), 16);
    assert_eq!(skip_trivia(&to_chars(" - x"), 0), 1);
    assert_eq!(skip_trivia(&to_chars(" / x"), 0), 1);
    assert_eq!(skip_trivia(&to_chars("-- to the end"), 0), 13);
    assert_eq!(skip_trivia(&to_chars("x"), 0), 0);
}

#[test]
fn next_row_needs_one_comma() {
    assert_eq!(find_next_row(&to_chars(" , (1)"), 0), Some(3));
    assert_eq!(find_next_row(&to_chars(",("), 0), Some(1));
    assert_eq!(find_next_row(&to_chars(" (1)"), 0), None);
    assert_eq!(find_next_row(&to_chars(", , (1)"), 0), None);
    assert_eq!(find_next_row(&to_chars(", x"), 0), None);
    assert_eq!(find_next_row(&to_chars(";"), 0), None);
}
