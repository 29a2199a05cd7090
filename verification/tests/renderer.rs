use sql_fmt::classify::ColumnKind;
use sql_fmt::render::{
    column_kinds, column_widths, is_gap_plain, render_cell, render_row, render_table,
};
use sql_fmt::text::{to_chars, to_string};

fn table(rows: &[&[&str]]) -> Vec<Vec<Vec<char>>> {
    rows.iter().map(|row| row.iter().map(|v| to_chars(v)).collect()).collect()
}

#[test]
fn width_is_the_length_of_the_longest_value() {
    let rows = table(&[&["1", "'x'"], &["22", "'yy'"], &["", "'\u{e9}\u{e9}\u{e9}'"]]);
    assert_eq!(column_widths(&rows), Some(vec![2, 5]));
}

#[test]
fn ragged_table_has_no_widths() {
    assert_eq!(column_widths(&table(&[&["1", "2"], &["3", "4", "5"]])), None);
    assert_eq!(column_widths(&table(&[&["1", "2"], &["3"]])), None);
    assert_eq!(column_widths(&table(&[])), None);
}

#[test]
fn column_kind_is_the_least_specific_of_its_values() {
    let rows = table(&[&["1", "NULL", "'a'", "NOW()"], &["NULL", "null", "2", "3"]]);
    assert_eq!(
        column_kinds(&rows),
        vec![
            ColumnKind::Numeric,
            ColumnKind::Null,
            ColumnKind::StringLiteral,
            ColumnKind::FunctionOrExpression
        ]
    );
}

#[test]
fn cell_is_padded_by_the_kind_of_its_column() {
    let cell = |v: &str, k, w| to_string(&render_cell(&to_chars(v), k, w));
    assert_eq!(cell("1", ColumnKind::Numeric, 3), "  1");
    assert_eq!(cell("NULL", ColumnKind::Null, 6), "  NULL");
    assert_eq!(cell("'a'", ColumnKind::StringLiteral, 5), "'a'  ");
    assert_eq!(cell("ab", ColumnKind::Opaque, 4), "ab  ");
    assert_eq!(cell("f()", ColumnKind::FunctionOrExpression, 9), "f()");
    assert_eq!(cell("abc", ColumnKind::Numeric, 2), "abc");
    assert_eq!(cell("", ColumnKind::Opaque, 2), "  ");
}

#[test]
fn row_is_written_in_parentheses() {
    let row: Vec<Vec<char>> = vec![to_chars("1"), to_chars("'x'")];
    let kinds = vec![ColumnKind::Numeric, ColumnKind::StringLiteral];
    assert_eq!(to_string(&render_row(&row, &kinds, &vec![2, 4])), "( 1, 'x' )");
}

#[test]
fn table_is_written_with_its_gaps() {
    let rows = table(&[&["1"], &["22"], &["3"]]);
    let gaps = vec![to_chars(" ,"), to_chars(" /* c */ , ")];
    assert_eq!(
        to_string(&render_table(&rows, &gaps)),
        "    ( 1),\n    (22) /* c */ , ( 3)"
    );
}

#[test]
fn plain_gap_holds_white_space_and_commas_only() {
    assert!(is_gap_plain(&to_chars(" ,\n\t")));
    assert!(is_gap_plain(&to_chars("")));
    assert!(!is_gap_plain(&to_chars(", -- c\n")));
}
