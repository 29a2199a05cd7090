use sql_fmt::document::{apply_edits, format_inserts_at, format_sql_inserts, Edit};
use sql_fmt::text::{to_chars, to_string};

#[test]
fn document_without_insert_is_unchanged() {
    let text = "SELECT a FROM t;\n-- nothing to do\n";
    assert_eq!(format_sql_inserts(text), text);
}

#[test]
fn every_insert_of_a_document_is_formatted() {
    let text = "INSERT INTO a (x) VALUES (1),(22);\n\nINSERT INTO b (y, z) VALUES ('p', 3), ('qq', 44);\n";
    let expected = "INSERT INTO a (x)\nVALUES\n    ( 1),\n    (22);\n\nINSERT INTO b (y, z)\nVALUES\n    ('p' ,  3),\n    ('qq', 44);\n";
    assert_eq!(format_sql_inserts(text), expected);
}

#[test]
fn insert_inside_a_string_is_not_touched() {
    let text = "SELECT 'INSERT INTO a (x) VALUES (1),(22);' FROM t;";
    assert_eq!(format_sql_inserts(text), text);
}

#[test]
fn non_ascii_text_before_a_statement() {
    let text = "-- caf\u{e9} \u{4e2d}\nINSERT INTO a (x) VALUES (1),(22);";
    let expected = "-- caf\u{e9} \u{4e2d}\nINSERT INTO a (x)\nVALUES\n    ( 1),\n    (22);";
    assert_eq!(format_sql_inserts(text), expected);
}

#[test]
fn match_that_splits_a_character_is_passed_over() {
    let text = "\u{e9}INSERT INTO a (x) VALUES (1),(22);";
    let found = vec![vec![Some((1usize, 28usize))]];
    assert_eq!(format_inserts_at(text, &found), text);
}

#[test]
fn replacements_are_put_in_from_the_last_to_the_first() {
    let text = to_chars("0123456789");
    let edit = |start, end, new: &str| Some(Edit { start, end, text: to_chars(new) });
    let edits = vec![edit(1, 3, "ab c"), edit(5, 5, "X"), None, edit(8, 12, "?"), edit(7, 9, "Y")];
    assert_eq!(to_string(&apply_edits(&text, &edits)), "0ab c34X56Y9");
    assert_eq!(to_string(&apply_edits(&text, &Vec::new())), "0123456789");
}

#[test]
fn replacement_that_runs_into_the_next_is_passed_over() {
    let text = to_chars("0123456789");
    let edits = vec![
        Some(Edit { start: 0, end: 6, text: to_chars("A") }),
        Some(Edit { start: 4, end: 8, text: to_chars("B") }),
        Some(Edit { start: 9, end: 8, text: to_chars("C") }),
    ];
    assert_eq!(to_string(&apply_edits(&text, &edits)), "0123B89");
}

#[test]
fn later_statements_keep_their_place() {
    let text = "INSERT INTO a (x) VALUES (1),(22),(333);\nINSERT INTO b (y) VALUES ('p');\nINSERT INTO c (z) VALUES (1,2),(3);\nINSERT INTO d (w) VALUES (10), (2)";
    let expected = "INSERT INTO a (x)\nVALUES\n    (  1),\n    ( 22),\n    (333);\nINSERT INTO b (y)\nVALUES\n    ('p');\nINSERT INTO c (z) VALUES (1,2),(3);\nINSERT INTO d (w)\nVALUES\n    (10),\n    ( 2);";
    assert_eq!(format_sql_inserts(text), expected);
    assert_eq!(format_sql_inserts(expected), expected);
}

#[test]
fn match_that_ends_elsewhere_than_the_first_row_is_passed_over() {
    let text = "INSERT INTO a (x) VALUES (1),(22);";
    assert_eq!(format_inserts_at(text, &vec![vec![Some((0usize, 26usize))]]), "INSERT INTO a (x)\nVALUES\n    ( 1),\n    (22);");
    assert_eq!(format_inserts_at(text, &vec![vec![Some((0usize, 25usize))]]), text);
    assert_eq!(format_inserts_at(text, &vec![vec![Some((0usize, 27usize))]]), text);
    assert_eq!(format_inserts_at(text, &vec![vec![None]]), text);
    assert_eq!(format_inserts_at(text, &vec![vec![]]), text);
    assert_eq!(format_inserts_at(text, &vec![vec![Some((19usize, 26usize))]]), text);
}

#[test]
fn insert_inside_parentheses_or_a_comment_is_not_touched() {
    let text = "/* INSERT INTO a (x) VALUES (1),(22); */";
    assert_eq!(format_sql_inserts(text), text);
    let text = "( INSERT INTO a (x) VALUES (1),(22); )";
    assert_eq!(format_sql_inserts(text), text);
}
