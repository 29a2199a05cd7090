use sql_fmt::create::{constraint, format_create_statement, split_column, split_type, starts_with};
use sql_fmt::text::{to_chars, to_string};

fn parts(line: &str) -> (String, String, String) {
    let (a, b, c) = split_column(&to_chars(line));
    (to_string(&a), to_string(&b), to_string(&c))
}

#[test]
fn type_is_split_from_constraints_by_the_groups() {
    let rest = to_chars("VARCHAR(255) NOT NULL");
    let groups = Some(vec![Some((0, 21)), Some((0, 12)), Some((12, 21))]);
    let (t, c) = split_type(&rest, &groups).unwrap();
    assert_eq!(to_string(&t), "VARCHAR(255)");
    assert_eq!(to_string(&c), "NOT NULL");
}

#[test]
fn groups_that_lose_text_are_refused() {
    let rest = to_chars("VARCHAR(255) NOT NULL");
    assert!(split_type(&rest, &Some(vec![Some((0, 21)), Some((0, 12)), Some((13, 21))])).is_none());
    assert!(split_type(&rest, &Some(vec![Some((0, 21)), Some((1, 12)), Some((12, 21))])).is_none());
    assert!(split_type(&rest, &Some(vec![Some((0, 21)), Some((0, 12)), Some((12, 20))])).is_none());
    assert!(split_type(&rest, &Some(vec![Some((0, 21)), Some((0, 12))])).is_none());
    assert!(split_type(&rest, &Some(vec![Some((0, 21)), None, Some((12, 21))])).is_none());
    assert!(split_type(&rest, &None).is_none());
}

#[test]
fn groups_that_cut_a_string_are_refused() {
    let rest = to_chars("ENUM('a)','b')");
    assert!(split_type(&rest, &Some(vec![Some((0, 14)), Some((0, 8)), Some((8, 14))])).is_none());
}

#[test]
fn column_definition_in_its_parts() {
    assert_eq!(
        parts("name VARCHAR(255) NOT NULL"),
        ("name".to_string(), "VARCHAR(255)".to_string(), "NOT NULL".to_string())
    );
    assert_eq!(parts("id   INT"), ("id".to_string(), "INT".to_string(), "".to_string()));
    assert_eq!(parts("id"), ("id".to_string(), "".to_string(), "".to_string()));
    assert_eq!(
        parts("\"my col\" DECIMAL (10, 2) DEFAULT 0"),
        ("\"my col\"".to_string(), "DECIMAL (10, 2)".to_string(), "DEFAULT 0".to_string())
    );
    assert_eq!(
        parts("kind ENUM('a)','b') NOT NULL"),
        ("kind".to_string(), "ENUM('a)','b') NOT NULL".to_string(), "".to_string())
    );
}

#[test]
fn constraints_are_told_by_their_first_words() {
    assert!(constraint(&to_chars("PRIMARY KEY (id)")));
    assert!(constraint(&to_chars("FOREIGN KEY (a) REFERENCES b (c)")));
    assert!(constraint(&to_chars("CONSTRAINT x UNIQUE (a)")));
    assert!(!constraint(&to_chars("primary_key INT")));
    assert!(!constraint(&to_chars("id INT PRIMARY KEY")));
    assert!(starts_with(&to_chars("abc"), &to_chars("")));
    assert!(!starts_with(&to_chars("ab"), &to_chars("abc")));
}

#[test]
fn create_table_does_not_cut_a_string() {
    let out = format_create_statement("CREATE TABLE t (", "kind ENUM('a)','b') NOT NULL, n INT", ");");
    assert_eq!(out, "CREATE TABLE t (\n  kind ENUM('a)','b') NOT NULL,\n  n    INT\n);");
}

#[test]
fn create_table_with_open_string_is_kept() {
    let out = format_create_statement("CREATE TABLE t (", "a INT DEFAULT 'x, b INT", ");");
    assert_eq!(out, "CREATE TABLE t (a INT DEFAULT 'x, b INT);");
}
