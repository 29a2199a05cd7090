use sql_fmt::create::format_create_statement;
use sql_fmt::document::{
    format_sql, format_sql_creates, format_sql_deletes, format_sql_selects, format_sql_updates,
};
use sql_fmt::statements::{
    format_delete_statement, format_select_statement, format_update_statement, is_valid_sql,
};

#[test]
fn select_with_several_columns() {
    let out = format_select_statement("SELECT ", "a, b", " FROM ", "t", "", "", "", "", "", "", ";");
    assert_eq!(out, "SELECT \n       a,\n       b FROM t;");
}

#[test]
fn select_with_every_clause() {
    let out = format_select_statement(
        "SELECT ", "a", " FROM ", "t, u", "a > 1", "a", "COUNT(*) > 1", "a DESC", "10", "5", ";",
    );
    assert_eq!(
        out,
        "SELECT a FROM \n     t,\n     u\nWHERE a > 1\nGROUP BY a\nHAVING COUNT(*) > 1\nORDER BY a DESC\nLIMIT 10\nOFFSET 5;"
    );
}

#[test]
fn select_keeps_commas_inside_strings_and_calls() {
    let out = format_select_statement(
        "SELECT ", "CONCAT(a, 'x,y'), b", " FROM ", "t", "", "", "", "", "", "", ";",
    );
    assert_eq!(out, "SELECT \n       CONCAT(a, 'x,y'),\n       b FROM t;");
}

#[test]
fn select_with_open_string_is_kept() {
    let out = format_select_statement("SELECT ", "a, 'b", " FROM ", "t", "", "", "", "", "", "", ";");
    assert_eq!(out, "SELECT a, 'b FROM t;");
}

#[test]
fn update_aligns_equal_signs() {
    let out = format_update_statement("UPDATE ", "t", " SET ", "a = 1, long_name = 2", "id = 3", ";");
    assert_eq!(out, "UPDATE t SET \n  a         = 1,\n  long_name = 2\nWHERE id = 3;");
}

#[test]
fn update_with_one_assignment() {
    let out = format_update_statement("UPDATE ", "t", " SET ", " a = 1 ", "", ";");
    assert_eq!(out, "UPDATE t SET a = 1;");
}

#[test]
fn delete_moves_where_to_its_own_line() {
    let out = format_delete_statement("DELETE FROM ", "t", "id = 1", ";");
    assert_eq!(out, "DELETE FROM t\nWHERE id = 1;");
    assert_eq!(format_delete_statement("DELETE FROM ", "t", "", ";"), "DELETE FROM t;");
}

#[test]
fn plausibility_counts_parentheses_and_quotes() {
    assert!(is_valid_sql("SELECT (1), 'a'"));
    assert!(is_valid_sql(""));
    assert!(!is_valid_sql("SELECT (1"));
    assert!(!is_valid_sql("SELECT 1)"));
    assert!(!is_valid_sql("SELECT 'a"));
    assert!(is_valid_sql(")("));
}

#[test]
fn create_table_is_aligned() {
    let out = format_create_statement(
        "CREATE TABLE t (",
        "id INT PRIMARY KEY, name VARCHAR(255) NOT NULL",
        ");",
    );
    assert_eq!(
        out,
        "CREATE TABLE t (\n  id   INT          PRIMARY KEY,\n  name VARCHAR(255) NOT NULL\n);"
    );
}

#[test]
fn create_table_keeps_constraints_whole() {
    let out = format_create_statement(
        "CREATE TABLE t (",
        "\n  id INT,\n  price DECIMAL(10,2),\n  PRIMARY KEY (id)\n",
        ");",
    );
    assert_eq!(
        out,
        "CREATE TABLE t (\n  id    INT\n,\n  price DECIMAL(10,2)\n,\n  PRIMARY KEY (id)\n);"
            .replace("\n,", ",")
    );
}

#[test]
fn create_table_with_empty_definition_is_kept() {
    let out = format_create_statement("CREATE TABLE t (", "id INT,", ");");
    assert_eq!(out, "CREATE TABLE t (id INT,);");
}

#[test]
fn documents_of_each_kind() {
    assert_eq!(
        format_sql_selects("SELECT a, b FROM t WHERE x = 1;"),
        "SELECT \n       a,\n       b FROM t\nWHERE x = 1;"
    );
    assert_eq!(
        format_sql_updates("UPDATE t SET a = 1, bb = 2 WHERE id = 3;"),
        "UPDATE t SET \n  a  = 1,\n  bb = 2\nWHERE id = 3;"
    );
    assert_eq!(format_sql_deletes("DELETE FROM t   WHERE id = 1;"), "DELETE FROM t\nWHERE id = 1;");
    assert_eq!(
        format_sql_creates("CREATE TABLE t (id INT, name TEXT);"),
        "CREATE TABLE t (\n  id   INT,\n  name TEXT\n);"
    );
}

#[test]
fn statements_inside_strings_are_not_touched() {
    let text = "INSERT INTO log (msg) VALUES ('select a, b from t where x');";
    assert_eq!(format_sql_selects(text), text);
    let text = "-- delete from t where id = 1;\n";
    assert_eq!(format_sql_deletes(text), text);
}

#[test]
fn whole_document() {
    let text = "CREATE TABLE t (id INT, name TEXT);\nINSERT INTO t (id, name) VALUES (1, 'a'), (20, 'bc');\n";
    let expected = "CREATE TABLE t (\n  id   INT,\n  name TEXT\n);\nINSERT INTO t (id, name)\nVALUES\n    ( 1, 'a' ),\n    (20, 'bc');\n";
    assert_eq!(format_sql(text), expected);
}

fn visible(text: &str) -> String {
    text.chars().filter(|c| !c.is_whitespace()).collect()
}

#[test]
fn statements_keep_their_contents() {
    let out = format_select_statement(
        "SELECT ", "a , f(b, 'c d') ,e", " FROM ", "t , u", "", "", "", "", "", "", " ;",
    );
    assert_eq!(visible(&out), "SELECTa,f(b,'cd'),eFROMt,u;");
    let out = format_update_statement("UPDATE ", "t", " SET ", "a = 'x , y' , bb= 2", "", ";");
    assert_eq!(visible(&out), "UPDATEtSETa='x,y',bb=2;");
    let out = format_create_statement("CREATE TABLE t (", " a INT , b DECIMAL(1, 2) DEFAULT 0 ", ");");
    assert_eq!(visible(&out), "CREATETABLEt(aINT,bDECIMAL(1,2)DEFAULT0);");
}
