use sql_fmt::clause::{format_clause, format_insert_statement, ClauseFormatResult};

fn formatted(text: &str) -> String {
    match format_clause(text) {
        ClauseFormatResult::Formatted(s) => s,
        ClauseFormatResult::Unchanged => panic!("left unchanged: {}", text),
    }
}

#[test]
fn two_rows_are_aligned() {
    let out = formatted("INSERT INTO t (a,b) VALUES (1,'x'),(22,'yy');");
    assert_eq!(out, "INSERT INTO t (a,b)\nVALUES\n    ( 1, 'x' ),\n    (22, 'yy');");
}

#[test]
fn comma_inside_string_does_not_split() {
    let out = formatted("VALUES ('a,b', 1);");
    assert_eq!(out, "VALUES\n    ('a,b', 1);");
}

#[test]
fn ragged_rows_are_left_alone() {
    let text = "VALUES (1,2),(3,4,5);";
    assert_eq!(format_clause(text), ClauseFormatResult::Unchanged);
    assert_eq!(format_clause(text).unwrap_or(text), text);
}

#[test]
fn function_call_is_not_padded() {
    let out = formatted("VALUES (NOW(), 1), (x, 22);");
    assert_eq!(out, "VALUES\n    (NOW(),  1),\n    (x, 22);");
}

#[test]
fn unterminated_string_is_left_alone() {
    let text = "VALUES ('abc, 1);";
    assert_eq!(format_clause(text), ClauseFormatResult::Unchanged);
}

#[test]
fn insert_statement_from_parts() {
    let r = format_insert_statement("INSERT INTO t (a)", " (1),\n(200)");
    assert_eq!(
        r,
        ClauseFormatResult::Formatted("INSERT INTO t (a)\nVALUES\n    (  1),\n    (200);".to_string())
    );
}

#[test]
fn comment_between_rows_is_kept() {
    let out = formatted("INSERT INTO t (a) VALUES (1), -- first\n (22);");
    assert_eq!(out, "INSERT INTO t (a)\nVALUES\n    ( 1), -- first\n (22);");
    assert_eq!(format_clause(&out).unwrap_or(&out), out);
}

#[test]
fn block_comment_between_rows_is_kept() {
    let out = formatted("VALUES (1) /* a, (b) */ , /* c */ (22) ;");
    assert_eq!(out, "VALUES\n    ( 1) /* a, (b) */ , /* c */ (22);");
}

#[test]
fn comment_before_the_end_is_kept() {
    let out = formatted("VALUES (1), (22) -- done\n; SELECT 1;");
    assert_eq!(out, "VALUES\n    ( 1),\n    (22) -- done\n; SELECT 1;");
}

#[test]
fn trailing_comma_is_kept() {
    let out = formatted("VALUES (1), (22) ,\n");
    assert_eq!(out, "VALUES\n    ( 1),\n    (22),\n");
}

#[test]
fn missing_semicolon_is_added() {
    let out = formatted("VALUES (1), (22)  ");
    assert_eq!(out, "VALUES\n    ( 1),\n    (22);");
}

#[test]
fn text_behind_the_rows_stops_formatting() {
    let text = "INSERT INTO t (a) VALUES (1) ON DUPLICATE KEY UPDATE a = 2;";
    assert_eq!(format_clause(text), ClauseFormatResult::Unchanged);
}

#[test]
fn formatting_twice_changes_nothing() {
    for text in [
        "INSERT INTO t (a,b) VALUES (1,'x'),(22,'yy');",
        "insert into t (a) values (NOW(), 'a\\'b'), (f(1, 2), NULL)",
        "VALUES (1,2),(3,4,5);",
        "  INSERT INTO t (a) -- note\nVALUES(1 , 2),\n\n( 3,4 ) ; rest",
    ] {
        let once = format_clause(text).unwrap_or(text);
        let twice = format_clause(&once).unwrap_or(&once);
        assert_eq!(once, twice);
    }
}

fn visible(text: &str) -> String {
    text.chars().filter(|c| !c.is_whitespace()).collect()
}

#[test]
fn only_white_space_changes() {
    for text in [
        "INSERT INTO t (a,b) VALUES (1,'x y'),(22,'yy');",
        "INSERT INTO t (a) VALUES ( NOW( ) , 1 ) , ( f(1, 2) , NULL ) ; -- end",
        "VALUES (1) /* c */ , (2) -- d\n;",
    ] {
        let out = formatted(text);
        assert_ne!(out, text);
        assert_eq!(visible(&out), visible(text));
    }
}

#[test]
fn columns_have_one_width() {
    let out = formatted("VALUES (1, 'a', x), (22, 'bcd', yy), (333, '', NULL);");
    let rows: Vec<&str> = out.lines().skip(1).collect();
    assert_eq!(rows, vec!["    (  1, 'a'  , x   ),", "    ( 22, 'bcd', yy  ),", "    (333, ''   , NULL);"]);
}

#[test]
fn keyword_must_stand_alone_outside_strings_and_comments() {
    assert_eq!(format_clause("INSERT INTO myvalues (a) SELECT 1;"), ClauseFormatResult::Unchanged);
    assert_eq!(format_clause("-- VALUES (1),(22)"), ClauseFormatResult::Unchanged);
    assert_eq!(format_clause("'VALUES (1),(22)'"), ClauseFormatResult::Unchanged);
    assert_eq!(format_clause("(VALUES (1),(22))"), ClauseFormatResult::Unchanged);
    assert_eq!(format_clause("VALUES 1"), ClauseFormatResult::Unchanged);
    assert_eq!(format_clause(""), ClauseFormatResult::Unchanged);
    assert_eq!(
        format_clause("INSERT INTO myvalues (a) values(1)"),
        ClauseFormatResult::Formatted("INSERT INTO myvalues (a)\nVALUES\n    (1);".to_string())
    );
}

#[test]
fn value_that_ends_in_a_comment_is_left_alone() {
    assert_eq!(format_clause("VALUES (1 -- one\n, 2);"), ClauseFormatResult::Unchanged);
    assert_eq!(format_clause("VALUES (1, 2\\ );"), ClauseFormatResult::Unchanged);
    assert_eq!(
        format_clause("VALUES (1, -- two\n 2);"),
        ClauseFormatResult::Formatted("VALUES\n    (1, -- two\n 2);".to_string())
    );
}

#[test]
fn header_that_ends_in_a_comment_is_left_alone() {
    assert_eq!(format_clause("INSERT INTO t (a) -- c\nVALUES (1);"), ClauseFormatResult::Unchanged);
    assert!(format_clause("INSERT INTO t (a) /* c */ VALUES (1);").is_formatted());
}

#[test]
fn unbalanced_parentheses_are_left_alone() {
    assert_eq!(format_clause("VALUES (1, (2);"), ClauseFormatResult::Unchanged);
    assert_eq!(format_clause("VALUES (1, 2));"), ClauseFormatResult::Unchanged);
    assert_eq!(format_clause("VALUES (1, 2), (3, 4;"), ClauseFormatResult::Unchanged);
}

#[test]
fn text_that_ends_unterminated_is_left_alone() {
    assert_eq!(format_clause("VALUES (1), (22); 'open"), ClauseFormatResult::Unchanged);
    assert_eq!(format_clause("VALUES (1), (22); )"), ClauseFormatResult::Unchanged);
    assert_eq!(format_clause("(VALUES (1), (22);"), ClauseFormatResult::Unchanged);
    assert!(format_clause("VALUES (1), (22); 'closed' ()").is_formatted());
    assert_eq!(format_insert_statement("x", " (1), (22); ("), ClauseFormatResult::Unchanged);
}
