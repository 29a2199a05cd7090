use sql_fmt::classify::{classify, null, number, string_literal, ColumnKind};
use sql_fmt::text::to_chars;

fn kind(value: &str) -> ColumnKind {
    classify(&to_chars(value))
}

#[test]
fn string_literals() {
    assert_eq!(kind("'abc'"), ColumnKind::StringLiteral);
    assert_eq!(kind("''"), ColumnKind::StringLiteral);
    assert_eq!(kind("'a\\'b'"), ColumnKind::StringLiteral);
    assert_eq!(kind("'a(b)'"), ColumnKind::StringLiteral);
    assert_eq!(kind("'12'"), ColumnKind::StringLiteral);
    assert!(!string_literal(&to_chars("'a' || 'b'")));
    assert!(!string_literal(&to_chars("'a''b'")));
    assert!(!string_literal(&to_chars("'")));
    assert!(!string_literal(&to_chars("\"a\"")));
    assert!(!string_literal(&to_chars("'abc")));
}

#[test]
fn numbers() {
    for value in ["0", "12", "-7", "+7", "1.5", "1.", ".5", "-1.5e+3", "2E10", "1e-2"] {
        assert_eq!(kind(value), ColumnKind::Numeric, "{}", value);
    }
    for value in ["", "+", "-", ".", "1e", "1e+", "e5", "1 000", "1,5", "0x10", "1.2.3", "--1"] {
        assert!(!number(&to_chars(value)), "{}", value);
    }
}

#[test]
fn null_in_any_case() {
    assert_eq!(kind("NULL"), ColumnKind::Null);
    assert_eq!(kind("null"), ColumnKind::Null);
    assert_eq!(kind("NuLl"), ColumnKind::Null);
    assert!(!null(&to_chars("NULLS")));
    assert!(!null(&to_chars("NUL")));
}

#[test]
fn calls_and_other_text() {
    assert_eq!(kind("NOW()"), ColumnKind::FunctionOrExpression);
    assert_eq!(kind("JSON_ARRAY(1,2)"), ColumnKind::FunctionOrExpression);
    assert_eq!(kind("(1 + 2)"), ColumnKind::FunctionOrExpression);
    assert_eq!(kind("a"), ColumnKind::Opaque);
    assert_eq!(kind("a + 1"), ColumnKind::Opaque);
    assert_eq!(kind("f("), ColumnKind::Opaque);
    assert_eq!(kind(""), ColumnKind::Opaque);
    assert_eq!(kind("'a''b'"), ColumnKind::Opaque);
}

#[test]
fn the_less_specific_kind_wins() {
    assert_eq!(ColumnKind::Null.merge(ColumnKind::Numeric), ColumnKind::Numeric);
    assert_eq!(ColumnKind::Numeric.merge(ColumnKind::Null), ColumnKind::Numeric);
    assert_eq!(ColumnKind::Numeric.merge(ColumnKind::StringLiteral), ColumnKind::StringLiteral);
    assert_eq!(ColumnKind::StringLiteral.merge(ColumnKind::Opaque), ColumnKind::Opaque);
    assert_eq!(
        ColumnKind::Opaque.merge(ColumnKind::FunctionOrExpression),
        ColumnKind::FunctionOrExpression
    );
    assert_eq!(
        ColumnKind::FunctionOrExpression.merge(ColumnKind::Null),
        ColumnKind::FunctionOrExpression
    );
    assert_eq!(ColumnKind::Null.merge(ColumnKind::Null), ColumnKind::Null);
    assert_eq!(ColumnKind::Null.level(), 0);
    assert_eq!(ColumnKind::FunctionOrExpression.level(), 4);
}
