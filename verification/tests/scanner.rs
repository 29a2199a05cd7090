use sql_fmt::scan::{scan_chars, trace_chars, ScanState};
use sql_fmt::text::to_chars;

fn end_of(text: &str) -> ScanState {
    scan_chars(&to_chars(text), ScanState::new())
}

#[test]
fn scan_starts_outside_everything() {
    let st = ScanState::new();
    assert!(!st.in_string && !st.escaped && !st.in_line_comment && !st.in_block_comment);
    assert_eq!(st.paren_depth, 0);
    assert_eq!(st.string_delimiter, None);
    assert!(st.is_plain() && st.is_plain_at(0) && !st.is_unterminated());
}

#[test]
fn string_hides_commas_and_parentheses() {
    let st = end_of("('a,(b'");
    assert!(st.is_plain_at(1));
    let st = end_of("('a,(b");
    assert!(st.in_string);
    assert_eq!(st.string_delimiter, Some('\''));
    assert_eq!(st.paren_depth, 1);
    assert!(st.is_unterminated());
}

#[test]
fn only_the_opening_quote_closes_a_string() {
    assert!(end_of("\"it's\"").is_plain_at(0));
    assert!(end_of("`a'b\"c`").is_plain_at(0));
    let st = end_of("'a\"");
    assert!(st.in_string);
    assert_eq!(st.string_delimiter, Some('\''));
}

#[test]
fn escape_takes_the_next_character_literally() {
    assert!(end_of("'a\\'b'").is_plain_at(0));
    assert!(end_of("\\'").is_plain_at(0));
    assert!(end_of("\\(").is_plain_at(0));
    let st = end_of("'a\\\\'");
    assert!(st.is_plain_at(0));
    let st = end_of("x\\");
    assert!(st.escaped && !st.is_plain());
}

#[test]
fn line_comment_ends_with_the_line() {
    let st = end_of("-- ( '\n(");
    assert!(st.is_plain_at(1));
    let st = end_of("a - - (");
    assert!(st.is_plain_at(1));
    let st = end_of("-- (");
    assert!(st.in_line_comment && st.is_in_comment());
    assert_eq!(st.paren_depth, 0);
}

#[test]
fn block_comment_ends_with_star_slash() {
    assert_eq!(end_of("/* ( */ )").paren_depth, -1);
    assert!(end_of("/*/").in_block_comment);
    assert!(end_of("/**/").is_plain_at(0));
    assert!(end_of("/* -- \n */").is_plain_at(0));
    assert!(end_of("'/*'").is_plain_at(0));
    assert!(end_of("/* ' */").is_plain_at(0));
}

#[test]
fn parentheses_change_the_depth() {
    assert_eq!(end_of("((a)").paren_depth, 1);
    assert_eq!(end_of(")").paren_depth, -1);
    assert!(end_of("(").is_unterminated());
    assert!(!end_of("()").is_unterminated());
}

#[test]
fn comment_is_recognised_on_its_second_character() {
    let one = ScanState::new().step('-');
    assert_eq!(one.pending, Some('-'));
    assert!(one.is_plain());
    let two = one.step('-');
    assert!(two.in_line_comment);
    assert_eq!(two.pending, None);
    let open = ScanState::new().step('/').step('*');
    assert!(open.in_block_comment);
    assert!(open.step('/').in_block_comment);
    assert!(!open.step('*').step('/').in_block_comment);
}

#[test]
fn depth_is_held_at_the_limits() {
    let top = ScanState::level(i32::MAX).step('(');
    assert_eq!(top.paren_depth, i32::MAX);
    let bottom = ScanState::level(i32::MIN).step(')');
    assert_eq!(bottom.paren_depth, i32::MIN);
}

#[test]
fn trace_gives_the_state_before_each_character() {
    let states = trace_chars(&to_chars("a('b"), ScanState::new());
    assert_eq!(states.len(), 4);
    assert_eq!(states[0], ScanState::new());
    assert_eq!(states[2].paren_depth, 1);
    assert!(!states[2].in_string);
    assert!(states[3].in_string);
    assert!(trace_chars(&to_chars(""), ScanState::new()).is_empty());
}

#[test]
fn contexts_shut_each_other_out() {
    let text = to_chars("a 'b -- /* c' -- 'd\n /* 'e' -- f\n */ \"g`h\" `i\\`` \\' -/ /- */ ('");
    for st in trace_chars(&text, ScanState::new()) {
        let open = [st.in_string, st.in_line_comment, st.in_block_comment];
        assert!(open.iter().filter(|b| **b).count() <= 1);
        assert_eq!(st.in_string, st.string_delimiter.is_some());
    }
}
