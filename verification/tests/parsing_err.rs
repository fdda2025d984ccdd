use story_rebase::errors::{GrammarError, ParseError};
use story_rebase::parsing::parse;
use story_rebase::span::{Span, Spanned};

fn doc(text: &str) -> Spanned<String> {
    Spanned {
        span: Span {
            file: "err.story".to_string(),
            line_start: 1,
            line_end: text.lines().count() + 1,
            col_start: 1,
            col_end: 0,
        },
        content: text.to_string(),
    }
}

fn grammar_err(text: &str) -> GrammarError {
    match parse(&doc(text)) {
        Err(ParseError::Grammar(e)) => e,
        Err(other) => panic!("expected a grammar error, got {:?}", other),
        Ok(_) => panic!("expected a grammar error, input parsed"),
    }
}

#[test]
fn empty_file_misses_start_line() {
    assert!(matches!(grammar_err(""), GrammarError::MissingStartLine));
}

#[test]
fn all_comment_file_misses_start_line() {
    // a trailing comment block annotates nothing and is dropped
    assert!(matches!(grammar_err("// only a comment\n"), GrammarError::MissingStartLine));
}

#[test]
fn blank_start_line_is_refused() {
    let e = grammar_err("   \n\n## a\nmsg\n");
    assert!(matches!(e, GrammarError::EmptyStartId { .. }));
}

#[test]
fn missing_separator_line() {
    let e = grammar_err("start\n");
    assert!(matches!(e, GrammarError::MissingSeparatorLine { .. }));
}

#[test]
fn nonempty_separator_line() {
    let e = grammar_err("start\nnot blank\n");
    match e {
        GrammarError::NonEmptySeparatorLine { span } => assert_eq!(span.line_start, 2),
        other => panic!("wrong error {:?}", other),
    }
}

#[test]
fn comment_before_separator_line() {
    let e = grammar_err("start\n// lost comment\n\n## a\nmsg\n");
    assert!(matches!(e, GrammarError::CommentBeforeSeparator { .. }));
}

#[test]
fn malformed_header() {
    let e = grammar_err("start\n\nnot a header\nmsg\n");
    match e {
        GrammarError::MalformedHeader { span } => assert_eq!(span.line_start, 3),
        other => panic!("wrong error {:?}", other),
    }
}

#[test]
fn trailing_header_at_end_of_file() {
    let e = grammar_err("start\n\n## lonely\n");
    assert!(matches!(e, GrammarError::TrailingHeader { .. }));
}

#[test]
fn unterminated_repetition_marker() {
    let e = grammar_err("start\n\n## a\nmsg\n{2 t: m\n");
    assert!(matches!(e, GrammarError::UnterminatedRepetition { .. }));
}

#[test]
fn repetition_cap_zero_is_refused() {
    let e = grammar_err("start\n\n## a\nmsg\n{0}t: m\n");
    assert!(matches!(e, GrammarError::MalformedNumber { .. }));
}

#[test]
fn repetition_cap_256_is_refused() {
    let e = grammar_err("start\n\n## a\nmsg\n{256}t: m\n");
    assert!(matches!(e, GrammarError::MalformedNumber { .. }));
}

#[test]
fn repetition_cap_needs_a_number() {
    let e = grammar_err("start\n\n## a\nmsg\n{x}t: m\n");
    assert!(matches!(e, GrammarError::MalformedNumber { .. }));
}

#[test]
fn unterminated_command() {
    let e = grammar_err("start\n\n## a\nmsg\n[a.b += 1 oops\n");
    assert!(matches!(e, GrammarError::UnterminatedCommand { .. }));
}

#[test]
fn choice_without_colon() {
    let e = grammar_err("start\n\n## a\nmsg\nno colon here\n");
    match e {
        GrammarError::MissingColon { span } => assert_eq!(span.line_start, 5),
        other => panic!("wrong error {:?}", other),
    }
}

#[test]
fn command_without_dot() {
    let e = grammar_err("start\n\n## a\nmsg\n[gold += 1] dig\n");
    assert!(matches!(e, GrammarError::MissingDot { .. }));
}

#[test]
fn command_without_item_name() {
    let e = grammar_err("start\n\n## a\nmsg\n[r. += 1] dig\n");
    assert!(matches!(e, GrammarError::MissingItemName { .. }));
}

#[test]
fn command_with_nothing_after_operator() {
    let e = grammar_err("start\n\n## a\nmsg\n[r.gold +=] dig\n");
    assert!(matches!(e, GrammarError::MissingAmount { .. }));
}

#[test]
fn unknown_operator_star_equals() {
    // the `*=` sigil is outside the fixed table
    let e = grammar_err("start\n\n## a\nmsg\n[r.gold *= 5] dig\n");
    match e {
        GrammarError::UnknownOperator { span, .. } => {
            assert_eq!(span.line_start, 5);
        },
        other => panic!("wrong error {:?}", other),
    }
}

#[test]
fn unknown_operator_minus_equals() {
    let e = grammar_err("start\n\n## a\nmsg\n[r.gold -= 5] dig\n");
    match e {
        GrammarError::UnknownOperator { operator, .. } => assert_eq!(operator, "-="),
        other => panic!("wrong error {:?}", other),
    }
}

#[test]
fn malformed_amount() {
    let e = grammar_err("start\n\n## a\nmsg\n[r.gold += lots] dig\n");
    assert!(matches!(e, GrammarError::MalformedNumber { .. }));
}

#[test]
fn duplicate_room_ids_are_refused() {
    match parse(&doc("a\n\n## same\none\n\n## same\ntwo\n")) {
        Err(ParseError::DuplicateRoom(e)) => {
            assert_eq!(e.first.line_start, 3);
            assert_eq!(e.second.line_start, 6);
        },
        other => panic!("expected a duplicate-room error, got {:?}", other),
    }
}
