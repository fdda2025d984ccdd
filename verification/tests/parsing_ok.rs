use story_rebase::action::{Action, Operator};
use story_rebase::parsing::parse;
use story_rebase::span::{Span, Spanned};

fn doc(text: &str) -> Spanned<String> {
    Spanned {
        span: Span {
            file: "test.story".to_string(),
            line_start: 1,
            line_end: text.lines().count() + 1,
            col_start: 1,
            col_end: 0,
        },
        content: text.to_string(),
    }
}

#[test]
fn parses_basic_story() {
    let story = parse(&doc("start\n\n## start\nA room\ncave: Go\n\n## cave\nDark\n")).unwrap();
    assert_eq!(story.room.content.id(), "start");
    assert_eq!(story.rooms.keys, vec!["start".to_string(), "cave".to_string()]);
    let start = story.room();
    assert_eq!(start.message.value.content, "A room");
    assert_eq!(start.choices.len(), 1);
    assert_eq!(start.choices[0].value.message.content, "Go");
    match &start.choices[0].value.action {
        Action::Goto(target) => assert_eq!(target.content.id(), "cave"),
        other => panic!("expected a goto action, got {:?}", other),
    }
}

#[test]
fn distinct_room_ids_succeed() {
    let story = parse(&doc("a\n\n## a\none\n\n## b\ntwo\n\n## c\nthree\n")).unwrap();
    assert_eq!(story.rooms.keys.len(), 3);
}

#[test]
fn starting_room_line_is_trimmed() {
    let story = parse(&doc("  start  \n\n## start\nmsg\n")).unwrap();
    assert_eq!(story.room.content.id(), "start");
}

#[test]
fn comment_attachment_two_lines() {
    // two consecutive `//` lines attach to the next room, newline-joined
    let story = parse(&doc("start\n\n// one\n// two\n## start\nmsg\n")).unwrap();
    let entry = story.rooms.entries.first().unwrap();
    assert_eq!(entry.comment.text(), " one\n two");
}

#[test]
fn comment_attaches_to_message_and_choice() {
    let story =
        parse(&doc("start\n\n## start\n// about msg\nmsg\n// about choice\nstart: go\n")).unwrap();
    let room = story.room();
    assert_eq!(room.message.comment.text(), " about msg");
    assert_eq!(room.choices[0].comment.text(), " about choice");
}

#[test]
fn main_comment_attaches_to_starting_line() {
    let story = parse(&doc("// the main one\nstart\n\n## start\nmsg\n")).unwrap();
    assert_eq!(story.main_comment.text(), " the main one");
}

#[test]
fn repetition_marker_parses_with_cap() {
    let story = parse(&doc("start\n\n## start\nmsg\n{2}target: msg\n")).unwrap();
    let choice = &story.room().choices[0].value;
    let cap = choice.repetitions.as_ref().expect("cap present");
    assert_eq!(cap.content, 2);
}

#[test]
fn repetition_cap_accepts_255() {
    let story = parse(&doc("start\n\n## start\nmsg\n{255}t: m\n")).unwrap();
    assert_eq!(story.room().choices[0].value.repetitions.as_ref().unwrap().content, 255);
}

#[test]
fn command_parses_into_modify() {
    let story = parse(&doc("start\n\n## start\nmsg\n[cave.gold += 17] dig\n")).unwrap();
    let choice = &story.room().choices[0].value;
    assert_eq!(choice.message.content, "dig");
    match &choice.action {
        Action::Modify { operator, amount, what, room } => {
            assert!(matches!(operator.content, Operator::Add));
            assert_eq!(amount.content, 17);
            assert_eq!(what.content, "gold");
            assert_eq!(room.content.id(), "cave");
        },
        other => panic!("expected a modify action, got {:?}", other),
    }
}

#[test]
fn dangling_target_does_not_fail_parsing() {
    // an undefined Goto/Modify target is not a parse error
    let story = parse(&doc("start\n\n## start\nmsg\nnowhere: leap\n[ghost.x += 1] poke\n"));
    assert!(story.is_ok());
}

#[test]
fn header_terminates_previous_block() {
    // a new `##` header ends the block even without a blank line
    let story = parse(&doc("a\n\n## a\none\n## b\ntwo\n")).unwrap();
    assert_eq!(story.rooms.keys, vec!["a".to_string(), "b".to_string()]);
    assert_eq!(story.room().choices.len(), 0);
}

#[test]
fn room_id_span_is_recorded() {
    let story = parse(&doc("start\n\n## start\nmsg\n")).unwrap();
    let entry = story.rooms.entries.first().unwrap();
    let span = &entry.value.id.span;
    assert_eq!(span.line_start, 3);
    assert_eq!(span.line_end, 3);
    assert_eq!(span.col_start, 4);
    assert_eq!(span.col_end, 8);
    assert_eq!(span.file, "test.story");
}

#[test]
fn empty_message_line_is_allowed() {
    let story = parse(&doc("start\n\n## start\n\n")).unwrap();
    assert_eq!(story.room().message.value.content, "");
}

#[test]
fn spans_count_characters_not_bytes() {
    // multi-byte characters still advance columns one per character
    let story = parse(&doc("start\n\n## start\nmsg\nhöhle: ärgerlich\n")).unwrap();
    let choice = &story.room().choices[0].value;
    match &choice.action {
        Action::Goto(target) => {
            assert_eq!(target.content.id(), "höhle");
            assert_eq!(target.span.col_start, 1);
            assert_eq!(target.span.col_end, 6);
        },
        other => panic!("expected a goto action, got {:?}", other),
    }
    assert_eq!(choice.message.content, "ärgerlich");
    assert_eq!(choice.message.span.col_start, 8);
}

#[test]
fn item_names_may_use_letters_beyond_ascii() {
    let story = parse(&doc("start\n\n## start\nmsg\n[start.schlüssel += 1] nimm\n")).unwrap();
    match &story.room().choices[0].value.action {
        Action::Modify { what, .. } => assert_eq!(what.content, "schlüssel"),
        other => panic!("expected a modify action, got {:?}", other),
    }
}
