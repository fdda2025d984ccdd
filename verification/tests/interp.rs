use story_rebase::errors::{ChooseError, LookupError};
use story_rebase::parsing::parse;
use story_rebase::span::{Span, Spanned};

fn doc(text: &str) -> Spanned<String> {
    Spanned {
        span: Span {
            file: "play.story".to_string(),
            line_start: 1,
            line_end: text.lines().count() + 1,
            col_start: 1,
            col_end: 0,
        },
        content: text.to_string(),
    }
}

#[test]
fn goto_moves_current_room() {
    let mut story = parse(&doc("start\n\n## start\nhere\ncave: go\n\n## cave\nthere\n")).unwrap();
    story.select(0).expect("in range");
    assert_eq!(story.room.content.id(), "cave");
    assert_eq!(story.room().message.value.content, "there");
    assert_eq!(story.choices, vec![0u8]);
}

#[test]
fn out_of_range_selection_fails_and_leaves_room() {
    let mut story = parse(&doc("start\n\n## start\nhere\ncave: go\n\n## cave\nthere\n")).unwrap();
    let before = story.room.content.id().to_string();
    let err = story.select(1).unwrap_err();
    assert_eq!(err, ChooseError::Lookup(LookupError { chosen: 1, available: 1 }));
    assert_eq!(story.room.content.id(), before);
    assert!(story.choices.is_empty());
}

#[test]
fn selection_in_empty_room_fails() {
    let mut story = parse(&doc("start\n\n## start\nnowhere to go\n")).unwrap();
    let err = story.select(0).unwrap_err();
    assert_eq!(err, ChooseError::Lookup(LookupError { chosen: 0, available: 0 }));
}

#[test]
fn dangling_goto_resolves_to_default_room() {
    // choosing into an undefined room shows the default room's message
    let mut story = parse(&doc("start\n\n## start\nhere\nnowhere: leap\n")).unwrap();
    story.select(0).expect("in range");
    assert_eq!(story.room.content.id(), "nowhere");
    assert_eq!(story.room().message.value.content, "You fell off the end of the world");
    assert_eq!(story.room().choices.len(), 0);
}

#[test]
fn dangling_start_resolves_to_default_room() {
    let story = parse(&doc("missing\n\n## real\nmsg\n")).unwrap();
    assert_eq!(story.room().message.value.content, "You fell off the end of the world");
}

#[test]
fn default_room_is_never_stored() {
    let mut story = parse(&doc("start\n\n## start\nhere\nnowhere: leap\n")).unwrap();
    story.select(0).expect("in range");
    let _ = story.room();
    assert_eq!(story.rooms.keys, vec!["start".to_string()]);
}

#[test]
fn additions_accumulate() {
    // [start.gold += 5] then [start.gold += 3] leaves gold at 8
    let text = "start\n\n## start\nmsg\n[start.gold += 5] a\n[start.gold += 3] b\n";
    let mut story = parse(&doc(text)).unwrap();
    story.select(0).expect("in range");
    assert_eq!(story.room().items.get(&"gold".to_string()), Some(&5));
    story.select(1).expect("in range");
    assert_eq!(story.room().items.get(&"gold".to_string()), Some(&8));
    assert_eq!(story.choices, vec![0u8, 1u8]);
}

#[test]
fn modify_stays_in_current_room() {
    let text = "start\n\n## start\nmsg\n[start.gold += 5] a\n";
    let mut story = parse(&doc(text)).unwrap();
    story.select(0).expect("in range");
    assert_eq!(story.room.content.id(), "start");
}

#[test]
fn modify_targets_the_named_room() {
    // the mutated room may differ from the current room
    let text = "start\n\n## start\nmsg\n[cave.bats += 2] shout\n\n## cave\ndark\n";
    let mut story = parse(&doc(text)).unwrap();
    story.select(0).expect("in range");
    assert_eq!(story.room().items.len(), 0);
    let cave_id = story_rebase::room::RoomId::new("cave".to_string());
    assert_eq!(story.lookup(&cave_id).items.get(&"bats".to_string()), Some(&2));
}

#[test]
fn history_records_each_selection_as_one_byte() {
    let text = "start\n\n## start\nmsg\nstart: a\nstart: b\n";
    let mut story = parse(&doc(text)).unwrap();
    story.select(1).unwrap();
    story.select(0).unwrap();
    story.select(1).unwrap();
    assert_eq!(story.choices, vec![1u8, 0u8, 1u8]);
}

#[test]
fn selection_past_one_byte_overflows_history() {
    let mut text = String::from("start\n\n## start\nmsg\n");
    for _ in 0..300 {
        text.push_str("start: again\n");
    }
    let mut story = parse(&doc(&text)).unwrap();
    let err = story.select(299).unwrap_err();
    assert_eq!(err, ChooseError::HistoryOverflow { chosen: 299 });
    assert!(story.choices.is_empty());
    story.select(255).expect("255 still fits");
    assert_eq!(story.choices, vec![255u8]);
}
