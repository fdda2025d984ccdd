use story_rebase::parsing::parse;
use story_rebase::span::{Span, Spanned};

fn doc(text: &str) -> Spanned<String> {
    Spanned {
        span: Span {
            file: "test.story".to_string(),
            line_start: 1,
            line_end: text.lines().count() + 1,
            col_start: 1,
            col_end: 0,
        },
        content: text.to_string(),
    }
}

fn roundtrip(text: &str) {
    let story = parse(&doc(text)).expect("input should parse");
    let save = story.serialize();
    assert_eq!(text, save);
}

#[test]
fn roundtrip_all() {
    let files = [
        "start\n\n## start\nYou are at the start\n",
        "// main comment\nstart\n\n## start\nThe first room\ncave: Go into the cave\n\n## cave\nA dark cave\nstart: Go back\n",
        "start\n\n## start\nA room\n{2}start: Look around\n[start.gold += 5] Pick up gold\n",
        "start\n\n// about this room\n// on two lines\n## start\n// about the message\nThe message\n// about the choice\nstart: Loop\n",
        "nowhere\n\n## somewhere\nNobody starts here\n",
        "start\n\n## start\n\n",
    ];
    for text in files {
        roundtrip(text);
    }
}

#[test]
fn roundtrip_repetition_marker() {
    // a capped choice re-serializes unchanged
    roundtrip("start\n\n## start\nA room\n{2}target: msg\n");
}

#[test]
fn roundtrip_modify_choice() {
    roundtrip("start\n\n## start\nA room\n[start.gold += 5] grab\n");
}

#[test]
fn roundtrip_modify_with_item_name_beyond_ascii() {
    roundtrip("start\n\n## start\nA room\n[start.schlüssel += 2] nimm\n");
}

#[test]
fn roundtrip_capped_target_opening_with_brace() {
    // behind a repetition marker, a target may itself open with `{`
    roundtrip("start\n\n## start\nA room\n{2}{odd: msg\n");
}

#[test]
fn roundtrip_structural_after_reserialize() {
    let text = "// top\nstart\n\n## start\nRoom one\n{9}cave: down\n[cave.coins += 12] dig\n\n## cave\nRoom two\nstart: up\n";
    let story = parse(&doc(text)).expect("parses");
    let save = story.serialize();
    let story2 = parse(&doc(&save)).expect("reparses");
    assert_eq!(save, story2.serialize());
    assert_eq!(story.rooms.keys, story2.rooms.keys);
    assert_eq!(story.room.content.id(), story2.room.content.id());
}

#[test]
fn trailing_comment_dropped_from_serialization() {
    let text = "start\n\n## start\nmsg\n// dangling comment\n";
    let story = parse(&doc(text)).expect("parses");
    let save = story.serialize();
    assert_eq!(save, "start\n\n## start\nmsg\n");
    assert!(!save.contains("dangling"));
}

#[test]
fn save_after_modify_to_dangling_room() {
    let text = "start\n\n## start\nmsg\n[ghost.gold += 2] dig\n";
    let mut story = parse(&doc(text)).expect("parses");
    story.select(0).expect("in range");
    let save = story.serialize();
    assert!(save.contains("## the abyss"));
    assert!(save.contains("gold = 2"));
}
