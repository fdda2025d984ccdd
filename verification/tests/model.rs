use story_rebase::action::{Action, Operator};
use story_rebase::comments::{Comment, Commented};
use story_rebase::map::SortedMap;
use story_rebase::room::RoomId;
use story_rebase::span::{CharPred, Span, Spanned};
use story_rebase::text::{is_alnum, is_operator_sigil, is_space, parse_decimal, render_decimal};

fn spanned(text: &str) -> Spanned<String> {
    Spanned {
        span: Span {
            file: "m.story".to_string(),
            line_start: 1,
            line_end: 1,
            col_start: 1,
            col_end: text.chars().count(),
        },
        content: text.to_string(),
    }
}

#[test]
fn decimal_parse_and_render() {
    assert_eq!(parse_decimal("42"), Some(42));
    assert_eq!(parse_decimal("+7"), Some(7));
    assert_eq!(parse_decimal("007"), Some(7));
    assert_eq!(parse_decimal("0"), Some(0));
    assert_eq!(parse_decimal(""), None);
    assert_eq!(parse_decimal("x"), None);
    assert_eq!(parse_decimal("4 2"), None);
    assert_eq!(parse_decimal("-3"), None);
    assert_eq!(parse_decimal("99999999999999999999999999999"), None);
    assert_eq!(render_decimal(0), "0");
    assert_eq!(render_decimal(255), "255");
    assert_eq!(render_decimal(1000), "1000");
    assert_eq!(parse_decimal(&render_decimal(usize::MAX)), Some(usize::MAX));
}

#[test]
fn character_classes() {
    assert!(is_space(' ') && is_space('\t') && !is_space('x') && !is_space('/'));
    assert!(is_operator_sigil('+') && is_operator_sigil('=') && is_operator_sigil('-'));
    assert!(!is_operator_sigil('*'));
    assert!(is_alnum('a') && is_alnum('Z') && is_alnum('0'));
    assert!(!is_alnum(' ') && !is_alnum('.') && !is_alnum(']'));
}

#[test]
fn span_split_once_tracks_columns() {
    let s = spanned("cave: Go");
    let (a, b) = s.split_once(':').expect("has a colon");
    assert_eq!(a.content, "cave");
    assert_eq!(b.content, " Go");
    assert_eq!(a.span.col_start, 1);
    assert_eq!(a.span.col_end, 5);
    assert_eq!(b.span.col_start, 6);
    assert_eq!(b.span.col_end, 8);
    assert!(spanned("no colon").split_once(':').is_none());
}

#[test]
fn span_trim_and_strip() {
    let s = spanned("   pad   ");
    let t = s.trim_start();
    assert_eq!(t.content, "pad   ");
    assert_eq!(t.span.col_start, 4);
    let u = s.trim_end();
    assert_eq!(u.content, "   pad");
    assert_eq!(u.span.col_end, 6);
    assert_eq!(s.trim().content, "pad");
    let v = spanned("## header").strip_prefix("##").expect("starts with ##");
    assert_eq!(v.content, " header");
    assert_eq!(v.span.col_start, 3);
    assert!(spanned("nope").strip_prefix("##").is_none());
}

#[test]
fn span_take_while_splits_at_class_end() {
    let s = spanned("gold += 5");
    let (word, rest) = s.take_while(CharPred::Alphanumeric).expect("space stops the run");
    assert_eq!(word.content, "gold");
    assert_eq!(rest.content, " += 5");
    // the two sub-spans partition the original column range
    assert_eq!(word.span.col_start, 1);
    assert_eq!(word.span.col_end, 4);
    assert_eq!(rest.span.col_start, 5);
    assert_eq!(rest.span.col_end, 9);
    assert!(spanned("allword").take_while(CharPred::Alphanumeric).is_none());
    let (sigils, rest2) = spanned("+= 5").take_while(CharPred::OperatorSigil).unwrap();
    assert_eq!(sigils.content, "+=");
    assert_eq!(rest2.content, " 5");
}

#[test]
fn span_split_at_partitions_the_columns() {
    let s = spanned("abcdef");
    let (a, b) = s.split_at(2);
    assert_eq!(a.content, "ab");
    assert_eq!(b.content, "cdef");
    assert_eq!(a.span.col_start, 1);
    assert_eq!(a.span.col_end, 2);
    assert_eq!(b.span.col_start, 3);
    assert_eq!(b.span.col_end, 6);
}

#[test]
fn spanned_parse_reads_numbers() {
    let n = spanned("37").parse().expect("a numeral");
    assert_eq!(n.content, 37);
    assert!(spanned("many").parse().is_err());
}

#[test]
fn span_dummy_and_render() {
    assert!(Span::default().is_dummy());
    assert_eq!(Span::default().render(), "DUMMY_SPAN");
    let sp = Span {
        file: "f.story".to_string(),
        line_start: 1,
        line_end: 2,
        col_start: 3,
        col_end: 4,
    };
    assert!(!sp.is_dummy());
    assert_eq!(sp.render(), "f.story:1:3 2:4");
    let d = Spanned::dummy(5u8);
    assert!(d.span.is_dummy());
}

#[test]
fn spanned_and_commented_map() {
    let s = spanned("id").map(|text| RoomId::new(text));
    assert_eq!(s.content.id(), "id");
    let c = Comment::default().with(3u8).map(|n| n + 1);
    assert_eq!(c.value, 4);
    assert_eq!(c.as_ref().comment.text(), "");
    let d: Commented<u8> = Commented::dummy(9);
    assert_eq!(d.value, 9);
    assert_eq!(d.comment.text(), "");
}

#[test]
fn comment_renders_with_prefix_per_line() {
    let c = Comment::new(spanned(" one\n two"));
    assert_eq!(c.render(), "// one\n// two\n");
    assert_eq!(Comment::default().render(), "");
}

#[test]
fn operator_table() {
    assert!(matches!(Operator::of_sigils("+="), Some(Operator::Add)));
    assert!(Operator::of_sigils("*=").is_none());
    assert!(Operator::of_sigils("").is_none());
    assert_eq!(Operator::Add.render(), "+=");
}

#[test]
fn action_renders_like_the_grammar() {
    let goto = Action::Goto(Spanned::dummy(RoomId::new("cave".to_string())));
    assert_eq!(goto.render(), "cave");
    let modify = Action::Modify {
        operator: Spanned::dummy(Operator::Add),
        amount: Spanned::dummy(5),
        what: Spanned::dummy("gold".to_string()),
        room: Spanned::dummy(RoomId::new("r".to_string())),
    };
    assert_eq!(modify.render(), "r.gold += 5");
}

#[test]
fn sorted_map_keeps_insertion_order_and_unique_keys() {
    let mut m: SortedMap<usize> = SortedMap::empty();
    assert!(m.insert("b".to_string(), 1).is_ok());
    assert!(m.insert("a".to_string(), 2).is_ok());
    assert_eq!(m.insert("b".to_string(), 3), Err(0));
    assert_eq!(m.len(), 2);
    assert_eq!(m.get(&"b".to_string()), Some(&1));
    assert_eq!(m.get(&"missing".to_string()), None);
    assert_eq!(m.key_at(0).as_str(), "b");
    assert_eq!(m.value_at(1), &2);
    let pairs: Vec<(String, usize)> =
        m.iter().into_iter().map(|(k, v)| (k.clone(), *v)).collect();
    assert_eq!(pairs, vec![("b".to_string(), 1), ("a".to_string(), 2)]);
    assert_eq!(m.values().len(), 2);
}

#[test]
fn sorted_map_get_or_insert_default() {
    let mut m: SortedMap<usize> = SortedMap::default();
    {
        let slot = m.get_or_insert_default("gold".to_string(), 0);
        *slot += 5;
    }
    {
        let slot = m.get_or_insert_default("gold".to_string(), 0);
        *slot += 3;
    }
    assert_eq!(m.get(&"gold".to_string()), Some(&8));
    assert_eq!(m.len(), 1);
}

#[test]
fn lines_pairs_comments_with_content() {
    let text = Spanned {
        span: Span {
            file: "l.story".to_string(),
            line_start: 1,
            line_end: 5,
            col_start: 1,
            col_end: 0,
        },
        content: "// a\n// b\nline one\nline two\n// dropped\n".to_string(),
    };
    let pairs = text.lines("//");
    assert_eq!(pairs.len(), 2);
    assert_eq!(pairs[0].comment.text(), " a\n b");
    assert_eq!(pairs[0].value.content, "line one");
    assert_eq!(pairs[0].value.span.line_start, 3);
    assert_eq!(pairs[1].comment.text(), "");
    assert_eq!(pairs[1].value.content, "line two");
}

#[test]
fn alphanumeric_covers_letters_beyond_ascii() {
    assert!(is_alnum('é'));
    assert!(is_alnum('日'));
    assert!(!is_alnum('€'));
}

#[test]
fn unicode_trim_and_split_count_characters() {
    let s = spanned("日本: 語");
    let (a, b) = s.split_once(':').expect("has a colon");
    assert_eq!(a.content, "日本");
    assert_eq!(a.span.col_end, 3);
    assert_eq!(b.content, " 語");
    assert_eq!(b.span.col_start, 4);
    let t = spanned("\u{a0}pad").trim_start();
    assert_eq!(t.content, "pad");
    assert_eq!(t.span.col_start, 2);
}
