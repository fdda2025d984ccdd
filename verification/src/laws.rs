//! Round-trip and attachment properties: text written by the serializer
//! parses back to the structure it came from, at the numeral, command,
//! choice-line and whole-story level, and re-serializing the parse
//! reproduces the text byte for byte; comment blocks attach to the line
//! after them, through the whole parse, and a trailing block is dropped.

use vstd::prelude::*;

use crate::action::{spec_render_action, ActionV, Operator};
use crate::choice::{spec_render_choice, ChoiceV};
use crate::comments::{
    spec_comment_merge, spec_comment_of_line, spec_pair_lines, spec_pending_or_empty,
    spec_render_comment, CommentedV,
};
use crate::room::{spec_render_choice_list, spec_render_items, spec_render_room, RoomV};
use crate::story::{spec_render_room_list, spec_render_story, StoryV};
use crate::parsing::{
    spec_parse_action, spec_parse_choice, spec_parse_choices, spec_parse_rooms,
};
use crate::span::{line_spanned, spec_raw_lines_from, SpanV, SpannedV};
use crate::text::{
    alnum_pred, contains_char, first_ix, first_not, is_alnum_char, is_digit_char, is_space_char,
    lemma_decimal_round_trip, lemma_first_ix_unique, lemma_first_not_unique, number_val,
    sigil_pred, space_pred, spec_digits, trim_end_spec,
};

verus! {

/// Identifier text the command grammar can write and read back: no period,
/// no closing bracket, and no white space at either end.
pub open spec fn command_room_wf(s: Seq<char>) -> bool {
    &&& !contains_char(s, '.')
    &&& !contains_char(s, ']')
    &&& s.len() > 0 ==> !is_space_char(s[0])
    &&& s.len() > 0 ==> !is_space_char(s.last())
}

/// Item text the command grammar can write and read back: a nonempty run of
/// alphanumeric characters, exactly what the item-name token admits.
pub open spec fn command_item_wf(s: Seq<char>) -> bool {
    &&& s.len() > 0
    &&& forall|i: int| 0 <= i < s.len() ==> is_alnum_char(#[trigger] s[i])
}

/// The same action, spans aside.
pub open spec fn action_like(a: ActionV, b: ActionV) -> bool {
    match (a, b) {
        (ActionV::Goto(x), ActionV::Goto(y)) => x.content == y.content,
        (
            ActionV::Modify { operator: o1, amount: n1, what: w1, room: r1 },
            ActionV::Modify { operator: o2, amount: n2, what: w2, room: r2 },
        ) => o1.content == o2.content && n1.content == n2.content && w1.content == w2.content
            && r1.content == r2.content,
        _ => false,
    }
}

/// Round trip at the command level: a `Modify` action written back as
/// `room.item += amount` parses to an action with the same room, item,
/// operator and amount, under whatever span the text is read.
#[verifier::rlimit(60)]
pub proof fn lemma_action_round_trip(a: ActionV, sp: SpanV)
    requires
        a matches ActionV::Modify { operator, amount, what, room }
            && operator.content == Operator::Add && command_room_wf(room.content)
            && command_item_wf(what.content),
    ensures
        ({
            let r = spec_parse_action(SpannedV { span: sp, content: spec_render_action(a) });
            r matches Ok(b) && action_like(b, a)
        }),
{
    let operator = crate::choice::spec_action_operator(a);
    let amount = crate::choice::spec_action_amount(a);
    let what = crate::choice::spec_action_what(a);
    let room = crate::choice::spec_action_room(a);
    let rk = room.content;
    let w = what.content;
    let n = amount.content;
    let digits = spec_digits(n as int);
    lemma_decimal_round_trip(n as int);
    let rendered = spec_render_action(a);
    assert(rendered == rk + seq!['.'] + w + seq![' '] + Operator::render_spec(Operator::Add)
        + seq![' '] + digits);
    let tail1 = w + seq![' '] + seq!['+', '='] + seq![' '] + digits;
    assert(rendered =~= rk + seq!['.'] + tail1);
    // the first period closes the room id
    assert(rendered[rk.len() as int] == '.');
    assert(forall|j: int| 0 <= j < rk.len() ==> rendered[j] == rk[j]);
    lemma_first_ix_unique(rendered, '.', rk.len() as int);
    assert(contains_char(rendered, '.')) by {
        crate::text::lemma_first_ix(rendered, '.');
    }
    assert(rendered.take(rk.len() as int) =~= rk);
    assert(rendered.skip(rk.len() as int + 1) =~= tail1);
    // the room id is already trimmed
    lemma_trimmed_fixpoint(rk);
    // the item name is the maximal alphanumeric run
    assert(tail1[w.len() as int] == ' ');
    assert(forall|j: int| 0 <= j < w.len() ==> tail1[j] == w[j]);
    lemma_first_not_unique(tail1, space_pred(), 0);
    assert(first_not(tail1, alnum_pred()) == w.len()) by {
        assert(!is_alnum_char(' '));
        lemma_first_not_unique(tail1, alnum_pred(), w.len() as int);
    }
    assert(tail1.take(w.len() as int) =~= w);
    let tail2 = seq![' '] + seq!['+', '='] + seq![' '] + digits;
    assert(tail1.skip(w.len() as int) =~= tail2);
    // one space, then the operator sigils
    assert(tail2[0] == ' ' && tail2[1] == '+' && tail2[2] == '=' && tail2[3] == ' ');
    lemma_first_not_unique(tail2, space_pred(), 1);
    let tail3 = seq!['+', '='] + seq![' '] + digits;
    assert(tail2.skip(1) =~= tail3);
    assert(tail3[0] == '+' && tail3[1] == '=' && tail3[2] == ' ');
    lemma_first_not_unique(tail3, sigil_pred(), 2);
    assert(tail3.take(2) =~= seq!['+', '=']);
    assert(Operator::of_sigils_spec(tail3.take(2)) == Some(Operator::Add));
    let tail4 = seq![' '] + digits;
    assert(tail3.skip(2) =~= tail4);
    // one space, then the amount
    assert(tail4[0] == ' ');
    assert(is_digit_char(digits[0]));
    assert(tail4[1] == digits[0] && !is_space_char(tail4[1]));
    lemma_first_not_unique(tail4, space_pred(), 1);
    assert(tail4.skip(1) =~= digits);
    assert(number_val(digits) == n as int);
    // walk the parse itself
    let cmdv = SpannedV { span: sp, content: rendered };
    let split = crate::span::sv_split_once(cmdv, '.');
    assert(split is Some);
    let room_part = split->Some_0.0;
    let rest = split->Some_0.1;
    assert(room_part.content == rk);
    assert(rest.content == tail1);
    let room_t = crate::span::sv_trim(room_part);
    assert(room_t.content == rk);
    let rest1 = crate::span::sv_trim_start(rest);
    assert(tail1.skip(0) =~= tail1);
    assert(rest1.content == tail1);
    let tw = crate::span::sv_take_while(rest1, alnum_pred());
    assert(tw is Some);
    assert(tw->Some_0.0.content == w);
    assert(tw->Some_0.1.content =~= tail2);
    let rest3 = crate::span::sv_trim_start(tw->Some_0.1);
    assert(rest3.content == tail3);
    let tw2 = crate::span::sv_take_while(rest3, sigil_pred());
    assert(tw2 is Some);
    assert(tw2->Some_0.0.content =~= seq!['+', '=']);
    assert(tw2->Some_0.1.content =~= tail4);
    let amount_t = crate::span::sv_trim_start(tw2->Some_0.1);
    assert(amount_t.content == digits);
    assert(spec_parse_action(cmdv) is Ok);
}

/// A sequence with no surrounding white space is its own trim.
proof fn lemma_trimmed_fixpoint(s: Seq<char>)
    requires
        s.len() > 0 ==> !is_space_char(s[0]),
        s.len() > 0 ==> !is_space_char(s.last()),
    ensures
        crate::text::trim_start_spec(s) == s,
        trim_end_spec(s) == s,
{
    lemma_first_not_unique(s, space_pred(), 0);
    assert(s.skip(0) =~= s);
}

/// Message text as the parser stores it: one line with no leading white
/// space.
pub open spec fn message_wf(s: Seq<char>) -> bool {
    s.len() > 0 ==> !is_space_char(s[0])
}

/// Target text a `Goto` choice can write and read back: no colon, and not
/// opening with a command bracket. A target may open with `{` when a
/// repetition marker stands before it, since the marker is read first.
pub open spec fn goto_target_wf(s: Seq<char>) -> bool {
    &&& !contains_char(s, ':')
    &&& s.len() > 0 ==> s[0] != '['
}

/// The same choice, spans aside.
pub open spec fn choice_like(a: ChoiceV, b: ChoiceV) -> bool {
    &&& a.message.content == b.message.content
    &&& (match (a.repetitions, b.repetitions) {
        (None, None) => true,
        (Some(x), Some(y)) => x.content == y.content,
        _ => false,
    })
    &&& action_like(a.action, b.action)
}

/// No closing bracket occurs in a well-formed rendered command.
proof fn lemma_action_render_no_bracket(a: ActionV)
    requires
        a matches ActionV::Modify { operator, amount, what, room } && command_room_wf(room.content)
            && command_item_wf(what.content),
    ensures
        !contains_char(spec_render_action(a), ']'),
{
    let what = crate::choice::spec_action_what(a);
    let room = crate::choice::spec_action_room(a);
    let amount = crate::choice::spec_action_amount(a);
    let rk = room.content;
    let w = what.content;
    let digits = spec_digits(amount.content as int);
    lemma_decimal_round_trip(amount.content as int);
    let rendered = spec_render_action(a);
    assert(rendered == rk + seq!['.'] + w + seq![' '] + Operator::render_spec(
        crate::choice::spec_action_operator(a).content,
    ) + seq![' '] + digits);
    assert forall|j: int| 0 <= j < rendered.len() implies rendered[j] != ']' by {
        if j < rk.len() {
            assert(rendered[j] == rk[j]);
            if rk[j] == ']' {
                assert(contains_char(rk, ']'));
            }
        } else if j < rk.len() + 1 {
            assert(rendered[j] == '.');
        } else if j < rk.len() + 1 + w.len() {
            assert(rendered[j] == w[j - rk.len() - 1]);
            assert(is_alnum_char(w[j - rk.len() - 1]));
            assert(!is_alnum_char(']'));
        } else if j < rk.len() + 1 + w.len() + 1 {
            assert(rendered[j] == ' ');
        } else if j < rk.len() + 1 + w.len() + 2 {
            assert(rendered[j] == '+');
        } else if j < rk.len() + 1 + w.len() + 3 {
            assert(rendered[j] == '=');
        } else if j < rk.len() + 1 + w.len() + 4 {
            assert(rendered[j] == ' ');
        } else {
            assert(rendered[j] == digits[j - (rk.len() + 1 + w.len() + 4)]);
            assert(is_digit_char(digits[j - (rk.len() + 1 + w.len() + 4)]));
        }
    }
    if contains_char(rendered, ']') {
        let witness = choose|i: int| 0 <= i < rendered.len() && rendered[i] == ']';
        assert(rendered[witness] != ']');
    }
}

/// Round trip at the line level: a choice written back parses to a choice
/// with the same message, repetition cap and action, and the same leading
/// comment.
/// What a choice renders to after any repetition marker.
pub open spec fn spec_choice_body_text(c: ChoiceV) -> Seq<char> {
    match c.action {
        ActionV::Goto(t) => t.content + seq![':', ' '] + c.message.content,
        ActionV::Modify { .. } => seq!['['] + spec_render_action(c.action) + seq![']', ' ']
            + c.message.content,
    }
}

proof fn lemma_choice_body_head(c: ChoiceV)
    requires
        c.action matches ActionV::Goto(t) ==> (c.repetitions is None ==> (t.content.len() > 0
            ==> t.content[0] != '{')),
    ensures
        spec_choice_body_text(c).len() > 0,
        c.repetitions is None ==> spec_choice_body_text(c)[0] != '{',
        c.action matches ActionV::Goto(t) ==> spec_choice_body_text(c)[0] == (if t.content.len()
            > 0 {
            t.content[0]
        } else {
            ':'
        }),
{
    let body = spec_choice_body_text(c);
    match c.action {
        ActionV::Goto(t) => {
            if t.content.len() > 0 {
                assert(body[0] == t.content[0]);
            } else {
                assert(body[0] == ':');
            }
        },
        ActionV::Modify { .. } => {
            assert(body[0] == '[');
        },
    }
}

/// The repetition stage reads back exactly the cap that was written.
proof fn lemma_rep_round_trip(c: ChoiceV, sp: SpanV)
    requires
        c.repetitions matches Some(r) ==> 1 <= r.content,
        c.action matches ActionV::Goto(t) ==> (c.repetitions is None ==> (t.content.len() > 0
            ==> t.content[0] != '{')),
    ensures
        ({
            let r = crate::parsing::spec_parse_rep(
                SpannedV { span: sp, content: spec_render_choice(c) },
            );
            &&& r is Ok
            &&& (match (r->Ok_0.0, c.repetitions) {
                (None, None) => true,
                (Some(x), Some(y)) => x.content == y.content,
                _ => false,
            })
            &&& r->Ok_0.1.content == spec_choice_body_text(c)
        }),
{
    let body = spec_choice_body_text(c);
    let rendered = spec_render_choice(c);
    lemma_choice_body_head(c);
    match c.repetitions {
        None => {
            assert(rendered =~= body);
            let line = SpannedV { span: sp, content: rendered };
            assert(rendered.take(1) != seq!['{']) by {
                assert(rendered.take(1)[0] == body[0]);
            }
            assert(crate::span::sv_strip_prefix(line, seq!['{']) is None);
        },
        Some(rep) => {
            let digits = spec_digits(rep.content as int);
            lemma_decimal_round_trip(rep.content as int);
            assert(rendered =~= seq!['{'] + (digits + seq!['}'] + body));
            assert(rendered.take(1) =~= seq!['{']);
            let line = SpannedV { span: sp, content: rendered };
            let inner = crate::span::sv_strip_prefix(line, seq!['{']);
            assert(inner is Some);
            let linea = inner->Some_0;
            assert(linea.content =~= digits + seq!['}'] + body);
            assert(linea.content[digits.len() as int] == '}');
            assert(forall|j: int| 0 <= j < digits.len() ==> linea.content[j] == digits[j]);
            assert(forall|j: int| 0 <= j < digits.len() ==> is_digit_char(digits[j]));
            assert(forall|j: int| 0 <= j < digits.len() ==> linea.content[j] != '}');
            lemma_first_ix_unique(linea.content, '}', digits.len() as int);
            assert(contains_char(linea.content, '}')) by {
                crate::text::lemma_first_ix(linea.content, '}');
            }
            assert(linea.content.take(digits.len() as int) =~= digits);
            assert(number_val(digits) == rep.content as int);
            assert(linea.content.skip(digits.len() as int + 1) =~= body);
            let sp2 = crate::span::sv_split_once(linea, '}');
            assert(sp2 is Some);
            assert(sp2->Some_0.0.content == digits);
            assert(sp2->Some_0.1.content == body);
        },
    }
}

/// The body stage reads back the action and the message that were written.
proof fn lemma_body_round_trip(c: ChoiceV, line1: SpannedV<Seq<char>>)
    requires
        line1.content == spec_choice_body_text(c),
        message_wf(c.message.content),
        c.action matches ActionV::Goto(t) ==> goto_target_wf(t.content),
        c.action matches ActionV::Modify { operator, amount, what, room } ==> (
        operator.content == Operator::Add && command_room_wf(room.content) && command_item_wf(
            what.content,
        )),
    ensures
        ({
            let r = crate::parsing::spec_parse_choice_body(line1);
            &&& r is Ok
            &&& action_like(r->Ok_0.0, c.action)
            &&& crate::span::sv_trim_start(r->Ok_0.1).content == c.message.content
        }),
{
    let msg = c.message.content;
    let body = spec_choice_body_text(c);
    match c.action {
        ActionV::Goto(t) => {
            let target = t.content;
            assert(body.take(1) != seq!['[']) by {
                assert(body.take(1)[0] == body[0]);
                if target.len() > 0 {
                    assert(body[0] == target[0]);
                } else {
                    assert(body[0] == ':');
                }
            }
            assert(crate::span::sv_strip_prefix(line1, seq!['[']) is None);
            assert(body[target.len() as int] == ':');
            assert(forall|j: int| 0 <= j < target.len() ==> body[j] == target[j]);
            assert(forall|j: int| 0 <= j < target.len() ==> body[j] != ':') by {
                assert forall|j: int| 0 <= j < target.len() implies target[j] != ':' by {
                    if target[j] == ':' {
                        assert(contains_char(target, ':'));
                    }
                }
            }
            lemma_first_ix_unique(body, ':', target.len() as int);
            assert(contains_char(body, ':')) by {
                crate::text::lemma_first_ix(body, ':');
            }
            assert(body.take(target.len() as int) =~= target);
            let tail = seq![' '] + msg;
            assert(body.skip(target.len() as int + 1) =~= tail);
            assert(tail[0] == ' ');
            if msg.len() > 0 {
                assert(tail[1] == msg[0]);
            }
            lemma_first_not_unique(tail, space_pred(), 1);
            assert(tail.skip(1) =~= msg);
            let sc = crate::span::sv_split_once(line1, ':');
            assert(sc is Some);
            assert(sc->Some_0.0.content == target);
            assert(sc->Some_0.1.content == tail);
            assert(crate::span::sv_trim_start(sc->Some_0.1).content == msg);
        },
        ActionV::Modify { .. } => {
            assert(body.take(1) =~= seq!['[']);
            let cmd0 = spec_render_action(c.action) + seq![']', ' '] + msg;
            assert(body.skip(1) =~= cmd0);
            let alen = spec_render_action(c.action).len() as int;
            lemma_action_render_no_bracket(c.action);
            assert(cmd0[alen] == ']');
            assert(forall|j: int| 0 <= j < alen ==> cmd0[j] == spec_render_action(c.action)[j]);
            assert(forall|j: int| 0 <= j < alen ==> cmd0[j] != ']') by {
                assert forall|j: int| 0 <= j < alen implies spec_render_action(c.action)[j]
                    != ']' by {
                    if spec_render_action(c.action)[j] == ']' {
                        assert(contains_char(spec_render_action(c.action), ']'));
                    }
                }
            }
            lemma_first_ix_unique(cmd0, ']', alen);
            assert(contains_char(cmd0, ']')) by {
                crate::text::lemma_first_ix(cmd0, ']');
            }
            assert(cmd0.take(alen) =~= spec_render_action(c.action));
            let after = crate::span::sv_strip_prefix(line1, seq!['['])->Some_0;
            assert(after.content == cmd0);
            let split = crate::span::sv_split_once(after, ']');
            assert(split is Some);
            let command = split->Some_0.0;
            assert(command.content == spec_render_action(c.action));
            lemma_action_round_trip(c.action, command.span);
            let tail = seq![' '] + msg;
            assert(cmd0.skip(alen + 1) =~= tail);
            assert(tail[0] == ' ');
            if msg.len() > 0 {
                assert(tail[1] == msg[0]);
            }
            lemma_first_not_unique(tail, space_pred(), 1);
            assert(tail.skip(1) =~= msg);
            let rest = split->Some_0.1;
            assert(rest.content == tail);
            assert(crate::span::sv_trim_start(rest).content == msg);
        },
    }
}

/// Round trip at the line level: a choice written back parses to a choice
/// with the same message, repetition cap and action, and the same leading
/// comment.
pub proof fn lemma_choice_round_trip(c: ChoiceV, comment: SpannedV<Seq<char>>, sp: SpanV)
    requires
        message_wf(c.message.content),
        c.repetitions matches Some(r) ==> 1 <= r.content,
        c.action matches ActionV::Goto(t) ==> goto_target_wf(t.content),
        c.action matches ActionV::Goto(t) ==> (c.repetitions is None ==> (t.content.len() > 0
            ==> t.content[0] != '{')),
        c.action matches ActionV::Modify { operator, amount, what, room } ==> (
        operator.content == Operator::Add && command_room_wf(room.content) && command_item_wf(
            what.content,
        )),
    ensures
        ({
            let l = CommentedV {
                comment,
                value: SpannedV { span: sp, content: spec_render_choice(c) },
            };
            let r = spec_parse_choice(l);
            r matches Ok(d) && d.comment == comment && choice_like(d.value, c)
        }),
{
    let l = CommentedV { comment, value: SpannedV { span: sp, content: spec_render_choice(c) } };
    lemma_rep_round_trip(c, sp);
    let rep_r = crate::parsing::spec_parse_rep(l.value);
    let line1 = rep_r->Ok_0.1;
    lemma_body_round_trip(c, line1);
}

/// Line texts as they may stand in a file: no line break inside, no
/// carriage return at the end.
pub open spec fn line_texts_wf(ls: Seq<Seq<char>>) -> bool {
    forall|i: int|
        0 <= i < ls.len() ==> !contains_char(#[trigger] ls[i], '\n') && (ls[i].len() > 0
            ==> ls[i].last() != '\r')
}

/// The texts written out with a line break after each.
pub open spec fn join_lines(ls: Seq<Seq<char>>) -> Seq<char>
    decreases ls.len(),
{
    if ls.len() == 0 {
        Seq::empty()
    } else {
        ls[0] + seq!['\n'] + join_lines(ls.skip(1))
    }
}

/// The splitter undoes line joining: line texts written back with a break
/// after each split into exactly those lines, numbered in order.
pub proof fn lemma_split_joined_lines(ls: Seq<Seq<char>>, file: Seq<char>, line: int)
    requires
        line_texts_wf(ls),
    ensures
        spec_raw_lines_from(file, line, join_lines(ls)) == Seq::new(
            ls.len(),
            |i: int| line_spanned(file, line + i, ls[i]),
        ),
    decreases ls.len(),
{
    let joined = join_lines(ls);
    if ls.len() == 0 {
        assert(spec_raw_lines_from(file, line, joined) =~= Seq::new(
            ls.len(),
            |i: int| line_spanned(file, line + i, ls[i]),
        ));
    } else {
        let head = ls[0];
        let rest = join_lines(ls.skip(1));
        assert(joined == head + seq!['\n'] + rest);
        assert(joined[head.len() as int] == '\n');
        assert(forall|j: int| 0 <= j < head.len() ==> joined[j] == head[j]);
        assert(forall|j: int| 0 <= j < head.len() ==> joined[j] != '\n') by {
            assert forall|j: int| 0 <= j < head.len() implies head[j] != '\n' by {
                if head[j] == '\n' {
                    assert(contains_char(head, '\n'));
                }
            }
        }
        lemma_first_ix_unique(joined, '\n', head.len() as int);
        assert(joined.take(head.len() as int) =~= head);
        assert(crate::text::strip_cr(head) == head);
        assert(joined.skip(head.len() as int + 1) =~= rest);
        assert(line_texts_wf(ls.skip(1))) by {
            assert(forall|i: int| 0 <= i < ls.len() - 1 ==> ls.skip(1)[i] == ls[i + 1]);
        }
        lemma_split_joined_lines(ls.skip(1), file, line + 1);
        assert(spec_raw_lines_from(file, line, joined) == seq![line_spanned(file, line, head)]
            + Seq::new(ls.skip(1).len(), |i: int| line_spanned(file, line + 1 + i, ls.skip(1)[i])));
        assert(spec_raw_lines_from(file, line, joined) =~= Seq::new(
            ls.len(),
            |i: int| line_spanned(file, line + i, ls[i]),
        ));
    }
}

/// Comment attachment: two consecutive comment lines attach to the content
/// line right after them as one comment block, their texts newline-joined.
pub proof fn lemma_two_comment_lines_attach(lines: Seq<SpannedV<Seq<char>>>, prefix: Seq<char>)
    requires
        lines.len() >= 3,
        spec_comment_of_line(lines[0], prefix) is Some,
        spec_comment_of_line(lines[1], prefix) is Some,
        spec_comment_of_line(lines[2], prefix) is None,
    ensures
        ({
            let c1 = spec_comment_of_line(lines[0], prefix)->Some_0;
            let c2 = spec_comment_of_line(lines[1], prefix)->Some_0;
            let merged = spec_comment_merge(Some(c1), c2);
            &&& merged.content == c1.content + seq!['\n'] + c2.content
            &&& spec_pair_lines(lines, None, prefix) == seq![
                CommentedV { comment: merged, value: lines[2] },
            ] + spec_pair_lines(lines.skip(3), None, prefix)
        }),
{
    let c1 = spec_comment_of_line(lines[0], prefix)->Some_0;
    let c2 = spec_comment_of_line(lines[1], prefix)->Some_0;
    let merged = spec_comment_merge(Some(c1), c2);
    assert(lines.skip(1)[0] == lines[1]);
    assert(lines.skip(1).skip(1) =~= lines.skip(2));
    assert(lines.skip(2)[0] == lines[2]);
    assert(lines.skip(2).skip(1) =~= lines.skip(3));
    assert(spec_pair_lines(lines, None, prefix) == spec_pair_lines(lines.skip(1), Some(c1), prefix));
    assert(spec_pair_lines(lines.skip(1), Some(c1), prefix) == spec_pair_lines(
        lines.skip(2),
        Some(merged),
        prefix,
    ));
    assert(spec_pending_or_empty(Some(merged)) == merged);
    assert(spec_pair_lines(lines.skip(2), Some(merged), prefix) == seq![
        CommentedV { comment: merged, value: lines[2] },
    ] + spec_pair_lines(lines.skip(3), None, prefix));
}

/// A trailing comment block with no content line after it is dropped: lines
/// that are all comments contribute no pair at all.
pub proof fn lemma_trailing_comments_dropped(
    lines: Seq<SpannedV<Seq<char>>>,
    pending: Option<SpannedV<Seq<char>>>,
    prefix: Seq<char>,
)
    requires
        forall|i: int| 0 <= i < lines.len() ==> spec_comment_of_line(#[trigger] lines[i], prefix)
            is Some,
    ensures
        spec_pair_lines(lines, pending, prefix) == Seq::<CommentedV<SpannedV<Seq<char>>>>::empty(),
    decreases lines.len(),
{
    if lines.len() > 0 {
        let c = spec_comment_of_line(lines[0], prefix)->Some_0;
        assert(forall|i: int| 0 <= i < lines.len() - 1 ==> lines.skip(1)[i] == lines[i + 1]);
        lemma_trailing_comments_dropped(lines.skip(1), Some(spec_comment_merge(pending, c)), prefix);
    }
}

/// Joining distributes over appending line lists.
proof fn lemma_join_lines_append(a: Seq<Seq<char>>, b: Seq<Seq<char>>)
    ensures
        join_lines(a + b) == join_lines(a) + join_lines(b),
    decreases a.len(),
{
    if a.len() == 0 {
        assert(a + b =~= b);
        assert(Seq::<char>::empty() + join_lines(b) =~= join_lines(b));
    } else {
        assert((a + b)[0] == a[0]);
        assert((a + b).skip(1) =~= a.skip(1) + b);
        lemma_join_lines_append(a.skip(1), b);
        assert(join_lines(a + b) == (a + b)[0] + seq!['\n'] + join_lines(a.skip(1) + b));
        assert(a[0] + seq!['\n'] + (join_lines(a.skip(1)) + join_lines(b)) =~= (a[0] + seq!['\n']
            + join_lines(a.skip(1))) + join_lines(b));
    }
}

/// Lines that are not comment lines each pair with the empty comment, in
/// order.
proof fn lemma_pair_plain_lines(lines: Seq<SpannedV<Seq<char>>>, prefix: Seq<char>)
    requires
        forall|i: int| 0 <= i < lines.len() ==> spec_comment_of_line(#[trigger] lines[i], prefix)
            is None,
    ensures
        spec_pair_lines(lines, None, prefix) == Seq::new(
            lines.len(),
            |i: int| CommentedV {
                comment: crate::comments::Comment::empty_spec(),
                value: lines[i],
            },
        ),
    decreases lines.len(),
{
    if lines.len() == 0 {
        assert(spec_pair_lines(lines, None, prefix) =~= Seq::new(
            lines.len(),
            |i: int| CommentedV {
                comment: crate::comments::Comment::empty_spec(),
                value: lines[i],
            },
        ));
    } else {
        assert(forall|i: int| 0 <= i < lines.len() - 1 ==> lines.skip(1)[i] == lines[i + 1]);
        lemma_pair_plain_lines(lines.skip(1), prefix);
        assert(spec_pair_lines(lines, None, prefix) =~= Seq::new(
            lines.len(),
            |i: int| CommentedV {
                comment: crate::comments::Comment::empty_spec(),
                value: lines[i],
            },
        ));
    }
}

/// Whether raw text would be taken for a comment line.
pub open spec fn is_comment_text(t: Seq<char>, prefix: Seq<char>) -> bool {
    prefix.len() <= crate::text::trim_start_spec(t).len() && crate::text::trim_start_spec(t).take(
        prefix.len() as int,
    ) == prefix
}

/// A choice whose rendered line reads back to it through every stage: the
/// grammar conditions, and a line that is neither a comment line nor a
/// header once written. Every choice the parser itself produces satisfies
/// this.
pub open spec fn choice_plain_wf(c: ChoiceV) -> bool {
    &&& message_wf(c.message.content)
    &&& (c.repetitions matches Some(r) ==> 1 <= r.content)
    &&& (c.action matches ActionV::Goto(t) ==> goto_target_wf(t.content))
    &&& (c.action matches ActionV::Goto(t) ==> (c.repetitions is None ==> (t.content.len() > 0
        ==> t.content[0] != '{')))
    &&& (c.action matches ActionV::Modify { operator, amount, what, room } ==> (
    operator.content == Operator::Add && command_room_wf(room.content) && command_item_wf(
        what.content,
    )))
    &&& !is_comment_text(spec_render_choice(c), seq!['/', '/'])
    &&& !(2 <= spec_render_choice(c).len() && spec_render_choice(c).take(2) == seq!['#', '#'])
}

/// A rendered choice line is never blank; that it is neither a comment line
/// nor a header is part of [`choice_plain_wf`] itself.
proof fn lemma_choice_line_shape(c: ChoiceV)
    requires
        choice_plain_wf(c),
    ensures
        spec_render_choice(c).len() > 0,
        !(2 <= spec_render_choice(c).len() && spec_render_choice(c).take(2) == seq!['#', '#']),
        !is_comment_text(spec_render_choice(c), seq!['/', '/']),
{
    let line = spec_render_choice(c);
    let body = spec_choice_body_text(c);
    lemma_choice_body_head(c);
    match c.repetitions {
        None => {
            assert(line =~= body);
        },
        Some(rep) => {
            assert(line == seq!['{'] + spec_digits(rep.content as int) + seq!['}'] + body);
        },
    }
}

/// A sequence with no leading white space is its own left trim.
proof fn lemma_trimmed_fixpoint_start(s: Seq<char>)
    requires
        s.len() > 0 ==> !is_space_char(s[0]),
    ensures
        crate::text::trim_start_spec(s) == s,
{
    lemma_first_not_unique(s, space_pred(), 0);
    assert(s.skip(0) =~= s);
}

/// A run of rendered choice lines, ended by a blank line or the end of
/// input, parses back to choices like the ones written, in order.
#[verifier::rlimit(100)]
proof fn lemma_parse_choices_plain(
    pairs: Seq<CommentedV<SpannedV<Seq<char>>>>,
    i: int,
    cs: Seq<CommentedV<ChoiceV>>,
    acc: Seq<CommentedV<ChoiceV>>,
)
    requires
        0 <= i,
        i + cs.len() <= pairs.len(),
        forall|k: int| 0 <= k < cs.len() ==> (#[trigger] pairs[i + k]).comment.content.len() == 0,
        forall|k: int| 0 <= k < cs.len() ==> (#[trigger] pairs[i + k]).value.content
            == spec_render_choice(cs[k].value),
        forall|k: int| 0 <= k < cs.len() ==> choice_plain_wf((#[trigger] cs[k]).value),
        i + cs.len() < pairs.len() ==> pairs[i + cs.len()].value.content.len() == 0,
    ensures
        ({
            let r = spec_parse_choices(pairs, i, acc);
            &&& r is Ok
            &&& r->Ok_0.1 == (if i + cs.len() < pairs.len() {
                i + cs.len() + 1
            } else {
                i + cs.len()
            })
            &&& r->Ok_0.0.len() == acc.len() + cs.len()
            &&& r->Ok_0.0.take(acc.len() as int) == acc
            &&& (forall|k: int| 0 <= k < cs.len() ==> (#[trigger] r->Ok_0.0[acc.len() + k]).comment.content.len()
                == 0)
            &&& (forall|k: int| 0 <= k < cs.len() ==> choice_like(
                (#[trigger] r->Ok_0.0[acc.len() + k]).value,
                cs[k].value,
            ))
        }),
    decreases cs.len(),
{
    if cs.len() == 0 {
        if i < pairs.len() {
            assert(pairs[i].value.content.len() == 0);
            assert(spec_parse_choices(pairs, i, acc) == Ok::<_, crate::errors::GrammarErrorV>(
                (acc, i + 1),
            ));
        }
        assert(acc.take(acc.len() as int) =~= acc);
    } else {
        let c = cs[0];
        let l = pairs[i];
        assert(pairs[i + 0] == l && cs[0].value == c.value);
        assert(l.value.content == spec_render_choice(c.value));
        assert(choice_plain_wf(c.value));
        assert(l.comment.content.len() == 0);
        lemma_choice_line_shape(c.value);
        assert(l.value.content.len() > 0);
        assert(!(2 <= l.value.content.len() && l.value.content.take(2) == seq!['#', '#']));
        lemma_choice_round_trip(c.value, l.comment, l.value.span);
        let d = crate::parsing::spec_parse_choice(l)->Ok_0;
        assert(spec_parse_choices(pairs, i, acc) == spec_parse_choices(pairs, i + 1, acc.push(d)));
        assert(forall|k: int| 0 <= k < cs.len() - 1 ==> cs.skip(1)[k] == cs[k + 1]);
        assert forall|k: int| 0 <= k < cs.skip(1).len() implies (#[trigger] pairs[i + 1
            + k]).comment.content.len() == 0 && pairs[i + 1 + k].value.content
            == spec_render_choice(cs.skip(1)[k].value) && choice_plain_wf(
            cs.skip(1)[k].value,
        ) by {
            assert(pairs[i + (k + 1)] == pairs[i + 1 + k]);
            assert(cs.skip(1)[k] == cs[k + 1]);
        }
        lemma_parse_choices_plain(pairs, i + 1, cs.skip(1), acc.push(d));
        let r = spec_parse_choices(pairs, i, acc);
        assert(r->Ok_0.0.take(acc.len() as int) =~= acc) by {
            assert(r->Ok_0.0.take(acc.len() as int + 1) == acc.push(d));
        }
        assert forall|k: int| 0 <= k < cs.len() implies choice_like(
            (#[trigger] r->Ok_0.0[acc.len() + k]).value,
            cs[k].value,
        ) && r->Ok_0.0[acc.len() + k].comment.content.len() == 0 by {
            if k == 0 {
                assert(r->Ok_0.0[acc.len() as int] == acc.push(d)[acc.len() as int]);
                assert(acc.push(d)[acc.len() as int] == d);
            } else {
                assert(r->Ok_0.0[acc.len() + 1 + (k - 1)].comment.content.len() == 0);
                assert(choice_like(r->Ok_0.0[acc.len() + 1 + (k - 1)].value, cs.skip(1)[k - 1].value));
            }
        }
    }
}

/// The same room, spans aside.
pub open spec fn room_like(a: CommentedV<RoomV>, b: CommentedV<RoomV>) -> bool {
    &&& a.comment.content == b.comment.content
    &&& a.value.id.content == b.value.id.content
    &&& a.value.message.comment.content == b.value.message.comment.content
    &&& a.value.message.value.content == b.value.message.value.content
    &&& a.value.choices.len() == b.value.choices.len()
    &&& (forall|i: int| 0 <= i < a.value.choices.len() ==> (
    #[trigger] a.value.choices[i]).comment.content == b.value.choices[i].comment.content)
    &&& (forall|i: int| 0 <= i < a.value.choices.len() ==> choice_like(
        (#[trigger] a.value.choices[i]).value,
        b.value.choices[i].value,
    ))
    &&& a.value.items == b.value.items
}

/// The same story, spans aside.
pub open spec fn story_like(a: StoryV, b: StoryV) -> bool {
    &&& a.main_comment.content == b.main_comment.content
    &&& a.room.content == b.room.content
    &&& a.choices == b.choices
    &&& a.rooms.len() == b.rooms.len()
    &&& (forall|k: int| 0 <= k < a.rooms.len() ==> (#[trigger] a.rooms[k]).0 == b.rooms[k].0)
    &&& (forall|k: int| 0 <= k < a.rooms.len() ==> room_like((#[trigger] a.rooms[k]).1, b.rooms[k].1))
}

/// A room block the serializer writes and the parser reads back: free of
/// comments and items, with well-formed lines throughout.
pub open spec fn plain_room_wf(r: CommentedV<RoomV>) -> bool {
    &&& r.comment.content.len() == 0
    &&& r.value.message.comment.content.len() == 0
    &&& r.value.items.len() == 0
    &&& (forall|i: int| 0 <= i < r.value.choices.len() ==> (
    #[trigger] r.value.choices[i]).comment.content.len() == 0)
    &&& (forall|i: int| 0 <= i < r.value.choices.len() ==> choice_plain_wf(
        (#[trigger] r.value.choices[i]).value,
    ))
    &&& (r.value.id.content.len() > 0 ==> !is_space_char(r.value.id.content[0]))
    &&& !is_comment_text(r.value.message.value.content, seq!['/', '/'])
}

/// One room block of the layout reads back to a room like the one written.
#[verifier::rlimit(100)]
proof fn lemma_parse_room_plain(
    pairs: Seq<CommentedV<SpannedV<Seq<char>>>>,
    i: int,
    entry: (Seq<char>, CommentedV<RoomV>),
)
    requires
        plain_room_wf(entry.1),
        0 <= i,
        i + 2 + entry.1.value.choices.len() <= pairs.len(),
        pairs[i].comment.content.len() == 0,
        pairs[i].value.content == seq!['#', '#', ' '] + entry.1.value.id.content,
        pairs[i + 1].comment.content.len() == 0,
        pairs[i + 1].value.content == entry.1.value.message.value.content,
        forall|k: int| 0 <= k < entry.1.value.choices.len() ==> (
        #[trigger] pairs[i + 2 + k]).comment.content.len() == 0,
        forall|k: int| 0 <= k < entry.1.value.choices.len() ==> (
        #[trigger] pairs[i + 2 + k]).value.content == spec_render_choice(
            entry.1.value.choices[k].value,
        ),
        i + 2 + entry.1.value.choices.len() < pairs.len() ==> pairs[i + 2
            + entry.1.value.choices.len()].value.content.len() == 0,
    ensures
        ({
            let r = crate::parsing::spec_parse_room(pairs, i);
            let nc = entry.1.value.choices.len() as int;
            &&& r is Ok
            &&& room_like(r->Ok_0.0, entry.1)
            &&& r->Ok_0.1 == (if i + 2 + nc < pairs.len() {
                i + 2 + nc + 1
            } else {
                i + 2 + nc
            })
        }),
{
    let id = entry.1.value.id.content;
    let header = pairs[i];
    let hdr = header.value.content;
    assert(hdr.take(2) =~= seq!['#', '#']);
    assert(hdr.skip(2) =~= seq![' '] + id);
    let stripped = crate::span::sv_strip_prefix(header.value, seq!['#', '#']);
    assert(stripped is Some);
    let idpart = stripped->Some_0;
    assert(idpart.content == seq![' '] + id);
    assert(idpart.content[0] == ' ');
    if id.len() > 0 {
        assert(idpart.content[1] == id[0]);
    }
    lemma_first_not_unique(idpart.content, space_pred(), 1);
    assert(idpart.content.skip(1) =~= id);
    assert(crate::span::sv_trim_start(idpart).content == id);
    assert(i + 1 < pairs.len());
    let cs = entry.1.value.choices;
    assert forall|k: int| 0 <= k < cs.len() implies choice_plain_wf((#[trigger] cs[k]).value) by {
        assert(choice_plain_wf(entry.1.value.choices[k].value));
    }
    lemma_parse_choices_plain(pairs, i + 2, cs, Seq::empty());
    let cr = spec_parse_choices(pairs, i + 2, Seq::empty());
    assert(cr->Ok_0.0.len() == cs.len());
    assert forall|k: int| 0 <= k < cs.len() implies choice_like(
        (#[trigger] cr->Ok_0.0[k]).value,
        cs[k].value,
    ) && cr->Ok_0.0[k].comment.content.len() == 0 by {
        assert(cr->Ok_0.0[0 + k] == cr->Ok_0.0[k]);
        assert(choice_like(cr->Ok_0.0[Seq::<CommentedV<ChoiceV>>::empty().len() + k].value, cs[k].value));
        assert(cr->Ok_0.0[Seq::<CommentedV<ChoiceV>>::empty().len() + k].comment.content.len() == 0);
    }
    assert(crate::parsing::spec_parse_room(pairs, i) is Ok);
    let room = crate::parsing::spec_parse_room(pairs, i)->Ok_0.0;
    assert(room.comment.content =~= entry.1.comment.content);
    assert(room.value.message.comment.content =~= entry.1.value.message.comment.content);
    assert(room.value.items =~= entry.1.value.items);
    assert forall|k: int| 0 <= k < room.value.choices.len() implies (
    #[trigger] room.value.choices[k]).comment.content == entry.1.value.choices[k].comment.content by {
        assert(room.value.choices[k].comment.content =~= entry.1.value.choices[k].comment.content);
    }
}

/// How the room blocks of a comment-free story stand in the line pairs from
/// position `i` on: header, message and choice lines for each room, a blank
/// line between rooms, nothing after the last.
pub open spec fn blocks_laid_out(
    pairs: Seq<CommentedV<SpannedV<Seq<char>>>>,
    i: int,
    rs: Seq<(Seq<char>, CommentedV<RoomV>)>,
) -> bool
    decreases rs.len(),
{
    if rs.len() == 0 {
        i == pairs.len()
    } else {
        let r = rs[0].1.value;
        let nc = r.choices.len() as int;
        &&& 0 <= i
        &&& i + 2 + nc <= pairs.len()
        &&& pairs[i].comment.content.len() == 0
        &&& pairs[i].value.content == seq!['#', '#', ' '] + r.id.content
        &&& pairs[i + 1].comment.content.len() == 0
        &&& pairs[i + 1].value.content == r.message.value.content
        &&& (forall|k: int| 0 <= k < nc ==> (#[trigger] pairs[i + 2 + k]).comment.content.len()
            == 0)
        &&& (forall|k: int| 0 <= k < nc ==> (#[trigger] pairs[i + 2 + k]).value.content
            == spec_render_choice(r.choices[k].value))
        &&& if rs.len() == 1 {
            i + 2 + nc == pairs.len()
        } else {
            &&& i + 2 + nc < pairs.len()
            &&& pairs[i + 2 + nc].comment.content.len() == 0
            &&& pairs[i + 2 + nc].value.content.len() == 0
            &&& blocks_laid_out(pairs, i + 3 + nc, rs.skip(1))
        }
    }
}

/// Room blocks laid out in the line pairs read back, in order, to rooms
/// like the ones written; fresh ids never collide.
#[verifier::rlimit(100)]
proof fn lemma_parse_rooms_plain(
    pairs: Seq<CommentedV<SpannedV<Seq<char>>>>,
    i: int,
    rs: Seq<(Seq<char>, CommentedV<RoomV>)>,
    acc: StoryV,
)
    requires
        blocks_laid_out(pairs, i, rs),
        forall|k: int| 0 <= k < rs.len() ==> plain_room_wf((#[trigger] rs[k]).1),
        forall|k: int| 0 <= k < rs.len() ==> (#[trigger] rs[k]).0 == rs[k].1.value.id.content,
        crate::map::keys_distinct(acc.rooms + rs),
        0 <= i,
    ensures
        ({
            let r = spec_parse_rooms(pairs, i, acc);
            &&& r is Ok
            &&& r->Ok_0.main_comment == acc.main_comment
            &&& r->Ok_0.default_room == acc.default_room
            &&& r->Ok_0.room == acc.room
            &&& r->Ok_0.choices == acc.choices
            &&& r->Ok_0.rooms.len() == acc.rooms.len() + rs.len()
            &&& r->Ok_0.rooms.take(acc.rooms.len() as int) == acc.rooms
            &&& (forall|k: int| 0 <= k < rs.len() ==> (
            #[trigger] r->Ok_0.rooms[acc.rooms.len() + k]).0 == rs[k].0)
            &&& (forall|k: int| 0 <= k < rs.len() ==> room_like(
                (#[trigger] r->Ok_0.rooms[acc.rooms.len() + k]).1,
                rs[k].1,
            ))
        }),
    decreases rs.len(),
{
    if rs.len() == 0 {
        assert(acc.rooms.take(acc.rooms.len() as int) =~= acc.rooms);
    } else {
        let entry = rs[0];
        assert(rs[0].0 == rs[0].1.value.id.content);
        assert(plain_room_wf(rs[0].1));
        let nc = entry.1.value.choices.len() as int;
        lemma_parse_room_plain(pairs, i, entry);
        let pr = crate::parsing::spec_parse_room(pairs, i)->Ok_0;
        let room = pr.0;
        let j = pr.1;
        assert(room.value.id.content == entry.0);
        // a fresh id: nothing already stored carries it
        assert(!crate::map::contains_key(acc.rooms, room.value.id.content)) by {
            if crate::map::contains_key(acc.rooms, room.value.id.content) {
                let m = choose|m: int|
                    0 <= m < acc.rooms.len() && acc.rooms[m].0 == room.value.id.content;
                let combined = acc.rooms + rs;
                assert(combined[m].0 == acc.rooms[m].0);
                assert(combined[acc.rooms.len() as int].0 == rs[0].0);
            }
        }
        let acc2 = StoryV { rooms: acc.rooms.push((room.value.id.content, room)), ..acc };
        assert(spec_parse_rooms(pairs, i, acc) == spec_parse_rooms(pairs, j, acc2));
        assert(forall|k: int| 0 <= k < rs.len() - 1 ==> (#[trigger] rs.skip(1)[k]) == rs[k + 1]);
        assert(crate::map::keys_distinct(acc2.rooms + rs.skip(1))) by {
            let before = acc.rooms + rs;
            let after = acc2.rooms + rs.skip(1);
            assert(after.len() == before.len());
            assert(forall|m: int| 0 <= m < after.len() ==> (#[trigger] after[m]).0 == before[m].0);
        }
        if rs.len() == 1 {
            assert(blocks_laid_out(pairs, j, rs.skip(1))) by {
                assert(rs.skip(1).len() == 0);
                assert(j == pairs.len());
            }
        } else {
            assert(j == i + 3 + nc);
            assert(blocks_laid_out(pairs, j, rs.skip(1)));
        }
        lemma_parse_rooms_plain(pairs, j, rs.skip(1), acc2);
        let r = spec_parse_rooms(pairs, i, acc);
        assert(r->Ok_0.rooms.take(acc.rooms.len() as int) =~= acc.rooms) by {
            assert(r->Ok_0.rooms.take(acc2.rooms.len() as int) == acc2.rooms);
            assert(forall|m: int| 0 <= m < acc.rooms.len() ==> (
            #[trigger] r->Ok_0.rooms[m]) == acc2.rooms[m]);
            assert(forall|m: int| 0 <= m < acc.rooms.len() ==> acc2.rooms[m] == acc.rooms[m]);
        }
        assert forall|k: int| 0 <= k < rs.len() implies (
        #[trigger] r->Ok_0.rooms[acc.rooms.len() + k]).0 == rs[k].0 && room_like(
            r->Ok_0.rooms[acc.rooms.len() + k].1,
            rs[k].1,
        ) by {
            if k == 0 {
                assert(r->Ok_0.rooms[acc2.rooms.len() - 1] == acc2.rooms[acc2.rooms.len() - 1])
                    by {
                    assert(r->Ok_0.rooms.take(acc2.rooms.len() as int)[acc2.rooms.len() - 1]
                        == acc2.rooms[acc2.rooms.len() - 1]);
                }
            } else {
                assert(r->Ok_0.rooms[acc2.rooms.len() + (k - 1)].0 == rs.skip(1)[k - 1].0);
                assert(room_like(r->Ok_0.rooms[acc2.rooms.len() + (k - 1)].1, rs.skip(1)[k - 1].1));
            }
        }
    }
}

/// The rendered choice lines of a room, in order.
pub open spec fn plain_choice_lines(cs: Seq<CommentedV<ChoiceV>>) -> Seq<Seq<char>> {
    Seq::new(cs.len(), |i: int| spec_render_choice(cs[i].value))
}

/// The lines of one room block: the blank line before it, the header, the
/// message, the choices.
pub open spec fn plain_block_lines(r: RoomV) -> Seq<Seq<char>> {
    seq![Seq::<char>::empty(), seq!['#', '#', ' '] + r.id.content, r.message.value.content]
        + plain_choice_lines(r.choices)
}

pub open spec fn plain_rooms_lines(rs: Seq<(Seq<char>, CommentedV<RoomV>)>) -> Seq<Seq<char>>
    decreases rs.len(),
{
    if rs.len() == 0 {
        Seq::empty()
    } else {
        plain_block_lines(rs[0].1.value) + plain_rooms_lines(rs.skip(1))
    }
}

/// Every line of a comment-free story, in file order.
pub open spec fn plain_story_lines(s: StoryV) -> Seq<Seq<char>> {
    seq![s.room.content] + plain_rooms_lines(s.rooms)
}

/// Comment-free choices render line by line.
proof fn lemma_render_choice_list_plain(cs: Seq<CommentedV<ChoiceV>>)
    requires
        forall|i: int| 0 <= i < cs.len() ==> (#[trigger] cs[i]).comment.content.len() == 0,
    ensures
        spec_render_choice_list(cs) == join_lines(plain_choice_lines(cs)),
    decreases cs.len(),
{
    if cs.len() == 0 {
        assert(spec_render_choice_list(cs) =~= join_lines(plain_choice_lines(cs)));
    } else {
        assert(forall|i: int| 0 <= i < cs.len() - 1 ==> (#[trigger] cs.skip(1)[i]) == cs[i + 1]);
        lemma_render_choice_list_plain(cs.skip(1));
        assert(cs[0].comment.content.len() == 0);
        assert(spec_render_comment(cs[0].comment.content) == Seq::<char>::empty());
        let pcl = plain_choice_lines(cs);
        assert(pcl[0] == spec_render_choice(cs[0].value));
        assert(pcl.skip(1) =~= plain_choice_lines(cs.skip(1)));
        assert(join_lines(pcl) == pcl[0] + seq!['\n'] + join_lines(pcl.skip(1)));
        assert(spec_render_choice_list(cs) =~= join_lines(pcl));
    }
}

/// A comment-free, item-free room block renders as its lines joined.
proof fn lemma_render_room_plain(r: CommentedV<RoomV>)
    requires
        plain_room_wf(r),
    ensures
        seq!['\n'] + spec_render_comment(r.comment.content) + spec_render_room(r.value)
            == join_lines(plain_block_lines(r.value)),
{
    lemma_render_choice_list_plain(r.value.choices);
    assert(spec_render_comment(r.comment.content) == Seq::<char>::empty());
    assert(spec_render_comment(r.value.message.comment.content) == Seq::<char>::empty());
    assert(r.value.items =~= Seq::<(Seq<char>, usize)>::empty());
    assert(spec_render_items(r.value.items) == Seq::<char>::empty());
    let hdr = seq!['#', '#', ' '] + r.value.id.content;
    let msg = r.value.message.value.content;
    let pcl = plain_choice_lines(r.value.choices);
    let block = plain_block_lines(r.value);
    assert(block[0] == Seq::<char>::empty());
    assert(block.skip(1)[0] == hdr);
    assert(block.skip(1).skip(1)[0] == msg);
    assert(block.skip(1).skip(1).skip(1) =~= pcl);
    assert(block.skip(1).skip(1) =~= seq![msg] + pcl);
    assert(block.skip(1) =~= seq![hdr] + (seq![msg] + pcl));
    assert(join_lines(block) == Seq::<char>::empty() + seq!['\n'] + join_lines(block.skip(1)));
    assert(join_lines(block.skip(1)) == hdr + seq!['\n'] + join_lines(block.skip(1).skip(1)));
    assert(join_lines(block.skip(1).skip(1)) == msg + seq!['\n'] + join_lines(pcl));
    assert(seq!['\n'] + spec_render_comment(r.comment.content) + spec_render_room(r.value)
        =~= join_lines(block));
}

/// A comment-free room list renders as its lines joined.
proof fn lemma_render_room_list_plain(rs: Seq<(Seq<char>, CommentedV<RoomV>)>)
    requires
        forall|k: int| 0 <= k < rs.len() ==> plain_room_wf((#[trigger] rs[k]).1),
    ensures
        spec_render_room_list(rs) == join_lines(plain_rooms_lines(rs)),
    decreases rs.len(),
{
    if rs.len() == 0 {
        assert(spec_render_room_list(rs) =~= join_lines(plain_rooms_lines(rs)));
    } else {
        assert(forall|k: int| 0 <= k < rs.len() - 1 ==> (#[trigger] rs.skip(1)[k]) == rs[k + 1]);
        lemma_render_room_list_plain(rs.skip(1));
        assert(plain_room_wf(rs[0].1));
        lemma_render_room_plain(rs[0].1);
        lemma_join_lines_append(plain_block_lines(rs[0].1.value), plain_rooms_lines(rs.skip(1)));
        assert(spec_render_room_list(rs) =~= join_lines(plain_rooms_lines(rs)));
    }
}

/// Choice text that survives line splitting: no line break anywhere, no
/// carriage return at the end of the message.
pub open spec fn choice_text_wf(c: ChoiceV) -> bool {
    &&& !contains_char(c.message.content, '\n')
    &&& (c.message.content.len() > 0 ==> c.message.content.last() != '\r')
    &&& (c.action matches ActionV::Goto(t) ==> !contains_char(t.content, '\n'))
    &&& (c.action matches ActionV::Modify { room, .. } ==> !contains_char(room.content, '\n'))
}

/// A well-formed rendered choice line holds no line break and does not end
/// in a carriage return.
#[verifier::rlimit(100)]
proof fn lemma_choice_line_clean(c: ChoiceV)
    requires
        choice_plain_wf(c),
        choice_text_wf(c),
    ensures
        !contains_char(spec_render_choice(c), '\n'),
        spec_render_choice(c).len() > 0,
        spec_render_choice(c).last() != '\r',
{
    let line = spec_render_choice(c);
    let body = spec_choice_body_text(c);
    let msg = c.message.content;
    lemma_choice_body_head(c);
    assert(!contains_char(body, '\n') && body.last() != '\r') by {
        match c.action {
            ActionV::Goto(t) => {
                let target = t.content;
                assert(body == target + seq![':', ' '] + msg);
                assert forall|j: int| 0 <= j < body.len() implies body[j] != '\n' by {
                    if j < target.len() {
                        assert(body[j] == target[j]);
                        if target[j] == '\n' {
                            assert(contains_char(target, '\n'));
                        }
                    } else if j < target.len() + 2 {
                        assert(body[j] == ':' || body[j] == ' ');
                    } else {
                        assert(body[j] == msg[j - target.len() - 2]);
                        if msg[j - target.len() - 2] == '\n' {
                            assert(contains_char(msg, '\n'));
                        }
                    }
                }
                if contains_char(body, '\n') {
                    let w = choose|i: int| 0 <= i < body.len() && body[i] == '\n';
                    assert(body[w] != '\n');
                }
                if msg.len() > 0 {
                    assert(body.last() == msg.last());
                } else {
                    assert(body.last() == ' ');
                }
            },
            ActionV::Modify { .. } => {
                let act = spec_render_action(c.action);
                let room = crate::choice::spec_action_room(c.action);
                let what = crate::choice::spec_action_what(c.action);
                let amount = crate::choice::spec_action_amount(c.action);
                let digits = spec_digits(amount.content as int);
                lemma_decimal_round_trip(amount.content as int);
                assert(act == room.content + seq!['.'] + what.content + seq![' ']
                    + Operator::render_spec(crate::choice::spec_action_operator(c.action).content)
                    + seq![' '] + digits);
                assert forall|j: int| 0 <= j < act.len() implies act[j] != '\n' by {
                    let rk = room.content;
                    let w = what.content;
                    if j < rk.len() {
                        assert(act[j] == rk[j]);
                        if rk[j] == '\n' {
                            assert(contains_char(rk, '\n'));
                        }
                    } else if j < rk.len() + 1 {
                        assert(act[j] == '.');
                    } else if j < rk.len() + 1 + w.len() {
                        assert(act[j] == w[j - rk.len() - 1]);
                        assert(is_alnum_char(w[j - rk.len() - 1]));
                        assert(!is_alnum_char('\n'));
                    } else if j < rk.len() + 1 + w.len() + 1 {
                        assert(act[j] == ' ');
                    } else if j < rk.len() + 1 + w.len() + 2 {
                        assert(act[j] == '+');
                    } else if j < rk.len() + 1 + w.len() + 3 {
                        assert(act[j] == '=');
                    } else if j < rk.len() + 1 + w.len() + 4 {
                        assert(act[j] == ' ');
                    } else {
                        assert(act[j] == digits[j - (rk.len() + 1 + w.len() + 4)]);
                        assert(is_digit_char(digits[j - (rk.len() + 1 + w.len() + 4)]));
                    }
                }
                assert(body == seq!['['] + act + seq![']', ' '] + msg);
                assert forall|j: int| 0 <= j < body.len() implies body[j] != '\n' by {
                    if j < 1 {
                        assert(body[j] == '[');
                    } else if j < 1 + act.len() {
                        assert(body[j] == act[j - 1]);
                    } else if j < 1 + act.len() + 2 {
                        assert(body[j] == ']' || body[j] == ' ');
                    } else {
                        assert(body[j] == msg[j - act.len() - 3]);
                        if msg[j - act.len() - 3] == '\n' {
                            assert(contains_char(msg, '\n'));
                        }
                    }
                }
                if contains_char(body, '\n') {
                    let w2 = choose|i: int| 0 <= i < body.len() && body[i] == '\n';
                    assert(body[w2] != '\n');
                }
                if msg.len() > 0 {
                    assert(body.last() == msg.last());
                } else {
                    assert(body.last() == ' ');
                }
            },
        }
    }
    match c.repetitions {
        None => {
            assert(line =~= body);
        },
        Some(rep) => {
            let digits = spec_digits(rep.content as int);
            lemma_decimal_round_trip(rep.content as int);
            assert(line == seq!['{'] + digits + seq!['}'] + body);
            assert forall|j: int| 0 <= j < line.len() implies line[j] != '\n' by {
                if j < 1 {
                    assert(line[j] == '{');
                } else if j < 1 + digits.len() {
                    assert(line[j] == digits[j - 1]);
                    assert(is_digit_char(digits[j - 1]));
                } else if j < 2 + digits.len() {
                    assert(line[j] == '}');
                } else {
                    assert(line[j] == body[j - digits.len() - 2]);
                    if body[j - digits.len() - 2] == '\n' {
                        assert(contains_char(body, '\n'));
                    }
                }
            }
            if contains_char(line, '\n') {
                let w3 = choose|i: int| 0 <= i < line.len() && line[i] == '\n';
                assert(line[w3] != '\n');
            }
            assert(line.last() == body.last());
        },
    }
}

/// Line text that survives splitting and pairing: no line break, no
/// carriage return at the end, and not a comment line.
pub open spec fn text_ok(t: Seq<char>) -> bool {
    &&& !contains_char(t, '\n')
    &&& (t.len() > 0 ==> t.last() != '\r')
    &&& !is_comment_text(t, seq!['/', '/'])
}

/// Room text that survives line splitting.
pub open spec fn room_text_wf(r: RoomV) -> bool {
    &&& !contains_char(r.id.content, '\n')
    &&& (r.id.content.len() > 0 ==> r.id.content.last() != '\r')
    &&& !contains_char(r.message.value.content, '\n')
    &&& (r.message.value.content.len() > 0 ==> r.message.value.content.last() != '\r')
    &&& (forall|i: int| 0 <= i < r.choices.len() ==> choice_text_wf((#[trigger] r.choices[i]).value))
}

/// Every line a comment-free room list renders to is clean.
proof fn lemma_rooms_lines_clean(rs: Seq<(Seq<char>, CommentedV<RoomV>)>)
    requires
        forall|k: int| 0 <= k < rs.len() ==> plain_room_wf((#[trigger] rs[k]).1),
        forall|k: int| 0 <= k < rs.len() ==> room_text_wf((#[trigger] rs[k]).1.value),
    ensures
        forall|j: int| 0 <= j < plain_rooms_lines(rs).len() ==> text_ok(
            #[trigger] plain_rooms_lines(rs)[j],
        ),
    decreases rs.len(),
{
    if rs.len() > 0 {
        assert(forall|k: int| 0 <= k < rs.len() - 1 ==> (#[trigger] rs.skip(1)[k]) == rs[k + 1]);
        lemma_rooms_lines_clean(rs.skip(1));
        assert(plain_room_wf(rs[0].1) && room_text_wf(rs[0].1.value));
        let r = rs[0].1.value;
        let block = plain_block_lines(r);
        let hdr = seq!['#', '#', ' '] + r.id.content;
        let msg = r.message.value.content;
        assert forall|j: int| 0 <= j < block.len() implies text_ok(#[trigger] block[j]) by {
            if j == 0 {
                assert(block[j] == Seq::<char>::empty());
                assert(crate::text::trim_start_spec(Seq::<char>::empty()).len() == 0);
            } else if j == 1 {
                assert(block[j] == hdr);
                assert forall|m: int| 0 <= m < hdr.len() implies hdr[m] != '\n' by {
                    if m >= 3 {
                        assert(hdr[m] == r.id.content[m - 3]);
                        if r.id.content[m - 3] == '\n' {
                            assert(contains_char(r.id.content, '\n'));
                        }
                    }
                }
                if contains_char(hdr, '\n') {
                    let w = choose|m: int| 0 <= m < hdr.len() && hdr[m] == '\n';
                    assert(hdr[w] != '\n');
                }
                if r.id.content.len() > 0 {
                    assert(hdr.last() == r.id.content.last());
                } else {
                    assert(hdr.last() == ' ');
                }
                assert(!is_space_char(hdr[0]));
                lemma_trimmed_fixpoint_start(hdr);
                assert(!is_comment_text(hdr, seq!['/', '/'])) by {
                    if is_comment_text(hdr, seq!['/', '/']) {
                        assert(hdr.take(2)[0] == '/');
                    }
                }
            } else if j == 2 {
                assert(block[j] == msg);
            } else {
                assert(block[j] == plain_choice_lines(r.choices)[j - 3]);
                assert(block[j] == spec_render_choice(r.choices[j - 3].value));
                assert(choice_plain_wf(r.choices[j - 3].value));
                assert(choice_text_wf(r.choices[j - 3].value));
                lemma_choice_line_clean(r.choices[j - 3].value);
                lemma_choice_line_shape(r.choices[j - 3].value);
            }
        }
        assert forall|j: int| 0 <= j < plain_rooms_lines(rs).len() implies text_ok(
            #[trigger] plain_rooms_lines(rs)[j],
        ) by {
            if j < block.len() {
                assert(plain_rooms_lines(rs)[j] == block[j]);
            } else {
                assert(plain_rooms_lines(rs)[j] == plain_rooms_lines(rs.skip(1))[j - block.len()]);
            }
        }
    }
}

/// Lines holding the rendered blocks stand laid out as the parser walks
/// them.
proof fn lemma_blocks_from_pairs(
    pairs: Seq<CommentedV<SpannedV<Seq<char>>>>,
    base: int,
    rs: Seq<(Seq<char>, CommentedV<RoomV>)>,
)
    requires
        rs.len() > 0,
        1 <= base,
        base - 1 + plain_rooms_lines(rs).len() == pairs.len(),
        forall|j: int| 0 <= j < plain_rooms_lines(rs).len() ==> (#[trigger] pairs[base - 1
            + j]).value.content == plain_rooms_lines(rs)[j],
        forall|j: int| 0 <= j < plain_rooms_lines(rs).len() ==> (#[trigger] pairs[base - 1
            + j]).comment.content.len() == 0,
    ensures
        blocks_laid_out(pairs, base, rs),
    decreases rs.len(),
{
    let r = rs[0].1.value;
    let block = plain_block_lines(r);
    let nc = r.choices.len() as int;
    let all = plain_rooms_lines(rs);
    assert(block.len() == 3 + nc);
    assert(all.len() == block.len() + plain_rooms_lines(rs.skip(1)).len());
    assert forall|j: int| 0 <= j < block.len() implies all[j] == block[j] by {}
    assert(pairs[base - 1 + 1] == pairs[base]);
    assert(pairs[base].value.content == block[1]);
    assert(block[1] == seq!['#', '#', ' '] + r.id.content);
    assert(pairs[base - 1 + 2] == pairs[base + 1]);
    assert(pairs[base + 1].value.content == block[2]);
    assert forall|k: int| 0 <= k < nc implies (#[trigger] pairs[base + 2 + k]).value.content
        == spec_render_choice(r.choices[k].value) && pairs[base + 2 + k].comment.content.len()
        == 0 by {
        assert(pairs[base - 1 + (3 + k)] == pairs[base + 2 + k]);
        assert(all[3 + k] == block[3 + k]);
        assert(block[3 + k] == plain_choice_lines(r.choices)[k]);
    }
    if rs.len() == 1 {
        assert(plain_rooms_lines(rs.skip(1)).len() == 0);
        assert(base + 2 + nc == pairs.len());
    } else {
        let rest = plain_rooms_lines(rs.skip(1));
        assert(rest.len() > 0);
        assert(rest[0] == plain_block_lines(rs.skip(1)[0].1.value)[0]);
        assert(rest[0] == Seq::<char>::empty());
        assert(pairs[base - 1 + (3 + nc)] == pairs[base + 2 + nc]);
        assert(all[3 + nc] == rest[0]);
        assert(pairs[base + 2 + nc].value.content.len() == 0);
        let base2 = base + 3 + nc;
        assert forall|j: int| 0 <= j < rest.len() implies (#[trigger] pairs[base2 - 1 + j]).value.content
            == rest[j] && pairs[base2 - 1 + j].comment.content.len() == 0 by {
            assert(pairs[base - 1 + (3 + nc + j)] == pairs[base2 - 1 + j]);
            assert(all[3 + nc + j] == rest[j]);
        }
        lemma_blocks_from_pairs(pairs, base2, rs.skip(1));
    }
}

/// A story the serializer can write and the parser read back: produced by a
/// parse (so comment-free in this fragment, with no item state and no
/// history), at least one room, ids and texts that survive the trip.
pub open spec fn plain_story_wf(s: StoryV) -> bool {
    &&& s.main_comment.content.len() == 0
    &&& s.choices.len() == 0
    &&& s.rooms.len() > 0
    &&& crate::map::keys_distinct(s.rooms)
    &&& (forall|k: int| 0 <= k < s.rooms.len() ==> plain_room_wf((#[trigger] s.rooms[k]).1))
    &&& (forall|k: int| 0 <= k < s.rooms.len() ==> room_text_wf((#[trigger] s.rooms[k]).1.value))
    &&& (forall|k: int| 0 <= k < s.rooms.len() ==> (#[trigger] s.rooms[k]).0
        == s.rooms[k].1.value.id.content)
    &&& s.room.content.len() > 0
    &&& !is_space_char(s.room.content[0])
    &&& !is_space_char(s.room.content.last())
    &&& !contains_char(s.room.content, '\n')
    &&& !is_comment_text(s.room.content, seq!['/', '/'])
}

/// Round trip at the story level: a comment-free story written back to text
/// parses to a story with the same starting room, the same rooms in the
/// same order, and the same messages, choices and actions.
#[verifier::rlimit(100)]
pub proof fn lemma_story_round_trip(s: StoryV, sp: SpanV)
    requires
        plain_story_wf(s),
    ensures
        ({
            let r = crate::parsing::spec_parse(
                SpannedV { span: sp, content: spec_render_story(s) },
            );
            r matches Ok(t) && story_like(t, s)
        }),
{
    let file = SpannedV { span: sp, content: spec_render_story(s) };
    let texts = plain_story_lines(s);
    // the rendered text is the line list joined
    lemma_render_room_list_plain(s.rooms);
    assert(spec_render_comment(s.main_comment.content) == Seq::<char>::empty());
    assert(texts[0] == s.room.content);
    assert(texts.skip(1) =~= plain_rooms_lines(s.rooms));
    assert(join_lines(texts) == texts[0] + seq!['\n'] + join_lines(texts.skip(1)));
    assert(file.content =~= join_lines(texts));
    // every line is clean
    lemma_rooms_lines_clean(s.rooms);
    assert forall|j: int| 0 <= j < texts.len() implies text_ok(#[trigger] texts[j]) by {
        if j == 0 {
            assert(texts[j] == s.room.content);
            assert(s.room.content.last() != '\r');
        } else {
            assert(texts[j] == plain_rooms_lines(s.rooms)[j - 1]);
        }
    }
    assert(line_texts_wf(texts));
    // the splitter recovers the lines
    lemma_split_joined_lines(texts, sp.file, sp.line_start);
    let raw = Seq::new(texts.len(), |i: int| line_spanned(sp.file, sp.line_start + i, texts[i]));
    assert(spec_raw_lines_from(file.span.file, file.span.line_start, file.content) == raw);
    // no line is a comment line, so pairing is one to one
    assert forall|j: int| 0 <= j < raw.len() implies spec_comment_of_line(
        #[trigger] raw[j],
        seq!['/', '/'],
    ) is None by {
        assert(raw[j].content == texts[j]);
        assert(!is_comment_text(texts[j], seq!['/', '/']));
    }
    lemma_pair_plain_lines(raw, seq!['/', '/']);
    let pairs = crate::span::spec_lines(file, seq!['/', '/']);
    assert(pairs == Seq::new(
        raw.len(),
        |i: int| CommentedV { comment: crate::comments::Comment::empty_spec(), value: raw[i] },
    ));
    assert(pairs.len() == texts.len());
    // the starting line and the blank separator
    assert(plain_rooms_lines(s.rooms).len() >= 3) by {
        let block = plain_block_lines(s.rooms[0].1.value);
        assert(plain_rooms_lines(s.rooms).len() == block.len() + plain_rooms_lines(
            s.rooms.skip(1),
        ).len());
    }
    assert(pairs.len() >= 4);
    assert(pairs[0].value.content == s.room.content);
    lemma_trimmed_fixpoint(s.room.content);
    let start = crate::span::sv_trim(pairs[0].value);
    assert(start.content == s.room.content);
    assert(start.content.len() > 0);
    assert(pairs[1].value.content == texts[1]);
    assert(texts[1] == plain_rooms_lines(s.rooms)[0]);
    assert(plain_rooms_lines(s.rooms)[0] == plain_block_lines(s.rooms[0].1.value)[0]);
    assert(pairs[1].value.content.len() == 0);
    assert(crate::span::sv_trim(pairs[1].value).content.len() == 0) by {
        assert(crate::text::trim_start_spec(pairs[1].value.content).len() == 0);
    }
    assert(pairs[1].comment.content.len() == 0);
    // the room blocks
    assert forall|j: int| 0 <= j < plain_rooms_lines(s.rooms).len() implies (#[trigger] pairs[2 - 1
        + j]).value.content == plain_rooms_lines(s.rooms)[j] && pairs[2 - 1
        + j].comment.content.len() == 0 by {
        assert(pairs[1 + j].value.content == texts[1 + j]);
        assert(texts[1 + j] == plain_rooms_lines(s.rooms)[j]);
    }
    lemma_blocks_from_pairs(pairs, 2, s.rooms);
    let story0 = StoryV {
        main_comment: pairs[0].comment,
        rooms: Seq::empty(),
        default_room: crate::room::Room::abyss_spec(),
        room: SpannedV { span: start.span, content: start.content },
        choices: Seq::empty(),
    };
    assert(crate::map::keys_distinct(story0.rooms + s.rooms)) by {
        assert(story0.rooms + s.rooms =~= s.rooms);
    }
    lemma_parse_rooms_plain(pairs, 2, s.rooms, story0);
    let r = spec_parse_rooms(pairs, 2, story0);
    assert(crate::parsing::spec_parse(file) == r);
    let t = r->Ok_0;
    assert(t.main_comment.content =~= s.main_comment.content);
    assert(t.choices =~= s.choices);
    assert(t.rooms.len() == s.rooms.len());
    assert forall|k: int| 0 <= k < t.rooms.len() implies (#[trigger] t.rooms[k]).0 == s.rooms[k].0
        && room_like(t.rooms[k].1, s.rooms[k].1) by {
        assert(t.rooms[story0.rooms.len() + k].0 == s.rooms[k].0);
        assert(room_like(t.rooms[story0.rooms.len() + k].1, s.rooms[k].1));
    }
}

/// Rendering reads only what [`choice_like`] compares: alike choices render
/// to the same line.
proof fn lemma_render_like_choice(a: ChoiceV, b: ChoiceV)
    requires
        choice_like(a, b),
    ensures
        spec_render_choice(a) == spec_render_choice(b),
{
    match (a.action, b.action) {
        (ActionV::Goto(x), ActionV::Goto(y)) => {
            assert(spec_render_action(a.action) == spec_render_action(b.action));
        },
        (ActionV::Modify { .. }, ActionV::Modify { .. }) => {
            assert(spec_render_action(a.action) == spec_render_action(b.action));
        },
        _ => {},
    }
}

/// Rendering reads only what [`room_like`] compares: alike choice lists
/// render to the same text.
proof fn lemma_render_like_choices(ca: Seq<CommentedV<ChoiceV>>, cb: Seq<CommentedV<ChoiceV>>)
    requires
        ca.len() == cb.len(),
        forall|i: int| 0 <= i < ca.len() ==> (#[trigger] ca[i]).comment.content
            == cb[i].comment.content,
        forall|i: int| 0 <= i < ca.len() ==> choice_like((#[trigger] ca[i]).value, cb[i].value),
    ensures
        spec_render_choice_list(ca) == spec_render_choice_list(cb),
    decreases ca.len(),
{
    if ca.len() > 0 {
        assert(choice_like(ca[0].value, cb[0].value));
        lemma_render_like_choice(ca[0].value, cb[0].value);
        assert(forall|i: int| 0 <= i < ca.len() - 1 ==> (#[trigger] ca.skip(1)[i]) == ca[i + 1]);
        assert(forall|i: int| 0 <= i < cb.len() - 1 ==> (#[trigger] cb.skip(1)[i]) == cb[i + 1]);
        lemma_render_like_choices(ca.skip(1), cb.skip(1));
    }
}

/// Rendering reads only what [`story_like`] compares: alike room lists
/// render to the same text.
proof fn lemma_render_like_rooms(
    ra: Seq<(Seq<char>, CommentedV<RoomV>)>,
    rb: Seq<(Seq<char>, CommentedV<RoomV>)>,
)
    requires
        ra.len() == rb.len(),
        forall|k: int| 0 <= k < ra.len() ==> room_like((#[trigger] ra[k]).1, rb[k].1),
    ensures
        spec_render_room_list(ra) == spec_render_room_list(rb),
    decreases ra.len(),
{
    if ra.len() > 0 {
        assert(room_like(ra[0].1, rb[0].1));
        lemma_render_like_choices(ra[0].1.value.choices, rb[0].1.value.choices);
        assert(spec_render_room(ra[0].1.value) == spec_render_room(rb[0].1.value));
        assert(forall|k: int| 0 <= k < ra.len() - 1 ==> (#[trigger] ra.skip(1)[k]) == ra[k + 1]);
        assert(forall|k: int| 0 <= k < rb.len() - 1 ==> (#[trigger] rb.skip(1)[k]) == rb[k + 1]);
        lemma_render_like_rooms(ra.skip(1), rb.skip(1));
    }
}

/// Rendering reads only what [`story_like`] compares: alike stories render
/// to the same text, byte for byte.
pub proof fn lemma_render_like(a: StoryV, b: StoryV)
    requires
        story_like(a, b),
    ensures
        spec_render_story(a) == spec_render_story(b),
{
    lemma_render_like_rooms(a.rooms, b.rooms);
}

/// Round trip, the byte-for-byte half, on every file the serializer writes:
/// the text of a comment-free story parses back, and serializing the parse
/// reproduces the text exactly.
pub proof fn lemma_serialize_parse_identity(s: StoryV, sp: SpanV)
    requires
        plain_story_wf(s),
    ensures
        ({
            let f = spec_render_story(s);
            let r = crate::parsing::spec_parse(SpannedV { span: sp, content: f });
            r matches Ok(t) && spec_render_story(t) == f
        }),
{
    lemma_story_round_trip(s, sp);
    let f = spec_render_story(s);
    let t = crate::parsing::spec_parse(SpannedV { span: sp, content: f })->Ok_0;
    lemma_render_like(t, s);
}

/// The line pairs of a file holding a starting line, a blank line, two
/// comment lines, a room header and a message line.
#[verifier::rlimit(100)]
proof fn lemma_comment_file_pairs(
    start: Seq<char>,
    a: Seq<char>,
    b: Seq<char>,
    id: Seq<char>,
    msg: Seq<char>,
    sp: SpanV,
)
    requires
        start.len() > 0,
        !is_space_char(start[0]),
        !is_space_char(start.last()),
        !contains_char(start, '\n'),
        !is_comment_text(start, seq!['/', '/']),
        !contains_char(a, '\n'),
        a.len() > 0 ==> a.last() != '\r',
        !contains_char(b, '\n'),
        b.len() > 0 ==> b.last() != '\r',
        !contains_char(id, '\n'),
        id.len() > 0 ==> !is_space_char(id[0]),
        id.len() > 0 ==> id.last() != '\r',
        !contains_char(msg, '\n'),
        msg.len() > 0 ==> msg.last() != '\r',
        !is_comment_text(msg, seq!['/', '/']),
    ensures
        ({
            let f = join_lines(
                seq![
                    start,
                    Seq::<char>::empty(),
                    seq!['/', '/'] + a,
                    seq!['/', '/'] + b,
                    seq!['#', '#', ' '] + id,
                    msg,
                ],
            );
            let pairs = crate::span::spec_lines(SpannedV { span: sp, content: f }, seq!['/', '/']);
            &&& pairs.len() == 4
            &&& pairs[0].comment.content.len() == 0
            &&& pairs[0].value.content == start
            &&& pairs[1].comment.content.len() == 0
            &&& pairs[1].value.content == Seq::<char>::empty()
            &&& pairs[2].comment.content == a + seq!['\n'] + b
            &&& pairs[2].value.content == seq!['#', '#', ' '] + id
            &&& pairs[3].comment.content.len() == 0
            &&& pairs[3].value.content == msg
        }),
{
    let texts = seq![
        start,
        Seq::<char>::empty(),
        seq!['/', '/'] + a,
        seq!['/', '/'] + b,
        seq!['#', '#', ' '] + id,
        msg,
    ];
    let f = join_lines(texts);
    let file = SpannedV { span: sp, content: f };
    let prefix = seq!['/', '/'];
    // the six lines are clean, so the splitter recovers them
    assert(line_texts_wf(texts)) by {
        assert forall|j: int| 0 <= j < texts.len() implies !contains_char(
            #[trigger] texts[j],
            '\n',
        ) && (texts[j].len() > 0 ==> texts[j].last() != '\r') by {
            if j == 2 || j == 3 {
                let t = if j == 2 { a } else { b };
                let line = seq!['/', '/'] + t;
                assert(texts[j] == line);
                assert forall|m: int| 0 <= m < line.len() implies line[m] != '\n' by {
                    if m >= 2 {
                        assert(line[m] == t[m - 2]);
                        if t[m - 2] == '\n' {
                            assert(contains_char(t, '\n'));
                        }
                    }
                }
                if contains_char(line, '\n') {
                    let w = choose|i: int| 0 <= i < line.len() && line[i] == '\n';
                    assert(line[w] != '\n');
                }
                if t.len() > 0 {
                    assert(line.last() == t.last());
                } else {
                    assert(line.last() == '/');
                }
            } else if j == 4 {
                let line = seq!['#', '#', ' '] + id;
                assert(texts[j] == line);
                assert forall|m: int| 0 <= m < line.len() implies line[m] != '\n' by {
                    if m >= 3 {
                        assert(line[m] == id[m - 3]);
                        if id[m - 3] == '\n' {
                            assert(contains_char(id, '\n'));
                        }
                    }
                }
                if contains_char(line, '\n') {
                    let w = choose|i: int| 0 <= i < line.len() && line[i] == '\n';
                    assert(line[w] != '\n');
                }
                if id.len() > 0 {
                    assert(line.last() == id.last());
                } else {
                    assert(line.last() == ' ');
                }
            }
        }
    }
    lemma_split_joined_lines(texts, sp.file, sp.line_start);
    let raw = Seq::new(texts.len(), |i: int| line_spanned(sp.file, sp.line_start + i, texts[i]));
    assert(spec_raw_lines_from(file.span.file, file.span.line_start, file.content) == raw);
    // pairing: two content lines, then the comment run, then the header and
    // the message
    let hdr = seq!['#', '#', ' '] + id;
    assert(spec_comment_of_line(raw[0], prefix) is None);
    assert(spec_pair_lines(raw, None, prefix) == seq![
        CommentedV { comment: crate::comments::Comment::empty_spec(), value: raw[0] },
    ] + spec_pair_lines(raw.skip(1), None, prefix));
    assert(raw.skip(1)[0] == raw[1]);
    assert(crate::text::trim_start_spec(Seq::<char>::empty()).len() == 0);
    assert(spec_comment_of_line(raw[1], prefix) is None);
    assert(spec_pair_lines(raw.skip(1), None, prefix) == seq![
        CommentedV { comment: crate::comments::Comment::empty_spec(), value: raw[1] },
    ] + spec_pair_lines(raw.skip(1).skip(1), None, prefix));
    let run = raw.skip(2);
    assert(raw.skip(1).skip(1) =~= run);
    assert(run.len() == 4);
    assert(run[0] == raw[2] && run[1] == raw[3] && run[2] == raw[4] && run[3] == raw[5]);
    // the two comment lines strip to their texts
    assert(run[0].content == seq!['/', '/'] + a);
    lemma_trimmed_fixpoint_start(run[0].content);
    assert(run[0].content.take(2) =~= prefix);
    assert(spec_comment_of_line(run[0], prefix) is Some);
    assert(spec_comment_of_line(run[0], prefix)->Some_0.content =~= a);
    assert(run[1].content == seq!['/', '/'] + b);
    lemma_trimmed_fixpoint_start(run[1].content);
    assert(run[1].content.take(2) =~= prefix);
    assert(spec_comment_of_line(run[1], prefix) is Some);
    assert(spec_comment_of_line(run[1], prefix)->Some_0.content =~= b);
    // the header line is no comment line
    assert(run[2].content == hdr);
    lemma_trimmed_fixpoint_start(hdr);
    assert(!is_comment_text(hdr, prefix)) by {
        if is_comment_text(hdr, prefix) {
            assert(hdr.take(2)[0] == '/');
        }
    }
    assert(spec_comment_of_line(run[2], prefix) is None);
    lemma_two_comment_lines_attach(run, prefix);
    let merged = spec_comment_merge(
        Some(spec_comment_of_line(run[0], prefix)->Some_0),
        spec_comment_of_line(run[1], prefix)->Some_0,
    );
    assert(merged.content == a + seq!['\n'] + b);
    // after the header, only the message line remains
    assert(run.skip(3) =~= seq![raw[5]]);
    assert(spec_comment_of_line(raw[5], prefix) is None);
    assert(spec_pair_lines(seq![raw[5]], None, prefix) =~= seq![
        CommentedV { comment: crate::comments::Comment::empty_spec(), value: raw[5] },
    ]) by {
        let single = seq![raw[5]];
        assert(single[0] == raw[5]);
        assert(single.skip(1) =~= Seq::<SpannedV<Seq<char>>>::empty());
        assert(spec_pair_lines(Seq::<SpannedV<Seq<char>>>::empty(), None, prefix)
            == Seq::<CommentedV<SpannedV<Seq<char>>>>::empty());
    }
    let pairs = crate::span::spec_lines(file, prefix);
    assert(pairs =~= seq![
        CommentedV { comment: crate::comments::Comment::empty_spec(), value: raw[0] },
        CommentedV { comment: crate::comments::Comment::empty_spec(), value: raw[1] },
        CommentedV { comment: merged, value: raw[4] },
        CommentedV { comment: crate::comments::Comment::empty_spec(), value: raw[5] },
    ]);
}

/// Comment attachment, through the whole parse: in a file where the lines
/// `//a` and `//b` stand right before a room header, the parsed room's
/// wrapper comment is `a`, a newline, then `b`.
#[verifier::rlimit(100)]
pub proof fn lemma_comment_attachment_through_parse(
    start: Seq<char>,
    a: Seq<char>,
    b: Seq<char>,
    id: Seq<char>,
    msg: Seq<char>,
    sp: SpanV,
)
    requires
        start.len() > 0,
        !is_space_char(start[0]),
        !is_space_char(start.last()),
        !contains_char(start, '\n'),
        !is_comment_text(start, seq!['/', '/']),
        !contains_char(a, '\n'),
        a.len() > 0 ==> a.last() != '\r',
        !contains_char(b, '\n'),
        b.len() > 0 ==> b.last() != '\r',
        !contains_char(id, '\n'),
        id.len() > 0 ==> !is_space_char(id[0]),
        id.len() > 0 ==> id.last() != '\r',
        !contains_char(msg, '\n'),
        msg.len() > 0 ==> msg.last() != '\r',
        !is_comment_text(msg, seq!['/', '/']),
    ensures
        ({
            let f = join_lines(
                seq![
                    start,
                    Seq::<char>::empty(),
                    seq!['/', '/'] + a,
                    seq!['/', '/'] + b,
                    seq!['#', '#', ' '] + id,
                    msg,
                ],
            );
            let r = crate::parsing::spec_parse(SpannedV { span: sp, content: f });
            &&& r is Ok
            &&& r->Ok_0.rooms.len() == 1
            &&& r->Ok_0.rooms[0].1.comment.content == a + seq!['\n'] + b
            &&& r->Ok_0.rooms[0].1.value.id.content == id
            &&& r->Ok_0.rooms[0].1.value.message.value.content == msg
        }),
{
    lemma_comment_file_pairs(start, a, b, id, msg, sp);
    let f = join_lines(
        seq![
            start,
            Seq::<char>::empty(),
            seq!['/', '/'] + a,
            seq!['/', '/'] + b,
            seq!['#', '#', ' '] + id,
            msg,
        ],
    );
    let file = SpannedV { span: sp, content: f };
    let pairs = crate::span::spec_lines(file, seq!['/', '/']);
    // the starting line and the blank separator
    lemma_trimmed_fixpoint(start);
    assert(crate::span::sv_trim(pairs[0].value).content == start);
    assert(crate::text::trim_start_spec(pairs[1].value.content).len() == 0);
    assert(crate::span::sv_trim(pairs[1].value).content.len() == 0);
    // the one room block
    assert(pairs[2].value.content.take(2) =~= seq!['#', '#']);
    let stripped = crate::span::sv_strip_prefix(pairs[2].value, seq!['#', '#']);
    assert(stripped is Some);
    assert(stripped->Some_0.content =~= seq![' '] + id);
    assert((seq![' '] + id)[0] == ' ');
    if id.len() > 0 {
        assert((seq![' '] + id)[1] == id[0]);
    }
    lemma_first_not_unique(seq![' '] + id, space_pred(), 1);
    assert((seq![' '] + id).skip(1) =~= id);
    assert(crate::span::sv_trim_start(stripped->Some_0).content == id);
    assert(spec_parse_choices(pairs, 4, Seq::empty()) == Ok::<_, crate::errors::GrammarErrorV>(
        (Seq::<CommentedV<ChoiceV>>::empty(), 4int),
    ));
    let pr = crate::parsing::spec_parse_room(pairs, 2);
    assert(pr is Ok);
    let room = pr->Ok_0.0;
    assert(pr->Ok_0.1 == 4);
    assert(room.comment.content == a + seq!['\n'] + b);
    assert(room.value.id.content == id);
    assert(room.value.message.value.content == msg);
    // the room table takes the single block
    let story0 = StoryV {
        main_comment: pairs[0].comment,
        rooms: Seq::empty(),
        default_room: crate::room::Room::abyss_spec(),
        room: SpannedV {
            span: crate::span::sv_trim(pairs[0].value).span,
            content: crate::span::sv_trim(pairs[0].value).content,
        },
        choices: Seq::empty(),
    };
    assert(crate::parsing::spec_parse(file) == spec_parse_rooms(pairs, 2, story0));
    assert(!crate::map::contains_key(story0.rooms, room.value.id.content));
    let story1 = StoryV { rooms: story0.rooms.push((room.value.id.content, room)), ..story0 };
    assert(spec_parse_rooms(pairs, 2, story0) == spec_parse_rooms(pairs, 4, story1));
    assert(spec_parse_rooms(pairs, 4, story1) == Ok::<_, crate::errors::ParseErrorV>(story1));
    assert(story1.rooms.len() == 1);
    assert(story1.rooms[0] == (room.value.id.content, room));
}

} // verus!
