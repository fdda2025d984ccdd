//! The grammar parser: from raw text to a story graph, spans kept intact.

use vstd::prelude::*;

use crate::action::{Action, ActionV, Operator};
use crate::choice::{Choice, ChoiceV};
use crate::comments::{Commented, CommentedV};
use crate::errors::{GrammarError, GrammarErrorV, ParseError, ParseErrorV};
use crate::map::{contains_key, key_ix};
use crate::room::{Room, RoomId, RoomV};
use crate::span::{
    sv_split_once, sv_strip_prefix, sv_take_while, sv_trim, sv_trim_start, CharPred, Spanned,
    SpannedV,
};
use crate::story::{Story, StoryV};
use crate::text::{alnum_pred, is_number_text, number_val, sigil_pred};

verus! {

pub open spec fn action_res_view(r: Result<Action, GrammarError>) -> Result<
    ActionV,
    GrammarErrorV,
> {
    match r {
        Ok(a) => Ok(a@),
        Err(e) => Err(e@),
    }
}

/// The command sub-grammar: `<room-id> '.' <item-name> <operator> <amount>`,
/// white space between tokens skipped, every missing piece its own error.
pub open spec fn spec_parse_action(cmd: SpannedV<Seq<char>>) -> Result<ActionV, GrammarErrorV> {
    match sv_split_once(cmd, '.') {
        None => Err(GrammarErrorV::MissingDot { span: cmd.span }),
        Some((room_part, rest)) => {
            let room_t = sv_trim(room_part);
            let rest1 = sv_trim_start(rest);
            match sv_take_while(rest1, alnum_pred()) {
                None => Err(GrammarErrorV::MissingItemName { span: rest1.span }),
                Some((what, rest2)) => if what.content.len() == 0 {
                    Err(GrammarErrorV::MissingItemName { span: rest1.span })
                } else {
                    let rest3 = sv_trim_start(rest2);
                    match sv_take_while(rest3, sigil_pred()) {
                        None => Err(GrammarErrorV::MissingAmount { span: rest3.span }),
                        Some((op_part, rest4)) => match Operator::of_sigils_spec(op_part.content) {
                            None => Err(GrammarErrorV::UnknownOperator {
                                span: op_part.span,
                                operator: op_part.content,
                            }),
                            Some(op) => {
                                let amount_t = sv_trim_start(rest4);
                                if is_number_text(amount_t.content) && number_val(amount_t.content)
                                    <= usize::MAX {
                                    Ok(ActionV::Modify {
                                        operator: SpannedV { span: op_part.span, content: op },
                                        amount: SpannedV {
                                            span: amount_t.span,
                                            content: number_val(amount_t.content) as usize,
                                        },
                                        what,
                                        room: room_t,
                                    })
                                } else {
                                    Err(GrammarErrorV::MalformedNumber { span: amount_t.span })
                                }
                            },
                        },
                    }
                },
            }
        },
    }
}

/// Reads one bracketed command into an action.
pub fn parse_action(command: Spanned<String>) -> (r: Result<Action, GrammarError>)
    ensures
        action_res_view(r) == spec_parse_action(command@),
{
    let (room_part, rest) = match command.split_once('.') {
        Some(p) => p,
        None => {
            return Err(GrammarError::MissingDot { span: command.span });
        },
    };
    let room_t = room_part.trim();
    let rest1 = rest.trim_start();
    let (what, rest2) = match rest1.take_while(CharPred::Alphanumeric) {
        Some(p) => p,
        None => {
            return Err(GrammarError::MissingItemName { span: rest1.span });
        },
    };
    if what.is_empty() {
        return Err(GrammarError::MissingItemName { span: rest1.span });
    }
    let rest3 = rest2.trim_start();
    let (op_part, rest4) = match rest3.take_while(CharPred::OperatorSigil) {
        Some(p) => p,
        None => {
            return Err(GrammarError::MissingAmount { span: rest3.span });
        },
    };
    let operator = match Operator::of_sigils(op_part.content.as_str()) {
        Some(op) => op,
        None => {
            return Err(
                GrammarError::UnknownOperator { span: op_part.span, operator: op_part.content },
            );
        },
    };
    let amount_t = rest4.trim_start();
    let amount = match amount_t.parse() {
        Ok(a) => a,
        Err(e) => {
            return Err(e);
        },
    };
    Ok(
        Action::Modify {
            operator: Spanned { span: op_part.span, content: operator },
            amount,
            what: Spanned { span: what.span, content: what.content },
            room: Spanned { span: room_t.span, content: RoomId::new(room_t.content) },
        },
    )
}

pub open spec fn choice_res_view(r: Result<Commented<Choice>, GrammarError>) -> Result<
    CommentedV<ChoiceV>,
    GrammarErrorV,
> {
    match r {
        Ok(c) => Ok(c@),
        Err(e) => Err(e@),
    }
}

/// One choice line: an optional `{N}` repetition cap with N in 1 through
/// 255, then either a bracketed command or `target ':'`, then the display
/// message with its leading white space dropped.
/// The optional `{N}` repetition marker at the head of a choice line, with
/// the rest of the line after it.
pub open spec fn spec_parse_rep(line: SpannedV<Seq<char>>) -> Result<
    (Option<SpannedV<u8>>, SpannedV<Seq<char>>),
    GrammarErrorV,
> {
    match sv_strip_prefix(line, seq!['{']) {
        Some(linea) => match sv_split_once(linea, '}') {
            None => Err(GrammarErrorV::UnterminatedRepetition { span: linea.span }),
            Some((n, lineb)) => if is_number_text(n.content) && number_val(n.content)
                <= usize::MAX {
                if 1 <= number_val(n.content) && number_val(n.content) <= 255 {
                    Ok(
                        (
                            Some(
                                SpannedV {
                                    span: n.span,
                                    content: number_val(n.content) as u8,
                                },
                            ),
                            lineb,
                        ),
                    )
                } else {
                    Err(GrammarErrorV::MalformedNumber { span: n.span })
                }
            } else {
                Err(GrammarErrorV::MalformedNumber { span: n.span })
            },
        },
        None => Ok((None, line)),
    }
}

/// The action and message of a choice line once any repetition marker is
/// gone: a bracketed command, or a target before a colon.
pub open spec fn spec_parse_choice_body(line1: SpannedV<Seq<char>>) -> Result<
    (ActionV, SpannedV<Seq<char>>),
    GrammarErrorV,
> {
    match sv_strip_prefix(line1, seq!['[']) {
        Some(cmd0) => match sv_split_once(cmd0, ']') {
            None => Err(GrammarErrorV::UnterminatedCommand { span: cmd0.span }),
            Some((command, rest)) => match spec_parse_action(command) {
                Ok(a) => Ok((a, rest)),
                Err(e) => Err(e),
            },
        },
        None => match sv_split_once(line1, ':') {
            None => Err(GrammarErrorV::MissingColon { span: line1.span }),
            Some((next, message)) => Ok((ActionV::Goto(next), message)),
        },
    }
}

pub open spec fn spec_parse_choice(l: CommentedV<SpannedV<Seq<char>>>) -> Result<
    CommentedV<ChoiceV>,
    GrammarErrorV,
> {
    match spec_parse_rep(l.value) {
        Err(e) => Err(e),
        Ok((repetitions, line1)) => match spec_parse_choice_body(line1) {
            Err(e) => Err(e),
            Ok((action, message)) => Ok(
                CommentedV {
                    comment: l.comment,
                    value: ChoiceV { message: sv_trim_start(message), repetitions, action },
                },
            ),
        },
    }
}

/// Reads one choice line, its leading comment carried through.
pub fn parse_choice(line: Commented<Spanned<String>>) -> (r: Result<
    Commented<Choice>,
    GrammarError,
>)
    ensures
        choice_res_view(r) == spec_parse_choice(line@),
{
    proof {
        reveal_strlit("{");
        reveal_strlit("[");
        assert("{"@ =~= seq!['{']);
        assert("["@ =~= seq!['[']);
    }
    let Commented { comment, value: line } = line;
    let (repetitions, line1) = match line.strip_prefix("{") {
        Some(linea) => {
            let (n, lineb) = match linea.split_once('}') {
                Some(p) => p,
                None => {
                    return Err(GrammarError::UnterminatedRepetition { span: linea.span });
                },
            };
            let n = match n.parse() {
                Ok(v) => v,
                Err(e) => {
                    return Err(e);
                },
            };
            if n.content < 1 || n.content > 255 {
                return Err(GrammarError::MalformedNumber { span: n.span });
            }
            (Some(Spanned { span: n.span, content: n.content as u8 }), lineb)
        },
        None => (None, line),
    };
    let (action, message) = match line1.strip_prefix("[") {
        Some(cmd0) => {
            let (command, rest) = match cmd0.split_once(']') {
                Some(p) => p,
                None => {
                    return Err(GrammarError::UnterminatedCommand { span: cmd0.span });
                },
            };
            let action = match parse_action(command) {
                Ok(a) => a,
                Err(e) => {
                    return Err(e);
                },
            };
            (action, rest)
        },
        None => {
            let (next, message) = match line1.split_once(':') {
                Some(p) => p,
                None => {
                    return Err(GrammarError::MissingColon { span: line1.span });
                },
            };
            (Action::Goto(Spanned { span: next.span, content: RoomId::new(next.content) }), message)
        },
    };
    Ok(
        Commented {
            comment,
            value: Choice { message: message.trim_start(), repetitions, action },
        },
    )
}

pub open spec fn room_res_view(r: Result<(Commented<Room>, usize), GrammarError>) -> Result<
    (CommentedV<RoomV>, int),
    GrammarErrorV,
> {
    match r {
        Ok((room, j)) => Ok((room@, j as int)),
        Err(e) => Err(e@),
    }
}

/// The choice lines of a room block, gathered until a blank line (consumed),
/// the next `##` header (left in place), or the end of input.
pub open spec fn spec_parse_choices(
    pairs: Seq<CommentedV<SpannedV<Seq<char>>>>,
    i: int,
    acc: Seq<CommentedV<ChoiceV>>,
) -> Result<(Seq<CommentedV<ChoiceV>>, int), GrammarErrorV>
    decreases pairs.len() - i,
{
    if i < 0 || i >= pairs.len() {
        Ok((acc, i))
    } else {
        let l = pairs[i];
        if l.value.content.len() == 0 {
            Ok((acc, i + 1))
        } else if 2 <= l.value.content.len() && l.value.content.take(2) == seq!['#', '#'] {
            Ok((acc, i))
        } else {
            match spec_parse_choice(l) {
                Ok(c) => spec_parse_choices(pairs, i + 1, acc.push(c)),
                Err(e) => Err(e),
            }
        }
    }
}

/// One room block starting at line `i`: the `##` header, a message line, and
/// the choice lines after it; the result carries the position of the line
/// after the block.
pub open spec fn spec_parse_room(pairs: Seq<CommentedV<SpannedV<Seq<char>>>>, i: int) -> Result<
    (CommentedV<RoomV>, int),
    GrammarErrorV,
> {
    let header = pairs[i];
    match sv_strip_prefix(header.value, seq!['#', '#']) {
        None => Err(GrammarErrorV::MalformedHeader { span: header.value.span }),
        Some(idpart) => {
            let id = sv_trim_start(idpart);
            if i + 1 >= pairs.len() {
                Err(GrammarErrorV::TrailingHeader { span: idpart.span })
            } else {
                let message = pairs[i + 1];
                match spec_parse_choices(pairs, i + 2, Seq::empty()) {
                    Err(e) => Err(e),
                    Ok((choices, j)) => Ok(
                        (
                            CommentedV {
                                comment: header.comment,
                                value: RoomV {
                                    id: SpannedV { span: id.span, content: id.content },
                                    message,
                                    choices,
                                    items: Seq::empty(),
                                },
                            },
                            j,
                        ),
                    ),
                }
            }
        },
    }
}

/// Reads the room block whose header stands at line `i`.
pub fn parse_room(lines: &Vec<Commented<Spanned<String>>>, i: usize) -> (r: Result<
    (Commented<Room>, usize),
    GrammarError,
>)
    requires
        i < lines@.len(),
    ensures
        room_res_view(r) == spec_parse_room(crate::comments::commented_views(lines@), i as int),
        r matches Ok(p) ==> i < p.1 <= lines@.len() && p.0.value.wf(),
{
    let ghost pairs = crate::comments::commented_views(lines@);
    proof {
        reveal_strlit("##");
        assert("##"@ =~= seq!['#', '#']);
    }
    let n = lines.len();
    let header = lines[i].duplicate();
    let idpart = match header.value.strip_prefix("##") {
        Some(x) => x,
        None => {
            return Err(GrammarError::MalformedHeader { span: header.value.span });
        },
    };
    let id = idpart.trim_start();
    let mut j = i + 1;
    if j >= n {
        return Err(GrammarError::TrailingHeader { span: idpart.span.duplicate() });
    }
    let message = lines[j].duplicate();
    j = j + 1;
    let mut room = Room::new(Spanned { span: id.span, content: RoomId::new(id.content) }, message);
    let ghost fixed_room = room@;
    while j < lines.len()
        invariant_except_break
            i + 2 <= j <= lines@.len(),
            i < lines@.len(),
            pairs == crate::comments::commented_views(lines@),
            sv_strip_prefix(pairs[i as int].value, seq!['#', '#']) == Some(idpart@),
            room.wf(),
            room@ == (RoomV { choices: room@.choices, ..fixed_room }),
            spec_parse_choices(pairs, i + 2, Seq::empty()) == spec_parse_choices(
                pairs,
                j as int,
                room@.choices,
            ),
        ensures
            i + 2 <= j <= lines@.len(),
            room.wf(),
            room@ == (RoomV { choices: room@.choices, ..fixed_room }),
            spec_parse_choices(pairs, i + 2, Seq::empty()) == Ok::<_, GrammarErrorV>(
                (room@.choices, j as int),
            ),
        decreases lines@.len() - j,
    {
        proof {
            reveal_strlit("##");
            assert("##"@ =~= seq!['#', '#']);
        }
        let line = &lines[j];
        if line.value.is_empty() {
            j = j + 1;
            break;
        }
        if line.value.starts_with("##") {
            break;
        }
        let c = match parse_choice(line.duplicate()) {
            Ok(c) => c,
            Err(e) => {
                return Err(e);
            },
        };
        let ghost pre_choices = room@.choices;
        room.choices.push(c);
        j = j + 1;
        proof {
            assert(room@.choices =~= pre_choices.push(c@));
        }
    }
    Ok((Commented { comment: header.comment, value: room }, j))
}

pub open spec fn story_res_view(r: Result<Story, ParseError>) -> Result<StoryV, ParseErrorV> {
    match r {
        Ok(s) => Ok(s@),
        Err(e) => Err(e@),
    }
}

/// The room blocks from line `i` on, added to the story one by one; a block
/// under an id already present stops the parse.
pub open spec fn spec_parse_rooms(
    pairs: Seq<CommentedV<SpannedV<Seq<char>>>>,
    i: int,
    s: StoryV,
) -> Result<StoryV, ParseErrorV>
    decreases pairs.len() - i,
{
    if i >= pairs.len() {
        Ok(s)
    } else {
        match spec_parse_room(pairs, i) {
            Err(e) => Err(ParseErrorV::Grammar(e)),
            Ok((room, j)) => if contains_key(s.rooms, room.value.id.content) {
                Err(
                    ParseErrorV::DuplicateRoom(
                        crate::errors::DuplicateRoomErrorV {
                            first: s.rooms[key_ix(s.rooms, room.value.id.content)].1.value.id.span,
                            second: room.value.id.span,
                        },
                    ),
                )
            } else if i < j <= pairs.len() {
                spec_parse_rooms(
                    pairs,
                    j,
                    StoryV { rooms: s.rooms.push((room.value.id.content, room)), ..s },
                )
            } else {
                // a parsed block always advances, so this branch never runs;
                // the guard only keeps the recursion visibly bounded
                Err(ParseErrorV::Grammar(GrammarErrorV::MissingStartLine))
            },
        }
    }
}

/// The whole grammar: line 1 names the starting room (trimmed, not empty),
/// line 2 is blank, and room blocks follow; nothing checks that referenced
/// room ids exist.
pub open spec fn spec_parse(file: SpannedV<Seq<char>>) -> Result<StoryV, ParseErrorV> {
    let pairs = crate::span::spec_lines(file, seq!['/', '/']);
    if pairs.len() == 0 {
        Err(ParseErrorV::Grammar(GrammarErrorV::MissingStartLine))
    } else {
        let first = pairs[0];
        let start = sv_trim(first.value);
        if start.content.len() == 0 {
            Err(ParseErrorV::Grammar(GrammarErrorV::EmptyStartId { span: first.value.span }))
        } else if pairs.len() < 2 {
            Err(ParseErrorV::Grammar(GrammarErrorV::MissingSeparatorLine { span: file.span }))
        } else {
            let second = pairs[1];
            if sv_trim(second.value).content.len() != 0 {
                Err(
                    ParseErrorV::Grammar(
                        GrammarErrorV::NonEmptySeparatorLine { span: second.value.span },
                    ),
                )
            } else if second.comment.content.len() != 0 {
                Err(
                    ParseErrorV::Grammar(
                        GrammarErrorV::CommentBeforeSeparator { span: second.comment.span },
                    ),
                )
            } else {
                spec_parse_rooms(
                    pairs,
                    2,
                    StoryV {
                        main_comment: first.comment,
                        rooms: Seq::empty(),
                        default_room: Room::abyss_spec(),
                        room: SpannedV { span: start.span, content: start.content },
                        choices: Seq::empty(),
                    },
                )
            }
        }
    }
}

/// Parses a story file into its graph; every span in the result points into
/// the given text.
pub fn parse(file_content: &Spanned<String>) -> (r: Result<Story, ParseError>)
    requires
        file_content.span@.col_start == 1,
        file_content.span@.line_start + file_content.content@.len() <= usize::MAX,
    ensures
        story_res_view(r) == spec_parse(file_content@),
        r matches Ok(s) ==> s.wf(),
{
    proof {
        reveal_strlit("//");
        assert("//"@ =~= seq!['/', '/']);
    }
    let lines = file_content.lines("//");
    let ghost pairs = crate::comments::commented_views(lines@);
    if lines.len() == 0 {
        return Err(ParseError::Grammar(GrammarError::MissingStartLine));
    }
    let first = lines[0].duplicate();
    let start = first.value.trim();
    if start.is_empty() {
        return Err(
            ParseError::Grammar(GrammarError::EmptyStartId { span: first.value.span }),
        );
    }
    if lines.len() < 2 {
        return Err(
            ParseError::Grammar(
                GrammarError::MissingSeparatorLine { span: file_content.span.duplicate() },
            ),
        );
    }
    let second = &lines[1];
    if !second.value.trim().is_empty() {
        return Err(
            ParseError::Grammar(
                GrammarError::NonEmptySeparatorLine { span: second.value.span.duplicate() },
            ),
        );
    }
    if !second.comment.text().is_empty() {
        return Err(
            ParseError::Grammar(
                GrammarError::CommentBeforeSeparator { span: second.comment.0.span.duplicate() },
            ),
        );
    }
    let mut story = Story::new(Commented { comment: first.comment, value: start });
    let mut i: usize = 2;
    while i < lines.len()
        invariant
            2 <= i <= lines@.len(),
            pairs == crate::comments::commented_views(lines@),
            story.wf(),
            spec_parse(file_content@) == spec_parse_rooms(pairs, i as int, story@),
        decreases lines@.len() - i,
    {
        match parse_room(&lines, i) {
            Err(e) => {
                return Err(ParseError::Grammar(e));
            },
            Ok((room, j)) => {
                match story.create_room(room) {
                    Err(d) => {
                        return Err(ParseError::DuplicateRoom(d));
                    },
                    Ok(()) => {
                        i = j;
                    },
                }
            },
        }
    }
    Ok(story)
}

} // verus!
