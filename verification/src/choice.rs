//! A labeled, optionally repetition-capped edge bound to an action.

use vstd::prelude::*;

use crate::action::{Action, ActionV};
use crate::comments::{Comment, Commented, CommentedV};
use crate::map::{
    contains_key, key_ix, lemma_key_ix, lemma_key_ix_unique, lemma_pushed_view, lemma_updated_view,
};
use crate::room::{Room, RoomV};
use crate::span::{cap_add, Spanned, SpannedV};
use crate::story::{Story, StoryV};
use crate::text::{render_decimal, spec_digits};
use vstd::string::StringExecFns;

verus! {

/// The mathematical shadow of a [`Choice`].
pub struct ChoiceV {
    pub message: SpannedV<Seq<char>>,
    pub repetitions: Option<SpannedV<u8>>,
    pub action: ActionV,
}

/// One selectable line of a room: display text, an optional repetition cap
/// (absent means unlimited), and the action taken.
#[derive(Debug)]
pub struct Choice {
    pub message: Spanned<String>,
    /// How many times this choice may be taken; `None` means without limit.
    /// A cap is always at least 1.
    pub repetitions: Option<Spanned<u8>>,
    pub action: Action,
}

impl View for Choice {
    type V = ChoiceV;

    open spec fn view(&self) -> ChoiceV {
        ChoiceV {
            message: self.message@,
            repetitions: match self.repetitions {
                None => None,
                Some(r) => Some(r@),
            },
            action: self.action@,
        }
    }
}

impl Choice {
    /// A fresh copy of the same choice.
    pub fn duplicate(&self) -> (r: Choice)
        ensures
            r@ == self@,
    {
        Choice {
            message: self.message.duplicate(),
            repetitions: match &self.repetitions {
                None => None,
                Some(rep) => Some(Spanned { span: rep.span.duplicate(), content: rep.content }),
            },
            action: self.action.duplicate(),
        }
    }
}

/// Adds `amount` under `what`, starting from 0 for an absent name; the sum
/// stops at the top of `usize`.
pub open spec fn spec_bump_items(
    items: Seq<(Seq<char>, usize)>,
    what: Seq<char>,
    amount: usize,
) -> Seq<(Seq<char>, usize)> {
    if contains_key(items, what) {
        let i = key_ix(items, what);
        items.update(i, (what, cap_add(items[i].1 as int, amount as int) as usize))
    } else {
        items.push((what, amount))
    }
}

/// The named room's item store takes the addition; a dangling name first
/// gets a fresh default room appended under it.
pub open spec fn spec_apply_modify(
    rooms: Seq<(Seq<char>, CommentedV<RoomV>)>,
    room_key: Seq<char>,
    what: Seq<char>,
    amount: usize,
) -> Seq<(Seq<char>, CommentedV<RoomV>)> {
    if contains_key(rooms, room_key) {
        let i = key_ix(rooms, room_key);
        let entry = rooms[i].1;
        rooms.update(
            i,
            (
                rooms[i].0,
                CommentedV {
                    comment: entry.comment,
                    value: RoomV {
                        items: spec_bump_items(entry.value.items, what, amount),
                        ..entry.value
                    },
                },
            ),
        )
    } else {
        rooms.push(
            (
                room_key,
                CommentedV {
                    comment: Comment::empty_spec(),
                    value: RoomV {
                        items: spec_bump_items(Room::abyss_spec().items, what, amount),
                        ..Room::abyss_spec()
                    },
                },
            ),
        )
    }
}

/// What one action does to the story state.
pub open spec fn spec_apply(a: ActionV, s: StoryV) -> StoryV {
    match a {
        ActionV::Goto(target) => StoryV { room: target, ..s },
        ActionV::Modify { operator, amount, what, room } => match operator.content {
            crate::action::Operator::Add => StoryV {
                rooms: spec_apply_modify(s.rooms, room.content, what.content, amount.content),
                ..s
            },
        },
    }
}

impl Commented<Choice> {
    /// A fresh copy of the same commented choice.
    pub fn duplicate_choice(&self) -> (r: Commented<Choice>)
        ensures
            r@ == self@,
    {
        Commented { comment: self.comment.duplicate(), value: self.value.duplicate() }
    }

    /// Runs this choice's action against the story: `Goto` moves the current
    /// room pointer; `Modify` adds to an item of the named room's store.
    pub fn apply(self, story: &mut Story)
        requires
            old(story).wf(),
        ensures
            final(story).wf(),
            final(story)@ == spec_apply(self@.value.action, old(story)@),
    {
        match self.value.action {
            Action::Goto(target) => {
                story.room = target;
            },
            Action::Modify { operator, amount, what, room } => {
                match operator.content {
                    crate::action::Operator::Add => {},
                }
                let ghost pre_rooms = story.rooms;
                let ghost room_key = room.content@;
                let ghost what_key = what.content@;
                let entry = story.rooms.get_or_insert_default(
                    room.content.0,
                    Commented::dummy(Room::default()),
                );
                let ghost pre_entry = *entry;
                let ghost pre_items = entry.value.items;
                proof {
                    lemma_key_ix(pre_rooms@, room_key);
                    if contains_key(pre_rooms@, room_key) {
                        assert(pre_entry == pre_rooms.entries@[key_ix(pre_rooms@, room_key)]);
                    }
                    assert(pre_entry.value.wf());
                    assert(entry.value.items.wf());
                }
                let slot = entry.value.items.get_or_insert_default(what.content, 0);
                let v = *slot;
                *slot = v.saturating_add(amount.content);
                let ghost final_entry;
                proof {
                    lemma_key_ix(pre_items@, what_key);
                    if contains_key(pre_items@, what_key) {
                        lemma_updated_view(
                            pre_items,
                            entry.value.items,
                            key_ix(pre_items@, what_key),
                            cap_add(pre_items@[key_ix(pre_items@, what_key)].1 as int, amount.content as int) as usize,
                        );
                    } else {
                        lemma_pushed_view(
                            pre_items,
                            entry.value.items,
                            what_key,
                            cap_add(0, amount.content as int) as usize,
                        );
                    }
                    assert(entry.value.items@ == spec_bump_items(
                        pre_items@,
                        what_key,
                        amount.content,
                    ));
                    final_entry = *entry;
                    assert(final_entry@ == (CommentedV {
                        comment: pre_entry@.comment,
                        value: RoomV {
                            items: spec_bump_items(pre_entry@.value.items, what_key, amount.content),
                            ..pre_entry@.value
                        },
                    }));
                    assert(final_entry.value.wf());
                }
                proof {
                    lemma_key_ix(pre_rooms@, room_key);
                    if contains_key(pre_rooms@, room_key) {
                        assert(pre_entry == pre_rooms.entries@[key_ix(pre_rooms@, room_key)]);
                        lemma_updated_view(
                            pre_rooms,
                            story.rooms,
                            key_ix(pre_rooms@, room_key),
                            final_entry,
                        );
                    } else {
                        assert(pre_entry@ == (CommentedV {
                            comment: Comment::empty_spec(),
                            value: Room::abyss_spec(),
                        }));
                        lemma_pushed_view(pre_rooms, story.rooms, room_key, final_entry);
                    }
                    assert(story.rooms@ == spec_apply_modify(
                        pre_rooms@,
                        room_key,
                        what_key,
                        amount.content,
                    ));
                    assert forall|i: int|
                        0 <= i < story.rooms.entries@.len() implies (
                    #[trigger] story.rooms.entries@[i]).value.wf() by {
                        if i < pre_rooms.entries@.len() && i != key_ix(pre_rooms@, room_key) {
                            assert(story.rooms.entries@[i] == pre_rooms.entries@[i]);
                        }
                    }
                }
            },
        }
    }
}

/// How a choice stands on its line: the optional `{N}` cap, then either
/// `target: message` or `[command] message`.
pub open spec fn spec_render_choice(c: ChoiceV) -> Seq<char> {
    let rep = match c.repetitions {
        None => Seq::<char>::empty(),
        Some(r) => seq!['{'] + spec_digits(r.content as int) + seq!['}'],
    };
    let body = match c.action {
        ActionV::Goto(_) => crate::action::spec_render_action(c.action) + seq![':', ' ']
            + c.message.content,
        ActionV::Modify { .. } => seq!['['] + crate::action::spec_render_action(c.action) + seq![
            ']',
            ' ',
        ] + c.message.content,
    };
    rep + body
}

impl Choice {
    /// Writes the choice line back as the grammar reads it.
    pub fn render(&self) -> (r: String)
        ensures
            r@ == spec_render_choice(self@),
    {
        proof {
            reveal_strlit("{");
            reveal_strlit("}");
            reveal_strlit("[");
            reveal_strlit("] ");
            reveal_strlit(": ");
        }
        let mut out = String::new();
        match &self.repetitions {
            None => (),
            Some(rep) => {
                out.append("{");
                let digits = render_decimal(rep.content as usize);
                out.append(digits.as_str());
                out.append("}");
            },
        }
        let act = self.action.render();
        match &self.action {
            Action::Goto(_) => {
                out.append(act.as_str());
                out.append(": ");
            },
            Action::Modify { .. } => {
                out.append("[");
                out.append(act.as_str());
                out.append("] ");
            },
        }
        out.append(self.message.content.as_str());
        proof {
            assert(out@ =~= spec_render_choice(self@));
        }
        out
    }
}

/// Action semantics: starting from a state whose room `rk` holds no entry
/// for item `w`, adding `x` and then `y` to it leaves the item at exactly
/// `x + y`.
pub proof fn lemma_add_accumulates(
    s: StoryV,
    a1: ActionV,
    a2: ActionV,
    rk: Seq<char>,
    w: Seq<char>,
    x: usize,
    y: usize,
)
    requires
        a1 == (ActionV::Modify {
            operator: spec_action_operator(a1),
            amount: SpannedV { span: spec_action_amount(a1).span, content: x },
            what: SpannedV { span: spec_action_what(a1).span, content: w },
            room: SpannedV { span: spec_action_room(a1).span, content: rk },
        }),
        a2 == (ActionV::Modify {
            operator: spec_action_operator(a2),
            amount: SpannedV { span: spec_action_amount(a2).span, content: y },
            what: SpannedV { span: spec_action_what(a2).span, content: w },
            room: SpannedV { span: spec_action_room(a2).span, content: rk },
        }),
        spec_action_operator(a1).content == crate::action::Operator::Add,
        spec_action_operator(a2).content == crate::action::Operator::Add,
        contains_key(s.rooms, rk),
        !contains_key(s.rooms[key_ix(s.rooms, rk)].1.value.items, w),
        x + y <= usize::MAX,
    ensures
        ({
            let s2 = spec_apply(a2, spec_apply(a1, s));
            let room = s2.rooms[key_ix(s2.rooms, rk)].1.value;
            &&& contains_key(s2.rooms, rk)
            &&& contains_key(room.items, w)
            &&& room.items[key_ix(room.items, w)].1 == x + y
        }),
{
    let rix = key_ix(s.rooms, rk);
    lemma_key_ix(s.rooms, rk);
    let items0 = s.rooms[rix].1.value.items;
    let s1 = spec_apply(a1, s);
    let items1 = spec_bump_items(items0, w, x);
    assert(items1 == items0.push((w, x)));
    assert(s1.rooms == spec_apply_modify(s.rooms, rk, w, x));
    assert(s1.rooms[rix].1.value.items == items1);
    assert(forall|j: int| 0 <= j < rix ==> s1.rooms[j].0 == s.rooms[j].0);
    assert(s1.rooms[rix].0 == rk);
    lemma_key_ix_unique(s1.rooms, rk, rix);
    let wix = items0.len() as int;
    assert(items1[wix].0 == w);
    assert(forall|j: int| 0 <= j < wix ==> items1[j].0 == items0[j].0);
    lemma_key_ix_unique(items1, w, wix);
    let s2 = spec_apply(a2, s1);
    let items2 = spec_bump_items(items1, w, y);
    assert(items2 == items1.update(wix, (w, crate::span::cap_add(x as int, y as int) as usize)));
    assert(s2.rooms[rix].1.value.items == items2);
    assert(forall|j: int| 0 <= j < rix ==> s2.rooms[j].0 == s1.rooms[j].0);
    assert(s2.rooms[rix].0 == rk);
    lemma_key_ix_unique(s2.rooms, rk, rix);
    assert(items2[wix].0 == w);
    assert(forall|j: int| 0 <= j < wix ==> items2[j].0 == items1[j].0);
    lemma_key_ix_unique(items2, w, wix);
    assert(items2[wix].1 == x + y);
}

/// The operator of a `Modify` action; arbitrary for `Goto`.
pub open spec fn spec_action_operator(a: ActionV) -> SpannedV<crate::action::Operator> {
    match a {
        ActionV::Modify { operator, .. } => operator,
        ActionV::Goto(_) => arbitrary(),
    }
}

pub open spec fn spec_action_amount(a: ActionV) -> SpannedV<usize> {
    match a {
        ActionV::Modify { amount, .. } => amount,
        ActionV::Goto(_) => arbitrary(),
    }
}

pub open spec fn spec_action_what(a: ActionV) -> SpannedV<Seq<char>> {
    match a {
        ActionV::Modify { what, .. } => what,
        ActionV::Goto(_) => arbitrary(),
    }
}

pub open spec fn spec_action_room(a: ActionV) -> SpannedV<Seq<char>> {
    match a {
        ActionV::Modify { room, .. } => room,
        ActionV::Goto(_) => arbitrary(),
    }
}

} // verus!
