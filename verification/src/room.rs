//! Rooms and their identifiers.

use vstd::prelude::*;

use crate::choice::{Choice, ChoiceV};
use crate::comments::{Commented, CommentedV};
use crate::map::SortedMap;
use crate::span::{Span, Spanned, SpannedV};
use vstd::string::StringExecFns;
use crate::choice::spec_render_choice;
use crate::comments::spec_render_comment;
use crate::text::{render_decimal, spec_digits};

verus! {

/// An opaque string identifier; display keeps the original text.
#[derive(Debug)]
pub struct RoomId(pub String);

impl View for RoomId {
    type V = Seq<char>;

    open spec fn view(&self) -> Seq<char> {
        self.0@
    }
}

impl RoomId {
    pub fn new(id: String) -> (r: Self)
        ensures
            r@ == id@,
    {
        Self(id)
    }

    pub fn id(&self) -> (r: &str)
        ensures
            r@ == self@,
    {
        self.0.as_str()
    }

    /// A fresh copy of the same identifier.
    pub fn duplicate(&self) -> (r: RoomId)
        ensures
            r@ == self@,
    {
        RoomId(self.0.clone())
    }
}

/// The mathematical shadow of a [`Room`].
pub struct RoomV {
    pub id: SpannedV<Seq<char>>,
    pub message: CommentedV<SpannedV<Seq<char>>>,
    pub choices: Seq<CommentedV<ChoiceV>>,
    pub items: Seq<(Seq<char>, usize)>,
}

pub open spec fn choice_views(s: Seq<Commented<Choice>>) -> Seq<CommentedV<ChoiceV>> {
    s.map_values(|c: Commented<Choice>| c@)
}

/// A node of the story graph: a message to show, choices leading on, and an
/// insertion-ordered item store.
#[derive(Debug)]
pub struct Room {
    pub id: Spanned<RoomId>,
    pub message: Commented<Spanned<String>>,
    pub choices: Vec<Commented<Choice>>,
    pub items: SortedMap<usize>,
}

impl View for Room {
    type V = RoomV;

    open spec fn view(&self) -> RoomV {
        RoomV {
            id: self.id@,
            message: self.message@,
            choices: choice_views(self.choices@),
            items: self.items@,
        }
    }
}

impl Room {
    /// Everything the id and message lines say; no choices, no items yet.
    pub fn new(id: Spanned<RoomId>, message: Commented<Spanned<String>>) -> (r: Self)
        ensures
            r@.id == id@,
            r@.message == message@,
            r@.choices == Seq::<CommentedV<ChoiceV>>::empty(),
            r@.items == Seq::<(Seq<char>, usize)>::empty(),
            r.wf(),
    {
        let r = Self { id, message, choices: Vec::new(), items: SortedMap::empty() };
        proof {
            assert(choice_views(r.choices@) =~= Seq::<CommentedV<ChoiceV>>::empty());
            assert(r.items@ =~= Seq::<(Seq<char>, usize)>::empty());
        }
        r
    }

    /// The item store keeps one entry per name.
    pub open spec fn wf(&self) -> bool {
        self.items.wf()
    }

    /// The room every dangling identifier resolves to.
    pub open spec fn abyss_spec() -> RoomV {
        RoomV {
            id: SpannedV { span: Span::dummy_spec(), content: "the abyss"@ },
            message: CommentedV {
                comment: crate::comments::Comment::empty_spec(),
                value: SpannedV {
                    span: Span::dummy_spec(),
                    content: "You fell off the end of the world"@,
                },
            },
            choices: Seq::empty(),
            items: Seq::empty(),
        }
    }
}

impl Default for Room {
    /// The abyss: the sentinel room that unknown-id lookups return.
    fn default() -> (r: Self)
        ensures
            r@ == Room::abyss_spec(),
            r.wf(),
    {
        let r = Room::new(
            Spanned::dummy(RoomId::new(String::from_str("the abyss"))),
            Commented::dummy(Spanned::dummy(String::from_str("You fell off the end of the world"))),
        );
        proof {
            assert(r@.id.span == Span::dummy_spec());
            assert(r@.message.comment == crate::comments::Comment::empty_spec());
        }
        r
    }
}

/// The choice lines of a room, each with its comment, one per line.
pub open spec fn spec_render_choice_list(cs: Seq<CommentedV<ChoiceV>>) -> Seq<char>
    decreases cs.len(),
{
    if cs.len() == 0 {
        Seq::empty()
    } else {
        spec_render_comment(cs[0].comment.content) + spec_render_choice(cs[0].value) + seq!['\n']
            + spec_render_choice_list(cs.skip(1))
    }
}

/// The item lines of a room: `name = amount`, one per line.
pub open spec fn spec_render_items(items: Seq<(Seq<char>, usize)>) -> Seq<char>
    decreases items.len(),
{
    if items.len() == 0 {
        Seq::empty()
    } else {
        items[0].0 + seq![' ', '=', ' '] + spec_digits(items[0].1 as int) + seq!['\n']
            + spec_render_items(items.skip(1))
    }
}

/// A whole room block: header, message with its comment, choices, items.
pub open spec fn spec_render_room(r: RoomV) -> Seq<char> {
    seq!['#', '#', ' '] + r.id.content + seq!['\n'] + spec_render_comment(r.message.comment.content)
        + r.message.value.content + seq!['\n'] + spec_render_choice_list(r.choices)
        + spec_render_items(r.items)
}

impl Room {
    /// Writes the room block back as the grammar reads it.
    pub fn render(&self) -> (r: String)
        requires
            self.wf(),
        ensures
            r@ == spec_render_room(self@),
    {
        proof {
            reveal_strlit("## ");
            reveal_strlit("\n");
            reveal_strlit(" = ");
        }
        let mut out = String::new();
        out.append("## ");
        out.append(self.id.content.id());
        out.append("\n");
        let mc = self.message.comment.render();
        out.append(mc.as_str());
        out.append(self.message.value.content.as_str());
        out.append("\n");
        let ghost header_part = out@;
        proof {
            assert(header_part =~= seq!['#', '#', ' '] + self@.id.content + seq!['\n']
                + spec_render_comment(self@.message.comment.content)
                + self@.message.value.content + seq!['\n']);
        }
        let mut i: usize = 0;
        let n = self.choices.len();
        proof {
            assert(self@.choices.skip(0) =~= self@.choices);
        }
        while i < n
            invariant
                i <= n,
                n == self@.choices.len(),
                self.wf(),
                header_part == (seq!['#', '#', ' '] + self@.id.content + seq!['\n']
                    + spec_render_comment(self@.message.comment.content)
                    + self@.message.value.content + seq!['\n']),
                header_part + spec_render_choice_list(self@.choices) == out@
                    + spec_render_choice_list(self@.choices.skip(i as int)),
            decreases n - i,
        {
            proof {
                reveal_strlit("\n");
            }
            let c = &self.choices[i];
            let ghost pre_out = out@;
            let cc = c.comment.render();
            out.append(cc.as_str());
            let cl = c.value.render();
            out.append(cl.as_str());
            out.append("\n");
            i = i + 1;
            proof {
                let cs = self@.choices;
                assert(cs.skip(i - 1)[0] == cs[i - 1]);
                assert(cs.skip(i - 1).skip(1) =~= cs.skip(i as int));
                assert(spec_render_choice_list(cs.skip(i - 1)) == spec_render_comment(
                    cs[i - 1].comment.content,
                ) + spec_render_choice(cs[i - 1].value) + seq!['\n'] + spec_render_choice_list(
                    cs.skip(i as int),
                ));
                assert(out@ =~= pre_out + (spec_render_comment(cs[i - 1].comment.content)
                    + spec_render_choice(cs[i - 1].value) + seq!['\n']));
                assert(pre_out + (spec_render_comment(cs[i - 1].comment.content)
                    + spec_render_choice(cs[i - 1].value) + seq!['\n']) + spec_render_choice_list(
                    cs.skip(i as int),
                ) =~= pre_out + spec_render_choice_list(cs.skip(i - 1)));
            }
        }
        proof {
            assert(self@.choices.skip(n as int) =~= Seq::<CommentedV<ChoiceV>>::empty());
            assert(out@ + Seq::<char>::empty() =~= out@);
            assert(out@ == header_part + spec_render_choice_list(self@.choices));
        }
        let ghost with_choices = out@;
        let mut k: usize = 0;
        let m = self.items.len();
        proof {
            assert(self@.items.skip(0) =~= self@.items);
        }
        while k < m
            invariant
                k <= m,
                m == self@.items.len(),
                self.wf(),
                with_choices + spec_render_items(self@.items) == out@ + spec_render_items(
                    self@.items.skip(k as int),
                ),
            decreases m - k,
        {
            proof {
                reveal_strlit(" = ");
                reveal_strlit("\n");
            }
            let ghost pre_out = out@;
            let name = self.items.key_at(k);
            out.append(name.as_str());
            out.append(" = ");
            let amount = self.items.value_at(k);
            let digits = render_decimal(*amount);
            out.append(digits.as_str());
            out.append("\n");
            k = k + 1;
            proof {
                let items = self@.items;
                assert(items.skip(k - 1)[0] == items[k - 1]);
                assert(items.skip(k - 1).skip(1) =~= items.skip(k as int));
                assert(spec_render_items(items.skip(k - 1)) == items[k - 1].0 + seq![' ', '=', ' ']
                    + spec_digits(items[k - 1].1 as int) + seq!['\n'] + spec_render_items(
                    items.skip(k as int),
                ));
                assert(out@ =~= pre_out + (items[k - 1].0 + seq![' ', '=', ' '] + spec_digits(
                    items[k - 1].1 as int,
                ) + seq!['\n']));
                assert(pre_out + (items[k - 1].0 + seq![' ', '=', ' '] + spec_digits(
                    items[k - 1].1 as int,
                ) + seq!['\n']) + spec_render_items(items.skip(k as int)) =~= pre_out
                    + spec_render_items(items.skip(k - 1)));
            }
        }
        proof {
            assert(self@.items.skip(m as int) =~= Seq::<(Seq<char>, usize)>::empty());
            assert(out@ + Seq::<char>::empty() =~= out@);
            assert(out@ =~= spec_render_room(self@));
        }
        out
    }
}

} // verus!
