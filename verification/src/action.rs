//! What a choice does: pure navigation, or a numeric side effect.

use vstd::prelude::*;

use crate::room::RoomId;
use crate::span::{Spanned, SpannedV};
use crate::text::{render_decimal, spec_digits};
use vstd::string::{StrSliceExecFns, StringExecFns};

verus! {

/// The operator table of the command grammar; only `+=` is known.
#[derive(Clone, Copy, Debug, PartialEq, Eq, Structural)]
pub enum Operator {
    Add,
}

impl View for Operator {
    type V = Operator;

    open spec fn view(&self) -> Operator {
        *self
    }
}

impl Operator {
    /// The operator a run of sigils names, if any.
    pub open spec fn of_sigils_spec(s: Seq<char>) -> Option<Operator> {
        if s == seq!['+', '='] {
            Some(Operator::Add)
        } else {
            None
        }
    }

    pub fn of_sigils(s: &str) -> (r: Option<Operator>)
        ensures
            r == Operator::of_sigils_spec(s@),
    {
        let len = s.unicode_len();
        if len == 2 && s.get_char(0) == '+' && s.get_char(1) == '=' {
            assert(s@ =~= seq!['+', '=']);
            Some(Operator::Add)
        } else {
            proof {
                if s@ == seq!['+', '='] {
                    assert(s@.len() == 2 && s@[0] == '+' && s@[1] == '=');
                }
            }
            None
        }
    }

    /// How the operator is spelled.
    pub open spec fn render_spec(op: Operator) -> Seq<char> {
        seq!['+', '=']
    }

    pub fn render(&self) -> (r: &'static str)
        ensures
            r@ == Operator::render_spec(*self),
    {
        proof {
            reveal_strlit("+=");
        }
        let r = "+=";
        assert(r@ =~= seq!['+', '=']);
        r
    }
}

/// An operator names an operator and nothing else.
pub proof fn lemma_operator_round_trip(op: Operator)
    ensures
        Operator::of_sigils_spec(Operator::render_spec(op)) == Some(op),
{
}

/// The mathematical shadow of an [`Action`].
pub enum ActionV {
    Goto(SpannedV<Seq<char>>),
    Modify {
        operator: SpannedV<Operator>,
        amount: SpannedV<usize>,
        what: SpannedV<Seq<char>>,
        room: SpannedV<Seq<char>>,
    },
}

/// What taking a choice does: go to a room, or add to an item of a named
/// room.
#[derive(Debug)]
pub enum Action {
    Goto(Spanned<RoomId>),
    Modify {
        operator: Spanned<Operator>,
        amount: Spanned<usize>,
        what: Spanned<String>,
        room: Spanned<RoomId>,
    },
}

impl View for Action {
    type V = ActionV;

    open spec fn view(&self) -> ActionV {
        match self {
            Action::Goto(target) => ActionV::Goto(target@),
            Action::Modify { operator, amount, what, room } => ActionV::Modify {
                operator: operator@,
                amount: amount@,
                what: what@,
                room: room@,
            },
        }
    }
}

impl Action {
    /// A fresh copy of the same action.
    pub fn duplicate(&self) -> (r: Action)
        ensures
            r@ == self@,
    {
        match self {
            Action::Goto(target) => Action::Goto(
                Spanned { span: target.span.duplicate(), content: target.content.duplicate() },
            ),
            Action::Modify { operator, amount, what, room } => Action::Modify {
                operator: Spanned { span: operator.span.duplicate(), content: operator.content },
                amount: Spanned { span: amount.span.duplicate(), content: amount.content },
                what: Spanned { span: what.span.duplicate(), content: what.content.clone() },
                room: Spanned { span: room.span.duplicate(), content: room.content.duplicate() },
            },
        }
    }
}

/// How an action stands in a choice line, brackets left to the caller:
/// the target for `Goto`, `room.item += amount` for `Modify`.
pub open spec fn spec_render_action(a: ActionV) -> Seq<char> {
    match a {
        ActionV::Goto(target) => target.content,
        ActionV::Modify { operator, amount, what, room } => room.content + seq!['.'] + what.content
            + seq![' '] + Operator::render_spec(operator.content) + seq![' '] + spec_digits(
            amount.content as int,
        ),
    }
}

impl Action {
    /// Writes the action back as the command grammar reads it.
    pub fn render(&self) -> (r: String)
        ensures
            r@ == spec_render_action(self@),
    {
        match self {
            Action::Goto(target) => target.content.0.clone(),
            Action::Modify { operator, amount, what, room } => {
                proof {
                    reveal_strlit(".");
                    reveal_strlit(" ");
                }
                let mut out = String::new();
                out.append(room.content.id());
                out.append(".");
                out.append(what.content.as_str());
                out.append(" ");
                out.append(operator.content.render());
                out.append(" ");
                let digits = render_decimal(amount.content);
                out.append(digits.as_str());
                proof {
                    assert(out@ =~= spec_render_action(self@));
                }
                out
            },
        }
    }
}

} // verus!
