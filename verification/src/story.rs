//! The assembled story graph and the state machine that walks it.

use vstd::prelude::*;

use crate::choice::{Choice, ChoiceV};
use crate::comments::{Comment, Commented, CommentedV};
use crate::errors::{ChooseError, DuplicateRoomError, LookupError};
use crate::map::{contains_key, key_ix, lemma_key_ix, SortedMap};
use crate::room::{Room, RoomId, RoomV};
use crate::comments::spec_render_comment;
use crate::room::{spec_render_room};
use crate::span::{Spanned, SpannedV};
use vstd::string::StringExecFns;

verus! {

/// The mathematical shadow of a [`Story`].
pub struct StoryV {
    pub main_comment: SpannedV<Seq<char>>,
    pub rooms: Seq<(Seq<char>, CommentedV<RoomV>)>,
    pub default_room: RoomV,
    pub room: SpannedV<Seq<char>>,
    pub choices: Seq<u8>,
}

/// Rooms in insertion order under unique ids, the comment of the starting
/// line, the current room id, and the history of taken choice indices.
#[derive(Debug)]
pub struct Story {
    pub main_comment: Comment,
    pub rooms: SortedMap<Commented<Room>>,
    pub default: Room,
    pub room: Spanned<RoomId>,
    pub choices: Vec<u8>,
}

impl View for Story {
    type V = StoryV;

    open spec fn view(&self) -> StoryV {
        StoryV {
            main_comment: self.main_comment@,
            rooms: self.rooms@,
            default_room: self.default@,
            room: self.room@,
            choices: self.choices@,
        }
    }
}

/// The room `id` resolves to: the stored room, or the default room when the
/// id is dangling.
pub open spec fn spec_lookup(s: StoryV, id: Seq<char>) -> RoomV {
    if contains_key(s.rooms, id) {
        s.rooms[key_ix(s.rooms, id)].1.value
    } else {
        s.default_room
    }
}

impl Story {
    /// Unique room ids, and every item store well formed.
    pub open spec fn wf(&self) -> bool {
        &&& self.rooms.wf()
        &&& self.default.wf()
        &&& forall|i: int|
            0 <= i < self.rooms.entries@.len() ==> (
            #[trigger] self.rooms.entries@[i]).value.wf()
    }

    /// A story with no rooms yet: the starting line's comment becomes the
    /// main comment and its text the current room id.
    pub fn new(first_room: Commented<Spanned<String>>) -> (r: Self)
        ensures
            r@.main_comment == first_room@.comment,
            r@.rooms == Seq::<(Seq<char>, CommentedV<RoomV>)>::empty(),
            r@.default_room == Room::abyss_spec(),
            r@.room == first_room@.value,
            r@.choices == Seq::<u8>::empty(),
            r.wf(),
    {
        let Commented { comment, value } = first_room;
        let r = Story {
            main_comment: comment,
            rooms: SortedMap::empty(),
            default: Room::default(),
            room: Spanned { span: value.span, content: RoomId::new(value.content) },
            choices: Vec::new(),
        };
        proof {
            assert(r@.choices =~= Seq::<u8>::empty());
        }
        r
    }

    /// Adds a parsed room under its id; a second room with the same id is
    /// refused, naming both definition sites.
    pub fn create_room(&mut self, room: Commented<Room>) -> (r: Result<(), DuplicateRoomError>)
        requires
            old(self).wf(),
            room.value.wf(),
        ensures
            final(self).wf(),
            match r {
                Ok(()) => {
                    &&& !contains_key(old(self)@.rooms, room@.value.id.content)
                    &&& final(self)@ == (StoryV {
                        rooms: old(self)@.rooms.push((room@.value.id.content, room@)),
                        ..old(self)@
                    })
                },
                Err(e) => {
                    &&& contains_key(old(self)@.rooms, room@.value.id.content)
                    &&& *final(self) == *old(self)
                    &&& e@.second == room@.value.id.span
                    &&& e@.first == old(self)@.rooms[key_ix(
                        old(self)@.rooms,
                        room@.value.id.content,
                    )].1.value.id.span
                },
            },
    {
        let key = room.value.id.content.0.clone();
        match self.rooms.get(&key) {
            Some(existing) => {
                proof {
                    lemma_key_ix(self@.rooms, key@);
                }
                let first = existing.value.id.span.duplicate();
                let second = room.value.id.span;
                Err(DuplicateRoomError { first, second })
            },
            None => {
                let ghost pre = self.rooms;
                match self.rooms.insert(key, room) {
                    Ok(()) => {
                        proof {
                            assert forall|i: int|
                                0 <= i < self.rooms.entries@.len() implies (
                            #[trigger] self.rooms.entries@[i]).value.wf() by {
                                if i < pre.entries@.len() {
                                    assert(self.rooms.entries@[i] == pre.entries@[i]);
                                }
                            }
                        }
                        Ok(())
                    },
                    Err(_) => vstd::pervasive::unreached(),
                }
            },
        }
    }

    /// The room an id resolves to; a dangling id yields the default room,
    /// which is never stored.
    pub fn lookup(&self, index: &RoomId) -> (r: &Room)
        requires
            self.wf(),
        ensures
            r@ == spec_lookup(self@, index@),
            r.wf(),
    {
        match self.rooms.get(&index.0) {
            Some(entry) => {
                proof {
                    lemma_key_ix(self@.rooms, index@);
                    assert(*entry == self.rooms.entries@[key_ix(self@.rooms, index@)]);
                }
                &entry.value
            },
            None => &self.default,
        }
    }

    /// The current room, through the same dangling-id resolution.
    pub fn room(&self) -> (r: &Room)
        requires
            self.wf(),
        ensures
            r@ == spec_lookup(self@, self@.room.content),
            r.wf(),
    {
        self.lookup(&self.room.content)
    }

    /// Applies the `idx`-th choice of the current room: an index without a
    /// choice behind it or one that does not fit the one-byte history leaves
    /// the story untouched; otherwise the index joins the history and the
    /// choice's action runs.
    pub fn select(&mut self, idx: usize) -> (r: Result<(), ChooseError>)
        requires
            old(self).wf(),
        ensures
            final(self).wf(),
            ({
                let cur = spec_lookup(old(self)@, old(self)@.room.content);
                let n = cur.choices.len();
                if idx >= n {
                    &&& r == Err::<(), ChooseError>(ChooseError::Lookup(
                        LookupError { chosen: idx, available: n as usize },
                    ))
                    &&& *final(self) == *old(self)
                } else if idx > 255 {
                    &&& r == Err::<(), ChooseError>(ChooseError::HistoryOverflow { chosen: idx })
                    &&& *final(self) == *old(self)
                } else {
                    &&& r == Ok::<(), ChooseError>(())
                    &&& final(self)@ == crate::choice::spec_apply(
                        cur.choices[idx as int].value.action,
                        StoryV { choices: old(self)@.choices.push(idx as u8), ..old(self)@ },
                    )
                }
            }),
    {
        let picked: Option<Commented<Choice>> = {
            let current = self.room();
            let n = current.choices.len();
            if idx >= n {
                return Err(ChooseError::Lookup(LookupError { chosen: idx, available: n }));
            }
            Some(current.choices[idx].duplicate_choice())
        };
        if idx > 255 {
            return Err(ChooseError::HistoryOverflow { chosen: idx });
        }
        self.choices.push(idx as u8);
        match picked {
            Some(chosen) => {
                chosen.apply(self);
            },
            None => (),
        }
        Ok(())
    }
}

/// The room blocks of a save, a blank line before each.
pub open spec fn spec_render_room_list(rs: Seq<(Seq<char>, CommentedV<RoomV>)>) -> Seq<char>
    decreases rs.len(),
{
    if rs.len() == 0 {
        Seq::empty()
    } else {
        seq!['\n'] + spec_render_comment(rs[0].1.comment.content) + spec_render_room(rs[0].1.value)
            + spec_render_room_list(rs.skip(1))
    }
}

/// A whole story as text: the main comment, the starting-room line, then
/// each room block in insertion order behind a blank line.
pub open spec fn spec_render_story(s: StoryV) -> Seq<char> {
    spec_render_comment(s.main_comment.content) + s.room.content + seq!['\n']
        + spec_render_room_list(s.rooms)
}

impl Story {
    /// Renders the story back to source text; re-parsing a parsed story's
    /// text yields the same graph.
    pub fn serialize(&self) -> (r: String)
        requires
            self.wf(),
        ensures
            r@ == spec_render_story(self@),
    {
        proof {
            reveal_strlit("\n");
        }
        let mut out = self.main_comment.render();
        out.append(self.room.content.id());
        out.append("\n");
        let ghost head = out@;
        proof {
            assert(head =~= spec_render_comment(self@.main_comment.content) + self@.room.content
                + seq!['\n']);
            assert(self@.rooms.skip(0) =~= self@.rooms);
        }
        let mut i: usize = 0;
        let n = self.rooms.len();
        while i < n
            invariant
                i <= n,
                n == self@.rooms.len(),
                self.wf(),
                head == (spec_render_comment(self@.main_comment.content) + self@.room.content
                    + seq!['\n']),
                head + spec_render_room_list(self@.rooms) == out@ + spec_render_room_list(
                    self@.rooms.skip(i as int),
                ),
            decreases n - i,
        {
            proof {
                reveal_strlit("\n");
            }
            let ghost pre_out = out@;
            let entry = self.rooms.value_at(i);
            out.append("\n");
            let cc = entry.comment.render();
            out.append(cc.as_str());
            let rr = entry.value.render();
            out.append(rr.as_str());
            i = i + 1;
            proof {
                let rs = self@.rooms;
                assert(rs.skip(i - 1)[0] == rs[i - 1]);
                assert(rs.skip(i - 1).skip(1) =~= rs.skip(i as int));
                assert(entry@ == rs[i - 1].1);
                assert(spec_render_room_list(rs.skip(i - 1)) == seq!['\n'] + spec_render_comment(
                    rs[i - 1].1.comment.content,
                ) + spec_render_room(rs[i - 1].1.value) + spec_render_room_list(rs.skip(i as int)));
                assert(out@ =~= pre_out + (seq!['\n'] + spec_render_comment(
                    rs[i - 1].1.comment.content,
                ) + spec_render_room(rs[i - 1].1.value)));
                assert(pre_out + (seq!['\n'] + spec_render_comment(rs[i - 1].1.comment.content)
                    + spec_render_room(rs[i - 1].1.value)) + spec_render_room_list(
                    rs.skip(i as int),
                ) =~= pre_out + spec_render_room_list(rs.skip(i - 1)));
            }
        }
        proof {
            assert(self@.rooms.skip(n as int) =~= Seq::<(Seq<char>, CommentedV<RoomV>)>::empty());
            assert(out@ + Seq::<char>::empty() =~= out@);
            assert(out@ =~= spec_render_story(self@));
        }
        out
    }
}

/// Dangling resolution: an id absent from the room table resolves to the
/// default room, at use time and never at parse time; a present id resolves
/// to the stored room.
pub proof fn lemma_dangling_resolution(s: StoryV, id: Seq<char>)
    ensures
        !contains_key(s.rooms, id) ==> spec_lookup(s, id) == s.default_room,
        contains_key(s.rooms, id) ==> spec_lookup(s, id) == s.rooms[key_ix(s.rooms, id)].1.value,
{
}

} // verus!
