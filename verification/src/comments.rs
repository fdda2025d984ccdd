//! Leading comments and the values they annotate.

use vstd::prelude::*;

use crate::span::{cap_add, Span, SpanV, Spanned, SpannedV};
use crate::text::{first_ix, lemma_first_ix, split_lines_plain, strip_cr, trim_start_spec};
use vstd::string::{StrSliceExecFns, StringExecFns};

verus! {

/// Zero or more `//`-prefixed lines immediately preceding an annotated line,
/// newline-joined; the absent comment is empty text under the dummy span.
#[derive(Debug)]
pub struct Comment(pub Spanned<String>);

impl View for Comment {
    type V = SpannedV<Seq<char>>;

    open spec fn view(&self) -> SpannedV<Seq<char>> {
        self.0@
    }
}

impl Comment {
    /// The absent comment.
    pub open spec fn empty_spec() -> SpannedV<Seq<char>> {
        SpannedV { span: Span::dummy_spec(), content: Seq::<char>::empty() }
    }

    pub fn new(text: Spanned<String>) -> (r: Self)
        ensures
            r@ == text@,
    {
        Self(text)
    }

    pub fn text(&self) -> (r: &str)
        ensures
            r@ == self@.content,
    {
        self.0.content.as_str()
    }

    /// Attaches this comment to a value.
    pub fn with<T>(self, value: T) -> (r: Commented<T>)
        ensures
            r.comment == self,
            r.value == value,
    {
        Commented { comment: self, value }
    }

    /// A fresh copy of the same comment.
    pub fn duplicate(&self) -> (r: Comment)
        ensures
            r@ == self@,
    {
        Comment(Spanned { span: self.0.span.duplicate(), content: self.0.content.clone() })
    }
}

impl Default for Comment {
    /// The absent comment.
    fn default() -> (r: Comment)
        ensures
            r@ == Comment::empty_spec(),
    {
        Comment(Spanned::dummy(String::new()))
    }
}

/// A payload plus its leading comment.
#[derive(Debug)]
pub struct Commented<T> {
    pub comment: Comment,
    pub value: T,
}

/// The mathematical shadow of a [`Commented`] value.
pub struct CommentedV<T> {
    pub comment: SpannedV<Seq<char>>,
    pub value: T,
}

impl<T: View> View for Commented<T> {
    type V = CommentedV<T::V>;

    open spec fn view(&self) -> CommentedV<T::V> {
        CommentedV { comment: self.comment@, value: self.value@ }
    }
}

impl<T> Commented<T> {
    /// Transforms the payload, keeping the comment.
    pub fn map<U, F: FnOnce(T) -> U>(self, f: F) -> (r: Commented<U>)
        requires
            call_requires(f, (self.value,)),
        ensures
            r.comment == self.comment,
            call_ensures(f, (self.value,), r.value),
    {
        let Commented { comment, value } = self;
        let value = f(value);
        Commented { comment, value }
    }

    /// Borrows the payload, keeping a copy of the comment.
    pub fn as_ref(&self) -> (r: Commented<&T>)
        ensures
            r.comment@ == self.comment@,
            r.value == &self.value,
    {
        Commented { comment: self.comment.duplicate(), value: &self.value }
    }

    /// Wraps a value with the absent comment.
    pub fn dummy(value: T) -> (r: Commented<T>)
        ensures
            r.comment@ == Comment::empty_spec(),
            r.value == value,
    {
        Self { comment: Comment::default(), value }
    }
}

impl Commented<Spanned<String>> {
    /// A fresh copy of the same commented line.
    pub fn duplicate(&self) -> (r: Commented<Spanned<String>>)
        ensures
            r@ == self@,
    {
        Commented { comment: self.comment.duplicate(), value: self.value.duplicate() }
    }
}

/// The comment a raw line contributes: its left-trimmed content must start
/// with the prefix, and what follows the prefix is the comment text, placed
/// at the column where it stands.
pub open spec fn spec_comment_of_line(l: SpannedV<Seq<char>>, prefix: Seq<char>) -> Option<
    SpannedV<Seq<char>>,
> {
    let t = trim_start_spec(l.content);
    let spaces = l.content.len() - t.len();
    if prefix.len() <= t.len() && t.take(prefix.len() as int) == prefix {
        Some(
            SpannedV {
                span: SpanV {
                    col_start: cap_add(cap_add(l.span.col_start, spaces), prefix.len() as int),
                    ..l.span
                },
                content: t.skip(prefix.len() as int),
            },
        )
    } else {
        None
    }
}

/// A further comment line joins the pending block: the text after a newline,
/// the span stretched to cover it.
pub open spec fn spec_comment_merge(
    pending: Option<SpannedV<Seq<char>>>,
    c: SpannedV<Seq<char>>,
) -> SpannedV<Seq<char>> {
    match pending {
        None => c,
        Some(a) => SpannedV {
            span: SpanV { line_end: c.span.line_end, col_end: c.span.col_end, ..a.span },
            content: a.content + seq!['\n'] + c.content,
        },
    }
}

pub open spec fn spec_pending_or_empty(pending: Option<SpannedV<Seq<char>>>) -> SpannedV<
    Seq<char>,
> {
    match pending {
        None => Comment::empty_spec(),
        Some(a) => a,
    }
}

/// Pairs each content line with the comment block gathered just above it; a
/// trailing comment block with no line to annotate is dropped.
pub open spec fn spec_pair_lines(
    lines: Seq<SpannedV<Seq<char>>>,
    pending: Option<SpannedV<Seq<char>>>,
    prefix: Seq<char>,
) -> Seq<CommentedV<SpannedV<Seq<char>>>>
    decreases lines.len(),
{
    if lines.len() == 0 {
        Seq::empty()
    } else {
        let l = lines[0];
        match spec_comment_of_line(l, prefix) {
            Some(c) => spec_pair_lines(lines.skip(1), Some(spec_comment_merge(pending, c)), prefix),
            None => seq![CommentedV { comment: spec_pending_or_empty(pending), value: l }]
                + spec_pair_lines(lines.skip(1), None, prefix),
        }
    }
}

pub open spec fn commented_views(s: Seq<Commented<Spanned<String>>>) -> Seq<
    CommentedV<SpannedV<Seq<char>>>,
> {
    s.map_values(|x: Commented<Spanned<String>>| x@)
}

pub open spec fn opt_spanned_view(p: Option<Spanned<String>>) -> Option<SpannedV<Seq<char>>> {
    match p {
        None => None,
        Some(x) => Some(x@),
    }
}

/// Runs the comment accumulator over the raw lines: comment lines gather into
/// a pending block, each content line takes the block gathered above it.
pub fn pair_comment_lines(lines: Vec<Spanned<String>>, comment_prefix: &str) -> (r: Vec<
    Commented<Spanned<String>>,
>)
    ensures
        commented_views(r@) == spec_pair_lines(
            crate::span::spanned_views(lines@),
            None,
            comment_prefix@,
        ),
{
    let ghost all = crate::span::spanned_views(lines@);
    let mut rest = lines;
    let mut out: Vec<Commented<Spanned<String>>> = Vec::new();
    let mut pending: Option<Spanned<String>> = None;
    proof {
        assert(commented_views(out@) =~= Seq::empty());
        assert(Seq::empty() + spec_pair_lines(all, None, comment_prefix@) =~= spec_pair_lines(
            all,
            None,
            comment_prefix@,
        ));
    }
    while rest.len() > 0
        invariant
            spec_pair_lines(all, None, comment_prefix@) == commented_views(out@)
                + spec_pair_lines(
                crate::span::spanned_views(rest@),
                opt_spanned_view(pending),
                comment_prefix@,
            ),
        decreases rest.len(),
    {
        let ghost lv = crate::span::spanned_views(rest@);
        let line = rest.remove(0);
        proof {
            assert(crate::span::spanned_views(rest@) =~= lv.skip(1));
            assert(lv[0] == line@);
        }
        let t = line.trim_start();
        let prev = pending;
        pending = None;
        match t.strip_prefix(comment_prefix) {
            Some(c) => {
                proof {
                    assert(spec_comment_of_line(line@, comment_prefix@) == Some(c@));
                }
                let merged = match prev {
                    None => c,
                    Some(a) => {
                        let mut a = a;
                        a.span.line_end = c.span.line_end;
                        a.span.col_end = c.span.col_end;
                        a.content.append("\n");
                        a.content.append(c.content.as_str());
                        proof {
                            reveal_strlit("\n");
                            assert(a@.content =~= spec_comment_merge(
                                opt_spanned_view(prev),
                                c@,
                            ).content);
                        }
                        a
                    },
                };
                proof {
                    assert(merged@ == spec_comment_merge(opt_spanned_view(prev), c@));
                }
                pending = Some(merged);
            },
            None => {
                proof {
                    assert(spec_comment_of_line(line@, comment_prefix@) is None);
                }
                let comment = match prev {
                    None => Comment::default(),
                    Some(p) => Comment::new(p),
                };
                proof {
                    assert(comment@ == spec_pending_or_empty(opt_spanned_view(prev)));
                }
                out.push(comment.with(line));
                proof {
                    let head = CommentedV {
                        comment: spec_pending_or_empty(opt_spanned_view(prev)),
                        value: lv[0],
                    };
                    assert(out@.last()@ == head);
                    assert(commented_views(out@) =~= commented_views(out@.drop_last()) + seq![
                        head,
                    ]);
                    assert((commented_views(out@.drop_last()) + seq![head]) + spec_pair_lines(
                        lv.skip(1),
                        None,
                        comment_prefix@,
                    ) =~= commented_views(out@.drop_last()) + (seq![head] + spec_pair_lines(
                        lv.skip(1),
                        None,
                        comment_prefix@,
                    )));
                }
            },
        }
    }
    proof {
        assert(crate::span::spanned_views(rest@) =~= Seq::empty());
        assert(spec_pair_lines(
            Seq::empty(),
            opt_spanned_view(pending),
            comment_prefix@,
        ) =~= Seq::empty());
        assert(commented_views(out@) + Seq::empty() =~= commented_views(out@));
    }
    out
}

/// Each comment line rendered back as `//` plus its text plus a line break.
pub open spec fn spec_render_comment_lines(ls: Seq<Seq<char>>) -> Seq<char>
    decreases ls.len(),
{
    if ls.len() == 0 {
        Seq::empty()
    } else {
        seq!['/', '/'] + ls[0] + seq!['\n'] + spec_render_comment_lines(ls.skip(1))
    }
}

pub proof fn lemma_render_lines_cons(a: Seq<char>, rest: Seq<Seq<char>>)
    ensures
        spec_render_comment_lines(seq![a] + rest) == seq!['/', '/'] + a + seq!['\n']
            + spec_render_comment_lines(rest),
{
    let ls = seq![a] + rest;
    assert(ls[0] == a);
    assert(ls.skip(1) =~= rest);
}

/// How a comment block stands in a file: nothing for the absent comment.
pub open spec fn spec_render_comment(c: Seq<char>) -> Seq<char> {
    if c.len() == 0 {
        Seq::empty()
    } else {
        spec_render_comment_lines(split_lines_plain(c))
    }
}

impl Comment {
    /// Writes the comment block back, one `//` line per stored line.
    pub fn render(&self) -> (r: String)
        ensures
            r@ == spec_render_comment(self@.content),
    {
        let s = self.0.content.as_str();
        let len = s.unicode_len();
        let mut out = String::new();
        if len == 0 {
            return out;
        }
        let ghost whole = self.0.content@;
        let mut pos: usize = 0;
        proof {
            assert(whole.skip(0) =~= whole);
            assert(out@ + spec_render_comment_lines(split_lines_plain(whole))
                =~= spec_render_comment_lines(split_lines_plain(whole)));
        }
        while pos < len
            invariant
                pos <= len,
                len == whole.len(),
                s@ == whole,
                spec_render_comment_lines(split_lines_plain(whole)) == out@
                    + spec_render_comment_lines(split_lines_plain(whole.skip(pos as int))),
            decreases len - pos,
        {
            let ghost suffix = whole.skip(pos as int);
            let mut j = pos;
            while j < len && s.get_char(j) != '\n'
                invariant
                    pos <= j <= len,
                    len == whole.len(),
                    s@ == whole,
                    forall|k: int| pos <= k < j ==> whole[k] != '\n',
                decreases len - j,
            {
                j = j + 1;
            }
            proof {
                lemma_first_ix(suffix, '\n');
                assert(forall|k: int| 0 <= k < j - pos ==> suffix[k] == whole[pos + k]);
                if j < len {
                    assert(suffix[j - pos] == '\n');
                    assert(first_ix(suffix, '\n') == j - pos);
                } else {
                    assert(forall|k: int| 0 <= k < suffix.len() ==> suffix[k] != '\n');
                    assert(first_ix(suffix, '\n') == suffix.len());
                }
            }
            let mut end = j;
            if end > pos && s.get_char(end - 1) == '\r' {
                end = end - 1;
            }
            let ghost segment = if j < len { suffix.take(j - pos) } else { suffix };
            proof {
                assert(segment =~= whole.subrange(pos as int, j as int));
                assert(strip_cr(segment) =~= whole.subrange(pos as int, end as int));
            }
            let ghost pre_out = out@;
            proof {
                reveal_strlit("//");
                reveal_strlit("\n");
            }
            out.append("//");
            let piece = s.substring_char(pos, end);
            out.append(piece);
            out.append("\n");
            proof {
                assert(out@ =~= pre_out + (seq!['/', '/'] + strip_cr(segment) + seq!['\n']));
                if j < len {
                    assert(suffix.skip(j - pos + 1) =~= whole.skip(j + 1));
                    assert(split_lines_plain(suffix) == seq![strip_cr(segment)]
                        + split_lines_plain(whole.skip(j + 1)));
                    lemma_render_lines_cons(strip_cr(segment), split_lines_plain(whole.skip(j + 1)));
                    assert(pre_out + (seq!['/', '/'] + strip_cr(segment) + seq!['\n'])
                        + spec_render_comment_lines(split_lines_plain(whole.skip(j + 1))) =~= pre_out
                        + spec_render_comment_lines(split_lines_plain(suffix)));
                } else {
                    assert(split_lines_plain(suffix) == seq![strip_cr(segment)]);
                    assert(seq![strip_cr(segment)] =~= seq![strip_cr(segment)]
                        + Seq::<Seq<char>>::empty());
                    lemma_render_lines_cons(strip_cr(segment), Seq::<Seq<char>>::empty());
                    assert(whole.skip(len as int) =~= Seq::<char>::empty());
                    assert(pre_out + (seq!['/', '/'] + strip_cr(segment) + seq!['\n'])
                        =~= pre_out + spec_render_comment_lines(split_lines_plain(suffix)));
                }
            }
            if j < len {
                pos = j + 1;
            } else {
                pos = len;
            }
        }
        proof {
            assert(whole.skip(pos as int) =~= Seq::<char>::empty());
            assert(out@ + Seq::<char>::empty() =~= out@);
        }
        out
    }
}

} // verus!
