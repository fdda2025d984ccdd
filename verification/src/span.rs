//! Source locations and location-carrying values, counted by character.

use vstd::prelude::*;
use vstd::string::{StrSliceExecFns, StringExecFns};

use crate::comments::{
    commented_views, pair_comment_lines, spec_pair_lines, Commented,
};
use crate::errors::GrammarError;
use crate::text::{
    contains_char, first_ix, first_not, is_alnum, is_alnum_char, is_number_text, is_operator_sigil,
    is_sigil_char, is_space, is_space_char, lemma_first_ix, lemma_first_not, lemma_trim_end_take,
    number_val, parse_decimal, space_pred, trim_end_spec, trim_start_spec,
};

verus! {

/// The mathematical shadow of a [`Span`].
pub struct SpanV {
    pub file: Seq<char>,
    pub line_start: int,
    pub line_end: int,
    pub col_start: int,
    pub col_end: int,
}

/// A source range: file name plus 1-based line and column bounds. The
/// all-zero, nameless span is the dummy that marks synthesized content.
#[derive(Debug)]
pub struct Span {
    pub file: String,
    pub line_start: usize,
    pub line_end: usize,
    pub col_start: usize,
    pub col_end: usize,
}

impl View for Span {
    type V = SpanV;

    open spec fn view(&self) -> SpanV {
        SpanV {
            file: self.file@,
            line_start: self.line_start as int,
            line_end: self.line_end as int,
            col_start: self.col_start as int,
            col_end: self.col_end as int,
        }
    }
}

impl Span {
    /// The span of synthesized content.
    pub open spec fn dummy_spec() -> SpanV {
        SpanV { file: Seq::<char>::empty(), line_start: 0, line_end: 0, col_start: 0, col_end: 0 }
    }

    pub fn is_dummy(&self) -> (r: bool)
        ensures
            r == (self@ == Span::dummy_spec()),
    {
        let r = self.file.as_str().is_empty() && self.line_start == 0 && self.line_end == 0
            && self.col_start == 0 && self.col_end == 0;
        proof {
            if self.file@.len() == 0 {
                assert(self.file@ =~= Seq::<char>::empty());
            }
            if self@ == Span::dummy_spec() {
                assert(self.file@.len() == 0);
            }
        }
        r
    }

    /// A fresh copy naming the same range.
    pub fn duplicate(&self) -> (r: Span)
        ensures
            r@ == self@,
    {
        Span {
            file: self.file.clone(),
            line_start: self.line_start,
            line_end: self.line_end,
            col_start: self.col_start,
            col_end: self.col_end,
        }
    }
}

impl Default for Span {
    /// The dummy span.
    fn default() -> (r: Span)
        ensures
            r@ == Span::dummy_spec(),
    {
        Span { file: String::new(), line_start: 0, line_end: 0, col_start: 0, col_end: 0 }
    }
}

/// The mathematical shadow of a [`Spanned`] value.
pub struct SpannedV<T> {
    pub span: SpanV,
    pub content: T,
}

/// A payload tied to the source range it came from.
#[derive(Debug)]
pub struct Spanned<T> {
    pub span: Span,
    pub content: T,
}

impl<T: View> View for Spanned<T> {
    type V = SpannedV<T::V>;

    open spec fn view(&self) -> SpannedV<T::V> {
        SpannedV { span: self.span@, content: self.content@ }
    }
}

impl<T> Spanned<T> {
    /// Wraps synthesized content in the dummy span.
    pub fn dummy(content: T) -> (r: Self)
        ensures
            r.span@ == Span::dummy_spec(),
            r.content == content,
    {
        Self { span: Span::default(), content }
    }

    /// Transforms the payload, keeping the span.
    pub fn map<U, F: FnOnce(T) -> U>(self, f: F) -> (r: Spanned<U>)
        requires
            call_requires(f, (self.content,)),
        ensures
            r.span == self.span,
            call_ensures(f, (self.content,), r.content),
    {
        let Spanned { span, content } = self;
        let content = f(content);
        Spanned { span, content }
    }

    /// Borrows the payload, keeping a copy of the span.
    pub fn as_ref(&self) -> (r: Spanned<&T>)
        ensures
            r.span@ == self.span@,
            r.content == &self.content,
    {
        Spanned { span: self.span.duplicate(), content: &self.content }
    }
}

/// Which class of characters a [`Spanned::take_while`] split runs over.
#[derive(Clone, Copy, Debug, PartialEq, Eq, Structural)]
pub enum CharPred {
    Alphanumeric,
    OperatorSigil,
}

pub open spec fn char_pred_of(p: CharPred) -> spec_fn(char) -> bool {
    match p {
        CharPred::Alphanumeric => crate::text::alnum_pred(),
        CharPred::OperatorSigil => crate::text::sigil_pred(),
    }
}

fn char_sat_exec(p: CharPred, c: char) -> (r: bool)
    ensures
        r == char_pred_of(p)(c),
{
    match p {
        CharPred::Alphanumeric => is_alnum(c),
        CharPred::OperatorSigil => is_operator_sigil(c),
    }
}

/// Column positions move by whole character counts but never past the ends
/// of `usize`.
pub open spec fn cap_add(a: int, b: int) -> int {
    if a + b <= usize::MAX {
        a + b
    } else {
        usize::MAX as int
    }
}

pub open spec fn cap_sub(a: int, b: int) -> int {
    if a >= b {
        a - b
    } else {
        0
    }
}

/// The two halves of a split at the first occurrence of `d`, spans included.
pub open spec fn sv_split_once(s: SpannedV<Seq<char>>, d: char) -> Option<
    (SpannedV<Seq<char>>, SpannedV<Seq<char>>),
> {
    if contains_char(s.content, d) {
        let ix = first_ix(s.content, d);
        Some(
            (
                SpannedV {
                    span: SpanV { col_end: cap_sub(s.span.col_end, s.content.len() - ix - 1), ..s.span },
                    content: s.content.take(ix),
                },
                SpannedV {
                    span: SpanV { col_start: cap_add(s.span.col_start, ix + 1), ..s.span },
                    content: s.content.skip(ix + 1),
                },
            ),
        )
    } else {
        None
    }
}

/// The split before the first character failing `p`; `None` when every
/// character passes. The two halves partition the column range.
pub open spec fn sv_take_while(s: SpannedV<Seq<char>>, p: spec_fn(char) -> bool) -> Option<
    (SpannedV<Seq<char>>, SpannedV<Seq<char>>),
> {
    let ix = first_not(s.content, p);
    if ix < s.content.len() {
        Some(
            (
                SpannedV {
                    span: SpanV { col_end: cap_sub(s.span.col_end, s.content.len() - ix), ..s.span },
                    content: s.content.take(ix),
                },
                SpannedV {
                    span: SpanV { col_start: cap_add(s.span.col_start, ix), ..s.span },
                    content: s.content.skip(ix),
                },
            ),
        )
    } else {
        None
    }
}

pub open spec fn sv_trim_start(s: SpannedV<Seq<char>>) -> SpannedV<Seq<char>> {
    SpannedV {
        span: SpanV {
            col_start: cap_add(s.span.col_start, s.content.len() - trim_start_spec(s.content).len()),
            ..s.span
        },
        content: trim_start_spec(s.content),
    }
}

pub open spec fn sv_trim_end(s: SpannedV<Seq<char>>) -> SpannedV<Seq<char>> {
    SpannedV {
        span: SpanV {
            col_end: cap_sub(s.span.col_end, s.content.len() - trim_end_spec(s.content).len()),
            ..s.span
        },
        content: trim_end_spec(s.content),
    }
}

pub open spec fn sv_trim(s: SpannedV<Seq<char>>) -> SpannedV<Seq<char>> {
    sv_trim_end(sv_trim_start(s))
}

/// What is left after `prefix`, when the text starts with it.
pub open spec fn sv_strip_prefix(s: SpannedV<Seq<char>>, prefix: Seq<char>) -> Option<
    SpannedV<Seq<char>>,
> {
    if prefix.len() <= s.content.len() && s.content.take(prefix.len() as int) == prefix {
        Some(
            SpannedV {
                span: SpanV { col_start: cap_add(s.span.col_start, prefix.len() as int), ..s.span },
                content: s.content.skip(prefix.len() as int),
            },
        )
    } else {
        None
    }
}

impl Spanned<String> {
    /// Splits at the first occurrence of `delimiter`: the text before it and
    /// the text after it, with the column range shared out as the source
    /// positions dictate.
    pub fn split_once(&self, delimiter: char) -> (r: Option<(Spanned<String>, Spanned<String>)>)
        ensures
            match r {
                Some(p) => {
                    let ix = first_ix(self.content@, delimiter);
                    &&& contains_char(self.content@, delimiter)
                    &&& p.0.content@ == self.content@.take(ix)
                    &&& p.1.content@ == self.content@.skip(ix + 1)
                    &&& p.0.span@ == (SpanV {
                        col_end: cap_sub(self.span@.col_end, self.content@.len() - ix - 1),
                        ..self.span@
                    })
                    &&& p.1.span@ == (SpanV {
                        col_start: cap_add(self.span@.col_start, ix + 1),
                        ..self.span@
                    })
                },
                None => !contains_char(self.content@, delimiter),
            },
            match r {
                Some(p) => Some((p.0@, p.1@)) == sv_split_once(self@, delimiter),
                None => sv_split_once(self@, delimiter) is None,
            },
    {
        let s = self.content.as_str();
        let len = s.unicode_len();
        let mut i: usize = 0;
        while i < len
            invariant
                i <= len,
                len == self.content@.len(),
                s@ == self.content@,
                forall|j: int| 0 <= j < i ==> self.content@[j] != delimiter,
            decreases len - i,
        {
            if s.get_char(i) == delimiter {
                let ix = i;
                proof {
                    lemma_first_ix(self.content@, delimiter);
                }
                assert(first_ix(self.content@, delimiter) == ix);
                let left = s.substring_char(0, ix).to_owned();
                let right = s.substring_char(ix + 1, len).to_owned();
                assert(left@ =~= self.content@.take(ix as int));
                assert(right@ =~= self.content@.skip(ix + 1));
                let a = Spanned {
                    span: Span {
                        col_end: self.span.col_end.saturating_sub(len - ix - 1),
                        ..self.span.duplicate()
                    },
                    content: left,
                };
                let b = Spanned {
                    span: Span {
                        col_start: self.span.col_start.saturating_add(ix + 1),
                        ..self.span.duplicate()
                    },
                    content: right,
                };
                return Some((a, b));
            }
            i = i + 1;
        }
        proof {
            lemma_first_ix(self.content@, delimiter);
        }
        None
    }

    /// Splits after the first `pos` characters; the two sub-spans partition
    /// the original column range, the right one starting at the split point.
    pub fn split_at(&self, pos: usize) -> (r: (Spanned<String>, Spanned<String>))
        requires
            pos <= self.content@.len(),
        ensures
            r.0.content@ == self.content@.take(pos as int),
            r.1.content@ == self.content@.skip(pos as int),
            r.0.span@ == (SpanV {
                col_end: cap_sub(self.span@.col_end, self.content@.len() - pos),
                ..self.span@
            }),
            r.1.span@ == (SpanV { col_start: cap_add(self.span@.col_start, pos as int), ..self.span@ }),
    {
        let s = self.content.as_str();
        let len = s.unicode_len();
        let left = s.substring_char(0, pos).to_owned();
        let right = s.substring_char(pos, len).to_owned();
        assert(left@ =~= self.content@.take(pos as int));
        assert(right@ =~= self.content@.skip(pos as int));
        let a = Spanned {
            span: Span {
                col_end: self.span.col_end.saturating_sub(len - pos),
                ..self.span.duplicate()
            },
            content: left,
        };
        let b = Spanned {
            span: Span {
                col_start: self.span.col_start.saturating_add(pos),
                ..self.span.duplicate()
            },
            content: right,
        };
        (a, b)
    }

    /// Splits before the first character outside the class, partitioning the
    /// column range; `None` when every character, if any, is inside it.
    pub fn take_while(&self, pred: CharPred) -> (r: Option<(Spanned<String>, Spanned<String>)>)
        ensures
            match r {
                Some(p) => {
                    let ix = first_not(self.content@, char_pred_of(pred));
                    &&& ix < self.content@.len()
                    &&& p.0.content@ == self.content@.take(ix)
                    &&& p.1.content@ == self.content@.skip(ix)
                    &&& p.0.span@ == (SpanV {
                        col_end: cap_sub(self.span@.col_end, self.content@.len() - ix),
                        ..self.span@
                    })
                    &&& p.1.span@ == (SpanV {
                        col_start: cap_add(self.span@.col_start, ix),
                        ..self.span@
                    })
                },
                None => forall|j: int|
                    0 <= j < self.content@.len() ==> char_pred_of(pred)(
                        #[trigger] self.content@[j],
                    ),
            },
            match r {
                Some(p) => Some((p.0@, p.1@)) == sv_take_while(self@, char_pred_of(pred)),
                None => sv_take_while(self@, char_pred_of(pred)) is None,
            },
    {
        let s = self.content.as_str();
        let len = s.unicode_len();
        let mut i: usize = 0;
        while i < len
            invariant
                i <= len,
                len == self.content@.len(),
                s@ == self.content@,
                forall|j: int| 0 <= j < i ==> char_pred_of(pred)(#[trigger] self.content@[j]),
            decreases len - i,
        {
            if !char_sat_exec(pred, s.get_char(i)) {
                proof {
                    lemma_first_not(self.content@, char_pred_of(pred));
                }
                assert(first_not(self.content@, char_pred_of(pred)) == i);
                return Some(self.split_at(i));
            }
            i = i + 1;
        }
        proof {
            lemma_first_not(self.content@, char_pred_of(pred));
        }
        None
    }

    /// Drops trailing white space, shrinking the column end by the characters
    /// removed.
    pub fn trim_end(&self) -> (r: Spanned<String>)
        ensures
            r.content@ == trim_end_spec(self.content@),
            r.span@ == (SpanV {
                col_end: cap_sub(
                    self.span@.col_end,
                    self.content@.len() - trim_end_spec(self.content@).len(),
                ),
                ..self.span@
            }),
            r@ == sv_trim_end(self@),
    {
        let s = self.content.as_str();
        let len = s.unicode_len();
        let mut k = len;
        proof {
            lemma_trim_end_take(self.content@);
        }
        while k > 0 && is_space(s.get_char(k - 1))
            invariant
                k <= len,
                len == self.content@.len(),
                s@ == self.content@,
                trim_end_spec(self.content@).len() <= k,
                forall|j: int| k <= j < len ==> is_space_char(#[trigger] self.content@[j]),
            decreases k,
        {
            proof {
                lemma_trim_end_take(self.content@);
            }
            k = k - 1;
        }
        proof {
            lemma_trim_end_take(self.content@);
        }
        assert(k == trim_end_spec(self.content@).len());
        let content = s.substring_char(0, k).to_owned();
        assert(content@ =~= self.content@.take(k as int));
        Spanned {
            span: Span { col_end: self.span.col_end.saturating_sub(len - k), ..self.span.duplicate() },
            content,
        }
    }

    /// Drops leading white space, advancing the column start by the
    /// characters removed.
    pub fn trim_start(&self) -> (r: Spanned<String>)
        ensures
            r.content@ == trim_start_spec(self.content@),
            r.span@ == (SpanV {
                col_start: cap_add(
                    self.span@.col_start,
                    self.content@.len() - trim_start_spec(self.content@).len(),
                ),
                ..self.span@
            }),
            r@ == sv_trim_start(self@),
    {
        let s = self.content.as_str();
        let len = s.unicode_len();
        let mut i: usize = 0;
        proof {
            lemma_first_not(self.content@, space_pred());
        }
        while i < len && is_space(s.get_char(i))
            invariant
                i <= len,
                len == self.content@.len(),
                s@ == self.content@,
                i <= first_not(self.content@, space_pred()),
                forall|j: int| 0 <= j < i ==> is_space_char(#[trigger] self.content@[j]),
            decreases len - i,
        {
            i = i + 1;
            proof {
                lemma_first_not(self.content@, space_pred());
                if first_not(self.content@, space_pred()) < i {
                    assert(!is_space_char(self.content@[first_not(self.content@, space_pred())]));
                }
            }
        }
        proof {
            lemma_first_not(self.content@, space_pred());
        }
        assert(i == first_not(self.content@, space_pred()));
        let content = s.substring_char(i, len).to_owned();
        assert(content@ =~= self.content@.skip(i as int));
        assert(trim_start_spec(self.content@) == self.content@.skip(i as int));
        Spanned {
            span: Span { col_start: self.span.col_start.saturating_add(i), ..self.span.duplicate() },
            content,
        }
    }

    /// Drops white space at both ends.
    pub fn trim(&self) -> (r: Spanned<String>)
        ensures
            r.content@ == trim_end_spec(trim_start_spec(self.content@)),
            r@ == sv_trim(self@),
    {
        self.trim_start().trim_end()
    }

    pub fn is_empty(&self) -> (r: bool)
        ensures
            r == (self.content@.len() == 0),
    {
        self.content.as_str().is_empty()
    }

    pub fn starts_with(&self, pat: &str) -> (r: bool)
        ensures
            r == (pat@.len() <= self.content@.len() && self.content@.take(pat@.len() as int)
                == pat@),
    {
        let s = self.content.as_str();
        let len = s.unicode_len();
        let plen = pat.unicode_len();
        if plen > len {
            return false;
        }
        let mut i: usize = 0;
        while i < plen
            invariant
                i <= plen <= len,
                len == self.content@.len(),
                plen == pat@.len(),
                s@ == self.content@,
                forall|j: int| 0 <= j < i ==> self.content@[j] == pat@[j],
            decreases plen - i,
        {
            if s.get_char(i) != pat.get_char(i) {
                assert(self.content@.take(plen as int)[i as int] != pat@[i as int]);
                return false;
            }
            i = i + 1;
        }
        assert(self.content@.take(plen as int) =~= pat@);
        true
    }

    /// Strips `prefix` from the front, advancing the column start by its
    /// length; `None` when the text does not start with it.
    pub fn strip_prefix(&self, prefix: &str) -> (r: Option<Spanned<String>>)
        ensures
            match r {
                Some(rest) => {
                    &&& prefix@.len() <= self.content@.len()
                    &&& self.content@.take(prefix@.len() as int) == prefix@
                    &&& rest.content@ == self.content@.skip(prefix@.len() as int)
                    &&& rest.span@ == (SpanV {
                        col_start: cap_add(self.span@.col_start, prefix@.len() as int),
                        ..self.span@
                    })
                },
                None => !(prefix@.len() <= self.content@.len() && self.content@.take(
                    prefix@.len() as int,
                ) == prefix@),
            },
            match r {
                Some(rest) => Some(rest@) == sv_strip_prefix(self@, prefix@),
                None => sv_strip_prefix(self@, prefix@) is None,
            },
    {
        if !self.starts_with(prefix) {
            return None;
        }
        let s = self.content.as_str();
        let len = s.unicode_len();
        let plen = prefix.unicode_len();
        let content = s.substring_char(plen, len).to_owned();
        assert(content@ =~= self.content@.skip(plen as int));
        Some(
            Spanned {
                span: Span {
                    col_start: self.span.col_start.saturating_add(plen),
                    ..self.span.duplicate()
                },
                content,
            },
        )
    }

    /// Reads the payload as a decimal numeral; a failure is tagged with this
    /// value's span.
    pub fn parse(self) -> (r: Result<Spanned<usize>, GrammarError>)
        ensures
            match r {
                Ok(n) => {
                    &&& is_number_text(self.content@)
                    &&& number_val(self.content@) == n.content
                    &&& number_val(self.content@) <= usize::MAX
                    &&& n.span@ == self.span@
                },
                Err(e) => {
                    &&& !(is_number_text(self.content@) && number_val(self.content@) <= usize::MAX)
                    &&& e@ == (crate::errors::GrammarErrorV::MalformedNumber { span: self.span@ })
                },
            },
    {
        match parse_decimal(self.content.as_str()) {
            Some(v) => Ok(Spanned { span: self.span, content: v }),
            None => Err(GrammarError::MalformedNumber { span: self.span }),
        }
    }
}

use crate::text::strip_cr;

/// The span of one physical line: columns 1 through its character count.
pub open spec fn line_spanned(file: Seq<char>, line: int, content: Seq<char>) -> SpannedV<
    Seq<char>,
> {
    SpannedV {
        span: SpanV {
            file,
            line_start: line,
            line_end: line,
            col_start: 1,
            col_end: content.len() as int,
        },
        content,
    }
}

/// One spanned line per physical line of `s`, numbered from `line`.
pub open spec fn spec_raw_lines_from(file: Seq<char>, line: int, s: Seq<char>) -> Seq<
    SpannedV<Seq<char>>,
>
    decreases s.len(),
{
    if s.len() == 0 {
        Seq::empty()
    } else {
        let ix = first_ix(s, '\n');
        if 0 <= ix && ix < s.len() {
            seq![line_spanned(file, line, strip_cr(s.take(ix)))] + spec_raw_lines_from(
                file,
                line + 1,
                s.skip(ix + 1),
            )
        } else {
            seq![line_spanned(file, line, strip_cr(s))]
        }
    }
}

pub open spec fn spanned_views(s: Seq<Spanned<String>>) -> Seq<SpannedV<Seq<char>>> {
    s.map_values(|x: Spanned<String>| x@)
}

/// The comment-and-line pairs of a whole file.
pub open spec fn spec_lines(file: SpannedV<Seq<char>>, prefix: Seq<char>) -> Seq<
    crate::comments::CommentedV<SpannedV<Seq<char>>>,
> {
    spec_pair_lines(
        spec_raw_lines_from(file.span.file, file.span.line_start, file.content),
        None,
        prefix,
    )
}

impl Spanned<String> {
    /// A fresh copy of the same spanned text.
    pub fn duplicate(&self) -> (r: Spanned<String>)
        ensures
            r@ == self@,
    {
        Spanned { span: self.span.duplicate(), content: self.content.clone() }
    }

    /// Splits the text into its physical lines, spans numbered from this
    /// value's first line.
    fn raw_lines(&self) -> (r: Vec<Spanned<String>>)
        requires
            self.span@.col_start == 1,
            self.span@.line_start + self.content@.len() <= usize::MAX,
        ensures
            spanned_views(r@) == spec_raw_lines_from(
                self.span@.file,
                self.span@.line_start,
                self.content@,
            ),
    {
        let s = self.content.as_str();
        let len = s.unicode_len();
        let mut out: Vec<Spanned<String>> = Vec::new();
        let mut pos: usize = 0;
        let mut line: usize = self.span.line_start;
        proof {
            assert(self.content@.skip(0) =~= self.content@);
            assert(spanned_views(out@) =~= Seq::empty());
        }
        while pos < len
            invariant
                pos <= len,
                len == self.content@.len(),
                s@ == self.content@,
                line <= self.span@.line_start + pos,
                self.span@.line_start + self.content@.len() <= usize::MAX,
                spec_raw_lines_from(self.span@.file, self.span@.line_start, self.content@)
                    == spanned_views(out@) + spec_raw_lines_from(
                    self.span@.file,
                    line as int,
                    self.content@.skip(pos as int),
                ),
            decreases len - pos,
        {
            let ghost suffix = self.content@.skip(pos as int);
            let mut j = pos;
            while j < len && s.get_char(j) != '\n'
                invariant
                    pos <= j <= len,
                    len == self.content@.len(),
                    s@ == self.content@,
                    forall|k: int| pos <= k < j ==> self.content@[k] != '\n',
                decreases len - j,
            {
                j = j + 1;
            }
            proof {
                lemma_first_ix(suffix, '\n');
                assert(forall|k: int| 0 <= k < j - pos ==> suffix[k] == self.content@[pos + k]);
                if j < len {
                    assert(suffix[j - pos] == '\n');
                    assert(first_ix(suffix, '\n') == j - pos);
                } else {
                    assert(forall|k: int| 0 <= k < suffix.len() ==> suffix[k] != '\n');
                    assert(first_ix(suffix, '\n') == suffix.len());
                }
            }
            let mut end = j;
            if end > pos && s.get_char(end - 1) == '\r' {
                end = end - 1;
            }
            let ghost segment = if j < len { suffix.take(j - pos) } else { suffix };
            proof {
                assert(segment =~= self.content@.subrange(pos as int, j as int));
                assert(strip_cr(segment) =~= self.content@.subrange(pos as int, end as int));
            }
            let piece = s.substring_char(pos, end).to_owned();
            assert(piece@ =~= self.content@.subrange(pos as int, end as int));
            let sp = Span {
                file: self.span.file.clone(),
                line_start: line,
                line_end: line,
                col_start: 1,
                col_end: end - pos,
            };
            out.push(Spanned { span: sp, content: piece });
            proof {
                let head = line_spanned(self.span@.file, line as int, strip_cr(segment));
                assert(out@.last()@ == head);
                assert(spanned_views(out@) =~= spanned_views(out@.drop_last()) + seq![head]);
                if j < len {
                    assert(suffix.skip(j - pos + 1) =~= self.content@.skip(j + 1));
                    assert(spec_raw_lines_from(self.span@.file, line as int, suffix) == seq![head]
                        + spec_raw_lines_from(
                        self.span@.file,
                        line + 1,
                        self.content@.skip(j + 1),
                    ));
                    assert((spanned_views(out@.drop_last()) + seq![head]) + spec_raw_lines_from(
                        self.span@.file,
                        line + 1,
                        self.content@.skip(j + 1),
                    ) =~= spanned_views(out@.drop_last()) + (seq![head] + spec_raw_lines_from(
                        self.span@.file,
                        line + 1,
                        self.content@.skip(j + 1),
                    )));
                } else {
                    assert(spec_raw_lines_from(self.span@.file, line as int, suffix) == seq![head]);
                    assert(self.content@.skip(len as int) =~= Seq::empty());
                    assert((spanned_views(out@.drop_last()) + seq![head]) + Seq::empty() =~= (
                    spanned_views(out@.drop_last()) + seq![head]));
                }
            }
            if j < len {
                pos = j + 1;
                line = line + 1;
            } else {
                pos = len;
            }
        }
        proof {
            assert(self.content@.skip(pos as int) =~= Seq::empty());
            assert(spec_raw_lines_from(self.span@.file, line as int, Seq::empty())
                == Seq::<SpannedV<Seq<char>>>::empty());
            assert(spanned_views(out@) + Seq::empty() =~= spanned_views(out@));
        }
        out
    }

    /// Splits the text into (leading comment, content line) pairs, one per
    /// non-comment physical line, in order; a trailing comment block with
    /// nothing to attach to is dropped.
    pub fn lines(&self, comment_prefix: &str) -> (r: Vec<Commented<Spanned<String>>>)
        requires
            self.span@.col_start == 1,
            self.span@.line_start + self.content@.len() <= usize::MAX,
        ensures
            commented_views(r@) == spec_lines(self@, comment_prefix@),
    {
        pair_comment_lines(self.raw_lines(), comment_prefix)
    }
}

/// How a span prints for diagnostics: `file:line:col line:col`, or the
/// dummy marker.
pub open spec fn spec_render_span(s: SpanV) -> Seq<char> {
    if s == Span::dummy_spec() {
        "DUMMY_SPAN"@
    } else {
        s.file + seq![':'] + crate::text::spec_digits(s.line_start) + seq![':']
            + crate::text::spec_digits(s.col_start) + seq![' '] + crate::text::spec_digits(
            s.line_end,
        ) + seq![':'] + crate::text::spec_digits(s.col_end)
    }
}

impl Span {
    /// Writes the span for a diagnostic message.
    pub fn render(&self) -> (r: String)
        ensures
            r@ == spec_render_span(self@),
    {
        if self.is_dummy() {
            let r = String::from_str("DUMMY_SPAN");
            return r;
        }
        proof {
            reveal_strlit(":");
            reveal_strlit(" ");
        }
        let mut out = self.file.clone();
        out.append(":");
        let d1 = crate::text::render_decimal(self.line_start);
        out.append(d1.as_str());
        out.append(":");
        let d2 = crate::text::render_decimal(self.col_start);
        out.append(d2.as_str());
        out.append(" ");
        let d3 = crate::text::render_decimal(self.line_end);
        out.append(d3.as_str());
        out.append(":");
        let d4 = crate::text::render_decimal(self.col_end);
        out.append(d4.as_str());
        proof {
            assert(out@ =~= spec_render_span(self@));
        }
        out
    }
}

} // verus!
