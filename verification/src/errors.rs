//! The errors the parser and the interpreter report.

use vstd::prelude::*;

use crate::span::{Span, SpanV};

verus! {

/// A grammar fault, fatal to parsing; each variant carries the offending span.
#[derive(Debug)]
pub enum GrammarError {
    /// The file holds no content line to name the starting room.
    MissingStartLine,
    /// The starting-room line is empty once trimmed.
    EmptyStartId { span: Span },
    /// The file ends before the line that must follow the starting room.
    MissingSeparatorLine { span: Span },
    /// The line after the starting room is not empty once trimmed.
    NonEmptySeparatorLine { span: Span },
    /// A comment stands right before the separator line and has no line to
    /// attach to.
    CommentBeforeSeparator { span: Span },
    /// A room block begins with something other than `##`.
    MalformedHeader { span: Span },
    /// A room header stands at the end of the file with no message line.
    TrailingHeader { span: Span },
    /// A `{` repetition marker never reaches its `}`.
    UnterminatedRepetition { span: Span },
    /// A `[` command never reaches its `]`.
    UnterminatedCommand { span: Span },
    /// A choice line without a command holds no `:`.
    MissingColon { span: Span },
    /// A command holds no `.` between room and item.
    MissingDot { span: Span },
    /// A command holds no item name after the `.`.
    MissingItemName { span: Span },
    /// An operator spelling outside the fixed table.
    UnknownOperator { span: Span, operator: String },
    /// A command with nothing after its operator.
    MissingAmount { span: Span },
    /// A numeral that does not parse or does not fit.
    MalformedNumber { span: Span },
}

pub enum GrammarErrorV {
    MissingStartLine,
    EmptyStartId { span: SpanV },
    MissingSeparatorLine { span: SpanV },
    NonEmptySeparatorLine { span: SpanV },
    CommentBeforeSeparator { span: SpanV },
    MalformedHeader { span: SpanV },
    TrailingHeader { span: SpanV },
    UnterminatedRepetition { span: SpanV },
    UnterminatedCommand { span: SpanV },
    MissingColon { span: SpanV },
    MissingDot { span: SpanV },
    MissingItemName { span: SpanV },
    UnknownOperator { span: SpanV, operator: Seq<char> },
    MissingAmount { span: SpanV },
    MalformedNumber { span: SpanV },
}

impl View for GrammarError {
    type V = GrammarErrorV;

    open spec fn view(&self) -> GrammarErrorV {
        match self {
            GrammarError::MissingStartLine => GrammarErrorV::MissingStartLine,
            GrammarError::EmptyStartId { span } => GrammarErrorV::EmptyStartId { span: span@ },
            GrammarError::MissingSeparatorLine { span } => GrammarErrorV::MissingSeparatorLine {
                span: span@,
            },
            GrammarError::NonEmptySeparatorLine { span } => GrammarErrorV::NonEmptySeparatorLine {
                span: span@,
            },
            GrammarError::CommentBeforeSeparator { span } => GrammarErrorV::CommentBeforeSeparator {
                span: span@,
            },
            GrammarError::MalformedHeader { span } => GrammarErrorV::MalformedHeader {
                span: span@,
            },
            GrammarError::TrailingHeader { span } => GrammarErrorV::TrailingHeader { span: span@ },
            GrammarError::UnterminatedRepetition { span } => GrammarErrorV::UnterminatedRepetition {
                span: span@,
            },
            GrammarError::UnterminatedCommand { span } => GrammarErrorV::UnterminatedCommand {
                span: span@,
            },
            GrammarError::MissingColon { span } => GrammarErrorV::MissingColon { span: span@ },
            GrammarError::MissingDot { span } => GrammarErrorV::MissingDot { span: span@ },
            GrammarError::MissingItemName { span } => GrammarErrorV::MissingItemName {
                span: span@,
            },
            GrammarError::UnknownOperator { span, operator } => GrammarErrorV::UnknownOperator {
                span: span@,
                operator: operator@,
            },
            GrammarError::MissingAmount { span } => GrammarErrorV::MissingAmount { span: span@ },
            GrammarError::MalformedNumber { span } => GrammarErrorV::MalformedNumber {
                span: span@,
            },
        }
    }
}

/// A room id defined twice; carries the spans of both definitions.
#[derive(Debug)]
pub struct DuplicateRoomError {
    pub first: Span,
    pub second: Span,
}

pub struct DuplicateRoomErrorV {
    pub first: SpanV,
    pub second: SpanV,
}

impl View for DuplicateRoomError {
    type V = DuplicateRoomErrorV;

    open spec fn view(&self) -> DuplicateRoomErrorV {
        DuplicateRoomErrorV { first: self.first@, second: self.second@ }
    }
}

/// Anything that can stop a parse.
#[derive(Debug)]
pub enum ParseError {
    Grammar(GrammarError),
    DuplicateRoom(DuplicateRoomError),
}

pub enum ParseErrorV {
    Grammar(GrammarErrorV),
    DuplicateRoom(DuplicateRoomErrorV),
}

impl View for ParseError {
    type V = ParseErrorV;

    open spec fn view(&self) -> ParseErrorV {
        match self {
            ParseError::Grammar(e) => ParseErrorV::Grammar(e@),
            ParseError::DuplicateRoom(e) => ParseErrorV::DuplicateRoom(e@),
        }
    }
}

/// A selection index with no choice behind it; the current room is left as it
/// was.
#[derive(Debug, PartialEq, Eq, Structural)]
pub struct LookupError {
    pub chosen: usize,
    pub available: usize,
}

impl View for LookupError {
    type V = LookupError;

    open spec fn view(&self) -> LookupError {
        *self
    }
}

/// What can stop a `choose` step.
#[derive(Debug, PartialEq, Eq, Structural)]
pub enum ChooseError {
    Lookup(LookupError),
    /// The chosen index does not fit in the one-byte history.
    HistoryOverflow { chosen: usize },
}

impl View for ChooseError {
    type V = ChooseError;

    open spec fn view(&self) -> ChooseError {
        *self
    }
}

} // verus!
