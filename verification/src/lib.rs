//! An interpreter and round-trip-preserving parser for a plain-text
//! interactive-fiction format: rooms linked by choices, with optional numeric
//! side effects and inline comments.

pub mod action;
pub mod choice;
pub mod comments;
pub mod errors;
pub mod laws;
pub mod map;
pub mod parsing;
pub mod room;
pub mod span;
pub mod story;
pub mod text;

pub use text::is_operator_sigil;
