//! Lexical analysis of Fortran source text.

pub mod card_laws;
pub mod chars;
pub mod fixed;
pub mod fixed_laws;
pub mod form;
pub mod free;
pub mod free_laws;
pub mod keyword;
pub mod keyword_laws;
pub mod token;
pub mod unicode;

pub use crate::lexer::fixed::tokenize_fixed;
pub use crate::lexer::form::{detect_source_form, SourceForm};
pub use crate::lexer::free::Lexer;
pub use crate::lexer::keyword::{is_keyword, Keyword};
pub use crate::lexer::token::{LexError, Token, TokenKind};

use vstd::prelude::*;

verus! {

/// A place in a source file: line and column, both counted from one.
#[derive(Debug, Clone, Copy, PartialEq, Eq, Structural)]
pub struct Position {
    pub line: u32,
    pub col: u32,
}

/// A stretch of a source file.
#[derive(Debug, Clone, Copy, PartialEq, Eq, Structural)]
pub struct Span {
    pub file_id: u32,
    pub start: Position,
    pub end: Position,
}

} // verus!
