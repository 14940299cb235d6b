//! Tokens and lexical errors.

use crate::lexer::Span;
use crate::text::{dec, push_num, text};
use vstd::prelude::*;
use vstd::string::*;

verus! {

/// A token: its kind, its text, and where it stands.
#[derive(Debug, Clone, PartialEq)]
pub struct Token {
    pub kind: TokenKind,
    pub text: String,
    pub span: Span,
}

/// The kinds of token.
#[derive(Debug, Clone, PartialEq)]
pub enum TokenKind {
    /// `42`, `42_8`, `42_int64`.
    IntegerLiteral,
    /// `3.14`, `1.0d0`, `6.022e23`, `1.0_8`, `.5`, `5.`.
    RealLiteral,
    /// Text between quotes.
    StringLiteral,
    /// `B'1010'`, `O'777'`, `Z'FF'`.
    BozLiteral,
    /// `.true.`, `.false.`, with an optional kind.
    LogicalLiteral,
    /// A name, which may be a keyword.
    Identifier,
    Plus,
    Minus,
    Star,
    Slash,
    Power,
    Concat,
    Eq,
    Ne,
    Lt,
    Gt,
    Le,
    Ge,
    /// `.and.`, `.eq.` and so on, in lower case without the dots.
    DotOp(String),
    /// Another operator between dots, in lower case without the dots.
    DefinedOp(String),
    LParen,
    RParen,
    LBracket,
    RBracket,
    Comma,
    Colon,
    ColonColon,
    Semicolon,
    Percent,
    Arrow,
    Assign,
    /// `&` where it continues no line.
    Ampersand,
    Newline,
    Comment(String),
    Eof,
}

/// The model of a token kind.
pub enum KindModel {
    /// A kind without text.
    Plain(TokenKind),
    DotOp(Seq<char>),
    DefinedOp(Seq<char>),
    Comment(Seq<char>),
}

/// Is `k` the kind that `m` describes?
pub open spec fn kind_is(k: TokenKind, m: KindModel) -> bool {
    match m {
        KindModel::Plain(p) => k == p,
        KindModel::DotOp(s) => k matches TokenKind::DotOp(t) && t@ == s,
        KindModel::DefinedOp(s) => k matches TokenKind::DefinedOp(t) && t@ == s,
        KindModel::Comment(s) => k matches TokenKind::Comment(t) && t@ == s,
    }
}

/// How messages name a token kind.
pub open spec fn kind_text(k: TokenKind) -> Seq<char> {
    match k {
        TokenKind::IntegerLiteral => "integer literal"@,
        TokenKind::RealLiteral => "real literal"@,
        TokenKind::StringLiteral => "string literal"@,
        TokenKind::BozLiteral => "BOZ literal"@,
        TokenKind::LogicalLiteral => "logical literal"@,
        TokenKind::Identifier => "identifier"@,
        TokenKind::Plus => "+"@,
        TokenKind::Minus => "-"@,
        TokenKind::Star => "*"@,
        TokenKind::Slash => "/"@,
        TokenKind::Power => "**"@,
        TokenKind::Concat => "//"@,
        TokenKind::Eq => "=="@,
        TokenKind::Ne => "/="@,
        TokenKind::Lt => "<"@,
        TokenKind::Gt => ">"@,
        TokenKind::Le => "<="@,
        TokenKind::Ge => ">="@,
        TokenKind::DotOp(s) => "."@ + s@ + "."@,
        TokenKind::DefinedOp(s) => "."@ + s@ + "."@,
        TokenKind::LParen => "("@,
        TokenKind::RParen => ")"@,
        TokenKind::LBracket => "["@,
        TokenKind::RBracket => "]"@,
        TokenKind::Comma => ","@,
        TokenKind::Colon => ":"@,
        TokenKind::ColonColon => "::"@,
        TokenKind::Semicolon => ";"@,
        TokenKind::Percent => "%"@,
        TokenKind::Arrow => "=>"@,
        TokenKind::Assign => "="@,
        TokenKind::Ampersand => "&"@,
        TokenKind::Newline => "newline"@,
        TokenKind::Comment(_) => "comment"@,
        TokenKind::Eof => "end of file"@,
    }
}

impl TokenKind {
    /// How messages name the kind.
    pub fn display(&self) -> (r: String)
        ensures
            r@ == kind_text(*self),
    {
        match self {
            TokenKind::IntegerLiteral => text("integer literal"),
            TokenKind::RealLiteral => text("real literal"),
            TokenKind::StringLiteral => text("string literal"),
            TokenKind::BozLiteral => text("BOZ literal"),
            TokenKind::LogicalLiteral => text("logical literal"),
            TokenKind::Identifier => text("identifier"),
            TokenKind::Plus => text("+"),
            TokenKind::Minus => text("-"),
            TokenKind::Star => text("*"),
            TokenKind::Slash => text("/"),
            TokenKind::Power => text("**"),
            TokenKind::Concat => text("//"),
            TokenKind::Eq => text("=="),
            TokenKind::Ne => text("/="),
            TokenKind::Lt => text("<"),
            TokenKind::Gt => text(">"),
            TokenKind::Le => text("<="),
            TokenKind::Ge => text(">="),
            TokenKind::DotOp(s) | TokenKind::DefinedOp(s) => {
                let mut t = text(".");
                t.append(s.as_str());
                t.append(".");
                t
            },
            TokenKind::LParen => text("("),
            TokenKind::RParen => text(")"),
            TokenKind::LBracket => text("["),
            TokenKind::RBracket => text("]"),
            TokenKind::Comma => text(","),
            TokenKind::Colon => text(":"),
            TokenKind::ColonColon => text("::"),
            TokenKind::Semicolon => text(";"),
            TokenKind::Percent => text("%"),
            TokenKind::Arrow => text("=>"),
            TokenKind::Assign => text("="),
            TokenKind::Ampersand => text("&"),
            TokenKind::Newline => text("newline"),
            TokenKind::Comment(_) => text("comment"),
            TokenKind::Eof => text("end of file"),
        }
    }
}

/// A lexical error.
#[derive(Debug, Clone)]
pub struct LexError {
    pub span: Span,
    pub msg: String,
}

impl LexError {
    /// The error as one line of text.
    pub fn display(&self) -> (r: String)
        ensures
            r@ == dec(self.span.start.line as nat) + ":"@ + dec(self.span.start.col as nat)
                + ": error: "@ + self.msg@,
    {
        let mut s = crate::text::dec_text(self.span.start.line as u64);
        s.append(":");
        push_num(&mut s, self.span.start.col);
        s.append(": error: ");
        s.append(self.msg.as_str());
        s
    }
}

/// Is this an operator between dots that the language defines, or a logical
/// constant?
pub open spec fn known_dot_op(s: Seq<char>) -> bool {
    s == "and"@ || s == "or"@ || s == "not"@ || s == "eqv"@ || s == "neqv"@ || s == "eq"@ || s
        == "ne"@ || s == "lt"@ || s == "gt"@ || s == "le"@ || s == "ge"@ || s == "true"@ || s
        == "false"@
}

/// Is this, in lower case, an operator between dots that the language defines,
/// or a logical constant?
pub fn is_known_dot_op(name: &str) -> (r: bool)
    ensures
        r == known_dot_op(name@),
{
    crate::text::same_text(name, "and") || crate::text::same_text(name, "or")
        || crate::text::same_text(name, "not") || crate::text::same_text(name, "eqv")
        || crate::text::same_text(name, "neqv") || crate::text::same_text(name, "eq")
        || crate::text::same_text(name, "ne") || crate::text::same_text(name, "lt")
        || crate::text::same_text(name, "gt") || crate::text::same_text(name, "le")
        || crate::text::same_text(name, "ge") || crate::text::same_text(name, "true")
        || crate::text::same_text(name, "false")
}

} // verus!
