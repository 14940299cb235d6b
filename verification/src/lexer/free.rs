//! The lexer of free-form source.

use crate::lexer::chars::{
    alpha, byte_at, char_of, col_at, digit, is_alpha, is_digit, lemma_position_bounds,
    lemma_run_end, lemma_spelled_push, line_at, lower_byte, lower_text, position_at, run_end,
    span_of, spelled, to_lower, ByteClass,
};
use crate::lexer::token::{
    is_known_dot_op, kind_is, known_dot_op, KindModel, LexError, Token, TokenKind,
};
use crate::lexer::{Position, Span};
use crate::text::{same_text, text};
use vstd::prelude::*;
use vstd::string::*;

verus! {

/// What stands at a place of the source.
pub enum Scan {
    /// A token, and where it ends.
    Token { kind: KindModel, text: Seq<char>, end: int },
    /// No token: why, and where that shows.
    Fault { msg: Seq<char>, end: int },
}

impl Scan {
    /// Where it ends.
    pub open spec fn end_of(self) -> int {
        match self {
            Scan::Token { end, .. } => end,
            Scan::Fault { end, .. } => end,
        }
    }
}

/// Where a continuation that starts with the ampersand at `i` leads: behind
/// the line break, blanks, and a further ampersand.
///
/// Blanks and a comment may stand behind the ampersand.
pub open spec fn continuation(src: Seq<u8>, i: int) -> Option<int> {
    if byte_at(src, i) != 0x26 {
        None
    } else {
        let blanks = run_end(src, i + 1, ByteClass::Blank);
        let stop = if byte_at(src, blanks) == 0x21 {
            run_end(src, blanks, ByteClass::InLine)
        } else {
            blanks
        };
        if byte_at(src, stop) != 0x0a {
            None
        } else {
            let next = run_end(src, stop + 1, ByteClass::Blank);
            if byte_at(src, next) == 0x26 {
                Some(next + 1)
            } else {
                Some(next)
            }
        }
    }
}

/// A continuation leads forward, within the source.
pub proof fn lemma_continuation(src: Seq<u8>, i: int)
    requires
        0 <= i <= src.len(),
    ensures
        continuation(src, i) matches Some(q) ==> i + 1 < q <= src.len(),
{
    if byte_at(src, i) == 0x26 {
        lemma_run_end(src, i + 1, ByteClass::Blank);
        let blanks = run_end(src, i + 1, ByteClass::Blank);
        if byte_at(src, blanks) == 0x21 {
            lemma_run_end(src, blanks, ByteClass::InLine);
        }
        let stop = if byte_at(src, blanks) == 0x21 {
            run_end(src, blanks, ByteClass::InLine)
        } else {
            blanks
        };
        if byte_at(src, stop) == 0x0a {
            lemma_run_end(src, stop + 1, ByteClass::Blank);
        }
    }
}

/// Where the next token starts: behind blanks and continuations.
pub open spec fn skip_layout(src: Seq<u8>, i: int) -> int
    decreases src.len() - i,
    when 0 <= i <= src.len()
{
    proof {
        lemma_run_end(src, i, ByteClass::Blank);
        lemma_continuation(src, run_end(src, i, ByteClass::Blank));
    }
    let p = run_end(src, i, ByteClass::Blank);
    match continuation(src, p) {
        Some(q) => skip_layout(src, q),
        None => p,
    }
}

/// The next token starts within the source, or at its end.
pub proof fn lemma_skip_layout(src: Seq<u8>, i: int)
    requires
        0 <= i <= src.len(),
    ensures
        i <= skip_layout(src, i) <= src.len(),
    decreases src.len() - i,
{
    lemma_run_end(src, i, ByteClass::Blank);
    let p = run_end(src, i, ByteClass::Blank);
    lemma_continuation(src, p);
    if let Some(q) = continuation(src, p) {
        lemma_skip_layout(src, q);
    }
}

/// The rest of a string literal from `i`, where `sofar` has been read.
///
/// A doubled quote stands for a quote, and lines may be continued.
pub open spec fn scan_string(src: Seq<u8>, i: int, quote: u8, sofar: Seq<char>) -> Scan
    decreases src.len() - i,
    when 0 <= i <= src.len()
{
    proof {
        lemma_continuation(src, i);
    }
    match continuation(src, i) {
        Some(q) => scan_string(src, q, quote, sofar),
        None => if i >= src.len() || src[i] == 0x0a {
            Scan::Fault { msg: "unterminated string literal"@, end: i }
        } else {
            let text = sofar.push(char_of(src[i]));
            if src[i] != quote {
                scan_string(src, i + 1, quote, text)
            } else if byte_at(src, i + 1) == quote && i + 1 < src.len() {
                scan_string(src, i + 2, quote, text.push(char_of(quote)))
            } else {
                Scan::Token { kind: KindModel::Plain(TokenKind::StringLiteral), text, end: i + 1 }
            }
        },
    }
}

/// Does `b` open an exponent?
pub open spec fn is_exponent(b: u8) -> bool {
    b == 0x65 || b == 0x45 || b == 0x64 || b == 0x44
}

/// Is `b` a sign?
pub open spec fn is_sign(b: u8) -> bool {
    b == 0x2b || b == 0x2d
}

/// Does the dot at `dot` belong to the number that starts at `i`?
///
/// It does not in `1.eq.2` or `1.and.2`.
pub open spec fn dot_is_numeric(src: Seq<u8>, i: int, dot: int) -> bool {
    let next = byte_at(src, dot + 1);
    if i == dot || is_digit(next) {
        true
    } else if is_exponent(next) {
        is_digit(byte_at(src, dot + 2)) || is_sign(byte_at(src, dot + 2))
    } else {
        !is_alpha(next)
    }
}

/// Where the digits of a number and its fraction end.
pub open spec fn mantissa_end(src: Seq<u8>, i: int) -> int {
    let whole = run_end(src, i, ByteClass::Digit);
    if byte_at(src, whole) == 0x2e && dot_is_numeric(src, i, whole) {
        run_end(src, whole + 1, ByteClass::Digit)
    } else {
        whole
    }
}

/// Where the digits of an exponent start that opens at `i`.
pub open spec fn exponent_digits(src: Seq<u8>, i: int) -> int {
    if is_sign(byte_at(src, i + 1)) {
        i + 2
    } else {
        i + 1
    }
}

/// Where a kind suffix ends that may start at `i`.
pub open spec fn kind_suffix_end(src: Seq<u8>, i: int) -> int {
    if byte_at(src, i) != 0x5f {
        i
    } else if is_digit(byte_at(src, i + 1)) {
        run_end(src, i + 1, ByteClass::Digit)
    } else {
        run_end(src, i + 1, ByteClass::Word)
    }
}

/// The number that starts at `i`.
pub open spec fn scan_number(src: Seq<u8>, i: int) -> Scan {
    let m = mantissa_end(src, i);
    let whole = run_end(src, i, ByteClass::Digit);
    if is_exponent(byte_at(src, m)) {
        let d = exponent_digits(src, m);
        if !is_digit(byte_at(src, d)) {
            Scan::Fault { msg: "expected digits in exponent"@, end: d }
        } else {
            let end = kind_suffix_end(src, run_end(src, d, ByteClass::Digit));
            Scan::Token {
                kind: KindModel::Plain(TokenKind::RealLiteral),
                text: spelled(src, i, end),
                end,
            }
        }
    } else {
        let end = kind_suffix_end(src, m);
        Scan::Token {
            kind: KindModel::Plain(
                if m != whole {
                    TokenKind::RealLiteral
                } else {
                    TokenKind::IntegerLiteral
                },
            ),
            text: spelled(src, i, end),
            end,
        }
    }
}

/// Where the digits of a binary, octal or hexadecimal constant end.
pub open spec fn boz_end(src: Seq<u8>, i: int, quote: u8) -> int
    decreases src.len() - i,
{
    if 0 <= i < src.len() && src[i] != quote && src[i] != 0x0a {
        boz_end(src, i + 1, quote)
    } else {
        i
    }
}

/// The binary, octal or hexadecimal constant that starts at `i`.
pub open spec fn scan_boz(src: Seq<u8>, i: int) -> Scan {
    let quote = byte_at(src, i + 1);
    let end = boz_end(src, i + 2, quote);
    if end < src.len() && src[end] == quote {
        Scan::Token {
            kind: KindModel::Plain(TokenKind::BozLiteral),
            text: spelled(src, i, end + 1),
            end: end + 1,
        }
    } else {
        Scan::Fault { msg: "unterminated BOZ literal"@, end }
    }
}

/// The operator or logical constant between dots that starts at `i`.
pub open spec fn scan_dot(src: Seq<u8>, i: int) -> Scan {
    let stop = run_end(src, i + 1, ByteClass::Letter);
    let lower = lower_text(src.subrange(i + 1, stop));
    if stop == i + 1 {
        Scan::Fault { msg: "unexpected '.'"@, end: stop }
    } else if byte_at(src, stop) != 0x2e {
        Scan::Fault {
            msg: "expected closing '.' after ."@ + spelled(src, i + 1, stop),
            end: stop,
        }
    } else if lower == "true"@ || lower == "false"@ {
        let end = if byte_at(src, stop + 1) == 0x5f {
            run_end(src, stop + 2, ByteClass::Word)
        } else {
            stop + 1
        };
        Scan::Token {
            kind: KindModel::Plain(TokenKind::LogicalLiteral),
            text: spelled(src, i, end),
            end,
        }
    } else {
        Scan::Token {
            kind: if known_dot_op(lower) {
                KindModel::DotOp(lower)
            } else {
                KindModel::DefinedOp(lower)
            },
            text: spelled(src, i, stop + 1),
            end: stop + 1,
        }
    }
}

/// The operator or punctuation that two bytes spell, and how many it takes.
pub open spec fn punct_of(a: u8, b: u8) -> Option<(TokenKind, Seq<char>, int)> {
    if a == 0x2b {
        Some((TokenKind::Plus, "+"@, 1))
    } else if a == 0x2d {
        Some((TokenKind::Minus, "-"@, 1))
    } else if a == 0x2a {
        if b == 0x2a {
            Some((TokenKind::Power, "**"@, 2))
        } else {
            Some((TokenKind::Star, "*"@, 1))
        }
    } else if a == 0x2f {
        if b == 0x2f {
            Some((TokenKind::Concat, "//"@, 2))
        } else if b == 0x3d {
            Some((TokenKind::Ne, "/="@, 2))
        } else {
            Some((TokenKind::Slash, "/"@, 1))
        }
    } else if a == 0x3d {
        if b == 0x3d {
            Some((TokenKind::Eq, "=="@, 2))
        } else if b == 0x3e {
            Some((TokenKind::Arrow, "=>"@, 2))
        } else {
            Some((TokenKind::Assign, "="@, 1))
        }
    } else if a == 0x3c {
        if b == 0x3d {
            Some((TokenKind::Le, "<="@, 2))
        } else {
            Some((TokenKind::Lt, "<"@, 1))
        }
    } else if a == 0x3e {
        if b == 0x3d {
            Some((TokenKind::Ge, ">="@, 2))
        } else {
            Some((TokenKind::Gt, ">"@, 1))
        }
    } else if a == 0x28 {
        Some((TokenKind::LParen, "("@, 1))
    } else if a == 0x29 {
        Some((TokenKind::RParen, ")"@, 1))
    } else if a == 0x5b {
        Some((TokenKind::LBracket, "["@, 1))
    } else if a == 0x5d {
        Some((TokenKind::RBracket, "]"@, 1))
    } else if a == 0x2c {
        Some((TokenKind::Comma, ","@, 1))
    } else if a == 0x3a {
        if b == 0x3a {
            Some((TokenKind::ColonColon, "::"@, 2))
        } else {
            Some((TokenKind::Colon, ":"@, 1))
        }
    } else if a == 0x3b {
        Some((TokenKind::Semicolon, ";"@, 1))
    } else if a == 0x25 {
        Some((TokenKind::Percent, "%"@, 1))
    } else if a == 0x26 {
        Some((TokenKind::Ampersand, "&"@, 1))
    } else {
        None
    }
}

/// The operator or punctuation that starts with `a`, where `b` follows.
pub fn punct(a: u8, b: u8) -> (r: Option<(TokenKind, &'static str, usize)>)
    ensures
        match (r, punct_of(a, b)) {
            (Some((k, s, n)), Some((l, t, m))) => k == l && s@ == t && n == m,
            (None, None) => true,
            _ => false,
        },
{
    if a == 0x2b {
        Some((TokenKind::Plus, "+", 1))
    } else if a == 0x2d {
        Some((TokenKind::Minus, "-", 1))
    } else if a == 0x2a {
        if b == 0x2a {
            Some((TokenKind::Power, "**", 2))
        } else {
            Some((TokenKind::Star, "*", 1))
        }
    } else if a == 0x2f {
        if b == 0x2f {
            Some((TokenKind::Concat, "//", 2))
        } else if b == 0x3d {
            Some((TokenKind::Ne, "/=", 2))
        } else {
            Some((TokenKind::Slash, "/", 1))
        }
    } else if a == 0x3d {
        if b == 0x3d {
            Some((TokenKind::Eq, "==", 2))
        } else if b == 0x3e {
            Some((TokenKind::Arrow, "=>", 2))
        } else {
            Some((TokenKind::Assign, "=", 1))
        }
    } else if a == 0x3c {
        if b == 0x3d {
            Some((TokenKind::Le, "<=", 2))
        } else {
            Some((TokenKind::Lt, "<", 1))
        }
    } else if a == 0x3e {
        if b == 0x3d {
            Some((TokenKind::Ge, ">=", 2))
        } else {
            Some((TokenKind::Gt, ">", 1))
        }
    } else if a == 0x28 {
        Some((TokenKind::LParen, "(", 1))
    } else if a == 0x29 {
        Some((TokenKind::RParen, ")", 1))
    } else if a == 0x5b {
        Some((TokenKind::LBracket, "[", 1))
    } else if a == 0x5d {
        Some((TokenKind::RBracket, "]", 1))
    } else if a == 0x2c {
        Some((TokenKind::Comma, ",", 1))
    } else if a == 0x3a {
        if b == 0x3a {
            Some((TokenKind::ColonColon, "::", 2))
        } else {
            Some((TokenKind::Colon, ":", 1))
        }
    } else if a == 0x3b {
        Some((TokenKind::Semicolon, ";", 1))
    } else if a == 0x25 {
        Some((TokenKind::Percent, "%", 1))
    } else if a == 0x26 {
        Some((TokenKind::Ampersand, "&", 1))
    } else {
        None
    }
}

/// Does `b` open a binary, octal or hexadecimal constant?
pub open spec fn is_radix(b: u8) -> bool {
    b == 0x42 || b == 0x62 || b == 0x4f || b == 0x6f || b == 0x5a || b == 0x7a
}

/// Is `b` a quote?
pub open spec fn is_quote(b: u8) -> bool {
    b == 0x27 || b == 0x22
}

/// The token that starts at `i`.
pub open spec fn scan_at(src: Seq<u8>, i: int) -> Scan {
    if i >= src.len() {
        Scan::Token { kind: KindModel::Plain(TokenKind::Eof), text: Seq::empty(), end: i }
    } else {
        let c = src[i];
        if c == 0x0a {
            Scan::Token { kind: KindModel::Plain(TokenKind::Newline), text: "\n"@, end: i + 1 }
        } else if c == 0x21 {
            let end = run_end(src, i, ByteClass::InLine);
            Scan::Token {
                kind: KindModel::Comment(spelled(src, i, end)),
                text: spelled(src, i, end),
                end,
            }
        } else if is_quote(c) {
            scan_string(src, i + 1, c, seq![char_of(c)])
        } else if c == 0x2e && !is_digit(byte_at(src, i + 1)) {
            scan_dot(src, i)
        } else if c == 0x2e || is_digit(c) {
            scan_number(src, i)
        } else if is_radix(c) && is_quote(byte_at(src, i + 1)) {
            scan_boz(src, i)
        } else if is_alpha(c) || c == 0x5f {
            let end = run_end(src, i, ByteClass::Word);
            Scan::Token {
                kind: KindModel::Plain(TokenKind::Identifier),
                text: spelled(src, i, end),
                end,
            }
        } else {
            match punct_of(c, byte_at(src, i + 1)) {
                Some((kind, text, n)) => Scan::Token {
                    kind: KindModel::Plain(kind),
                    text,
                    end: i + n,
                },
                None => Scan::Fault {
                    msg: "unexpected character: '"@ + seq![char_of(c)] + "'"@,
                    end: i + 1,
                },
            }
        }
    }
}

/// Is `r` what the scan at `i` says?
pub open spec fn outcome(
    src: Seq<u8>,
    file_id: u32,
    i: int,
    s: Scan,
    r: Result<Token, LexError>,
) -> bool {
    match (s, r) {
        (Scan::Token { kind, text, end }, Ok(t)) => kind_is(t.kind, kind) && t.text@ == text
            && t.span == span_of(src, file_id, i, end),
        (Scan::Fault { msg, end }, Err(e)) => e.msg@ == msg && e.span == span_of(
            src,
            file_id,
            i,
            end,
        ),
        _ => false,
    }
}

/// The longest source whose lines and columns can be numbered.
pub open spec fn source_limit() -> int {
    u32::MAX - 1
}

/// The lexer of free-form source.
pub struct Lexer<'a> {
    src: &'a [u8],
    pos: usize,
    line: u32,
    col: u32,
    file_id: u32,
}

impl<'a> Lexer<'a> {
    /// The bytes of the source.
    pub closed spec fn source(&self) -> Seq<u8> {
        self.src@
    }

    /// How many bytes have been read.
    pub closed spec fn offset(&self) -> int {
        self.pos as int
    }

    /// The number of the source file.
    pub closed spec fn file(&self) -> u32 {
        self.file_id
    }

    /// Does the lexer stand within a source of acceptable length?
    pub closed spec fn wf(&self) -> bool {
        &&& self.pos <= self.src@.len() <= source_limit()
        &&& self.line == line_at(self.src@, self.pos as int)
        &&& self.col == col_at(self.src@, self.pos as int)
    }

    /// A lexer stands within its source, which is not too long.
    pub proof fn stands_in_source(&self)
        requires
            self.wf(),
        ensures
            0 <= self.offset() <= self.source().len() <= source_limit(),
    {
    }

    /// Is this lexer on the same source as `other`, at place `i`?
    spec fn moved(&self, other: Lexer<'a>, i: int) -> bool {
        &&& self.wf()
        &&& self.src == other.src
        &&& self.file_id == other.file_id
        &&& self.pos == i
    }

    /// A lexer at the start of a source.
    pub fn new(src: &'a str, file_id: u32) -> (r: Self)
        requires
            src.spec_bytes().len() <= source_limit(),
        ensures
            r.wf(),
            r.source() == src.spec_bytes(),
            r.offset() == 0,
            r.offset() <= r.source().len() <= source_limit(),
            r.file() == file_id,
    {
        Lexer { src: src.as_bytes(), pos: 0, line: 1, col: 1, file_id }
    }

    fn here(&self) -> (r: Position)
        requires
            self.wf(),
        ensures
            r == position_at(self.src@, self.pos as int),
    {
        Position { line: self.line, col: self.col }
    }

    fn span_from(&self, start: Position) -> (r: Span)
        requires
            self.wf(),
        ensures
            r == (Span {
                file_id: self.file_id,
                start,
                end: position_at(self.src@, self.pos as int),
            }),
    {
        Span { file_id: self.file_id, start, end: self.here() }
    }

    fn err(&self, start: Position, msg: String) -> (r: LexError)
        requires
            self.wf(),
        ensures
            r.msg == msg,
            r.span == (Span {
                file_id: self.file_id,
                start,
                end: position_at(self.src@, self.pos as int),
            }),
    {
        LexError { span: self.span_from(start), msg }
    }

    fn token(&self, start: Position, kind: TokenKind, text: String) -> (r: Token)
        requires
            self.wf(),
        ensures
            r.kind == kind,
            r.text == text,
            r.span == (Span {
                file_id: self.file_id,
                start,
                end: position_at(self.src@, self.pos as int),
            }),
    {
        Token { kind, text, span: self.span_from(start) }
    }

    fn at(&self, ahead: usize) -> (r: u8)
        requires
            self.wf(),
            ahead <= 2,
        ensures
            r == byte_at(self.src@, self.pos + ahead),
    {
        if ahead < self.src.len() - self.pos {
            self.src[self.pos + ahead]
        } else {
            0
        }
    }

    fn peek(&self) -> (r: u8)
        requires
            self.wf(),
        ensures
            r == byte_at(self.src@, self.pos as int),
    {
        self.at(0)
    }

    fn at_end(&self) -> (r: bool)
        requires
            self.wf(),
        ensures
            r == (self.pos >= self.src@.len()),
    {
        self.pos >= self.src.len()
    }

    fn advance(&mut self) -> (r: u8)
        requires
            old(self).wf(),
            old(self).pos < old(self).src@.len(),
        ensures
            final(self).moved(*old(self), old(self).pos + 1),
            r == old(self).src@[old(self).pos as int],
    {
        proof {
            lemma_position_bounds(self.src@, self.pos as int);
        }
        let b = self.src[self.pos];
        if b == 0x0a {
            self.line = self.line + 1;
            self.col = 1;
        } else {
            self.col = self.col + 1;
        }
        self.pos = self.pos + 1;
        b
    }

    fn skip_run(&mut self, c: ByteClass)
        requires
            old(self).wf(),
        ensures
            final(self).moved(
                *old(self),
                run_end(old(self).src@, old(self).pos as int, c),
            ),
    {
        let ghost end = run_end(self.src@, self.pos as int, c);
        while self.pos < self.src.len() && c.test(self.peek())
            invariant
                self.moved(*old(self), self.pos as int),
                run_end(self.src@, self.pos as int, c) == end,
            decreases self.src@.len() - self.pos,
        {
            let b = self.advance();
        }
    }

    /// Puts the next byte behind a text that starts at `from`.
    fn take(&mut self, text: &mut String, Ghost(from): Ghost<int>)
        requires
            old(self).wf(),
            old(self).pos < old(self).src@.len(),
            0 <= from <= old(self).pos,
            old(text)@ == spelled(old(self).src@, from, old(self).pos as int),
        ensures
            final(self).moved(*old(self), old(self).pos + 1),
            final(text)@ == spelled(old(self).src@, from, old(self).pos + 1),
    {
        proof {
            lemma_spelled_push(self.src@, from, self.pos as int);
        }
        let b = self.advance();
        text.push(b as char);
    }

    /// Puts the bytes of a run behind a text that starts at `from`.
    fn take_run(&mut self, c: ByteClass, text: &mut String, Ghost(from): Ghost<int>)
        requires
            old(self).wf(),
            0 <= from <= old(self).pos,
            old(text)@ == spelled(old(self).src@, from, old(self).pos as int),
        ensures
            final(self).moved(
                *old(self),
                run_end(old(self).src@, old(self).pos as int, c),
            ),
            final(text)@ == spelled(
                old(self).src@,
                from,
                run_end(old(self).src@, old(self).pos as int, c),
            ),
            run_end(old(self).src@, old(self).pos as int, c) >= old(self).pos,
    {
        let ghost end = run_end(self.src@, self.pos as int, c);
        proof {
            lemma_run_end(self.src@, self.pos as int, c);
        }
        while self.pos < self.src.len() && c.test(self.peek())
            invariant
                self.moved(*old(self), self.pos as int),
                0 <= from <= self.pos,
                run_end(self.src@, self.pos as int, c) == end,
                text@ == spelled(self.src@, from, self.pos as int),
            decreases self.src@.len() - self.pos,
        {
            self.take(text, Ghost(from));
        }
    }

    /// Goes back to an earlier place.
    fn rewind(&mut self, pos: usize, line: u32, col: u32)
        requires
            old(self).wf(),
            pos <= old(self).src@.len(),
            line == line_at(old(self).src@, pos as int),
            col == col_at(old(self).src@, pos as int),
        ensures
            final(self).moved(*old(self), pos as int),
    {
        self.pos = pos;
        self.line = line;
        self.col = col;
    }

    /// Reads a continuation if one starts here.
    fn try_continuation(&mut self) -> (r: bool)
        requires
            old(self).wf(),
        ensures
            match continuation(old(self).src@, old(self).pos as int) {
                Some(q) => r && final(self).moved(*old(self), q),
                None => !r && final(self).moved(*old(self), old(self).pos as int),
            },
    {
        if self.peek() != 0x26 {
            return false;
        }
        let pos: usize = self.pos;
        let line: u32 = self.line;
        let col: u32 = self.col;
        let amp = self.advance();
        proof {
            lemma_run_end(self.src@, self.pos as int, ByteClass::Blank);
        }
        self.skip_run(ByteClass::Blank);
        if self.peek() == 0x21 {
            proof {
                lemma_run_end(self.src@, self.pos as int, ByteClass::InLine);
            }
            self.skip_run(ByteClass::InLine);
        }
        if self.peek() != 0x0a {
            self.rewind(pos, line, col);
            return false;
        }
        let newline = self.advance();
        proof {
            lemma_run_end(self.src@, self.pos as int, ByteClass::Blank);
        }
        self.skip_run(ByteClass::Blank);
        if self.peek() == 0x26 {
            let again = self.advance();
        }
        true
    }

    fn lex_string(&mut self, start: Position) -> (r: Result<Token, LexError>)
        requires
            old(self).wf(),
            old(self).pos < old(self).src@.len(),
            start == position_at(old(self).src@, old(self).pos as int),
        ensures
            ({
                let src = old(self).src@;
                let i = old(self).pos as int;
                let s = scan_string(src, i + 1, src[i], seq![char_of(src[i])]);
                outcome(src, old(self).file_id, i, s, r) && final(self).moved(*old(self), s.end_of())
            }),
    {
        let ghost src = self.src@;
        let ghost i = self.pos as int;
        let quote = self.advance();
        let mut text = String::new();
        text.push(quote as char);
        proof {
            assert(text@ =~= seq![char_of(src[i])]);
        }
        let ghost whole = scan_string(src, i + 1, src[i], text@);
        loop
            invariant
                src == self.src@,
                src == old(self).src@,
                i == old(self).pos,
                self.moved(*old(self), self.pos as int),
                start == position_at(src, i),
                quote == src[i],
                whole == scan_string(src, i + 1, src[i], seq![char_of(src[i])]),
                scan_string(src, self.pos as int, quote, text@) == whole,
            decreases src.len() - self.pos,
        {
            proof {
                lemma_continuation(src, self.pos as int);
            }
            if self.try_continuation() {
                continue ;
            }
            if self.at_end() || self.peek() == 0x0a {
                let msg = crate::text::text("unterminated string literal");
                return Err(self.err(start, msg));
            }
            let c = self.advance();
            text.push(c as char);
            if c == quote {
                if !self.at_end() && self.peek() == quote {
                    let d = self.advance();
                    text.push(d as char);
                } else {
                    return Ok(self.token(start, TokenKind::StringLiteral, text));
                }
            }
        }
    }

    fn lex_number(&mut self, start: Position) -> (r: Result<Token, LexError>)
        requires
            old(self).wf(),
            start == position_at(old(self).src@, old(self).pos as int),
        ensures
            ({
                let s = scan_number(old(self).src@, old(self).pos as int);
                outcome(old(self).src@, old(self).file_id, old(self).pos as int, s, r)
                    && final(self).moved(*old(self), s.end_of())
            }),
    {
        let ghost src = self.src@;
        let ghost i = self.pos as int;
        let first: usize = self.pos;
        let mut text = String::new();
        let mut is_real: bool = false;
        proof {
            assert(text@ =~= spelled(src, i, i));
        }
        self.take_run(ByteClass::Digit, &mut text, Ghost(i));
        if self.peek() == 0x2e {
            let next = self.at(1);
            let after = self.at(2);
            let numeric: bool = if self.pos == first || digit(next) {
                true
            } else if next == 0x65 || next == 0x45 || next == 0x64 || next == 0x44 {
                digit(after) || after == 0x2b || after == 0x2d
            } else {
                !alpha(next)
            };
            if numeric {
                is_real = true;
                self.take(&mut text, Ghost(i));
                self.take_run(ByteClass::Digit, &mut text, Ghost(i));
            }
        }
        proof {
            assert(self.pos == mantissa_end(src, i));
        }
        let e = self.peek();
        if e == 0x65 || e == 0x45 || e == 0x64 || e == 0x44 {
            is_real = true;
            self.take(&mut text, Ghost(i));
            let sign = self.peek();
            if sign == 0x2b || sign == 0x2d {
                self.take(&mut text, Ghost(i));
            }
            if !digit(self.peek()) {
                let msg = crate::text::text("expected digits in exponent");
                return Err(self.err(start, msg));
            }
            self.take_run(ByteClass::Digit, &mut text, Ghost(i));
        }
        if self.peek() == 0x5f {
            self.take(&mut text, Ghost(i));
            if digit(self.peek()) {
                self.take_run(ByteClass::Digit, &mut text, Ghost(i));
            } else {
                self.take_run(ByteClass::Word, &mut text, Ghost(i));
            }
        }
        let kind = if is_real {
            TokenKind::RealLiteral
        } else {
            TokenKind::IntegerLiteral
        };
        Ok(self.token(start, kind, text))
    }

    fn lex_boz(&mut self, start: Position) -> (r: Result<Token, LexError>)
        requires
            old(self).wf(),
            old(self).pos + 1 < old(self).src@.len(),
            start == position_at(old(self).src@, old(self).pos as int),
        ensures
            ({
                let s = scan_boz(old(self).src@, old(self).pos as int);
                outcome(old(self).src@, old(self).file_id, old(self).pos as int, s, r)
                    && final(self).moved(*old(self), s.end_of())
            }),
    {
        let ghost src = self.src@;
        let ghost i = self.pos as int;
        let mut text = String::new();
        proof {
            assert(text@ =~= spelled(src, i, i));
        }
        self.take(&mut text, Ghost(i));
        let quote = self.peek();
        self.take(&mut text, Ghost(i));
        let ghost end = boz_end(src, i + 2, quote);
        while !self.at_end() && self.peek() != quote
            invariant
                self.moved(*old(self), self.pos as int),
                src == self.src@,
                src == old(self).src@,
                i == old(self).pos,
                i <= self.pos,
                start == position_at(src, i),
                quote == byte_at(src, i + 1),
                end == boz_end(src, i + 2, quote),
                boz_end(src, self.pos as int, quote) == end,
                text@ == spelled(src, i, self.pos as int),
            decreases src.len() - self.pos,
        {
            if self.peek() == 0x0a {
                let msg = crate::text::text("unterminated BOZ literal");
                return Err(self.err(start, msg));
            }
            self.take(&mut text, Ghost(i));
        }
        if self.at_end() {
            let msg = crate::text::text("unterminated BOZ literal");
            return Err(self.err(start, msg));
        }
        self.take(&mut text, Ghost(i));
        Ok(self.token(start, TokenKind::BozLiteral, text))
    }

    fn lex_dot_token(&mut self, start: Position) -> (r: Result<Token, LexError>)
        requires
            old(self).wf(),
            old(self).pos < old(self).src@.len(),
            start == position_at(old(self).src@, old(self).pos as int),
        ensures
            ({
                let s = scan_dot(old(self).src@, old(self).pos as int);
                outcome(old(self).src@, old(self).file_id, old(self).pos as int, s, r)
                    && final(self).moved(*old(self), s.end_of())
            }),
    {
        let ghost src = self.src@;
        let ghost i = self.pos as int;
        let mut text = String::new();
        proof {
            assert(text@ =~= spelled(src, i, i));
        }
        self.take(&mut text, Ghost(i));
        let mut name = String::new();
        let mut lower = String::new();
        let ghost stop = run_end(src, i + 1, ByteClass::Letter);
        proof {
            assert(name@ =~= spelled(src, i + 1, i + 1));
            assert(lower@ =~= lower_text(src.subrange(i + 1, i + 1)));
            lemma_run_end(src, i + 1, ByteClass::Letter);
        }
        while self.pos < self.src.len() && ByteClass::Letter.test(self.peek())
            invariant
                self.moved(*old(self), self.pos as int),
                src == self.src@,
                i + 1 <= self.pos,
                0 <= i,
                stop == run_end(src, i + 1, ByteClass::Letter),
                run_end(src, self.pos as int, ByteClass::Letter) == stop,
                text@ == spelled(src, i, self.pos as int),
                name@ == spelled(src, i + 1, self.pos as int),
                lower@ == lower_text(src.subrange(i + 1, self.pos as int)),
            decreases src.len() - self.pos,
        {
            let b = self.peek();
            proof {
                lemma_spelled_push(src, i + 1, self.pos as int);
                assert(lower_text(src.subrange(i + 1, self.pos + 1)) =~= lower_text(
                    src.subrange(i + 1, self.pos as int),
                ).push(char_of(lower_byte(src[self.pos as int]))));
            }
            name.push(b as char);
            lower.push(to_lower(b) as char);
            self.take(&mut text, Ghost(i));
        }
        let first: usize = self.pos;
        if same_text(name.as_str(), "") {
            proof {
                reveal_strlit("");
                assert(name@.len() == stop - i - 1);
            }
            let msg = crate::text::text("unexpected '.'");
            return Err(self.err(start, msg));
        }
        proof {
            reveal_strlit("");
            assert(stop != i + 1) by {
                if stop == i + 1 {
                    assert(name@ =~= ""@);
                }
            }
        }
        if self.peek() != 0x2e {
            let mut msg = crate::text::text("expected closing '.' after .");
            msg.append(name.as_str());
            return Err(self.err(start, msg));
        }
        self.take(&mut text, Ghost(i));
        if same_text(lower.as_str(), "true") || same_text(lower.as_str(), "false") {
            if self.peek() == 0x5f {
                self.take(&mut text, Ghost(i));
                self.take_run(ByteClass::Word, &mut text, Ghost(i));
            }
            return Ok(self.token(start, TokenKind::LogicalLiteral, text));
        }
        if is_known_dot_op(lower.as_str()) {
            return Ok(self.token(start, TokenKind::DotOp(lower), text));
        }
        Ok(self.token(start, TokenKind::DefinedOp(lower), text))
    }

    fn lex_identifier(&mut self, start: Position) -> (r: Result<Token, LexError>)
        requires
            old(self).wf(),
            start == position_at(old(self).src@, old(self).pos as int),
        ensures
            ({
                let src = old(self).src@;
                let end = run_end(src, old(self).pos as int, ByteClass::Word);
                let s = Scan::Token {
                    kind: KindModel::Plain(TokenKind::Identifier),
                    text: spelled(src, old(self).pos as int, end),
                    end,
                };
                outcome(src, old(self).file_id, old(self).pos as int, s, r) && final(self).moved(
                    *old(self),
                    end,
                )
            }),
    {
        let ghost i = self.pos as int;
        let mut text = String::new();
        proof {
            assert(text@ =~= spelled(self.src@, i, i));
        }
        self.take_run(ByteClass::Word, &mut text, Ghost(i));
        Ok(self.token(start, TokenKind::Identifier, text))
    }

    fn lex_operator_or_punct(&mut self, start: Position) -> (r: Result<Token, LexError>)
        requires
            old(self).wf(),
            old(self).pos < old(self).src@.len(),
            start == position_at(old(self).src@, old(self).pos as int),
        ensures
            ({
                let src = old(self).src@;
                let i = old(self).pos as int;
                let s = match punct_of(src[i], byte_at(src, i + 1)) {
                    Some((kind, text, n)) => Scan::Token {
                        kind: KindModel::Plain(kind),
                        text,
                        end: i + n,
                    },
                    None => Scan::Fault {
                        msg: "unexpected character: '"@ + seq![char_of(src[i])] + "'"@,
                        end: i + 1,
                    },
                };
                outcome(src, old(self).file_id, i, s, r) && final(self).moved(
                    *old(self),
                    s.end_of(),
                )
            }),
    {
        let ch = self.advance();
        let next = self.peek();
        match punct(ch, next) {
            Some((kind, spelling, n)) => {
                if n == 2 {
                    let second = self.advance();
                }
                Ok(self.token(start, kind, crate::text::text(spelling)))
            },
            None => {
                let mut msg = crate::text::text("unexpected character: '");
                let ghost before = msg@;
                msg.push(ch as char);
                proof {
                    assert(msg@ =~= before + seq![char_of(ch)]);
                }
                msg.append("'");
                Err(self.err(start, msg))
            },
        }
    }

    /// Reads the next token.
    ///
    /// Behind the last one come end-of-file tokens without end.
    pub fn next_token(&mut self) -> (r: Result<Token, LexError>)
        requires
            old(self).wf(),
        ensures
            final(self).wf(),
            final(self).source() == old(self).source(),
            final(self).file() == old(self).file(),
            0 <= final(self).offset() <= final(self).source().len(),
            ({
                let src = old(self).source();
                let i = skip_layout(src, old(self).offset());
                let s = scan_at(src, i);
                outcome(src, old(self).file(), i, s, r) && final(self).offset() == s.end_of()
            }),
    {
        let ghost src = self.src@;
        let ghost p0 = self.pos as int;
        proof {
            lemma_run_end(src, p0, ByteClass::Blank);
        }
        self.skip_run(ByteClass::Blank);
        proof {
            lemma_continuation(src, self.pos as int);
            lemma_run_end_again(src, p0, ByteClass::Blank);
        }
        loop
            invariant
                self.moved(*old(self), self.pos as int),
                src == self.src@,
                src == old(self).src@,
                p0 == old(self).pos,
                0 <= p0 <= self.pos,
                run_end(src, self.pos as int, ByteClass::Blank) == self.pos,
                skip_layout(src, self.pos as int) == skip_layout(src, p0),
            ensures
                continuation(src, self.pos as int) is None,
            decreases src.len() - self.pos,
        {
            let ghost here = self.pos as int;
            proof {
                lemma_continuation(src, here);
            }
            if !self.try_continuation() {
                break ;
            }
            let ghost next = self.pos as int;
            proof {
                lemma_run_end(src, next, ByteClass::Blank);
                lemma_run_end_again(src, next, ByteClass::Blank);
                assert(skip_layout(src, here) == skip_layout(src, next));
            }
            self.skip_run(ByteClass::Blank);
        }
        let ghost i = self.pos as int;
        proof {
            assert(i == skip_layout(src, p0));
        }
        let start = self.here();
        if self.at_end() {
            let empty = String::new();
            assert(empty@ =~= Seq::<char>::empty());
            return Ok(self.token(start, TokenKind::Eof, empty));
        }
        let ch = self.peek();
        if ch == 0x0a {
            let newline = self.advance();
            return Ok(self.token(start, TokenKind::Newline, crate::text::text("\n")));
        }
        if ch == 0x21 {
            let mut text = String::new();
            proof {
                assert(text@ =~= spelled(src, i, i));
            }
            self.take_run(ByteClass::InLine, &mut text, Ghost(i));
            return Ok(self.token(start, TokenKind::Comment(text.clone()), text));
        }
        if ch == 0x27 || ch == 0x22 {
            return self.lex_string(start);
        }
        let next = self.at(1);
        if ch == 0x2e && !digit(next) {
            return self.lex_dot_token(start);
        }
        if ch == 0x2e || digit(ch) {
            return self.lex_number(start);
        }
        let radix: bool = ch == 0x42 || ch == 0x62 || ch == 0x4f || ch == 0x6f || ch == 0x5a || ch
            == 0x7a;
        if radix && (next == 0x27 || next == 0x22) {
            return self.lex_boz(start);
        }
        if alpha(ch) || ch == 0x5f {
            return self.lex_identifier(start);
        }
        self.lex_operator_or_punct(start)
    }
}

/// Behind a run of a class, the run of that class is empty.
proof fn lemma_run_end_again(src: Seq<u8>, i: int, c: ByteClass)
    requires
        0 <= i <= src.len(),
    ensures
        run_end(src, run_end(src, i, c), c) == run_end(src, i, c),
{
    lemma_run_end(src, i, c);
}

proof fn lemma_string_progress(src: Seq<u8>, i: int, quote: u8, sofar: Seq<char>)
    requires
        0 <= i <= src.len(),
    ensures
        i <= scan_string(src, i, quote, sofar).end_of() <= src.len(),
    decreases src.len() - i,
{
    lemma_continuation(src, i);
    match continuation(src, i) {
        Some(q) => {
            lemma_string_progress(src, q, quote, sofar);
        },
        None => {
            if i < src.len() && src[i] != 0x0a {
                let text = sofar.push(char_of(src[i]));
                if src[i] != quote {
                    lemma_string_progress(src, i + 1, quote, text);
                } else if byte_at(src, i + 1) == quote && i + 1 < src.len() {
                    lemma_string_progress(src, i + 2, quote, text.push(char_of(quote)));
                }
            }
        },
    }
}

proof fn lemma_boz_progress(src: Seq<u8>, i: int, quote: u8)
    requires
        0 <= i <= src.len(),
    ensures
        i <= boz_end(src, i, quote) <= src.len(),
    decreases src.len() - i,
{
    if i < src.len() && src[i] != quote && src[i] != 0x0a {
        lemma_boz_progress(src, i + 1, quote);
    }
}

proof fn lemma_suffix_progress(src: Seq<u8>, i: int)
    requires
        0 <= i <= src.len(),
    ensures
        i <= kind_suffix_end(src, i) <= src.len(),
{
    if byte_at(src, i) == 0x5f {
        lemma_run_end(src, i + 1, ByteClass::Digit);
        lemma_run_end(src, i + 1, ByteClass::Word);
    }
}

proof fn lemma_number_progress(src: Seq<u8>, i: int)
    requires
        0 <= i < src.len(),
        is_digit(src[i]) || (src[i] == 0x2e && is_digit(byte_at(src, i + 1))),
    ensures
        i < scan_number(src, i).end_of() <= src.len(),
{
    lemma_run_end(src, i, ByteClass::Digit);
    let whole = run_end(src, i, ByteClass::Digit);
    if is_digit(src[i]) {
        lemma_run_end(src, i + 1, ByteClass::Digit);
        assert(whole == run_end(src, i + 1, ByteClass::Digit));
    }
    if byte_at(src, whole) == 0x2e {
        lemma_run_end(src, whole + 1, ByteClass::Digit);
    }
    let m = mantissa_end(src, i);
    assert(i < m <= src.len());
    lemma_suffix_progress(src, m);
    if is_exponent(byte_at(src, m)) {
        let d = exponent_digits(src, m);
        assert(d <= src.len());
        lemma_run_end(src, d, ByteClass::Digit);
        lemma_suffix_progress(src, run_end(src, d, ByteClass::Digit));
    }
}

/// Every token but the end of the source takes at least one byte of it.
pub proof fn lemma_scan_progress(src: Seq<u8>, i: int)
    requires
        0 <= i < src.len(),
    ensures
        i < scan_at(src, i).end_of() <= src.len(),
{
    let c = src[i];
    if c == 0x0a {
    } else if c == 0x21 {
        lemma_run_end(src, i + 1, ByteClass::InLine);
        assert(run_end(src, i, ByteClass::InLine) == run_end(src, i + 1, ByteClass::InLine));
    } else if is_quote(c) {
        lemma_string_progress(src, i + 1, c, seq![char_of(c)]);
    } else if c == 0x2e && !is_digit(byte_at(src, i + 1)) {
        lemma_run_end(src, i + 1, ByteClass::Letter);
        let stop = run_end(src, i + 1, ByteClass::Letter);
        if byte_at(src, stop) == 0x2e && byte_at(src, stop + 1) == 0x5f {
            lemma_run_end(src, stop + 2, ByteClass::Word);
        }
    } else if c == 0x2e || is_digit(c) {
        lemma_number_progress(src, i);
    } else if is_radix(c) && is_quote(byte_at(src, i + 1)) {
        lemma_boz_progress(src, i + 2, byte_at(src, i + 1));
    } else if is_alpha(c) || c == 0x5f {
        lemma_run_end(src, i + 1, ByteClass::Word);
        assert(run_end(src, i, ByteClass::Word) == run_end(src, i + 1, ByteClass::Word));
    }
}

/// A token at a place of the source.
pub struct TokenModel {
    pub kind: KindModel,
    pub text: Seq<char>,
    pub start: int,
    pub end: int,
}

/// Where and why no token could be read.
pub struct FaultModel {
    pub msg: Seq<char>,
    pub start: int,
    pub end: int,
}

/// The tokens from `i` on up to the end of the source, or up to the first
/// place where none can be read.
pub open spec fn lex_from(src: Seq<u8>, i: int) -> (Seq<TokenModel>, Option<FaultModel>)
    decreases src.len() - i,
    when 0 <= i <= src.len()
{
    proof {
        lemma_skip_layout(src, i);
        if skip_layout(src, i) < src.len() {
            lemma_scan_progress(src, skip_layout(src, i));
        }
    }
    let p = skip_layout(src, i);
    match scan_at(src, p) {
        Scan::Fault { msg, end } => (Seq::empty(), Some(FaultModel { msg, start: p, end })),
        Scan::Token { kind, text, end } => {
            let t = TokenModel { kind, text, start: p, end };
            if p >= src.len() {
                (seq![t], None)
            } else {
                let rest = lex_from(src, end);
                (seq![t] + rest.0, rest.1)
            }
        },
    }
}

/// Is `t` the token that `m` describes?
pub open spec fn token_is(src: Seq<u8>, file_id: u32, t: Token, m: TokenModel) -> bool {
    kind_is(t.kind, m.kind) && t.text@ == m.text && t.span == span_of(src, file_id, m.start, m.end)
}

/// Are these the tokens that the models describe?
pub open spec fn tokens_are(
    src: Seq<u8>,
    file_id: u32,
    ts: Seq<Token>,
    ms: Seq<TokenModel>,
) -> bool {
    ts.len() == ms.len() && forall|i: int|
        0 <= i < ts.len() ==> token_is(src, file_id, #[trigger] ts[i], ms[i])
}

/// The tokens of a source end with the end of the source, and nowhere else.
pub proof fn tokens_end_with_eof(src: Seq<u8>, i: int)
    requires
        0 <= i <= src.len(),
        lex_from(src, i).1 is None,
    ensures
        lex_from(src, i).0.len() > 0,
        forall|k: int|
            0 <= k < lex_from(src, i).0.len() ==> ((#[trigger] lex_from(src, i).0[k]).start
                >= src.len()) == (k == lex_from(src, i).0.len() - 1),
        lex_from(src, i).0.last().kind == KindModel::Plain(TokenKind::Eof),
    decreases src.len() - i,
{
    lemma_skip_layout(src, i);
    let p = skip_layout(src, i);
    if p < src.len() {
        lemma_scan_progress(src, p);
        let end = scan_at(src, p).end_of();
        tokens_end_with_eof(src, end);
        let rest = lex_from(src, end).0;
        let all = lex_from(src, i).0;
        assert forall|k: int| 0 <= k < all.len() implies ((#[trigger] all[k]).start >= src.len()) == (k
            == all.len() - 1) by {
            if k > 0 {
                assert(all[k] == rest[k - 1]);
            }
        }
        assert(all.last() == rest.last());
    }
}

/// Behind an end-of-file token, which reading from `i` gave, the same token comes
/// again and the lexer stays where it is.
pub proof fn end_of_file_stays(
    src: Seq<u8>,
    file_id: u32,
    i: int,
    first: Token,
    second: Result<Token, LexError>,
)
    requires
        0 <= i <= src.len(),
        first.kind == TokenKind::Eof,
        ({
            let p = skip_layout(src, i);
            let q = skip_layout(src, scan_at(src, p).end_of());
            &&& outcome(src, file_id, p, scan_at(src, p), Ok(first))
            &&& outcome(src, file_id, q, scan_at(src, q), second)
        }),
    ensures
        ({
            let at = scan_at(src, skip_layout(src, i)).end_of();
            &&& at == src.len()
            &&& scan_at(src, skip_layout(src, at)).end_of() == at
        }),
        second matches Ok(t) && t.kind == first.kind && t.text@ == first.text@ && t.span
            == first.span,
{
    lemma_skip_layout(src, i);
    let p = skip_layout(src, i);
    lemma_only_end_is_eof(src, p);
    assert(run_end(src, p, ByteClass::Blank) == p);
    assert(continuation(src, p) is None);
}

/// The tokens of a source stand in order and do not overlap.
pub proof fn tokens_are_in_order(src: Seq<u8>, i: int)
    requires
        0 <= i <= src.len(),
    ensures
        forall|k: int|
            0 <= k < lex_from(src, i).0.len() ==> i <= (#[trigger] lex_from(src, i).0[k]).start
                <= lex_from(src, i).0[k].end <= src.len(),
        forall|k: int, m: int|
            0 <= k < m < lex_from(src, i).0.len() ==> (#[trigger] lex_from(src, i).0[k]).end <= (
            #[trigger] lex_from(src, i).0[m]).start,
    decreases src.len() - i,
{
    lemma_skip_layout(src, i);
    let p = skip_layout(src, i);
    let all = lex_from(src, i).0;
    if p < src.len() {
        lemma_scan_progress(src, p);
        if let Scan::Token { end, .. } = scan_at(src, p) {
            tokens_are_in_order(src, end);
            let rest = lex_from(src, end).0;
            assert forall|k: int| 0 <= k < all.len() implies i <= (#[trigger] all[k]).start
                <= all[k].end <= src.len() by {
                if k > 0 {
                    assert(all[k] == rest[k - 1]);
                }
            }
            assert forall|k: int, m: int| 0 <= k < m < all.len() implies (#[trigger] all[k]).end <= (
            #[trigger] all[m]).start by {
                assert(all[m] == rest[m - 1]);
                if k > 0 {
                    assert(all[k] == rest[k - 1]);
                }
            }
        }
    }
}

impl<'a> Lexer<'a> {
    /// Reads a whole source.
    pub fn tokenize(src: &str, file_id: u32) -> (r: Result<Vec<Token>, LexError>)
        requires
            src.spec_bytes().len() <= source_limit(),
        ensures
            ({
                let bytes = src.spec_bytes();
                let (tokens, fault) = lex_from(bytes, 0);
                match r {
                    Ok(ts) => fault is None && tokens_are(bytes, file_id, ts@, tokens),
                    Err(e) => fault matches Some(m) && e.msg@ == m.msg && e.span == span_of(
                        bytes,
                        file_id,
                        m.start,
                        m.end,
                    ),
                }
            }),
    {
        let ghost bytes = src.spec_bytes();
        let mut lexer = Lexer::new(src, file_id);
        let mut tokens: Vec<Token> = Vec::new();
        let ghost mut sofar: Seq<TokenModel> = Seq::empty();
        proof {
            assert(sofar + lex_from(bytes, 0).0 =~= lex_from(bytes, 0).0);
        }
        loop
            invariant
                lexer.wf(),
                lexer.source() == bytes,
                lexer.file() == file_id,
                0 <= lexer.offset() <= bytes.len(),
                bytes == src.spec_bytes(),
                tokens_are(bytes, file_id, tokens@, sofar),
                sofar + lex_from(bytes, lexer.offset()).0 == lex_from(bytes, 0).0,
                lex_from(bytes, lexer.offset()).1 == lex_from(bytes, 0).1,
            decreases bytes.len() - lexer.offset(),
        {
            let ghost i = lexer.offset();
            let ghost p = skip_layout(bytes, i);
            proof {
                lemma_skip_layout(bytes, i);
                if p < bytes.len() {
                    lemma_scan_progress(bytes, p);
                }
            }
            match lexer.next_token() {
                Ok(tok) => {
                    let last: bool = matches!(tok.kind, TokenKind::Eof);
                    let ghost m = TokenModel {
                        kind: scan_at(bytes, p)->kind,
                        text: scan_at(bytes, p)->text,
                        start: p,
                        end: lexer.offset(),
                    };
                    let ghost before = tokens@;
                    tokens.push(tok);
                    proof {
                        assert(scan_at(bytes, p) is Token);
                        assert(token_is(bytes, file_id, tok, m));
                        assert(last == (p >= bytes.len())) by {
                            lemma_only_end_is_eof(bytes, p);
                        }
                        if last {
                            assert(lex_from(bytes, i).0 =~= seq![m]);
                            assert(sofar + seq![m] =~= sofar.push(m));
                        } else {
                            let rest = lex_from(bytes, lexer.offset()).0;
                            assert(lex_from(bytes, i).0 =~= seq![m] + rest);
                            assert(sofar + (seq![m] + rest) =~= sofar.push(m) + rest);
                        }
                        sofar = sofar.push(m);
                    }
                    if last {
                        return Ok(tokens);
                    }
                },
                Err(e) => {
                    return Err(e);
                },
            }
        }
    }
}

proof fn lemma_string_is_no_end(src: Seq<u8>, i: int, quote: u8, sofar: Seq<char>)
    requires
        0 <= i <= src.len(),
    ensures
        scan_string(src, i, quote, sofar) matches Scan::Token { kind, .. } ==> kind
            == KindModel::Plain(TokenKind::StringLiteral),
    decreases src.len() - i,
{
    lemma_continuation(src, i);
    match continuation(src, i) {
        Some(q) => {
            lemma_string_is_no_end(src, q, quote, sofar);
        },
        None => {
            if i < src.len() && src[i] != 0x0a {
                let text = sofar.push(char_of(src[i]));
                if src[i] != quote {
                    lemma_string_is_no_end(src, i + 1, quote, text);
                } else if byte_at(src, i + 1) == quote && i + 1 < src.len() {
                    lemma_string_is_no_end(src, i + 2, quote, text.push(char_of(quote)));
                }
            }
        },
    }
}

proof fn lemma_only_end_is_eof(src: Seq<u8>, i: int)
    requires
        0 <= i <= src.len(),
    ensures
        scan_at(src, i) matches Scan::Token { kind, .. } ==> (kind == KindModel::Plain(
            TokenKind::Eof,
        )) == (i >= src.len()),
{
    if i < src.len() && is_quote(src[i]) {
        lemma_string_is_no_end(src, i + 1, src[i], seq![char_of(src[i])]);
    }
}

} // verus!
