//! Bytes of source text: classes, runs, places, and the text that they spell.

use crate::lexer::{Position, Span};
use vstd::prelude::*;

verus! {

/// `String::push`: the character is put behind the text.
pub assume_specification[ String::push ](s: &mut String, c: char)
    ensures
        final(s)@ == old(s)@.push(c),
;

/// The character of a byte: the code point of the same number.
pub open spec fn char_of(b: u8) -> char {
    b as char
}

/// The text that bytes spell.
pub open spec fn chars_of(s: Seq<u8>) -> Seq<char> {
    Seq::new(s.len(), |i: int| char_of(s[i]))
}

/// The text between two places.
pub open spec fn spelled(src: Seq<u8>, from: int, to: int) -> Seq<char> {
    chars_of(src.subrange(from, to))
}

/// A text grows by the next byte.
pub proof fn lemma_spelled_push(src: Seq<u8>, from: int, to: int)
    requires
        0 <= from <= to < src.len(),
    ensures
        spelled(src, from, to + 1) == spelled(src, from, to).push(char_of(src[to])),
{
    assert(spelled(src, from, to + 1) =~= spelled(src, from, to).push(char_of(src[to])));
}

/// The byte at a place, zero behind the end.
pub open spec fn byte_at(src: Seq<u8>, i: int) -> u8 {
    if 0 <= i < src.len() {
        src[i]
    } else {
        0
    }
}

/// Classes of bytes.
#[derive(Debug, Clone, Copy, PartialEq, Eq, Structural)]
pub enum ByteClass {
    /// A decimal digit.
    Digit,
    /// An ASCII letter or an underscore.
    Letter,
    /// A letter, a digit or an underscore.
    Word,
    /// A space, a tab or a carriage return.
    Blank,
    /// Anything but a line feed.
    InLine,
}

/// Is the byte a decimal digit?
pub open spec fn is_digit(b: u8) -> bool {
    0x30 <= b <= 0x39
}

/// Is the byte an ASCII letter?
pub open spec fn is_alpha(b: u8) -> bool {
    (0x41 <= b <= 0x5a) || (0x61 <= b <= 0x7a)
}

impl ByteClass {
    /// Does the byte belong to the class?
    pub open spec fn holds(self, b: u8) -> bool {
        match self {
            ByteClass::Digit => is_digit(b),
            ByteClass::Letter => is_alpha(b) || b == 0x5f,
            ByteClass::Word => is_alpha(b) || is_digit(b) || b == 0x5f,
            ByteClass::Blank => b == 0x20 || b == 0x09 || b == 0x0d,
            ByteClass::InLine => b != 0x0a,
        }
    }

    /// Does the byte belong to the class?
    pub fn test(self, b: u8) -> (r: bool)
        ensures
            r == self.holds(b),
    {
        match self {
            ByteClass::Digit => digit(b),
            ByteClass::Letter => alpha(b) || b == 0x5f,
            ByteClass::Word => alpha(b) || digit(b) || b == 0x5f,
            ByteClass::Blank => b == 0x20 || b == 0x09 || b == 0x0d,
            ByteClass::InLine => b != 0x0a,
        }
    }
}

/// Is the byte a decimal digit?
pub fn digit(b: u8) -> (r: bool)
    ensures
        r == is_digit(b),
{
    0x30 <= b && b <= 0x39
}

/// Is the byte an ASCII letter?
pub fn alpha(b: u8) -> (r: bool)
    ensures
        r == is_alpha(b),
{
    (0x41 <= b && b <= 0x5a) || (0x61 <= b && b <= 0x7a)
}

/// Where the run of bytes of a class that starts at `i` ends.
pub open spec fn run_end(src: Seq<u8>, i: int, c: ByteClass) -> int
    decreases src.len() - i,
{
    if 0 <= i < src.len() && c.holds(src[i]) {
        run_end(src, i + 1, c)
    } else {
        i
    }
}

/// A run does not end before it starts, nor behind the source.
pub proof fn lemma_run_end(src: Seq<u8>, i: int, c: ByteClass)
    requires
        0 <= i <= src.len(),
    ensures
        i <= run_end(src, i, c) <= src.len(),
        forall|k: int| i <= k < run_end(src, i, c) ==> c.holds(#[trigger] src[k]),
        run_end(src, i, c) < src.len() ==> !c.holds(src[run_end(src, i, c)]),
    decreases src.len() - i,
{
    if i < src.len() && c.holds(src[i]) {
        lemma_run_end(src, i + 1, c);
    }
}

/// The lower-case form of a byte.
pub open spec fn lower_byte(b: u8) -> u8 {
    if 0x41 <= b <= 0x5a {
        (b + 0x20) as u8
    } else {
        b
    }
}

/// The lower-case text that bytes spell.
pub open spec fn lower_text(s: Seq<u8>) -> Seq<char> {
    Seq::new(s.len(), |i: int| char_of(lower_byte(s[i])))
}

/// The lower-case form of a byte.
pub fn to_lower(b: u8) -> (r: u8)
    ensures
        r == lower_byte(b),
{
    if 0x41 <= b && b <= 0x5a {
        b + 0x20
    } else {
        b
    }
}

/// The line of a place, counted from one.
pub open spec fn line_at(src: Seq<u8>, i: int) -> int
    decreases i,
{
    if i <= 0 {
        1
    } else if src[i - 1] == 0x0a {
        line_at(src, i - 1) + 1
    } else {
        line_at(src, i - 1)
    }
}

/// The column of a place, counted from one.
pub open spec fn col_at(src: Seq<u8>, i: int) -> int
    decreases i,
{
    if i <= 0 {
        1
    } else if src[i - 1] == 0x0a {
        1
    } else {
        col_at(src, i - 1) + 1
    }
}

/// Line and column of a place.
pub open spec fn position_at(src: Seq<u8>, i: int) -> Position {
    Position { line: line_at(src, i) as u32, col: col_at(src, i) as u32 }
}

/// The stretch between two places.
pub open spec fn span_of(src: Seq<u8>, file_id: u32, from: int, to: int) -> Span {
    Span { file_id, start: position_at(src, from), end: position_at(src, to) }
}

/// Lines and columns are at least one and grow no faster than places.
pub proof fn lemma_position_bounds(src: Seq<u8>, i: int)
    requires
        0 <= i,
    ensures
        1 <= line_at(src, i) <= i + 1,
        1 <= col_at(src, i) <= i + 1,
    decreases i,
{
    if i > 0 {
        lemma_position_bounds(src, i - 1);
    }
}

} // verus!
