//! The lexer of fixed-form source.
//!
//! Lines are first folded into statements: comments are set apart, labels are
//! cut off, continuation lines are joined, and columns behind the last are
//! dropped. Each statement is then read without regard to blanks outside
//! strings.

use crate::lexer::chars::{
    alpha, byte_at, char_of, chars_of, digit, is_alpha, is_digit, lemma_run_end,
    lemma_spelled_push, lower_byte, lower_text, run_end, spelled, to_lower, ByteClass,
};
use crate::lexer::free::{
    exponent_digits, is_exponent, is_quote, mantissa_end, punct, punct_of, source_limit,
};
use crate::lexer::token::{
    is_known_dot_op, kind_is, known_dot_op, KindModel, LexError, Token, TokenKind,
};
use crate::lexer::unicode::{
    all_white, chars_vec, decode_lossy, is_all_white, lossy, trim, trimmed,
};
use crate::lexer::{Position, Span};
use crate::text::{same_text, text};
use vstd::prelude::*;
use vstd::string::*;
use vstd::utf8::encode_utf8;

verus! {

/// The byte of a slice at a place, zero behind the end.
fn at(bytes: &[u8], i: usize) -> (r: u8)
    ensures
        r == byte_at(bytes@, i as int),
{
    if i < bytes.len() {
        bytes[i]
    } else {
        0
    }
}

/// Where the run of bytes of a class that starts at `i` ends.
fn scan_run(bytes: &[u8], i: usize, c: ByteClass) -> (r: usize)
    requires
        i <= bytes@.len(),
    ensures
        r == run_end(bytes@, i as int, c),
        i <= r <= bytes@.len(),
{
    let ghost end = run_end(bytes@, i as int, c);
    let mut k: usize = i;
    while k < bytes.len() && c.test(bytes[k])
        invariant
            i <= k <= bytes@.len(),
            run_end(bytes@, k as int, c) == end,
        decreases bytes@.len() - k,
    {
        k = k + 1;
    }
    k
}

/// Puts the characters of the bytes between two places behind a text.
fn push_spelled(s: &mut String, bytes: &[u8], from: usize, to: usize)
    requires
        from <= to <= bytes@.len(),
    ensures
        final(s)@ == old(s)@ + spelled(bytes@, from as int, to as int),
{
    let mut i: usize = from;
    proof {
        assert(s@ + spelled(bytes@, from as int, from as int) =~= s@);
    }
    while i < to
        invariant
            from <= i <= to <= bytes@.len(),
            s@ == old(s)@ + spelled(bytes@, from as int, i as int),
        decreases to - i,
    {
        s.push(bytes[i] as char);
        proof {
            lemma_spelled_push(bytes@, from as int, i as int);
            assert(s@ =~= old(s)@ + spelled(bytes@, from as int, i + 1));
        }
        i = i + 1;
    }
}

/// The text of the bytes between two places.
fn spelling(bytes: &[u8], from: usize, to: usize) -> (r: String)
    requires
        from <= to <= bytes@.len(),
    ensures
        r@ == spelled(bytes@, from as int, to as int),
{
    let mut s = String::new();
    push_spelled(&mut s, bytes, from, to);
    proof {
        assert(s@ =~= spelled(bytes@, from as int, to as int));
    }
    s
}

/// The bytes between two places.
fn cut(bytes: &[u8], from: usize, to: usize) -> (r: Vec<u8>)
    requires
        from <= to <= bytes@.len(),
    ensures
        r@ == bytes@.subrange(from as int, to as int),
{
    let mut out: Vec<u8> = Vec::new();
    let mut i: usize = from;
    proof {
        assert(out@ =~= bytes@.subrange(from as int, from as int));
    }
    while i < to
        invariant
            from <= i <= to <= bytes@.len(),
            out@ == bytes@.subrange(from as int, i as int),
        decreases to - i,
    {
        out.push(bytes[i]);
        proof {
            assert(bytes@.subrange(from as int, i + 1) =~= bytes@.subrange(
                from as int,
                i as int,
            ).push(bytes@[i as int]));
        }
        i = i + 1;
    }
    out
}

/// The text of the bytes between two places, decoded.
fn decoded(bytes: &[u8], from: usize, to: usize) -> (r: String)
    requires
        from <= to <= bytes@.len(),
    ensures
        r@ == lossy(bytes@.subrange(from as int, to as int)),
{
    let part = cut(bytes, from, to);
    decode_lossy(part.as_slice())
}

/// Where the text between quotes ends that runs from `i`, behind the closing
/// quote; a doubled quote does not close it.
pub open spec fn quoted_end(s: Seq<u8>, i: int, quote: u8) -> int
    decreases s.len() - i,
{
    if i < 0 || i >= s.len() {
        i
    } else if s[i] != quote {
        quoted_end(s, i + 1, quote)
    } else if i + 1 < s.len() && s[i + 1] == quote {
        quoted_end(s, i + 2, quote)
    } else {
        i + 1
    }
}

/// A quoted text does not end before it starts.
pub proof fn lemma_quoted_end(s: Seq<u8>, i: int, quote: u8)
    requires
        0 <= i <= s.len(),
    ensures
        i <= quoted_end(s, i, quote) <= s.len(),
    decreases s.len() - i,
{
    if i < s.len() {
        if s[i] != quote {
            lemma_quoted_end(s, i + 1, quote);
        } else if i + 1 < s.len() && s[i + 1] == quote {
            lemma_quoted_end(s, i + 2, quote);
        }
    }
}

fn find_quoted_end(bytes: &[u8], i: usize, quote: u8) -> (r: usize)
    requires
        i <= bytes@.len(),
    ensures
        r == quoted_end(bytes@, i as int, quote),
        i <= r <= bytes@.len(),
{
    let ghost end = quoted_end(bytes@, i as int, quote);
    let mut k: usize = i;
    while k < bytes.len()
        invariant
            i <= k <= bytes@.len(),
            end == quoted_end(bytes@, i as int, quote),
            quoted_end(bytes@, k as int, quote) == end,
        decreases bytes@.len() - k,
    {
        if bytes[k] != quote {
            k = k + 1;
        } else if k + 1 < bytes.len() && bytes[k + 1] == quote {
            k = k + 2;
        } else {
            return k + 1;
        }
    }
    k
}

/// Bytes from `i` on without the blanks outside strings.
pub open spec fn without_blanks(s: Seq<u8>, i: int) -> Seq<u8>
    decreases s.len() - i,
    when 0 <= i <= s.len()
{
    proof {
        if i < s.len() {
            lemma_quoted_end(s, i + 1, s[i]);
        }
    }
    if i >= s.len() {
        Seq::empty()
    } else if is_quote(s[i]) {
        let end = quoted_end(s, i + 1, s[i]);
        s.subrange(i, end) + without_blanks(s, end)
    } else if s[i] == 0x20 || s[i] == 0x09 {
        without_blanks(s, i + 1)
    } else {
        seq![s[i]] + without_blanks(s, i + 1)
    }
}

/// Where reading goes on behind the string or the byte at `i`.
pub open spec fn stripped_step(s: Seq<u8>, i: int) -> int {
    if is_quote(s[i]) {
        quoted_end(s, i + 1, s[i])
    } else {
        i + 1
    }
}

/// Is place `i` outside strings, for a reader who starts at `j`?
pub open spec fn outside_strings(s: Seq<u8>, j: int, i: int) -> bool
    decreases s.len() - j,
    when 0 <= j <= s.len()
{
    proof {
        if j < s.len() {
            lemma_quoted_end(s, j + 1, s[j]);
        }
    }
    j == i || (j < i && j < s.len() && outside_strings(s, stripped_step(s, j), i))
}

/// A byte behind a string does not move its end, unless it doubles the quote.
proof fn lemma_quoted_insert(s: Seq<u8>, k: int, quote: u8, i: int, b: u8)
    requires
        0 <= k <= i < s.len(),
        quoted_end(s, k, quote) <= i,
        s[i] != quote,
        b != quote,
    ensures
        quoted_end(s.insert(i, b), k, quote) == quoted_end(s, k, quote),
    decreases s.len() - k,
{
    let t = s.insert(i, b);
    if k < i {
        assert(t[k] == s[k]);
        if k + 1 < i {
            assert(t[k + 1] == s[k + 1]);
        } else {
            assert(t[k + 1] == b);
        }
        if s[k] != quote {
            lemma_quoted_insert(s, k + 1, quote, i, b);
        } else if k + 1 < s.len() && s[k + 1] == quote {
            lemma_quoted_end(s, k + 2, quote);
            lemma_quoted_insert(s, k + 2, quote, i, b);
        }
    } else {
        lemma_quoted_end(s, k + 1, quote);
    }
}

proof fn lemma_stripped_tail(s: Seq<u8>, i: int, b: u8, j: int)
    requires
        0 <= i <= j <= s.len(),
    ensures
        without_blanks(s.insert(i, b), j + 1) == without_blanks(s, j),
    decreases s.len() - j,
{
    let t = s.insert(i, b);
    if j < s.len() {
        assert(t[j + 1] == s[j]);
        if is_quote(s[j]) {
            lemma_quoted_end(s, j + 1, s[j]);
            lemma_quoted_tail(s, i, b, j + 1, s[j]);
            let end = quoted_end(s, j + 1, s[j]);
            lemma_stripped_tail(s, i, b, end);
            assert(t.subrange(j + 1, end + 1) =~= s.subrange(j, end));
        } else {
            lemma_stripped_tail(s, i, b, j + 1);
        }
    }
}

proof fn lemma_quoted_tail(s: Seq<u8>, i: int, b: u8, k: int, quote: u8)
    requires
        0 <= i <= k <= s.len(),
    ensures
        quoted_end(s.insert(i, b), k + 1, quote) == quoted_end(s, k, quote) + 1,
    decreases s.len() - k,
{
    let t = s.insert(i, b);
    if k < s.len() {
        assert(t[k + 1] == s[k]);
        if k + 1 < s.len() {
            assert(t[k + 2] == s[k + 1]);
        }
        if s[k] != quote {
            lemma_quoted_tail(s, i, b, k + 1, quote);
        } else if k + 1 < s.len() && s[k + 1] == quote {
            lemma_quoted_tail(s, i, b, k + 2, quote);
        }
    }
}

proof fn lemma_blank_inserted(s: Seq<u8>, i: int, b: u8, j: int)
    requires
        0 <= j <= i < s.len(),
        outside_strings(s, j, i),
        !is_quote(s[i]),
        b == 0x20 || b == 0x09,
    ensures
        without_blanks(s.insert(i, b), j) == without_blanks(s, j),
    decreases s.len() - j,
{
    let t = s.insert(i, b);
    if j == i {
        lemma_stripped_tail(s, i, b, i);
        assert(t[i] == b);
    } else {
        assert(t[j] == s[j]);
        lemma_quoted_end(s, j + 1, s[j]);
        let next = stripped_step(s, j);
        lemma_passed(s, next, i);
        if is_quote(s[j]) {
            lemma_quoted_insert(s, j + 1, s[j], i, b);
            assert(t.subrange(j, next) =~= s.subrange(j, next));
        }
        lemma_blank_inserted(s, i, b, next);
    }
}

proof fn lemma_passed(s: Seq<u8>, j: int, i: int)
    requires
        0 <= j <= s.len(),
        outside_strings(s, j, i),
    ensures
        j <= i,
{
}

/// A blank put in front of a byte outside strings does not change what is read
/// of a statement; in front of a quote it may part two strings.
pub proof fn blanks_outside_strings_do_not_count(s: Seq<u8>, i: int, b: u8)
    requires
        0 <= i < s.len(),
        outside_strings(s, 0, i),
        !is_quote(s[i]),
        b == 0x20 || b == 0x09,
    ensures
        without_blanks(s.insert(i, b), 0) == without_blanks(s, 0),
{
    lemma_blank_inserted(s, i, b, 0);
}

/// Drops the blanks outside strings; each byte left becomes a character.
fn strip_whitespace_outside_strings(bytes: &[u8]) -> (r: String)
    ensures
        r@ == chars_of(without_blanks(bytes@, 0)),
{
    let ghost s = bytes@;
    let mut out = String::new();
    let ghost whole = chars_of(without_blanks(s, 0));
    let mut i: usize = 0;
    proof {
        assert(out@ + whole =~= whole);
    }
    while i < bytes.len()
        invariant
            s == bytes@,
            i <= s.len(),
            out@ + chars_of(without_blanks(s, i as int)) == whole,
        decreases s.len() - i,
    {
        let b = bytes[i];
        let ghost before = out@;
        if b == 0x27 || b == 0x22 {
            let end = find_quoted_end(bytes, i + 1, b);
            push_spelled(&mut out, bytes, i, end);
            proof {
                assert(out@ + chars_of(without_blanks(s, end as int)) =~= before + chars_of(
                    s.subrange(i as int, end as int) + without_blanks(s, end as int),
                ));
            }
            i = end;
        } else if b == 0x20 || b == 0x09 {
            i = i + 1;
        } else {
            out.push(b as char);
            proof {
                assert(out@ + chars_of(without_blanks(s, i + 1)) =~= before + chars_of(
                    seq![s[i as int]] + without_blanks(s, i + 1),
                ));
            }
            i = i + 1;
        }
    }
    proof {
        assert(chars_of(without_blanks(s, i as int)) =~= Seq::<char>::empty());
        assert(out@ =~= whole);
    }
    out
}

/// The bytes in which a statement is read.
pub open spec fn statement_bytes(body: Seq<char>) -> Seq<u8> {
    encode_utf8(chars_of(without_blanks(encode_utf8(body), 0)))
}

/// The column of a place in a statement; columns are numbered up to the
/// largest number.
pub open spec fn fixed_col(i: int) -> u32 {
    if i + 7 <= u32::MAX {
        (i + 7) as u32
    } else {
        u32::MAX
    }
}

fn col_of(i: usize) -> (r: u32)
    ensures
        r == fixed_col(i as int),
{
    if i <= 4294967288 {
        (i as u32) + 7
    } else {
        u32::MAX
    }
}

/// What stands at a place of a statement.
pub enum FixedScan {
    /// A token, where its span ends, and where reading goes on.
    Token { kind: KindModel, text: Seq<char>, end: int, next: int },
    /// A character that starts no token.
    Fault { c: u8 },
}

/// The number written in decimal digits between two places.
pub open spec fn decimal_value(s: Seq<u8>, from: int, to: int) -> nat
    decreases to - from,
{
    if to <= from {
        0
    } else {
        decimal_value(s, from, to - 1) * 10 + (s[to - 1] - 0x30) as nat
    }
}

/// Where the count of a Hollerith constant that starts at `i` ends, if an H
/// follows and so many bytes behind it.
pub open spec fn hollerith_count_end(s: Seq<u8>, i: int) -> Option<int> {
    let p = run_end(s, i, ByteClass::Digit);
    if p > i && (byte_at(s, p) == 0x48 || byte_at(s, p) == 0x68) && decimal_value(s, i, p)
        <= s.len() - p - 1 {
        Some(p)
    } else {
        None
    }
}

/// The number written in decimal digits between two places, or `limit + 1`
/// where it exceeds `limit`.
fn parse_decimal(bytes: &[u8], from: usize, to: usize, limit: usize) -> (r: usize)
    requires
        from <= to <= bytes@.len(),
        limit < usize::MAX,
        forall|k: int| from <= k < to ==> is_digit(#[trigger] bytes@[k]),
    ensures
        decimal_value(bytes@, from as int, to as int) <= limit ==> r == decimal_value(
            bytes@,
            from as int,
            to as int,
        ),
        decimal_value(bytes@, from as int, to as int) > limit ==> r == limit + 1,
{
    let mut v: usize = 0;
    let mut i: usize = from;
    while i < to
        invariant
            from <= i <= to <= bytes@.len(),
            limit < usize::MAX,
            v <= limit + 1,
            forall|k: int| from <= k < to ==> is_digit(#[trigger] bytes@[k]),
            decimal_value(bytes@, from as int, i as int) <= limit ==> v == decimal_value(
                bytes@,
                from as int,
                i as int,
            ),
            decimal_value(bytes@, from as int, i as int) > limit ==> v == limit + 1,
        decreases to - i,
    {
        let d: usize = (bytes[i] - 0x30) as usize;
        let ghost before = decimal_value(bytes@, from as int, i as int);
        proof {
            assert(decimal_value(bytes@, from as int, i + 1) == before * 10 + d);
        }
        if v > limit || v > (usize::MAX - d) / 10 || v * 10 + d > limit {
            v = limit + 1;
        } else {
            v = v * 10 + d;
        }
        i = i + 1;
    }
    v
}

/// Where the count of a Hollerith constant ends that starts at `i`, with the
/// count.
fn find_hollerith(bytes: &[u8], i: usize) -> (r: Option<(usize, usize)>)
    requires
        i <= bytes@.len(),
    ensures
        match r {
            Some((p, n)) => hollerith_count_end(bytes@, i as int) == Some(p as int) && n
                == decimal_value(bytes@, i as int, p as int) && i < p < bytes@.len() && n
                <= bytes@.len() - p - 1,
            None => hollerith_count_end(bytes@, i as int) is None,
        },
{
    proof {
        lemma_run_end(bytes@, i as int, ByteClass::Digit);
    }
    let p = scan_run(bytes, i, ByteClass::Digit);
    if p == i || p >= bytes.len() {
        return None;
    }
    if bytes[p] != 0x48 && bytes[p] != 0x68 {
        return None;
    }
    let room: usize = bytes.len() - p - 1;
    proof {
        assert(bytes@.len() <= usize::MAX);
    }
    let n = parse_decimal(bytes, i, p, room);
    if n > room {
        None
    } else {
        Some((p, n))
    }
}

/// The Hollerith constant that starts at place `pos` of a text, with its
/// length in bytes.
///
/// A count and an H are followed by so many bytes of text.
pub open spec fn hollerith_at(s: Seq<u8>, pos: int) -> Option<(Seq<char>, int)> {
    match hollerith_count_end(s, pos) {
        Some(p) => {
            let end = p + 1 + decimal_value(s, pos, p);
            Some((spelled(s, pos, p) + lossy(s.subrange(p, end)), end - pos))
        },
        None => None,
    }
}

/// The Hollerith constant that starts at place `pos` of a text, with its
/// length in bytes.
pub fn try_hollerith(text: &str, pos: usize) -> (r: Option<(String, usize)>)
    ensures
        match (r, hollerith_at(text.spec_bytes(), pos as int)) {
            (Some((s, n)), Some((t, m))) => s@ == t && n == m,
            (None, None) => true,
            _ => false,
        },
{
    let bytes = text.as_bytes();
    if pos >= bytes.len() {
        return None;
    }
    match find_hollerith(bytes, pos) {
        Some((p, n)) => {
            let end: usize = p + 1 + n;
            let mut s = spelling(bytes, pos, p);
            s.append(decoded(bytes, p, end).as_str());
            Some((s, end - pos))
        },
        None => None,
    }
}

/// The operator or logical constant between dots at `i` of a statement.
///
/// The closing dot may be missing. A kind suffix of a logical constant lies
/// outside its span.
pub open spec fn fixed_dot(s: Seq<u8>, i: int) -> FixedScan {
    let stop = run_end(s, i + 1, ByteClass::Letter);
    let end = if byte_at(s, stop) == 0x2e {
        stop + 1
    } else {
        stop
    };
    let lower = lower_text(s.subrange(i + 1, stop));
    let text = "."@ + spelled(s, i + 1, stop) + "."@;
    if lower == "true"@ || lower == "false"@ {
        let next = if byte_at(s, end) == 0x5f {
            run_end(s, end + 1, ByteClass::Word)
        } else {
            end
        };
        FixedScan::Token {
            kind: KindModel::Plain(TokenKind::LogicalLiteral),
            text: text + spelled(s, end, next),
            end,
            next,
        }
    } else {
        FixedScan::Token {
            kind: if known_dot_op(lower) {
                KindModel::DotOp(lower)
            } else {
                KindModel::DefinedOp(lower)
            },
            text,
            end,
            next: end,
        }
    }
}

/// Where the number at `i` of a statement ends, and whether it is real.
///
/// An exponent needs no digits.
pub open spec fn fixed_number(s: Seq<u8>, i: int) -> (int, bool) {
    let whole = run_end(s, i, ByteClass::Digit);
    let m = mantissa_end(s, i);
    let e = if is_exponent(byte_at(s, m)) {
        run_end(s, exponent_digits(s, m), ByteClass::Digit)
    } else {
        m
    };
    let end = if byte_at(s, e) == 0x5f {
        run_end(s, e + 1, ByteClass::Word)
    } else {
        e
    };
    (end, m != whole || is_exponent(byte_at(s, m)))
}

/// A token that reaches from `i` to `end`.
pub open spec fn plain_fixed(s: Seq<u8>, kind: TokenKind, i: int, end: int) -> FixedScan {
    FixedScan::Token { kind: KindModel::Plain(kind), text: spelled(s, i, end), end, next: end }
}

/// The token at `i` of a statement.
pub open spec fn fixed_scan(s: Seq<u8>, i: int) -> FixedScan {
    let c = s[i];
    if c == 0x21 {
        let rest = lossy(s.subrange(i, s.len() as int));
        FixedScan::Token {
            kind: KindModel::Comment(rest),
            text: rest,
            end: s.len() as int,
            next: s.len() as int,
        }
    } else if is_quote(c) {
        plain_fixed(s, TokenKind::StringLiteral, i, quoted_end(s, i + 1, c))
    } else if c == 0x2e && !is_digit(byte_at(s, i + 1)) {
        fixed_dot(s, i)
    } else if c == 0x2e || is_digit(c) {
        match hollerith_count_end(s, i) {
            Some(p) if is_digit(c) && decimal_value(s, i, p) > 0 => {
                let end = p + 1 + decimal_value(s, i, p);
                FixedScan::Token {
                    kind: KindModel::Plain(TokenKind::StringLiteral),
                    text: spelled(s, i, p) + "H"@ + lossy(s.subrange(p + 1, end)),
                    end,
                    next: end,
                }
            },
            _ => {
                let (end, is_real) = fixed_number(s, i);
                plain_fixed(
                    s,
                    if is_real {
                        TokenKind::RealLiteral
                    } else {
                        TokenKind::IntegerLiteral
                    },
                    i,
                    end,
                )
            },
        }
    } else if is_alpha(c) || c == 0x5f {
        plain_fixed(s, TokenKind::Identifier, i, run_end(s, i, ByteClass::Word))
    } else {
        match punct_of(c, byte_at(s, i + 1)) {
            Some((kind, text, n)) => FixedScan::Token {
                kind: KindModel::Plain(kind),
                text,
                end: i + n,
                next: i + n,
            },
            None => FixedScan::Fault { c },
        }
    }
}

proof fn lemma_fixed_number(s: Seq<u8>, i: int)
    requires
        0 <= i < s.len(),
        is_digit(s[i]) || (s[i] == 0x2e && is_digit(byte_at(s, i + 1))),
    ensures
        i < fixed_number(s, i).0 <= s.len(),
{
    lemma_run_end(s, i, ByteClass::Digit);
    let whole = run_end(s, i, ByteClass::Digit);
    if is_digit(s[i]) {
        lemma_run_end(s, i + 1, ByteClass::Digit);
        assert(whole == run_end(s, i + 1, ByteClass::Digit));
    }
    if byte_at(s, whole) == 0x2e {
        lemma_run_end(s, whole + 1, ByteClass::Digit);
    }
    let m = mantissa_end(s, i);
    assert(i < m <= s.len());
    if is_exponent(byte_at(s, m)) {
        lemma_run_end(s, exponent_digits(s, m), ByteClass::Digit);
    }
    let e = if is_exponent(byte_at(s, m)) {
        run_end(s, exponent_digits(s, m), ByteClass::Digit)
    } else {
        m
    };
    if byte_at(s, e) == 0x5f {
        lemma_run_end(s, e + 1, ByteClass::Word);
    }
}

/// Every token of a statement takes at least one byte of it.
pub proof fn lemma_fixed_progress(s: Seq<u8>, i: int)
    requires
        0 <= i < s.len(),
    ensures
        fixed_scan(s, i) matches FixedScan::Token { next, .. } ==> i < next <= s.len(),
{
    let c = s[i];
    if is_quote(c) {
        lemma_quoted_end(s, i + 1, c);
    } else if c == 0x2e && !is_digit(byte_at(s, i + 1)) {
        lemma_run_end(s, i + 1, ByteClass::Letter);
        let stop = run_end(s, i + 1, ByteClass::Letter);
        let end = if byte_at(s, stop) == 0x2e {
            stop + 1
        } else {
            stop
        };
        if byte_at(s, end) == 0x5f {
            lemma_run_end(s, end + 1, ByteClass::Word);
        }
    } else if c == 0x2e || is_digit(c) {
        lemma_fixed_number(s, i);
        lemma_run_end(s, i, ByteClass::Digit);
    } else if is_alpha(c) || c == 0x5f {
        lemma_run_end(s, i + 1, ByteClass::Word);
        assert(run_end(s, i, ByteClass::Word) == run_end(s, i + 1, ByteClass::Word));
    }
}

/// A token with its span.
pub struct SpannedModel {
    pub kind: KindModel,
    pub text: Seq<char>,
    pub span: Span,
}

/// An error with its span.
pub struct FaultSpan {
    pub msg: Seq<char>,
    pub span: Span,
}

/// A stretch of one line.
pub open spec fn line_span(file_id: u32, line: u32, from: u32, to: u32) -> Span {
    Span { file_id, start: Position { line, col: from }, end: Position { line, col: to } }
}

/// The tokens of a statement from `i` on, or up to a character that starts none.
pub open spec fn fixed_from(s: Seq<u8>, i: int, file_id: u32, line: u32) -> (
    Seq<SpannedModel>,
    Option<FaultSpan>,
)
    decreases s.len() - i,
    when 0 <= i <= s.len()
{
    proof {
        if i < s.len() {
            lemma_fixed_progress(s, i);
        }
    }
    if i >= s.len() {
        (Seq::empty(), None)
    } else {
        match fixed_scan(s, i) {
            FixedScan::Token { kind, text, end, next } => {
                let t = SpannedModel {
                    kind,
                    text,
                    span: line_span(file_id, line, fixed_col(i), fixed_col(end)),
                };
                let rest = fixed_from(s, next, file_id, line);
                (seq![t] + rest.0, rest.1)
            },
            FixedScan::Fault { c } => (
                Seq::empty(),
                Some(
                    FaultSpan {
                        msg: "unexpected character in fixed-form body: '"@ + seq![char_of(c)]
                            + "'"@,
                        span: line_span(file_id, line, fixed_col(i), fixed_col(i)),
                    },
                ),
            ),
        }
    }
}

/// Is `t` the token that `m` describes?
pub open spec fn spanned_is(t: Token, m: SpannedModel) -> bool {
    kind_is(t.kind, m.kind) && t.text@ == m.text && t.span == m.span
}

/// Are these the tokens that the models describe?
pub open spec fn spanned_are(ts: Seq<Token>, ms: Seq<SpannedModel>) -> bool {
    ts.len() == ms.len() && forall|i: int| 0 <= i < ts.len() ==> spanned_is(#[trigger] ts[i], ms[i])
}

fn fixed_span(file_id: u32, line: u32, from: usize, to: usize) -> (r: Span)
    ensures
        r == line_span(file_id, line, fixed_col(from as int), fixed_col(to as int)),
{
    Span {
        file_id,
        start: Position { line, col: col_of(from) },
        end: Position { line, col: col_of(to) },
    }
}

/// Is `r` what `fixed_scan` says of place `i`?
spec fn fixed_outcome(
    s: Seq<u8>,
    i: int,
    file_id: u32,
    line: u32,
    m: FixedScan,
    t: Token,
    next: usize,
) -> bool {
    m matches FixedScan::Token { kind, text, end, next: n } && kind_is(t.kind, kind) && t.text@
        == text && t.span == line_span(file_id, line, fixed_col(i), fixed_col(end)) && next == n
}

fn lex_fixed_string(bytes: &[u8], i: usize, file_id: u32, line: u32) -> (r: (Token, usize))
    requires
        i < bytes@.len(),
    ensures
        fixed_outcome(
            bytes@,
            i as int,
            file_id,
            line,
            plain_fixed(
                bytes@,
                TokenKind::StringLiteral,
                i as int,
                quoted_end(bytes@, i + 1, bytes@[i as int]),
            ),
            r.0,
            r.1,
        ),
{
    let len: usize = bytes.len();
    let end = find_quoted_end(bytes, i + 1, bytes[i]);
    let t = Token {
        kind: TokenKind::StringLiteral,
        text: spelling(bytes, i, end),
        span: fixed_span(file_id, line, i, end),
    };
    (t, end)
}

/// The lower-case text of the bytes between two places.
fn lowered(bytes: &[u8], from: usize, to: usize) -> (r: String)
    requires
        from <= to <= bytes@.len(),
    ensures
        r@ == lower_text(bytes@.subrange(from as int, to as int)),
{
    let mut s = String::new();
    let mut i: usize = from;
    proof {
        assert(s@ =~= lower_text(bytes@.subrange(from as int, from as int)));
    }
    while i < to
        invariant
            from <= i <= to <= bytes@.len(),
            s@ == lower_text(bytes@.subrange(from as int, i as int)),
        decreases to - i,
    {
        s.push(to_lower(bytes[i]) as char);
        proof {
            assert(lower_text(bytes@.subrange(from as int, i + 1)) =~= lower_text(
                bytes@.subrange(from as int, i as int),
            ).push(char_of(lower_byte(bytes@[i as int]))));
        }
        i = i + 1;
    }
    s
}

fn lex_fixed_dot_op(bytes: &[u8], i: usize, file_id: u32, line: u32) -> (r: (Token, usize))
    requires
        i < bytes@.len(),
    ensures
        fixed_outcome(bytes@, i as int, file_id, line, fixed_dot(bytes@, i as int), r.0, r.1),
{
    let len: usize = bytes.len();
    let stop = scan_run(bytes, i + 1, ByteClass::Letter);
    let end: usize = if at(bytes, stop) == 0x2e {
        stop + 1
    } else {
        stop
    };
    let lower = lowered(bytes, i + 1, stop);
    let mut t = text(".");
    push_spelled(&mut t, bytes, i + 1, stop);
    t.append(".");
    let span = fixed_span(file_id, line, i, end);
    if same_text(lower.as_str(), "true") || same_text(lower.as_str(), "false") {
        let next: usize = if at(bytes, end) == 0x5f {
            scan_run(bytes, end + 1, ByteClass::Word)
        } else {
            end
        };
        push_spelled(&mut t, bytes, end, next);
        return (Token { kind: TokenKind::LogicalLiteral, text: t, span }, next);
    }
    if is_known_dot_op(lower.as_str()) {
        return (Token { kind: TokenKind::DotOp(lower), text: t, span }, end);
    }
    (Token { kind: TokenKind::DefinedOp(lower), text: t, span }, end)
}

fn lex_fixed_number(bytes: &[u8], i: usize, file_id: u32, line: u32) -> (r: (Token, usize))
    requires
        i < bytes@.len(),
        is_digit(bytes@[i as int]) || (bytes@[i as int] == 0x2e && is_digit(
            byte_at(bytes@, i + 1),
        )),
    ensures
        fixed_outcome(
            bytes@,
            i as int,
            file_id,
            line,
            plain_fixed(
                bytes@,
                if fixed_number(bytes@, i as int).1 {
                    TokenKind::RealLiteral
                } else {
                    TokenKind::IntegerLiteral
                },
                i as int,
                fixed_number(bytes@, i as int).0,
            ),
            r.0,
            r.1,
        ),
{
    let len: usize = bytes.len();
    let mut is_real: bool = false;
    let mut end = scan_run(bytes, i, ByteClass::Digit);
    if at(bytes, end) == 0x2e {
        let next = at(bytes, end + 1);
        let numeric: bool = if end == i || digit(next) {
            true
        } else if next == 0x65 || next == 0x45 || next == 0x64 || next == 0x44 {
            let after: u8 = if end + 1 < len {
                at(bytes, end + 2)
            } else {
                0
            };
            digit(after) || after == 0x2b || after == 0x2d
        } else {
            !alpha(next)
        };
        if numeric {
            is_real = true;
            end = scan_run(bytes, end + 1, ByteClass::Digit);
        }
    }
    proof {
        assert(end == mantissa_end(bytes@, i as int));
    }
    let e = at(bytes, end);
    if e == 0x65 || e == 0x45 || e == 0x64 || e == 0x44 {
        is_real = true;
        end = end + 1;
        let sign = at(bytes, end);
        if sign == 0x2b || sign == 0x2d {
            end = end + 1;
        }
        end = scan_run(bytes, end, ByteClass::Digit);
    }
    if at(bytes, end) == 0x5f {
        end = scan_run(bytes, end + 1, ByteClass::Word);
    }
    let kind = if is_real {
        TokenKind::RealLiteral
    } else {
        TokenKind::IntegerLiteral
    };
    let t = Token {
        kind,
        text: spelling(bytes, i, end),
        span: fixed_span(file_id, line, i, end),
    };
    (t, end)
}

fn lex_fixed_ident_or_keyword(bytes: &[u8], i: usize, file_id: u32, line: u32) -> (r: (
    Token,
    usize,
))
    requires
        i < bytes@.len(),
    ensures
        fixed_outcome(
            bytes@,
            i as int,
            file_id,
            line,
            plain_fixed(
                bytes@,
                TokenKind::Identifier,
                i as int,
                run_end(bytes@, i as int, ByteClass::Word),
            ),
            r.0,
            r.1,
        ),
{
    let end = scan_run(bytes, i, ByteClass::Word);
    let t = Token {
        kind: TokenKind::Identifier,
        text: spelling(bytes, i, end),
        span: fixed_span(file_id, line, i, end),
    };
    (t, end)
}

/// The token at `i` of a statement, with where reading goes on.
fn lex_fixed_token(bytes: &[u8], i: usize, file_id: u32, line: u32) -> (r: Result<
    (Token, usize),
    LexError,
>)
    requires
        i < bytes@.len(),
    ensures
        match r {
            Ok((t, next)) => fixed_outcome(
                bytes@,
                i as int,
                file_id,
                line,
                fixed_scan(bytes@, i as int),
                t,
                next,
            ),
            Err(e) => fixed_scan(bytes@, i as int) matches FixedScan::Fault { c } && e.msg@
                == "unexpected character in fixed-form body: '"@ + seq![char_of(c)] + "'"@ && e.span
                == line_span(file_id, line, fixed_col(i as int), fixed_col(i as int)),
        },
{
    let len: usize = bytes.len();
    let c = bytes[i];
    if c == 0x21 {
        let rest = decoded(bytes, i, bytes.len());
        let t = Token {
            kind: TokenKind::Comment(rest.clone()),
            text: rest,
            span: fixed_span(file_id, line, i, bytes.len()),
        };
        return Ok((t, bytes.len()));
    }
    if c == 0x27 || c == 0x22 {
        return Ok(lex_fixed_string(bytes, i, file_id, line));
    }
    if c == 0x2e && !digit(at(bytes, i + 1)) {
        return Ok(lex_fixed_dot_op(bytes, i, file_id, line));
    }
    if digit(c) {
        if let Some((p, n)) = find_hollerith(bytes, i) {
            if n > 0 {
                let end: usize = p + 1 + n;
                let mut s = spelling(bytes, i, p);
                s.append("H");
                s.append(decoded(bytes, p + 1, end).as_str());
                let t = Token {
                    kind: TokenKind::StringLiteral,
                    text: s,
                    span: fixed_span(file_id, line, i, end),
                };
                return Ok((t, end));
            }
        }
    }
    if c == 0x2e || digit(c) {
        return Ok(lex_fixed_number(bytes, i, file_id, line));
    }
    if alpha(c) || c == 0x5f {
        return Ok(lex_fixed_ident_or_keyword(bytes, i, file_id, line));
    }
    match punct(c, at(bytes, i + 1)) {
        Some((kind, spelling, n)) => {
            let end: usize = i + n;
            let t = Token { kind, text: text(spelling), span: fixed_span(file_id, line, i, end) };
            Ok((t, end))
        },
        None => {
            let mut msg = text("unexpected character in fixed-form body: '");
            let ghost before = msg@;
            msg.push(c as char);
            proof {
                assert(msg@ =~= before + seq![char_of(c)]);
            }
            msg.append("'");
            Err(LexError { span: fixed_span(file_id, line, i, i), msg })
        },
    }
}

/// Reads a statement, with blanks outside strings dropped; its tokens are put
/// behind `tokens`.
fn tokenize_body(body: &str, file_id: u32, line: u32, tokens: &mut Vec<Token>) -> (r: Result<
    (),
    LexError,
>)
    ensures
        ({
            let (ms, fault) = fixed_from(statement_bytes(body@), 0, file_id, line);
            match r {
                Ok(_) => fault is None && final(tokens)@.len() == old(tokens)@.len() + ms.len()
                    && final(tokens)@.take(old(tokens)@.len() as int) == old(tokens)@
                    && spanned_are(final(tokens)@.skip(old(tokens)@.len() as int), ms),
                Err(e) => fault matches Some(m) && e.msg@ == m.msg && e.span == m.span,
            }
        }),
{
    let stripped = strip_whitespace_outside_strings(body.as_bytes());
    let bytes = stripped.as_str().as_bytes();
    let ghost s = statement_bytes(body@);
    let ghost whole = fixed_from(s, 0, file_id, line);
    let ghost mut sofar: Seq<SpannedModel> = Seq::empty();
    let mut i: usize = 0;
    proof {
        assert(bytes@ == s);
        assert(sofar + whole.0 =~= whole.0);
        assert(tokens@.take(tokens@.len() as int) =~= tokens@);
    }
    while i < bytes.len()
        invariant
            bytes@ == s,
            i <= s.len(),
            s == statement_bytes(body@),
            whole == fixed_from(s, 0, file_id, line),
            sofar + fixed_from(s, i as int, file_id, line).0 == whole.0,
            fixed_from(s, i as int, file_id, line).1 == whole.1,
            tokens@.len() == old(tokens)@.len() + sofar.len(),
            tokens@.take(old(tokens)@.len() as int) == old(tokens)@,
            spanned_are(tokens@.skip(old(tokens)@.len() as int), sofar),
        decreases s.len() - i,
    {
        proof {
            lemma_fixed_progress(s, i as int);
        }
        match lex_fixed_token(bytes, i, file_id, line) {
            Ok((t, next)) => {
                let ghost m = SpannedModel {
                    kind: fixed_scan(s, i as int)->kind,
                    text: fixed_scan(s, i as int)->text,
                    span: t.span,
                };
                let ghost before = tokens@;
                let ghost n = old(tokens)@.len() as int;
                tokens.push(t);
                proof {
                    let rest = fixed_from(s, next as int, file_id, line).0;
                    assert(fixed_from(s, i as int, file_id, line).0 =~= seq![m] + rest);
                    assert(sofar + (seq![m] + rest) =~= sofar.push(m) + rest);
                    assert(tokens@.take(n) =~= before.take(n));
                    assert(tokens@.skip(n) =~= before.skip(n).push(t));
                    sofar = sofar.push(m);
                }
                i = next;
            },
            Err(e) => {
                return Err(e);
            },
        }
    }
    proof {
        assert(sofar =~= whole.0);
    }
    Ok(())
}

/// The lines of a source from `i` on, without their ends.
///
/// A carriage return directly before a line feed belongs to the line end.
pub open spec fn lines_from(src: Seq<u8>, i: int) -> Seq<Seq<u8>>
    decreases src.len() + 1 - i,
    when 0 <= i
{
    proof {
        if i < src.len() {
            lemma_run_end(src, i, ByteClass::InLine);
        }
    }
    if i >= src.len() {
        Seq::empty()
    } else {
        let end = run_end(src, i, ByteClass::InLine);
        seq![src.subrange(i, line_stop(src, i, end))] + lines_from(src, end + 1)
    }
}

/// Where the text of the line from `i` stops whose line feed would stand at
/// `end`.
pub open spec fn line_stop(src: Seq<u8>, i: int, end: int) -> int {
    if end < src.len() && end > i && src[end - 1] == 0x0d {
        end - 1
    } else {
        end
    }
}

/// A source has no more lines than bytes, and no line is longer.
pub proof fn lemma_lines(src: Seq<u8>, i: int)
    requires
        0 <= i,
    ensures
        lines_from(src, i).len() <= if i < src.len() {
            src.len() - i
        } else {
            0
        },
        forall|k: int|
            0 <= k < lines_from(src, i).len() ==> (#[trigger] lines_from(src, i)[k]).len()
                <= src.len(),
    decreases src.len() + 1 - i,
{
    if i < src.len() {
        lemma_run_end(src, i, ByteClass::InLine);
        let end = run_end(src, i, ByteClass::InLine);
        lemma_lines(src, end + 1);
        let all = lines_from(src, i);
        let rest = lines_from(src, end + 1);
        assert forall|k: int| 0 <= k < all.len() implies (#[trigger] all[k]).len() <= src.len() by {
            if k > 0 {
                assert(all[k] == rest[k - 1]);
            }
        }
    }
}

/// The bytes of each line.
pub open spec fn lines_view(lines: Seq<Vec<u8>>) -> Seq<Seq<u8>> {
    Seq::new(lines.len(), |i: int| lines[i]@)
}

/// The lines of a source.
fn split_lines(bytes: &[u8]) -> (r: Vec<Vec<u8>>)
    ensures
        lines_view(r@) == lines_from(bytes@, 0),
{
    let ghost src = bytes@;
    let len: usize = bytes.len();
    let mut out: Vec<Vec<u8>> = Vec::new();
    let mut i: usize = 0;
    let mut more: bool = len > 0;
    proof {
        assert(lines_view(out@) + lines_from(src, 0) =~= lines_from(src, 0));
    }
    while more
        invariant
            src == bytes@,
            len == src.len(),
            more ==> i < len,
            !more ==> lines_view(out@) == lines_from(src, 0),
            more ==> lines_view(out@) + lines_from(src, i as int) == lines_from(src, 0),
        decreases (if more { len - i } else { 0 }), (if more { 1nat } else { 0nat }),
    {
        let end = scan_run(bytes, i, ByteClass::InLine);
        let stop: usize = if end < len && end > i && bytes[end - 1] == 0x0d {
            end - 1
        } else {
            end
        };
        let line = cut(bytes, i, stop);
        let ghost before = lines_view(out@);
        let ghost rest = lines_from(src, end + 1);
        out.push(line);
        proof {
            assert(lines_view(out@) =~= before.push(line@));
            assert(before + (seq![line@] + rest) =~= before.push(line@) + rest);
        }
        if end < len && end + 1 < len {
            i = end + 1;
        } else {
            proof {
                assert(rest =~= Seq::<Seq<u8>>::empty());
                assert(lines_view(out@) =~= lines_from(src, 0));
            }
            more = false;
        }
    }
    if len == 0 {
        proof {
            assert(lines_view(out@) =~= lines_from(src, 0));
        }
    }
    out
}

/// Is a line blank?
pub open spec fn blank_line(line: Seq<u8>) -> bool {
    all_white(lossy(line))
}

/// Is a line a comment: does it start with a C, a star or an exclamation mark?
pub open spec fn comment_line(line: Seq<u8>) -> bool {
    let c = byte_at(line, 0);
    c == 0x43 || c == 0x63 || c == 0x2a || c == 0x21
}

/// Does a line continue the statement before it?
///
/// A mark stands in the sixth column, or a digit but zero behind a leading tab.
pub open spec fn continues(line: Seq<u8>) -> bool {
    if byte_at(line, 0) == 0x09 && line.len() > 1 {
        0x31 <= line[1] <= 0x39
    } else {
        line.len() >= 6 && line[5] != 0x20 && line[5] != 0x30 && line[5] != 0x09
    }
}

/// The smaller of two numbers.
pub open spec fn at_most(a: int, b: int) -> int {
    if a <= b {
        a
    } else {
        b
    }
}

/// The label of a line: its first five columns.
pub open spec fn label_of(line: Seq<u8>) -> Seq<char> {
    if byte_at(line, 0) == 0x09 {
        Seq::empty()
    } else {
        lossy(line.take(at_most(5, line.len() as int)))
    }
}

/// The statement part of a line: its columns from the seventh to the last that
/// counts, or what stands behind a leading tab and a continuation digit.
pub open spec fn body_of(line: Seq<u8>) -> Seq<char> {
    if byte_at(line, 0) == 0x09 {
        let from: int = if line.len() > 1 && 0x31 <= line[1] <= 0x39 {
            2
        } else {
            1
        };
        if from < line.len() {
            lossy(line.skip(from))
        } else {
            Seq::empty()
        }
    } else if line.len() > 6 {
        lossy(line.subrange(6, at_most(72, line.len() as int)))
    } else {
        Seq::empty()
    }
}

fn is_blank_line(line: &Vec<u8>) -> (r: bool)
    ensures
        r == blank_line(line@),
{
    let text = decode_lossy(line.as_slice());
    is_all_white(&chars_vec(text.as_str()))
}

fn is_comment_line(line: &Vec<u8>) -> (r: bool)
    ensures
        r == comment_line(line@),
{
    let c = at(line.as_slice(), 0);
    c == 0x43 || c == 0x63 || c == 0x2a || c == 0x21
}

fn is_continuation_line(line: &Vec<u8>) -> (r: bool)
    ensures
        r == continues(line@),
{
    if line.len() > 1 && line[0] == 0x09 {
        return 0x31 <= line[1] && line[1] <= 0x39;
    }
    line.len() >= 6 && line[5] != 0x20 && line[5] != 0x30 && line[5] != 0x09
}

/// The label and the statement part of a line.
fn extract_fixed_columns(line: &Vec<u8>) -> (r: (String, String))
    ensures
        r.0@ == label_of(line@),
        r.1@ == body_of(line@),
{
    let len: usize = line.len();
    let bytes = line.as_slice();
    let none = String::new();
    proof {
        assert(none@ =~= Seq::<char>::empty());
    }
    if len > 0 && line[0] == 0x09 {
        let from: usize = if len > 1 && 0x31 <= line[1] && line[1] <= 0x39 {
            2
        } else {
            1
        };
        if from < len {
            proof {
                assert(line@.subrange(from as int, len as int) =~= line@.skip(from as int));
            }
            return (none, decoded(bytes, from, len));
        }
        return (none, String::new());
    }
    let label_end: usize = if len >= 5 {
        5
    } else {
        len
    };
    proof {
        assert(line@.subrange(0, label_end as int) =~= line@.take(label_end as int));
    }
    let label = decoded(bytes, 0, label_end);
    if len > 6 {
        let end: usize = if len >= 72 {
            72
        } else {
            len
        };
        (label, decoded(bytes, 6, end))
    } else {
        (label, none)
    }
}

/// A line or a statement of fixed-form source, with the number of its line.
pub enum LineModel {
    Blank { line: int },
    Comment { line: int, bytes: Seq<u8> },
    Statement { line: int, label: Seq<char>, body: Seq<char> },
}

/// What follows a statement from line `i` on: the comments among its
/// continuation lines, its whole body, and the line behind it.
pub open spec fn gather_statement(lines: Seq<Seq<u8>>, i: int, body: Seq<char>) -> (
    Seq<LineModel>,
    Seq<char>,
    int,
)
    decreases lines.len() - i,
{
    if i < 0 || i >= lines.len() {
        (Seq::empty(), body, i)
    } else if blank_line(lines[i]) {
        gather_statement(lines, i + 1, body)
    } else if comment_line(lines[i]) {
        let rest = gather_statement(lines, i + 1, body);
        (seq![LineModel::Comment { line: i + 1, bytes: lines[i] }] + rest.0, rest.1, rest.2)
    } else if continues(lines[i]) {
        gather_statement(lines, i + 1, body + body_of(lines[i]))
    } else {
        (Seq::empty(), body, i)
    }
}

/// Gathering a statement does not go back, nor behind the last line.
pub proof fn lemma_gather_statement(lines: Seq<Seq<u8>>, i: int, body: Seq<char>)
    requires
        0 <= i <= lines.len(),
    ensures
        i <= gather_statement(lines, i, body).2 <= lines.len(),
    decreases lines.len() - i,
{
    if i < lines.len() {
        if blank_line(lines[i]) {
            lemma_gather_statement(lines, i + 1, body);
        } else if comment_line(lines[i]) {
            lemma_gather_statement(lines, i + 1, body);
        } else if continues(lines[i]) {
            lemma_gather_statement(lines, i + 1, body + body_of(lines[i]));
        }
    }
}

/// The lines from `i` on, folded into statements.
pub open spec fn fold_lines(lines: Seq<Seq<u8>>, i: int) -> Seq<LineModel>
    decreases lines.len() - i,
    when 0 <= i
{
    proof {
        if i < lines.len() {
            lemma_gather_statement(lines, i + 1, body_of(lines[i]));
        }
    }
    if i >= lines.len() {
        Seq::empty()
    } else if blank_line(lines[i]) {
        seq![LineModel::Blank { line: i + 1 }] + fold_lines(lines, i + 1)
    } else if comment_line(lines[i]) {
        seq![LineModel::Comment { line: i + 1, bytes: lines[i] }] + fold_lines(lines, i + 1)
    } else {
        let (comments, body, next) = gather_statement(lines, i + 1, body_of(lines[i]));
        comments + seq![
            LineModel::Statement { line: i + 1, label: label_of(lines[i]), body },
        ] + fold_lines(lines, next)
    }
}

/// A line or a statement of fixed-form source.
enum FixedLine {
    Blank { line: u32 },
    Comment { line: u32, bytes: Vec<u8> },
    Statement { line: u32, label: String, body: String },
}

spec fn fixed_line_is(l: FixedLine, m: LineModel) -> bool {
    match (l, m) {
        (FixedLine::Blank { line: a }, LineModel::Blank { line: b }) => a == b,
        (
            FixedLine::Comment { line: a, bytes: s },
            LineModel::Comment { line: b, bytes: t },
        ) => a == b && s@ == t,
        (
            FixedLine::Statement { line: a, label: l, body: s },
            LineModel::Statement { line: b, label: m, body: t },
        ) => a == b && l@ == m && s@ == t,
        _ => false,
    }
}

spec fn fixed_lines_are(ls: Seq<FixedLine>, ms: Seq<LineModel>) -> bool {
    ls.len() == ms.len() && forall|i: int|
        0 <= i < ls.len() ==> fixed_line_is(#[trigger] ls[i], ms[i])
}

/// Folds lines into statements.
fn preprocess_lines(lines: &Vec<Vec<u8>>) -> (r: Vec<FixedLine>)
    requires
        lines@.len() <= source_limit(),
    ensures
        fixed_lines_are(r@, fold_lines(lines_view(lines@), 0)),
{
    let ghost all = lines_view(lines@);
    let ghost whole = fold_lines(all, 0);
    let mut out: Vec<FixedLine> = Vec::new();
    let ghost mut done: Seq<LineModel> = Seq::empty();
    let mut i: usize = 0;
    proof {
        assert(done + whole =~= whole);
    }
    while i < lines.len()
        invariant
            all == lines_view(lines@),
            lines@.len() <= source_limit(),
            whole == fold_lines(all, 0),
            i <= lines@.len(),
            fixed_lines_are(out@, done),
            done + fold_lines(all, i as int) == whole,
        decreases lines@.len() - i,
    {
        let line: u32 = (i + 1) as u32;
        proof {
            assert(all[i as int] == lines@[i as int]@);
        }
        if is_blank_line(&lines[i]) {
            out.push(FixedLine::Blank { line });
            proof {
                let m = LineModel::Blank { line: i + 1 };
                let rest = fold_lines(all, i + 1);
                assert(done + (seq![m] + rest) =~= done.push(m) + rest);
                done = done.push(m);
            }
            i = i + 1;
        } else if is_comment_line(&lines[i]) {
            let bytes = cut(lines[i].as_slice(), 0, lines[i].len());
            proof {
                assert(bytes@ =~= all[i as int]);
                let m = LineModel::Comment { line: i + 1, bytes: all[i as int] };
                let rest = fold_lines(all, i + 1);
                assert(done + (seq![m] + rest) =~= done.push(m) + rest);
                done = done.push(m);
            }
            out.push(FixedLine::Comment { line, bytes });
            i = i + 1;
        } else {
            let (label, first) = extract_fixed_columns(&lines[i]);
            let mut body = first;
            let ghost start = i as int;
            let ghost fold = gather_statement(all, i + 1, body_of(all[i as int]));
            let ghost before = done;
            let ghost mut comments: Seq<LineModel> = Seq::empty();
            let mut j: usize = i + 1;
            let mut going: bool = true;
            proof {
                assert(before + comments =~= done);
                assert(comments + fold.0 =~= fold.0);
            }
            while j < lines.len() && going
                invariant
                    all == lines_view(lines@),
                    lines@.len() <= source_limit(),
                    start < j <= lines@.len(),
                    done == before + comments,
                    fixed_lines_are(out@, done),
                    going ==> ({
                        let g = gather_statement(all, j as int, body@);
                        comments + g.0 == fold.0 && g.1 == fold.1 && g.2 == fold.2
                    }),
                    !going ==> comments == fold.0 && body@ == fold.1 && j == fold.2,
                decreases lines@.len() - j, (if going { 1nat } else { 0nat }),
            {
                proof {
                    assert(all[j as int] == lines@[j as int]@);
                }
                if is_blank_line(&lines[j]) {
                    j = j + 1;
                } else if is_comment_line(&lines[j]) {
                    let bytes = cut(lines[j].as_slice(), 0, lines[j].len());
                    proof {
                        assert(bytes@ =~= all[j as int]);
                        let m = LineModel::Comment { line: j + 1, bytes: all[j as int] };
                        let g = gather_statement(all, j + 1, body@);
                        assert(comments + (seq![m] + g.0) =~= comments.push(m) + g.0);
                        comments = comments.push(m);
                        done = done.push(m);
                        assert(done =~= before + comments);
                    }
                    out.push(FixedLine::Comment { line: (j + 1) as u32, bytes });
                    j = j + 1;
                } else if is_continuation_line(&lines[j]) {
                    let (_, more) = extract_fixed_columns(&lines[j]);
                    body.append(more.as_str());
                    j = j + 1;
                } else {
                    proof {
                        assert(comments + Seq::<LineModel>::empty() =~= comments);
                    }
                    going = false;
                }
            }
            proof {
                if going {
                    assert(comments + Seq::<LineModel>::empty() =~= comments);
                }
                let m = LineModel::Statement {
                    line: start + 1,
                    label: label_of(all[start]),
                    body: fold.1,
                };
                let rest = fold_lines(all, fold.2);
                assert(before + (fold.0 + seq![m] + rest) =~= done.push(m) + rest);
                done = done.push(m);
            }
            out.push(FixedLine::Statement { line, label, body });
            i = j;
        }
    }
    proof {
        assert(done =~= whole);
    }
    out
}

/// The newline token of a line.
pub open spec fn newline_model(span: Span) -> SpannedModel {
    SpannedModel { kind: KindModel::Plain(TokenKind::Newline), text: seq!['\n'], span }
}

/// The span of a comment line.
pub open spec fn comment_span(file_id: u32, line: u32, len: int) -> Span {
    line_span(file_id, line, 1, len as u32)
}

/// The tokens of a line or statement, and the fault that ends them, if any.
pub open spec fn line_tokens(m: LineModel, file_id: u32) -> (Seq<SpannedModel>, Option<FaultSpan>) {
    match m {
        LineModel::Blank { line } => (
            seq![newline_model(line_span(file_id, line as u32, 1, 1))],
            None,
        ),
        LineModel::Comment { line, bytes } => {
            let span = comment_span(file_id, line as u32, bytes.len() as int);
            let text = lossy(bytes);
            (
                seq![
                    SpannedModel { kind: KindModel::Comment(text), text, span },
                    newline_model(span),
                ],
                None,
            )
        },
        LineModel::Statement { line, label, body } => {
            let head = if trimmed(label).len() == 0 {
                Seq::<SpannedModel>::empty()
            } else {
                seq![
                    SpannedModel {
                        kind: KindModel::Plain(TokenKind::IntegerLiteral),
                        text: trimmed(label),
                        span: line_span(file_id, line as u32, 1, 6),
                    },
                ]
            };
            let (inner, fault) = fixed_from(statement_bytes(body), 0, file_id, line as u32);
            if fault is Some {
                (head + inner, fault)
            } else {
                (head + inner + seq![newline_model(line_span(file_id, line as u32, 1, 1))], None)
            }
        },
    }
}

/// The tokens of the lines and statements from `i` on, up to the first fault.
pub open spec fn all_tokens(ms: Seq<LineModel>, i: int, file_id: u32) -> (
    Seq<SpannedModel>,
    Option<FaultSpan>,
)
    decreases ms.len() - i,
{
    if i < 0 || i >= ms.len() {
        (Seq::empty(), None)
    } else {
        let (head, fault) = line_tokens(ms[i], file_id);
        if fault is Some {
            (head, fault)
        } else {
            let rest = all_tokens(ms, i + 1, file_id);
            (head + rest.0, rest.1)
        }
    }
}

/// The tokens of a fixed-form source up to the first fault, without the last.
pub open spec fn fixed_source_tokens(src: Seq<u8>, file_id: u32) -> (
    Seq<SpannedModel>,
    Option<FaultSpan>,
) {
    all_tokens(fold_lines(lines_from(src, 0), 0), 0, file_id)
}

/// The token that ends a fixed-form source.
pub open spec fn fixed_end(src: Seq<u8>, file_id: u32) -> SpannedModel {
    let line = (lines_from(src, 0).len() + 1) as u32;
    SpannedModel {
        kind: KindModel::Plain(TokenKind::Eof),
        text: Seq::empty(),
        span: line_span(file_id, line, 1, 1),
    }
}

fn newline_token(span: Span) -> (r: Token)
    ensures
        spanned_is(r, newline_model(span)),
{
    let t = text("\n");
    proof {
        reveal_strlit("\n");
        assert(t@ =~= seq!['\n']);
    }
    Token { kind: TokenKind::Newline, text: t, span }
}

/// What a list of tokens holds that grew by one.
proof fn lemma_spanned_push(ts: Seq<Token>, ms: Seq<SpannedModel>, t: Token, m: SpannedModel)
    requires
        spanned_are(ts, ms),
        spanned_is(t, m),
    ensures
        spanned_are(ts.push(t), ms.push(m)),
{
}

/// Appends the tokens of a line or statement.
fn push_line_tokens(line: &FixedLine, file_id: u32, tokens: &mut Vec<Token>, Ghost(m): Ghost<
    LineModel,
>, Ghost(before): Ghost<Seq<SpannedModel>>) -> (r: Result<(), LexError>)
    requires
        fixed_line_is(*line, m),
        spanned_are(old(tokens)@, before),
    ensures
        ({
            let (ms, fault) = line_tokens(m, file_id);
            match r {
                Ok(_) => fault is None && spanned_are(final(tokens)@, before + ms),
                Err(e) => fault matches Some(f) && e.msg@ == f.msg && e.span == f.span,
            }
        }),
{
    match line {
        FixedLine::Blank { line } => {
            let span = Span {
                file_id,
                start: Position { line: *line, col: 1 },
                end: Position { line: *line, col: 1 },
            };
            let t = newline_token(span);
            proof {
                lemma_spanned_push(tokens@, before, t, newline_model(span));
                assert(before.push(newline_model(span)) =~= before + line_tokens(m, file_id).0);
            }
            tokens.push(t);
            Ok(())
        },
        FixedLine::Comment { line, bytes } => {
            let span = Span {
                file_id,
                start: Position { line: *line, col: 1 },
                end: Position { line: *line, col: bytes.len() as u32 },
            };
            let shown = decode_lossy(bytes.as_slice());
            let kept = text(shown.as_str());
            let c = Token { kind: TokenKind::Comment(kept), text: shown, span };
            let t = newline_token(span);
            proof {
                let cm = line_tokens(m, file_id).0[0];
                lemma_spanned_push(tokens@, before, c, cm);
                lemma_spanned_push(
                    tokens@.push(c),
                    before.push(cm),
                    t,
                    newline_model(span),
                );
                assert(before.push(cm).push(newline_model(span)) =~= before + line_tokens(
                    m,
                    file_id,
                ).0);
            }
            tokens.push(c);
            tokens.push(t);
            Ok(())
        },
        FixedLine::Statement { line, label, body } => {
            let ghost mut sofar = before;
            let number = trim(label.as_str());
            if number.as_str().unicode_len() > 0 {
                let span = Span {
                    file_id,
                    start: Position { line: *line, col: 1 },
                    end: Position { line: *line, col: 6 },
                };
                let t = Token { kind: TokenKind::IntegerLiteral, text: number, span };
                proof {
                    let lm = SpannedModel {
                        kind: KindModel::Plain(TokenKind::IntegerLiteral),
                        text: number@,
                        span,
                    };
                    lemma_spanned_push(tokens@, before, t, lm);
                    sofar = before.push(lm);
                }
                tokens.push(t);
            }
            let ghost grown = tokens@;
            let ghost inner = fixed_from(statement_bytes(body@), 0, file_id, *line).0;
            match tokenize_body(body.as_str(), file_id, *line, tokens) {
                Ok(_) => {
                    proof {
                        assert(tokens@ =~= grown + tokens@.skip(grown.len() as int));
                        assert forall|k: int| 0 <= k < tokens@.len() implies spanned_is(
                            #[trigger] tokens@[k],
                            (sofar + inner)[k],
                        ) by {
                            if k >= grown.len() {
                                let s = tokens@.skip(grown.len() as int);
                                assert(s[k - grown.len()] == tokens@[k]);
                            } else {
                                assert(tokens@.take(grown.len() as int)[k] == grown[k]);
                            }
                        }
                    }
                    let span = Span {
                        file_id,
                        start: Position { line: *line, col: 1 },
                        end: Position { line: *line, col: 1 },
                    };
                    let t = newline_token(span);
                    proof {
                        lemma_spanned_push(tokens@, sofar + inner, t, newline_model(span));
                        assert((sofar + inner).push(newline_model(span)) =~= before + line_tokens(
                            m,
                            file_id,
                        ).0);
                    }
                    tokens.push(t);
                    Ok(())
                },
                Err(e) => Err(e),
            }
        },
    }
}

/// Reads a whole fixed-form source.
pub fn tokenize_fixed(src: &str, file_id: u32) -> (r: Result<Vec<Token>, LexError>)
    requires
        src.spec_bytes().len() <= source_limit(),
    ensures
        ({
            let bytes = src.spec_bytes();
            let (ms, fault) = fixed_source_tokens(bytes, file_id);
            match r {
                Ok(ts) => fault is None && spanned_are(ts@, ms.push(fixed_end(bytes, file_id))),
                Err(e) => fault matches Some(f) && e.msg@ == f.msg && e.span == f.span,
            }
        }),
{
    let ghost bytes = src.spec_bytes();
    let lines = split_lines(src.as_bytes());
    proof {
        lemma_lines(bytes, 0);
        assert(lines_view(lines@).len() == lines@.len());
    }
    let folded = preprocess_lines(&lines);
    let ghost models = fold_lines(lines_from(bytes, 0), 0);
    let ghost whole = all_tokens(models, 0, file_id);
    let mut tokens: Vec<Token> = Vec::new();
    let ghost mut sofar: Seq<SpannedModel> = Seq::empty();
    let mut i: usize = 0;
    proof {
        assert(sofar + whole.0 =~= whole.0);
    }
    while i < folded.len()
        invariant
            i <= folded@.len(),
            bytes == src.spec_bytes(),
            models == fold_lines(lines_from(bytes, 0), 0),
            whole == all_tokens(models, 0, file_id),
            fixed_lines_are(folded@, models),
            spanned_are(tokens@, sofar),
            sofar + all_tokens(models, i as int, file_id).0 == whole.0,
            all_tokens(models, i as int, file_id).1 == whole.1,
        decreases folded@.len() - i,
    {
        let ghost head = line_tokens(models[i as int], file_id);
        let ghost rest = all_tokens(models, i + 1, file_id);
        match push_line_tokens(
            &folded[i],
            file_id,
            &mut tokens,
            Ghost(models[i as int]),
            Ghost(sofar),
        ) {
            Ok(_) => {
                proof {
                    assert(sofar + (head.0 + rest.0) =~= (sofar + head.0) + rest.0);
                    sofar = sofar + head.0;
                }
            },
            Err(e) => {
                return Err(e);
            },
        }
        i = i + 1;
    }
    let line: u32 = lines.len() as u32 + 1;
    let end = Token {
        kind: TokenKind::Eof,
        text: String::new(),
        span: Span {
            file_id,
            start: Position { line, col: 1 },
            end: Position { line, col: 1 },
        },
    };
    proof {
        assert(sofar =~= whole.0);
        assert(end.text@ =~= Seq::<char>::empty());
        lemma_spanned_push(tokens@, sofar, end, fixed_end(bytes, file_id));
    }
    tokens.push(end);
    Ok(tokens)
}

} // verus!
