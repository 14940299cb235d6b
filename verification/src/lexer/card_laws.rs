//! What the lexer of fixed-form source makes of lines and statements.

use crate::lexer::chars::{byte_at, char_of, chars_of, is_digit, lemma_run_end, run_end, spelled, ByteClass};
use crate::lexer::fixed::{
    at_most, blank_line, body_of, comment_line, continues, decimal_value, fixed_from, fixed_scan,
    fold_lines, gather_statement, label_of, lemma_quoted_end, line_stop, line_tokens, lines_from,
    quoted_end, statement_bytes, FixedScan, LineModel,
};
use crate::lexer::fixed_laws::{ascii, lemma_ascii};
use crate::lexer::free::{
    exponent_digits, is_exponent, mantissa_end, punct_of, scan_at, scan_dot, scan_number, Scan,
};
use crate::lexer::free_laws::{
    all_stand, decimal, doubled, in_name, lemma_digit_run, lemma_run, letter, mark, spells, stands,
};
use crate::lexer::token::{KindModel, TokenKind};
use crate::lexer::unicode::{lossy, trimmed, white_prefix, white_space, white_suffix};
use vstd::prelude::*;

verus! {

proof fn lemma_doubled_end(s: Seq<u8>, i: int, c: Seq<u8>, q: u8)
    requires
        0 <= i,
        spells(s, i, doubled(c, q)),
        ({
            let e = i + doubled(c, q).len();
            e < s.len() && s[e] == q && (e + 1 < s.len() ==> s[e + 1] != q)
        }),
    ensures
        quoted_end(s, i, q) == i + doubled(c, q).len() + 1,
    decreases c.len(),
{
    let d = doubled(c, q);
    if c.len() > 0 {
        let rest = c.drop_first();
        let dr = doubled(rest, q);
        if c[0] == q {
            assert(d =~= seq![q, q] + dr);
            assert(d[0] == q && d[1] == q);
            assert(s[i + 0] == d[0] && s[i + 1] == d[1]);
            assert forall|k: int| 0 <= k < dr.len() implies s[i + 2 + k] == #[trigger] dr[k] by {
                assert(d[k + 2] == dr[k]);
                assert(s[i + (k + 2)] == d[k + 2]);
            }
            lemma_doubled_end(s, i + 2, rest, q);
        } else {
            assert(d =~= seq![c[0]] + dr);
            assert(d[0] == c[0]);
            assert(s[i + 0] == d[0]);
            assert forall|k: int| 0 <= k < dr.len() implies s[i + 1 + k] == #[trigger] dr[k] by {
                assert(d[k + 1] == dr[k]);
                assert(s[i + (k + 1)] == d[k + 1]);
            }
            lemma_doubled_end(s, i + 1, rest, q);
        }
    }
}

/// Any content between delimiters, with the delimiter doubled where it stands in
/// the content, is one string literal of a statement, for both delimiters.
pub proof fn fixed_strings_are_one_token(s: Seq<u8>, i: int, c: Seq<u8>, q: u8)
    requires
        q == 34 || q == 39,
        spells(s, i, seq![q] + doubled(c, q) + seq![q]),
        !stands(s, i + doubled(c, q).len() + 2, |b: u8| b == q),
    ensures
        ({
            let e = i + doubled(c, q).len() + 2;
            fixed_scan(s, i) == (FixedScan::Token {
                kind: KindModel::Plain(TokenKind::StringLiteral),
                text: Seq::new((e - i) as nat, |k: int| s[i + k] as char),
                end: e,
                next: e,
            })
        }),
{
    let d = doubled(c, q);
    let t = seq![q] + d + seq![q];
    let e = i + 1 + d.len();
    assert(s[i + 0] == t[0]);
    assert(s[i + (d.len() + 1)] == t[d.len() as int + 1]);
    assert(s[e] == q);
    assert forall|k: int| 0 <= k < d.len() implies s[i + 1 + k] == #[trigger] d[k] by {
        assert(t[k + 1] == d[k]);
        assert(s[i + (k + 1)] == t[k + 1]);
    }
    lemma_doubled_end(s, i + 1, c, q);
    assert(spelled(s, i, e + 1) =~= Seq::new((e + 1 - i) as nat, |k: int| s[i + k] as char));
}

/// A string literal between delimiters is not followed by its delimiter.
pub proof fn fixed_strings_end_with_their_delimiter(s: Seq<u8>, i: int)
    requires
        0 <= i < s.len(),
        s[i] == 34 || s[i] == 39,
    ensures
        fixed_scan(s, i) matches FixedScan::Token { end, next, .. } && end == next && i < end
            <= s.len() && (end < s.len() ==> i + 1 < end && s[end - 1] == s[i] && s[end] != s[i]),
{
    lemma_quoted_end(s, i + 1, s[i]);
    lemma_quoted_stop(s, i + 1, s[i]);
}

proof fn lemma_quoted_stop(s: Seq<u8>, i: int, q: u8)
    requires
        0 <= i <= s.len(),
    ensures
        quoted_end(s, i, q) < s.len() ==> i < quoted_end(s, i, q) && s[quoted_end(s, i, q) - 1] == q
            && s[quoted_end(s, i, q)] != q,
    decreases s.len() - i,
{
    if i < s.len() {
        if s[i] != q {
            lemma_quoted_stop(s, i + 1, q);
        } else if i + 1 < s.len() && s[i + 1] == q {
            lemma_quoted_stop(s, i + 2, q);
        }
    }
}

/// A count of one or two digits and an H make a literal of the bytes that they
/// count.
pub proof fn counted_strings_take_their_count(s: Seq<u8>, i: int, n: int, m: int)
    requires
        0 <= i,
        m == 1 || m == 2,
        i + m < s.len(),
        decimal(s[i]),
        m == 2 ==> decimal(s[i + 1]),
        s[i + m] == 72 || s[i + m] == 104,
        n == (if m == 1 {
            s[i] - 48
        } else {
            10 * (s[i] - 48) + (s[i + 1] - 48)
        }),
        0 < n,
        i + m + 1 + n <= s.len(),
    ensures
        fixed_scan(s, i) matches FixedScan::Token { kind, end, next, .. } && kind == KindModel::Plain(
            TokenKind::StringLiteral,
        ) && end == i + m + 1 + n && next == end,
{
    let p = i + m;
    assert(run_end(s, p, ByteClass::Digit) == p);
    if m == 2 {
        assert(run_end(s, i + 1, ByteClass::Digit) == p);
    }
    assert(run_end(s, i, ByteClass::Digit) == p);
    assert(decimal_value(s, i, i) == 0);
    assert(decimal_value(s, i, i + 1) == s[i] - 48);
    if m == 2 {
        assert(decimal_value(s, i, i + 2) == decimal_value(s, i, i + 1) * 10 + (s[i + 1] - 48));
    }
}

/// Marks and names are read in a statement as in free form, where an ampersand
/// and a constant with a base stand apart.
pub proof fn statements_read_marks_and_names_alike(s: Seq<u8>, i: int)
    requires
        0 <= i < s.len(),
        letter(s[i]) || s[i] == 95 || punct_of(s[i], byte_at(s, i + 1)) is Some,
        !(letter(s[i]) && stands(s, i + 1, |b: u8| b == 34 || b == 39)),
        s[i] != 46,
    ensures
        scan_at(s, i) matches Scan::Token { kind, text, end } && fixed_scan(s, i) == (FixedScan::Token {
            kind,
            text,
            end,
            next: end,
        }),
{
}

/// May a line start a statement, by its first six columns? It is no comment, and
/// the sixth column is blank or zero.
pub open spec fn opens_statement(line: Seq<u8>) -> bool {
    &&& line.len() > 6
    &&& line[0] != 67 && line[0] != 99 && line[0] != 42 && line[0] != 33 && line[0] != 9
    &&& line[5] == 32 || line[5] == 48
}

/// Does a line go on with a statement, by its first six columns?
pub open spec fn goes_on_with_statement(line: Seq<u8>) -> bool {
    &&& line.len() > 6
    &&& line[0] != 67 && line[0] != 99 && line[0] != 42 && line[0] != 33 && line[0] != 9
    &&& line[5] != 32 && line[5] != 48 && line[5] != 9
}

/// Is there anything to see on a line?
pub open spec fn is_visible(line: Seq<u8>) -> bool {
    exists|k: int| 0 <= k < line.len() && 33 <= #[trigger] line[k] <= 126
}

/// The seventh to the seventy-second column of a line.
pub open spec fn field(line: Seq<u8>) -> Seq<char> {
    Seq::new(
        (if line.len() < 72 {
            line.len() - 6
        } else {
            66
        }) as nat,
        |k: int| line[6 + k] as char,
    )
}

proof fn lemma_visible(line: Seq<u8>)
    requires
        ascii(line),
        is_visible(line),
    ensures
        !blank_line(line),
{
    lemma_ascii(line);
    let k = choose|k: int| 0 <= k < line.len() && 33 <= #[trigger] line[k] <= 126;
    assert(chars_of(line)[k] == char_of(line[k]));
    assert(!white_space(chars_of(line)[k]));
}

proof fn lemma_field_of(line: Seq<u8>)
    requires
        ascii(line),
        line.len() > 6,
        line[0] != 9,
    ensures
        body_of(line) == field(line),
        label_of(line) == Seq::new(5, |k: int| line[k] as char),
{
    let to = at_most(72, line.len() as int);
    let part = line.subrange(6, to);
    assert(ascii(part)) by {
        assert forall|k: int| 0 <= k < part.len() implies #[trigger] part[k] < 128 by {
            assert(part[k] == line[k + 6]);
        }
    }
    lemma_ascii(part);
    assert(chars_of(part) =~= field(line));
    let head = line.take(5);
    assert(ascii(head)) by {
        assert forall|k: int| 0 <= k < head.len() implies #[trigger] head[k] < 128 by {
            assert(head[k] == line[k]);
        }
    }
    lemma_ascii(head);
    assert(chars_of(head) =~= Seq::new(5, |k: int| line[k] as char));
}

/// A statement is the field of its first line and those of the lines that go on
/// with it, and its label is the first five columns of its first line.
pub proof fn statements_are_joined(first: Seq<u8>, second: Seq<u8>, third: Seq<u8>)
    requires
        ascii(first) && ascii(second) && ascii(third),
        is_visible(first) && is_visible(second) && is_visible(third),
        opens_statement(first),
        goes_on_with_statement(second),
        opens_statement(third),
    ensures
        fold_lines(seq![first, second, third], 0) == seq![
            LineModel::Statement {
                line: 1,
                label: Seq::new(5, |k: int| first[k] as char),
                body: field(first) + field(second),
            },
            LineModel::Statement {
                line: 3,
                label: Seq::new(5, |k: int| third[k] as char),
                body: field(third),
            },
        ],
{
    let lines = seq![first, second, third];
    lemma_visible(first);
    lemma_visible(second);
    lemma_visible(third);
    lemma_field_of(first);
    lemma_field_of(second);
    lemma_field_of(third);
    assert(lines[0] == first && lines[1] == second && lines[2] == third);
    let none = Seq::<LineModel>::empty();
    assert(gather_statement(lines, 2, body_of(first) + body_of(second)) == (
        none,
        body_of(first) + body_of(second),
        2int,
    ));
    assert(gather_statement(lines, 1, body_of(first)) == (
        none,
        body_of(first) + body_of(second),
        2int,
    ));
    assert(gather_statement(lines, 3, body_of(third)) == (none, body_of(third), 3int));
    assert(fold_lines(lines, 3) =~= none);
    let a = LineModel::Statement {
        line: 1,
        label: label_of(first),
        body: body_of(first) + body_of(second),
    };
    let b = LineModel::Statement { line: 3, label: label_of(third), body: body_of(third) };
    assert(fold_lines(lines, 2) =~= seq![b]);
    assert(fold_lines(lines, 0) =~= seq![a, b]);
}

/// A line that starts with a C, a star or an exclamation mark is a comment, and no
/// other is one.
pub proof fn comment_marks_make_comments(line: Seq<u8>)
    requires
        line.len() > 0,
    ensures
        comment_line(line) <==> line[0] == 67 || line[0] == 99 || line[0] == 42 || line[0] == 33,
{
}

/// Numbers that no H follows are read in a statement as in free form, where an
/// exponent has digits and nothing is stuck to the kind.
pub proof fn statements_read_numbers_alike(s: Seq<u8>, i: int, a: int)
    requires
        all_stand(s, i, a, |x: u8| decimal(x)),
        !stands(s, a, |x: u8| decimal(x) || x == 72 || x == 104),
        i < a || (stands(s, a, |x: u8| x == 46) && stands(s, a + 1, |x: u8| decimal(x))),
        scan_at(s, i) is Token,
        !stands(s, scan_at(s, i)->Token_end, |x: u8| in_name(x)),
    ensures
        scan_at(s, i) matches Scan::Token { kind, text, end } && fixed_scan(s, i) == (FixedScan::Token {
            kind,
            text,
            end,
            next: end,
        }),
{
    lemma_digit_run(s, i, a);
    assert(decimal(s[i]) || s[i] == 46) by {
        if i < a {
            let p = |x: u8| decimal(x);
            assert(p(s[i]));
        }
    }
    assert(scan_at(s, i) == scan_number(s, i));
    let m = mantissa_end(s, i);
    let c = if is_exponent(byte_at(s, m)) {
        run_end(s, exponent_digits(s, m), ByteClass::Digit)
    } else {
        m
    };
    if byte_at(s, c) == 0x5f && is_digit(byte_at(s, c + 1)) {
        lemma_digits_then_word(s, c + 1);
    }
}

proof fn lemma_digits_then_word(s: Seq<u8>, i: int)
    requires
        0 <= i,
        !stands(s, run_end(s, i, ByteClass::Digit), |x: u8| in_name(x)),
    ensures
        run_end(s, i, ByteClass::Word) == run_end(s, i, ByteClass::Digit),
    decreases s.len() - i,
{
    if i < s.len() && decimal(s[i]) {
        lemma_digits_then_word(s, i + 1);
    }
}

/// Words between dots are read in a statement as in free form.
pub proof fn statements_read_dotted_words_alike(s: Seq<u8>, i: int, e: int)
    requires
        i + 1 < e,
        stands(s, i, |b: u8| b == 46),
        all_stand(s, i + 1, e, |b: u8| letter(b) || b == 95),
        stands(s, e, |b: u8| b == 46),
        !stands(s, e + 1, |b: u8| b == 95),
    ensures
        scan_at(s, i) matches Scan::Token { kind, text, end } && fixed_scan(s, i) == (FixedScan::Token {
            kind,
            text,
            end,
            next: end,
        }),
{
    let p = |b: u8| letter(b) || b == 95;
    assert forall|k: int| i + 1 <= k < e implies ByteClass::Letter.holds(#[trigger] s[k]) by {
        assert(p(s[k]));
    }
    lemma_run(s, i + 1, e, ByteClass::Letter);
    assert(p(s[i + 1]));
    reveal_strlit(".");
    let none = Seq::<char>::empty();
    assert("."@ + spelled(s, i + 1, e) + "."@ =~= spelled(s, i, e + 1));
    assert("."@ + spelled(s, i + 1, e) + "."@ + spelled(s, e + 1, e + 1) =~= spelled(s, i, e + 1));
    assert(scan_at(s, i) == scan_dot(s, i));
}

proof fn lemma_run_behind(src: Seq<u8>, i: int, d: int, c: ByteClass)
    requires
        0 <= i,
        0 <= d <= src.len(),
    ensures
        run_end(src, i + d, c) == run_end(src.skip(d), i, c) + d,
    decreases src.len() - i,
{
    if i + d < src.len() {
        assert(src.skip(d)[i] == src[i + d]);
        lemma_run_behind(src, i + 1, d, c);
    }
}

proof fn lemma_lines_behind(src: Seq<u8>, i: int, d: int)
    requires
        0 <= i,
        0 <= d <= src.len(),
    ensures
        lines_from(src, i + d) == lines_from(src.skip(d), i),
    decreases src.len() + 1 - i,
{
    let t = src.skip(d);
    if i < t.len() {
        lemma_run_behind(src, i, d, ByteClass::InLine);
        let end = run_end(t, i, ByteClass::InLine);
        lemma_run_end(t, i, ByteClass::InLine);
        assert(src.subrange(i + d, line_stop(src, i + d, end + d)) =~= t.subrange(
            i,
            line_stop(t, i, end),
        ));
        lemma_lines_behind(src, end + 1, d);
    }
}

/// A line is what stands before a line feed, but for a carriage return directly
/// before it; what follows the last line feed is a line if it is anything.
pub proof fn lines_end_with_line_feeds(line: Seq<u8>, rest: Seq<u8>)
    requires
        forall|k: int| 0 <= k < line.len() ==> #[trigger] line[k] != 10,
    ensures
        lines_from(line + seq![10u8] + rest, 0) == seq![
            if line.len() > 0 && line.last() == 13 {
                line.drop_last()
            } else {
                line
            },
        ] + lines_from(rest, 0),
        lines_from(line, 0) == if line.len() > 0 {
            seq![line]
        } else {
            Seq::empty()
        },
{
    let n = line.len() as int;
    let src = line + seq![10u8] + rest;
    assert forall|k: int| 0 <= k < n implies ByteClass::InLine.holds(#[trigger] src[k]) by {
        assert(src[k] == line[k]);
    }
    assert(src[n] == 10);
    lemma_run(src, 0, n, ByteClass::InLine);
    assert(src.skip(n + 1) =~= rest);
    lemma_lines_behind(src, 0, n + 1);
    let stop = line_stop(src, 0, n);
    assert(src.subrange(0, stop) =~= if n > 0 && line.last() == 13 {
        line.drop_last()
    } else {
        line
    });
    if n > 0 {
        assert forall|k: int| 0 <= k < n implies ByteClass::InLine.holds(#[trigger] line[k]) by {}
        lemma_run(line, 0, n, ByteClass::InLine);
        assert(line.subrange(0, n) =~= line);
        assert(lines_from(line, n + 1) =~= Seq::empty());
        assert(lines_from(line, 0) =~= seq![line]);
    }
}

/// A line that opens with a tab has no label. It goes on with a statement where a
/// digit but zero follows the tab; its field is what stands behind both.
pub proof fn tabs_stand_for_the_label(line: Seq<u8>)
    requires
        ascii(line),
        line.len() > 1,
        line[0] == 9,
    ensures
        label_of(line).len() == 0,
        continues(line) <==> 49 <= line[1] <= 57,
        continues(line) ==> body_of(line) == Seq::new(
            (line.len() - 2) as nat,
            |k: int| line[k + 2] as char,
        ),
        !continues(line) ==> body_of(line) == Seq::new(
            (line.len() - 1) as nat,
            |k: int| line[k + 1] as char,
        ),
{
    let from: int = if 49 <= line[1] <= 57 {
        2
    } else {
        1
    };
    let part = line.skip(from);
    assert(ascii(part)) by {
        assert forall|k: int| 0 <= k < part.len() implies #[trigger] part[k] < 128 by {
            assert(part[k] == line[k + from]);
        }
    }
    lemma_ascii(part);
    assert(chars_of(part) =~= Seq::new((line.len() - from) as nat, |k: int| line[k + from] as char));
    if from == 2 {
        assert(chars_of(part) =~= Seq::new((line.len() - 2) as nat, |k: int| line[k + 2] as char));
    } else {
        assert(chars_of(part) =~= Seq::new((line.len() - 1) as nat, |k: int| line[k + 1] as char));
    }
}

/// A line is blank where it holds nothing but blanks and what moves the place of
/// printing.
pub proof fn blank_lines_hold_blanks(line: Seq<u8>)
    requires
        ascii(line),
    ensures
        blank_line(line) <==> forall|k: int|
            0 <= k < line.len() ==> (#[trigger] line[k] == 32 || 9 <= line[k] <= 13),
{
    lemma_ascii(line);
    let s = chars_of(line);
    assert forall|k: int| 0 <= k < line.len() implies white_space(#[trigger] s[k]) == (line[k] == 32
        || 9 <= line[k] <= 13) by {
        assert(s[k] == char_of(line[k]));
    }
    if blank_line(line) {
        assert forall|k: int| 0 <= k < line.len() implies (#[trigger] line[k] == 32 || 9 <= line[k] <= 13) by {
            assert(white_space(s[k]));
        }
    } else {
        let k = choose|k: int| 0 <= k < s.len() && !white_space(#[trigger] s[k]);
        assert(!(line[k] == 32 || 9 <= line[k] <= 13));
    }
}

proof fn lemma_suffix(s: Seq<char>)
    ensures
        0 <= white_suffix(s) <= s.len(),
        forall|k: int| white_suffix(s) <= k < s.len() ==> white_space(#[trigger] s[k]),
        white_suffix(s) > 0 ==> !white_space(s[white_suffix(s) - 1]),
    decreases s.len(),
{
    if s.len() > 0 && white_space(s.last()) {
        let t = s.drop_last();
        lemma_suffix(t);
        assert forall|k: int| white_suffix(s) <= k < s.len() implies white_space(#[trigger] s[k]) by {
            if k < t.len() {
                assert(t[k] == s[k]);
            }
        }
    }
}

proof fn lemma_prefix(s: Seq<char>)
    ensures
        0 <= white_prefix(s) <= s.len(),
        forall|k: int| 0 <= k < white_prefix(s) ==> white_space(#[trigger] s[k]),
        white_prefix(s) < s.len() ==> !white_space(s[white_prefix(s)]),
    decreases s.len(),
{
    if s.len() > 0 && white_space(s[0]) {
        let t = s.skip(1);
        lemma_prefix(t);
        assert forall|k: int| 0 <= k < white_prefix(s) implies white_space(#[trigger] s[k]) by {
            if k > 0 {
                assert(t[k - 1] == s[k]);
            }
        }
        if white_prefix(s) < s.len() {
            assert(t[white_prefix(t)] == s[white_prefix(s)]);
        }
    }
}

/// A trimmed text has no white space at its ends, and nothing but white space was
/// taken off.
pub proof fn trimming_takes_white_space_alone(s: Seq<char>) -> (ends: (int, int))
    ensures
        0 <= ends.0 <= ends.1 <= s.len(),
        trimmed(s) == s.subrange(ends.0, ends.1),
        forall|k: int| 0 <= k < s.len() && !(ends.0 <= k < ends.1) ==> white_space(#[trigger] s[k]),
        ends.0 < ends.1 ==> !white_space(s[ends.0]) && !white_space(s[ends.1 - 1]),
{
    lemma_suffix(s);
    let b = white_suffix(s);
    let t = s.take(b);
    lemma_prefix(t);
    let a = white_prefix(t);
    assert(t.skip(a) =~= s.subrange(a, b));
    assert forall|k: int| 0 <= k < s.len() && !(a <= k < b) implies white_space(#[trigger] s[k]) by {
        if k < a {
            assert(t[k] == s[k]);
        }
    }
    if a < b {
        assert(t[a] == s[a]);
    }
    (a, b)
}

/// Comments among the lines of a statement come before it, blank lines come to
/// nothing there, and neither ends it.
pub proof fn comments_do_not_end_statements(
    first: Seq<u8>,
    comment: Seq<u8>,
    blank: Seq<u8>,
    second: Seq<u8>,
)
    requires
        ascii(first) && ascii(comment) && ascii(blank) && ascii(second),
        is_visible(first) && is_visible(comment) && is_visible(second),
        opens_statement(first),
        comment[0] == 67 || comment[0] == 99 || comment[0] == 42 || comment[0] == 33,
        forall|k: int| 0 <= k < blank.len() ==> #[trigger] blank[k] == 32,
        goes_on_with_statement(second),
    ensures
        fold_lines(seq![first, comment, blank, second], 0) == seq![
            LineModel::Comment { line: 2, bytes: comment },
            LineModel::Statement {
                line: 1,
                label: Seq::new(5, |k: int| first[k] as char),
                body: field(first) + field(second),
            },
        ],
{
    let lines = seq![first, comment, blank, second];
    lemma_visible(first);
    lemma_visible(comment);
    lemma_visible(second);
    blank_lines_hold_blanks(blank);
    lemma_field_of(first);
    lemma_field_of(second);
    assert(comment.len() > 0);
    assert(lines[0] == first && lines[1] == comment && lines[2] == blank && lines[3] == second);
    let none = Seq::<LineModel>::empty();
    let whole = body_of(first) + body_of(second);
    assert(gather_statement(lines, 4, whole) == (none, whole, 4int));
    assert(gather_statement(lines, 3, body_of(first)) == (none, whole, 4int));
    assert(gather_statement(lines, 2, body_of(first)) == (none, whole, 4int));
    let c = LineModel::Comment { line: 2, bytes: comment };
    assert(seq![c] + none =~= seq![c]);
    assert(gather_statement(lines, 1, body_of(first)) == (seq![c], whole, 4int));
    assert(fold_lines(lines, 4) =~= none);
    let a = LineModel::Statement { line: 1, label: label_of(first), body: whole };
    assert(fold_lines(lines, 0) =~= seq![c, a]);
}

/// The tokens of a statement are its label, if it has one, what its field holds,
/// and the end of the line; those of a comment are the comment and the end.
pub proof fn labels_come_first(line: int, label: Seq<char>, body: Seq<char>, bytes: Seq<u8>, id: u32)
    requires
        fixed_from(statement_bytes(body), 0, id, line as u32).1 is None,
    ensures
        ({
            let inner = fixed_from(statement_bytes(body), 0, id, line as u32).0;
            let all = line_tokens(LineModel::Statement { line, label, body }, id);
            let n = if trimmed(label).len() == 0 {
                0nat
            } else {
                1nat
            };
            &&& all.1 is None
            &&& all.0.len() == n + inner.len() + 1
            &&& n == 1 ==> all.0[0].kind == KindModel::Plain(TokenKind::IntegerLiteral)
                && all.0[0].text == trimmed(label)
            &&& all.0.subrange(n as int, (n + inner.len()) as int) == inner
            &&& all.0.last().kind == KindModel::Plain(TokenKind::Newline)
        }),
        ({
            let all = line_tokens(LineModel::Comment { line, bytes }, id);
            &&& all.1 is None
            &&& all.0.len() == 2
            &&& all.0[0].kind == KindModel::Comment(lossy(bytes))
            &&& all.0[1].kind == KindModel::Plain(TokenKind::Newline)
        }),
{
    let inner = fixed_from(statement_bytes(body), 0, id, line as u32).0;
    let all = line_tokens(LineModel::Statement { line, label, body }, id);
    let n: int = if trimmed(label).len() == 0 {
        0
    } else {
        1
    };
    assert(all.0.subrange(n, n + inner.len()) =~= inner);
}

} // verus!
