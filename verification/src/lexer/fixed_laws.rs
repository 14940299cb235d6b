//! What does not matter in fixed-form source.

use crate::lexer::chars::{char_of, chars_of, run_end, ByteClass};
use crate::lexer::fixed::{
    all_tokens, blank_line, body_of, comment_line, continues, fixed_end, fixed_from,
    fixed_source_tokens, fold_lines, gather_statement, label_of, lemma_gather_statement,
    lemma_quoted_end, line_stop, line_tokens, lines_from, quoted_end, statement_bytes,
    without_blanks, FaultSpan, LineModel, SpannedModel,
};
use crate::lexer::free::is_quote;
use crate::lexer::unicode::{all_white, lossy, trimmed, white_space, white_suffix};
use vstd::prelude::*;
use vstd::utf8::{
    encode_utf8, encode_utf8_decode_utf8, encode_utf8_valid_utf8, is_ascii_chars,
    is_ascii_chars_encode_utf8,
};

verus! {

/// Are all bytes ASCII?
pub open spec fn ascii(s: Seq<u8>) -> bool {
    forall|i: int| 0 <= i < s.len() ==> #[trigger] s[i] < 128
}

/// Does no byte end a line?
pub open spec fn unbroken(s: Seq<u8>) -> bool {
    forall|i: int| 0 <= i < s.len() ==> #[trigger] s[i] != 0x0a && s[i] != 0x0d
}

/// ASCII bytes spell themselves.
pub proof fn lemma_ascii(s: Seq<u8>)
    requires
        ascii(s),
    ensures
        lossy(s) == chars_of(s),
        encode_utf8(chars_of(s)) == s,
{
    let c = chars_of(s);
    assert forall|i: int| 0 <= i < c.len() implies '\0' <= #[trigger] c[i] <= '\u{7f}' by {
        assert(s[i] < 128);
    }
    assert(is_ascii_chars(c));
    is_ascii_chars_encode_utf8(c);
    assert forall|i: int| 0 <= i < s.len() implies #[trigger] encode_utf8(c)[i] == s[i] by {
        assert(c[i] as u8 == encode_utf8(c)[i]);
        assert(s[i] < 128);
    }
    assert(encode_utf8(c) =~= s);
    encode_utf8_valid_utf8(c);
    encode_utf8_decode_utf8(c);
}

proof fn lemma_run_to(s: Seq<u8>, i: int, end: int, c: ByteClass)
    requires
        0 <= i <= end <= s.len(),
        forall|k: int| i <= k < end ==> c.holds(#[trigger] s[k]),
        end == s.len() || !c.holds(s[end]),
    ensures
        run_end(s, i, c) == end,
    decreases end - i,
{
    if i < end {
        lemma_run_to(s, i + 1, end, c);
    }
}

/// A line and its end are one line.
proof fn lemma_one_line(line: Seq<u8>)
    requires
        line.len() > 0,
        unbroken(line),
    ensures
        lines_from(line.push(0x0a), 0) == seq![line],
{
    let src = line.push(0x0a);
    let n = line.len() as int;
    assert forall|k: int| 0 <= k < n implies ByteClass::InLine.holds(#[trigger] src[k]) by {
        assert(src[k] == line[k]);
    }
    lemma_run_to(src, 0, n, ByteClass::InLine);
    assert(src[n - 1] == line[n - 1]);
    assert(line_stop(src, 0, n) == n);
    assert(src.subrange(0, n) =~= line);
    assert(lines_from(src, n + 1) =~= Seq::<Seq<u8>>::empty());
    assert(lines_from(src, 0) =~= seq![line]);
}

/// Are these lines equal, or statement lines that are equal up to column 72 and
/// blank both or neither?
pub open spec fn same_card(a: Seq<u8>, b: Seq<u8>) -> bool {
    a == b || {
        &&& a.len() >= 72 && b.len() >= 72 && a.take(72) == b.take(72)
        &&& !comment_line(a) && a[0] != 0x09
        &&& blank_line(a) == blank_line(b)
    }
}

/// Are these sources equal line by line, up to column 72 of statement lines?
pub open spec fn same_cards(a: Seq<Seq<u8>>, b: Seq<Seq<u8>>) -> bool {
    a.len() == b.len() && forall|i: int| 0 <= i < a.len() ==> same_card(#[trigger] a[i], b[i])
}

proof fn lemma_same_card(a: Seq<u8>, b: Seq<u8>)
    requires
        same_card(a, b),
    ensures
        blank_line(a) == blank_line(b),
        comment_line(a) == comment_line(b),
        comment_line(a) ==> a == b,
        continues(a) == continues(b),
        body_of(a) == body_of(b),
        label_of(a) == label_of(b),
{
    if a != b {
        let s = a.take(72);
        assert forall|k: int| 0 <= k < 72 implies #[trigger] a[k] == b[k] by {
            assert(a[k] == s[k] && b[k] == b.take(72)[k]);
        }
        assert(a.subrange(6, 72) =~= b.subrange(6, 72));
        assert(a.take(5) =~= b.take(5));
        assert(a[0] == b[0] && a[1] == b[1] && a[5] == b[5]);
    }
}

proof fn lemma_same_gather(a: Seq<Seq<u8>>, b: Seq<Seq<u8>>, i: int, body: Seq<char>)
    requires
        same_cards(a, b),
    ensures
        gather_statement(a, i, body) == gather_statement(b, i, body),
    decreases a.len() - i,
{
    if 0 <= i < a.len() {
        lemma_same_card(a[i], b[i]);
        lemma_same_gather(a, b, i + 1, body);
        lemma_same_gather(a, b, i + 1, body + body_of(a[i]));
    }
}

proof fn lemma_same_fold(a: Seq<Seq<u8>>, b: Seq<Seq<u8>>, i: int)
    requires
        same_cards(a, b),
        0 <= i,
    ensures
        fold_lines(a, i) == fold_lines(b, i),
    decreases a.len() - i,
{
    if i < a.len() {
        lemma_same_card(a[i], b[i]);
        if blank_line(a[i]) || comment_line(a[i]) {
            lemma_same_fold(a, b, i + 1);
        } else {
            let body = body_of(a[i]);
            lemma_same_gather(a, b, i + 1, body);
            lemma_gather_statement(a, i + 1, body);
            lemma_same_fold(a, b, gather_statement(a, i + 1, body).2);
        }
    }
}

/// What stands behind column 72 of statement lines does not change what is read
/// of a source, as long as it does not decide whether a line is blank.
pub proof fn columns_behind_the_last_do_not_count(a: Seq<u8>, b: Seq<u8>, file_id: u32)
    requires
        same_cards(lines_from(a, 0), lines_from(b, 0)),
    ensures
        fixed_source_tokens(a, file_id) == fixed_source_tokens(b, file_id),
        fixed_end(a, file_id) == fixed_end(b, file_id),
{
    lemma_same_fold(lines_from(a, 0), lines_from(b, 0), 0);
}

/// Is every byte a blank or a tab?
pub open spec fn only_blanks(s: Seq<u8>) -> bool {
    forall|i: int| 0 <= i < s.len() ==> #[trigger] s[i] == 0x20 || s[i] == 0x09
}

proof fn lemma_blanks_are_white(s: Seq<u8>)
    requires
        only_blanks(s),
    ensures
        ascii(s),
        lossy(s) == chars_of(s),
        all_white(chars_of(s)),
        trimmed(chars_of(s)).len() == 0,
        without_blanks(s, 0).len() == 0,
{
    assert forall|i: int| 0 <= i < s.len() implies #[trigger] s[i] < 128 by {
        assert(s[i] == 0x20 || s[i] == 0x09);
    }
    lemma_ascii(s);
    let c = chars_of(s);
    assert forall|i: int| 0 <= i < c.len() implies white_space(#[trigger] c[i]) by {
        assert(s[i] == 0x20 || s[i] == 0x09);
    }
    lemma_white_whole(c);
    assert(c.take(0) =~= Seq::<char>::empty());
    lemma_no_ink(s, 0);
}

proof fn lemma_white_whole(c: Seq<char>)
    requires
        all_white(c),
    ensures
        white_suffix(c) == 0,
    decreases c.len(),
{
    if c.len() > 0 {
        assert(white_space(c[c.len() - 1]));
        assert forall|i: int| 0 <= i < c.drop_last().len() implies white_space(
            #[trigger] c.drop_last()[i],
        ) by {
            assert(white_space(c[i]));
        }
        lemma_white_whole(c.drop_last());
    }
}

proof fn lemma_no_ink(s: Seq<u8>, i: int)
    requires
        only_blanks(s),
        0 <= i <= s.len(),
    ensures
        without_blanks(s, i).len() == 0,
    decreases s.len() - i,
{
    if i < s.len() {
        assert(s[i] == 0x20 || s[i] == 0x09);
        lemma_no_ink(s, i + 1);
    }
}

/// A single statement line, without its end.
spec fn read_line(line: Seq<u8>, file_id: u32) -> (
    Seq<SpannedModel>,
    Option<FaultSpan>,
) {
    line_tokens(
        if blank_line(line) {
            LineModel::Blank { line: 1 }
        } else {
            LineModel::Statement { line: 1, label: label_of(line), body: body_of(line) }
        },
        file_id,
    )
}

proof fn lemma_read_line(line: Seq<u8>, file_id: u32)
    requires
        line.len() > 0,
        unbroken(line),
        !comment_line(line),
    ensures
        fixed_source_tokens(line.push(0x0a), file_id) == read_line(line, file_id),
        lines_from(line.push(0x0a), 0).len() == 1,
{
    lemma_one_line(line);
    let lines = seq![line];
    let body = body_of(line);
    assert(fold_lines(lines, 1) =~= Seq::<LineModel>::empty());
    assert(gather_statement(lines, 1, body) == (Seq::<LineModel>::empty(), body, 1int));
    let m = if blank_line(line) {
        LineModel::Blank { line: 1 }
    } else {
        LineModel::Statement { line: 1, label: label_of(line), body }
    };
    assert(fold_lines(lines, 0) =~= seq![m]);
    let ms = seq![m];
    let none = all_tokens(ms, 1, file_id);
    let (head, fault) = line_tokens(m, file_id);
    assert(head + none.0 =~= head);
    assert(all_tokens(ms, 0, file_id) == line_tokens(m, file_id));
}

/// What stands behind column 72 of a single line does not change what is read,
/// whether or not the line is blank up to there. Left out is a line of white space
/// with more than blanks and tabs in its statement field, and text behind it: the
/// line is blank by itself, but the field holds characters that start no token.
pub proof fn rest_of_a_line_does_not_count(card: Seq<u8>, rest: Seq<u8>, file_id: u32)
    requires
        card.len() == 72,
        ascii(card) && ascii(rest),
        unbroken(card) && unbroken(rest),
        !comment_line(card) && card[0] != 0x09,
        blank_line(card) && !blank_line(card + rest) ==> only_blanks(card.subrange(6, 72)),
    ensures
        fixed_source_tokens((card + rest).push(0x0a), file_id) == fixed_source_tokens(
            card.push(0x0a),
            file_id,
        ),
        fixed_end((card + rest).push(0x0a), file_id) == fixed_end(card.push(0x0a), file_id),
{
    let line = card + rest;
    assert(line.take(72) =~= card);
    assert(card.take(72) =~= card);
    assert(line[0] == card[0]);
    assert(unbroken(line)) by {
        assert forall|i: int| 0 <= i < line.len() implies #[trigger] line[i] != 0x0a && line[i]
            != 0x0d by {
            if i < 72 {
                assert(line[i] == card[i]);
            } else {
                assert(line[i] == rest[i - 72]);
            }
        }
    }
    assert(ascii(line)) by {
        assert forall|i: int| 0 <= i < line.len() implies #[trigger] line[i] < 128 by {
            if i < 72 {
                assert(line[i] == card[i]);
            } else {
                assert(line[i] == rest[i - 72]);
            }
        }
    }
    lemma_read_line(line, file_id);
    lemma_read_line(card, file_id);
    lemma_ascii(line);
    lemma_ascii(card);
    if !blank_line(card) {
        let i = choose|i: int| 0 <= i < 72 && !white_space(#[trigger] lossy(card)[i]);
        assert(lossy(line)[i] == lossy(card)[i]);
    }
    if blank_line(line) == blank_line(card) {
        assert(same_card(line, card));
        lemma_same_card(line, card);
    } else {
        let label = card.take(5);
        let field = card.subrange(6, 72);
        assert(line.take(5) =~= label);
        assert(line.subrange(6, 72) =~= field);
        lemma_white_label(card);
        lemma_blanks_are_white(field);
        assert(label_of(line) == chars_of(label));
        assert(body_of(line) == chars_of(field));
        lemma_ascii(field);
        let s = statement_bytes(chars_of(field));
        assert(without_blanks(field, 0) =~= Seq::<u8>::empty());
        lemma_ascii(Seq::<u8>::empty());
        assert(chars_of(Seq::<u8>::empty()) =~= Seq::<char>::empty());
        assert(s =~= Seq::<u8>::empty());
        let (inner, fault) = fixed_from(s, 0, file_id, 1);
        assert(inner.len() == 0 && fault is None);
        let (x, y) = read_line(line, file_id);
        let (p, q) = read_line(card, file_id);
        assert(x =~= p);
    }
}

/// The label of a blank line is blank.
proof fn lemma_white_label(card: Seq<u8>)
    requires
        card.len() >= 5,
        ascii(card),
        blank_line(card),
    ensures
        lossy(card.take(5)) == chars_of(card.take(5)),
        trimmed(chars_of(card.take(5))).len() == 0,
{
    let label = card.take(5);
    lemma_ascii(card);
    assert(ascii(label)) by {
        assert forall|i: int| 0 <= i < 5 implies #[trigger] label[i] < 128 by {
            assert(label[i] == card[i]);
        }
    }
    lemma_ascii(label);
    let c = chars_of(label);
    assert forall|i: int| 0 <= i < c.len() implies white_space(#[trigger] c[i]) by {
        assert(c[i] == lossy(card)[i]);
    }
    lemma_white_whole(c);
    assert(c.take(0) =~= Seq::<char>::empty());
}

/// Is a byte white space?
spec fn white_byte(b: u8) -> bool {
    9 <= b <= 13 || b == 0x20
}

/// Is every byte from `i` on white space?
spec fn white_from(s: Seq<u8>, i: int) -> bool {
    forall|k: int| i <= k < s.len() ==> white_byte(#[trigger] s[k])
}

proof fn lemma_white_without_blanks(s: Seq<u8>, i: int)
    requires
        0 <= i <= s.len(),
    ensures
        white_from(without_blanks(s, i), 0) == white_from(s, i),
    decreases s.len() - i,
{
    if i < s.len() {
        let t = without_blanks(s, i);
        if is_quote(s[i]) {
            lemma_quoted_end(s, i + 1, s[i]);
            let end = quoted_end(s, i + 1, s[i]);
            assert(t[0] == s.subrange(i, end)[0]);
            assert(t[0] == s[i]);
            assert(!white_byte(t[0]));
            assert(!white_byte(s[i]));
        } else {
            lemma_white_without_blanks(s, i + 1);
            let rest = without_blanks(s, i + 1);
            if s[i] == 0x20 || s[i] == 0x09 {
                assert(t == rest);
                assert(white_byte(s[i]));
                assert(white_from(s, i) == white_from(s, i + 1)) by {
                    if white_from(s, i + 1) {
                        assert forall|k: int| i <= k < s.len() implies white_byte(#[trigger] s[k]) by {}
                    }
                }
            } else {
                assert(t =~= seq![s[i]] + rest);
                assert(t[0] == s[i]);
                if white_from(t, 0) {
                    assert forall|k: int| 0 <= k < rest.len() implies white_byte(#[trigger] rest[k]) by {
                        assert(t[k + 1] == rest[k]);
                    }
                    assert forall|k: int| i <= k < s.len() implies white_byte(#[trigger] s[k]) by {}
                }
                if white_from(s, i) {
                    assert(white_byte(s[i]));
                    assert(white_from(s, i + 1));
                    assert forall|k: int| 0 <= k < t.len() implies white_byte(#[trigger] t[k]) by {
                        if k > 0 {
                            assert(t[k] == rest[k - 1]);
                        }
                    }
                }
            }
        }
    }
}

/// The six columns before a statement field, left blank.
pub open spec fn margin() -> Seq<u8> {
    seq![0x20, 0x20, 0x20, 0x20, 0x20, 0x20]
}

/// Is this a statement field that fits a line?
pub open spec fn is_field(s: Seq<u8>) -> bool {
    s.len() <= 66 && ascii(s) && unbroken(s)
}

proof fn lemma_field(s: Seq<u8>)
    requires
        is_field(s),
    ensures
        unbroken(margin() + s),
        !comment_line(margin() + s),
        label_of(margin() + s) == label_of(margin()),
        body_of(margin() + s) == chars_of(s),
        blank_line(margin() + s) == white_from(s, 0),
{
    let line = margin() + s;
    assert forall|i: int| 0 <= i < line.len() implies #[trigger] line[i] != 0x0a && line[i] != 0x0d
        && line[i] < 128 by {
        if i >= 6 {
            assert(line[i] == s[i - 6]);
        }
    }
    lemma_ascii(line);
    lemma_ascii(s);
    assert(line.take(5) =~= margin().take(5));
    assert(line[0] == 0x20);
    if s.len() > 0 {
        assert(line.subrange(6, line.len() as int) =~= s);
    } else {
        assert(chars_of(s) =~= Seq::<char>::empty());
    }
    let c = lossy(line);
    if all_white(c) {
        assert forall|k: int| 0 <= k < s.len() implies white_byte(#[trigger] s[k]) by {
            assert(white_space(c[k + 6]));
            assert(c[k + 6] == char_of(line[k + 6]));
            assert(line[k + 6] == s[k]);
            assert(s[k] < 128);
        }
    }
    if white_from(s, 0) {
        assert forall|k: int| 0 <= k < c.len() implies white_space(#[trigger] c[k]) by {
            assert(c[k] == char_of(line[k]));
            if k >= 6 {
                assert(line[k] == s[k - 6]);
                assert(white_byte(s[k - 6]));
            }
        }
    }
}

/// Statement fields that are equal but for blanks and tabs outside strings are
/// read alike.
pub proof fn blanks_do_not_count_in_a_line(s: Seq<u8>, t: Seq<u8>, file_id: u32)
    requires
        is_field(s),
        is_field(t),
        without_blanks(s, 0) == without_blanks(t, 0),
    ensures
        fixed_source_tokens((margin() + s).push(0x0a), file_id) == fixed_source_tokens(
            (margin() + t).push(0x0a),
            file_id,
        ),
        fixed_end((margin() + s).push(0x0a), file_id) == fixed_end(
            (margin() + t).push(0x0a),
            file_id,
        ),
{
    lemma_field(s);
    lemma_field(t);
    lemma_white_without_blanks(s, 0);
    lemma_white_without_blanks(t, 0);
    lemma_ascii(s);
    lemma_ascii(t);
    lemma_read_line(margin() + s, file_id);
    lemma_read_line(margin() + t, file_id);
    assert(statement_bytes(chars_of(s)) == statement_bytes(chars_of(t)));
}

/// Are these lines and statements equal, but for blanks and tabs outside strings
/// in the bodies of statements?
pub open spec fn same_statements(a: Seq<LineModel>, b: Seq<LineModel>) -> bool {
    a.len() == b.len() && forall|i: int|
        0 <= i < a.len() ==> (#[trigger] a[i] == b[i] || match (a[i], b[i]) {
            (
                LineModel::Statement { line, label, body },
                LineModel::Statement { line: l, label: m, body: c },
            ) => line == l && label == m && without_blanks(encode_utf8(body), 0) == without_blanks(
                encode_utf8(c),
                0,
            ),
            _ => false,
        })
}

/// Sources whose statements, continuation lines joined, are equal but for blanks
/// and tabs outside strings are read alike.
pub proof fn blanks_do_not_count_in_statements(
    a: Seq<LineModel>,
    b: Seq<LineModel>,
    i: int,
    file_id: u32,
)
    requires
        same_statements(a, b),
    ensures
        all_tokens(a, i, file_id) == all_tokens(b, i, file_id),
    decreases a.len() - i,
{
    if 0 <= i < a.len() {
        blanks_do_not_count_in_statements(a, b, i + 1, file_id);
        assert(a[i] == b[i] || a[i] is Statement);
        assert(line_tokens(a[i], file_id) == line_tokens(b[i], file_id));
    }
}

} // verus!
