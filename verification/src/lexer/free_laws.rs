//! What the lexer of free-form source makes of a source.

use crate::lexer::chars::{
    byte_at, char_of, col_at, line_at, lower_text, run_end, spelled, ByteClass,
};
use crate::lexer::free::{
    continuation, dot_is_numeric, exponent_digits, is_exponent, is_quote, kind_suffix_end,
    lemma_continuation, lemma_scan_progress, lemma_skip_layout, lex_from, mantissa_end, punct_of,
    scan_at, scan_string, skip_layout, boz_end, Scan, TokenModel,
};
use crate::lexer::token::{known_dot_op, KindModel, TokenKind};
use vstd::prelude::*;

verus! {

/// Is the byte a letter of the alphabet?
pub open spec fn letter(b: u8) -> bool {
    65 <= b <= 90 || 97 <= b <= 122
}

/// Is the byte a decimal digit?
pub open spec fn decimal(b: u8) -> bool {
    48 <= b <= 57
}

/// May the byte stand in a name?
pub open spec fn in_name(b: u8) -> bool {
    letter(b) || decimal(b) || b == 95
}

/// Is there a byte at `i` for which `p` holds?
pub open spec fn stands(src: Seq<u8>, i: int, p: spec_fn(u8) -> bool) -> bool {
    0 <= i < src.len() && p(src[i])
}

/// Does `p` hold for all bytes from `i` up to `e`?
pub open spec fn all_stand(src: Seq<u8>, i: int, e: int, p: spec_fn(u8) -> bool) -> bool {
    0 <= i <= e <= src.len() && forall|k: int| i <= k < e ==> p(#[trigger] src[k])
}

/// Do the bytes `t` stand at `i`?
pub open spec fn spells(src: Seq<u8>, i: int, t: Seq<u8>) -> bool {
    0 <= i && i + t.len() <= src.len() && forall|k: int|
        0 <= k < t.len() ==> src[i + k] == #[trigger] t[k]
}

/// Is the first token from `i` on of this kind, and does it take the source from
/// `i` up to `e`?
pub open spec fn token_spans(src: Seq<u8>, i: int, e: int, kind: KindModel) -> bool {
    &&& 0 <= i <= e <= src.len()
    &&& lex_from(src, i).0.len() > 0
    &&& lex_from(src, i).0[0] == (TokenModel {
        kind,
        text: Seq::new((e - i) as nat, |k: int| src[i + k] as char),
        start: i,
        end: e,
    })
}

/// The content of a string with each delimiter doubled.
pub open spec fn doubled(c: Seq<u8>, q: u8) -> Seq<u8>
    decreases c.len(),
{
    if c.len() == 0 {
        Seq::empty()
    } else if c[0] == q {
        seq![q, q] + doubled(c.drop_first(), q)
    } else {
        seq![c[0]] + doubled(c.drop_first(), q)
    }
}

pub proof fn lemma_run(src: Seq<u8>, i: int, e: int, c: ByteClass)
    requires
        0 <= i <= e <= src.len(),
        forall|k: int| i <= k < e ==> c.holds(#[trigger] src[k]),
        e < src.len() ==> !c.holds(src[e]),
    ensures
        run_end(src, i, c) == e,
    decreases e - i,
{
    if i < e {
        lemma_run(src, i + 1, e, c);
    }
}

proof fn lemma_first(src: Seq<u8>, i: int, e: int, kind: KindModel)
    requires
        0 <= i < e <= src.len(),
        src[i] != 32,
        src[i] != 9,
        src[i] != 13,
        src[i] != 38,
        scan_at(src, i) == (Scan::Token { kind, text: spelled(src, i, e), end: e }),
    ensures
        token_spans(src, i, e, kind),
{
    lemma_skip_layout(src, i);
    assert(run_end(src, i, ByteClass::Blank) == i);
    assert(skip_layout(src, i) == i);
    assert(spelled(src, i, e) =~= Seq::new((e - i) as nat, |k: int| src[i + k] as char));
}

proof fn lemma_doubled_scan(src: Seq<u8>, i: int, c: Seq<u8>, q: u8, start: int)
    requires
        0 <= start < i,
        q == 34 || q == 39,
        spells(src, i, doubled(c, q)),
        forall|k: int| 0 <= k < c.len() ==> #[trigger] c[k] != 10 && c[k] != 38,
        ({
            let e = i + doubled(c, q).len();
            e < src.len() && src[e] == q && (e + 1 < src.len() ==> src[e + 1] != q)
        }),
    ensures
        scan_string(src, i, q, spelled(src, start, i)) == (Scan::Token {
            kind: KindModel::Plain(TokenKind::StringLiteral),
            text: spelled(src, start, i + doubled(c, q).len() + 1),
            end: i + doubled(c, q).len() + 1,
        }),
    decreases c.len(),
{
    let d = doubled(c, q);
    let e = i + d.len();
    if c.len() == 0 {
        assert(src[i] == q);
        assert(continuation(src, i) is None);
        assert(spelled(src, start, i + 1) =~= spelled(src, start, i).push(char_of(src[i])));
    } else {
        let rest = c.drop_first();
        assert forall|k: int| 0 <= k < rest.len() implies #[trigger] rest[k] != 10 && rest[k] != 38 by {
            assert(rest[k] == c[k + 1]);
        }
        let dr = doubled(rest, q);
        if c[0] == q {
            assert(d =~= seq![q, q] + dr);
            assert(d[0] == q && d[1] == q);
            assert(src[i] == q && src[i + 1] == q);
            assert forall|k: int| 0 <= k < dr.len() implies src[i + 2 + k] == #[trigger] dr[k] by {
                assert(d[k + 2] == dr[k]);
                assert(src[i + (k + 2)] == d[k + 2]);
            }
            assert(continuation(src, i) is None);
            assert(spelled(src, start, i + 2) =~= spelled(src, start, i).push(char_of(src[i])).push(
                char_of(q),
            ));
            lemma_doubled_scan(src, i + 2, rest, q, start);
        } else {
            assert(d =~= seq![c[0]] + dr);
            assert(d[0] == c[0]);
            assert(src[i] == c[0]);
            assert forall|k: int| 0 <= k < dr.len() implies src[i + 1 + k] == #[trigger] dr[k] by {
                assert(d[k + 1] == dr[k]);
                assert(src[i + (k + 1)] == d[k + 1]);
            }
            assert(continuation(src, i) is None);
            assert(spelled(src, start, i + 1) =~= spelled(src, start, i).push(char_of(src[i])));
            lemma_doubled_scan(src, i + 1, rest, q, start);
        }
    }
}

/// Any content between delimiters, with the delimiter doubled where it stands in
/// the content, is one string literal that takes all of it. This holds for both
/// delimiters.
pub proof fn strings_are_one_token(src: Seq<u8>, i: int, c: Seq<u8>, q: u8)
    requires
        q == 34 || q == 39,
        spells(src, i, seq![q] + doubled(c, q) + seq![q]),
        forall|k: int| 0 <= k < c.len() ==> #[trigger] c[k] != 10 && c[k] != 38,
        !stands(src, i + doubled(c, q).len() + 2, |b: u8| b == q),
    ensures
        token_spans(
            src,
            i,
            i + doubled(c, q).len() + 2,
            KindModel::Plain(TokenKind::StringLiteral),
        ),
{
    let d = doubled(c, q);
    let t = seq![q] + d + seq![q];
    let e = i + 1 + d.len();
    assert(t.len() == d.len() + 2);
    assert(src[i + 0] == t[0]);
    assert(src[i] == q);
    assert(src[i + (d.len() + 1)] == t[d.len() as int + 1]);
    assert(src[e] == q);
    assert forall|k: int| 0 <= k < d.len() implies src[i + 1 + k] == #[trigger] d[k] by {
        assert(t[k + 1] == d[k]);
        assert(src[i + (k + 1)] == t[k + 1]);
    }
    assert(spelled(src, i, i + 1) =~= seq![char_of(q)]);
    lemma_doubled_scan(src, i + 1, c, q, i);
    lemma_first(src, i, e + 1, KindModel::Plain(TokenKind::StringLiteral));
}

proof fn lemma_string_ends(src: Seq<u8>, i: int, q: u8, sofar: Seq<char>)
    requires
        0 <= i <= src.len(),
    ensures
        scan_string(src, i, q, sofar) matches Scan::Token { kind, text, end } ==> {
            &&& kind == KindModel::Plain(TokenKind::StringLiteral)
            &&& i < end <= src.len()
            &&& src[end - 1] == q
            &&& end < src.len() ==> src[end] != q
        },
    decreases src.len() - i,
{
    lemma_continuation(src, i);
    match continuation(src, i) {
        Some(p) => lemma_string_ends(src, p, q, sofar),
        None => {
            if i < src.len() && src[i] != 0x0a {
                let text = sofar.push(char_of(src[i]));
                if src[i] != q {
                    lemma_string_ends(src, i + 1, q, text);
                } else if i + 1 < src.len() && src[i + 1] == q {
                    lemma_string_ends(src, i + 2, q, text.push(char_of(q)));
                }
            }
        },
    }
}

/// A string literal starts and ends with one delimiter, and the delimiter does not
/// follow it.
pub proof fn strings_end_with_their_delimiter(src: Seq<u8>, i: int)
    requires
        0 <= i < src.len(),
        scan_at(src, i) matches Scan::Token { kind, .. } && kind == KindModel::Plain(
            TokenKind::StringLiteral,
        ),
    ensures
        src[i] == 34 || src[i] == 39,
        ({
            let end = scan_at(src, i).end_of();
            i + 1 < end <= src.len() && src[end - 1] == src[i] && !(end < src.len() && src[end]
                == src[i])
        }),
{
    if is_quote(src[i]) {
        lemma_string_ends(src, i + 1, src[i], seq![char_of(src[i])]);
    }
}

proof fn lemma_open_string(src: Seq<u8>, i: int, e: int, q: u8, sofar: Seq<char>)
    requires
        all_stand(src, i, e, |b: u8| b != q && b != 10 && b != 38),
        e < src.len() ==> src[e] == 10,
    ensures
        scan_string(src, i, q, sofar) == (Scan::Fault { msg: "unterminated string literal"@, end: e }),
    decreases e - i,
{
    assert(continuation(src, i) is None);
    if i < e {
        let t = sofar.push(char_of(src[i]));
        lemma_open_string(src, i + 1, e, q, t);
    }
}

/// A string that is not closed on its line is an error there.
pub proof fn open_strings_are_errors(src: Seq<u8>, i: int, e: int)
    requires
        stands(src, i, |b: u8| b == 34 || b == 39),
        all_stand(src, i + 1, e, |b: u8| b != src[i] && b != 10 && b != 38),
        e < src.len() ==> src[e] == 10,
    ensures
        lex_from(src, i).0.len() == 0,
        lex_from(src, i).1 matches Some(fault) && fault.msg == "unterminated string literal"@
            && fault.start == i && fault.end == e,
{
    let q = src[i];
    assert forall|k: int| i + 1 <= k < e implies (|b: u8| b != q && b != 10 && b != 38)(
        #[trigger] src[k],
    ) by {
        assert((|b: u8| b != src[i] && b != 10 && b != 38)(src[k]));
    }
    lemma_open_string(src, i + 1, e, q, seq![char_of(q)]);
    lemma_skip_layout(src, i);
    assert(run_end(src, i, ByteClass::Blank) == i);
    assert(skip_layout(src, i) == i);
}

/// A name runs as far as letters, digits and underscores do.
pub proof fn names_are_one_token(src: Seq<u8>, i: int, e: int)
    requires
        i < e,
        stands(src, i, |b: u8| letter(b) || b == 95),
        all_stand(src, i, e, |b: u8| in_name(b)),
        !stands(src, e, |b: u8| in_name(b)),
        !stands(src, i + 1, |b: u8| b == 34 || b == 39),
    ensures
        token_spans(src, i, e, KindModel::Plain(TokenKind::Identifier)),
{
    let p = |b: u8| in_name(b);
    assert forall|k: int| i <= k < e implies ByteClass::Word.holds(#[trigger] src[k]) by {
        assert(p(src[k]));
    }
    assert(e < src.len() ==> !p(src[e]));
    lemma_run(src, i, e, ByteClass::Word);
    lemma_first(src, i, e, KindModel::Plain(TokenKind::Identifier));
}

/// May the byte go on with a number behind its digits?
pub open spec fn goes_on(b: u8) -> bool {
    decimal(b) || b == 46 || b == 95 || b == 68 || b == 69 || b == 100 || b == 101
}

/// Digits alone are an integer.
pub proof fn digits_are_an_integer(src: Seq<u8>, i: int, e: int)
    requires
        i < e,
        all_stand(src, i, e, |b: u8| decimal(b)),
        !stands(src, e, |b: u8| goes_on(b)),
    ensures
        token_spans(src, i, e, KindModel::Plain(TokenKind::IntegerLiteral)),
{
    lemma_digit_run(src, i, e);
    lemma_first(src, i, e, KindModel::Plain(TokenKind::IntegerLiteral));
}

pub proof fn lemma_digit_run(src: Seq<u8>, i: int, e: int)
    requires
        all_stand(src, i, e, |b: u8| decimal(b)),
        !stands(src, e, |b: u8| decimal(b)),
    ensures
        run_end(src, i, ByteClass::Digit) == e,
        i < e ==> decimal(src[i]),
{
    let p = |b: u8| decimal(b);
    assert forall|k: int| i <= k < e implies ByteClass::Digit.holds(#[trigger] src[k]) by {
        assert(p(src[k]));
    }
    assert(e < src.len() ==> !p(src[e]));
    lemma_run(src, i, e, ByteClass::Digit);
    if i < e {
        assert(p(src[i]));
    }
}

/// Digits with an underscore and further digits behind them are an integer too.
pub proof fn kinds_belong_to_integers(src: Seq<u8>, i: int, m: int, e: int)
    requires
        i < m,
        m + 1 < e,
        all_stand(src, i, m, |b: u8| decimal(b)),
        stands(src, m, |b: u8| b == 95),
        all_stand(src, m + 1, e, |b: u8| decimal(b)),
        !stands(src, e, |b: u8| decimal(b)),
    ensures
        token_spans(src, i, e, KindModel::Plain(TokenKind::IntegerLiteral)),
{
    lemma_digit_run(src, i, m);
    lemma_digit_run(src, m + 1, e);
    lemma_first(src, i, e, KindModel::Plain(TokenKind::IntegerLiteral));
}

/// Digits, a dot and further digits are a real number.
pub proof fn fractions_are_real(src: Seq<u8>, i: int, m: int, e: int)
    requires
        i < m < e,
        all_stand(src, i, m, |b: u8| decimal(b)),
        stands(src, m, |b: u8| b == 46),
        all_stand(src, m + 1, e, |b: u8| decimal(b)),
        m + 1 < e,
        !stands(src, e, |b: u8| goes_on(b)),
    ensures
        token_spans(src, i, e, KindModel::Plain(TokenKind::RealLiteral)),
{
    lemma_digit_run(src, i, m);
    lemma_digit_run(src, m + 1, e);
    lemma_first(src, i, e, KindModel::Plain(TokenKind::RealLiteral));
}

/// Digits, an exponent letter, a sign and digits are a real number; the letter is
/// one of `e` and `d` in either case.
pub proof fn exponents_are_real(src: Seq<u8>, i: int, m: int, e: int)
    requires
        i < m,
        m + 2 < e,
        all_stand(src, i, m, |b: u8| decimal(b)),
        stands(src, m, |b: u8| b == 68 || b == 69 || b == 100 || b == 101),
        stands(src, m + 1, |b: u8| b == 43 || b == 45),
        all_stand(src, m + 2, e, |b: u8| decimal(b)),
        !stands(src, e, |b: u8| goes_on(b)),
    ensures
        token_spans(src, i, e, KindModel::Plain(TokenKind::RealLiteral)),
{
    lemma_digit_run(src, i, m);
    lemma_digit_run(src, m + 2, e);
    lemma_first(src, i, e, KindModel::Plain(TokenKind::RealLiteral));
}

/// A dot behind digits opens an operator where letters follow it, unless they
/// open an exponent: the integer ends before it.
pub proof fn operators_end_integers(src: Seq<u8>, i: int, m: int)
    requires
        i < m,
        all_stand(src, i, m, |b: u8| decimal(b)),
        stands(src, m, |b: u8| b == 46),
        stands(src, m + 1, |b: u8| letter(b)),
        stands(src, m + 1, |b: u8| b == 68 || b == 69 || b == 100 || b == 101) ==> !stands(
            src,
            m + 2,
            |b: u8| decimal(b) || b == 43 || b == 45,
        ),
    ensures
        token_spans(src, i, m, KindModel::Plain(TokenKind::IntegerLiteral)),
{
    lemma_digit_run(src, i, m);
    lemma_first(src, i, m, KindModel::Plain(TokenKind::IntegerLiteral));
}

/// A comment runs from its mark to the end of the line.
pub proof fn comments_take_the_line(src: Seq<u8>, i: int, e: int)
    requires
        stands(src, i, |b: u8| b == 33),
        all_stand(src, i, e, |b: u8| b != 10),
        i < e,
        e < src.len() ==> src[e] == 10,
    ensures
        token_spans(
            src,
            i,
            e,
            KindModel::Comment(Seq::new((e - i) as nat, |k: int| src[i + k] as char)),
        ),
{
    let p = |b: u8| b != 10;
    assert forall|k: int| i <= k < e implies ByteClass::InLine.holds(#[trigger] src[k]) by {
        assert(p(src[k]));
    }
    lemma_run(src, i, e, ByteClass::InLine);
    assert(spelled(src, i, e) =~= Seq::new((e - i) as nat, |k: int| src[i + k] as char));
    lemma_first(src, i, e, KindModel::Comment(spelled(src, i, e)));
}

/// The bytes of an operator or a punctuation mark.
pub open spec fn mark(kind: TokenKind) -> Option<Seq<u8>> {
    match kind {
        TokenKind::Plus => Some(seq![43u8]),
        TokenKind::Minus => Some(seq![45u8]),
        TokenKind::Star => Some(seq![42u8]),
        TokenKind::Power => Some(seq![42u8, 42u8]),
        TokenKind::Slash => Some(seq![47u8]),
        TokenKind::Concat => Some(seq![47u8, 47u8]),
        TokenKind::Ne => Some(seq![47u8, 61u8]),
        TokenKind::Assign => Some(seq![61u8]),
        TokenKind::Eq => Some(seq![61u8, 61u8]),
        TokenKind::Arrow => Some(seq![61u8, 62u8]),
        TokenKind::Lt => Some(seq![60u8]),
        TokenKind::Le => Some(seq![60u8, 61u8]),
        TokenKind::Gt => Some(seq![62u8]),
        TokenKind::Ge => Some(seq![62u8, 61u8]),
        TokenKind::LParen => Some(seq![40u8]),
        TokenKind::RParen => Some(seq![41u8]),
        TokenKind::LBracket => Some(seq![91u8]),
        TokenKind::RBracket => Some(seq![93u8]),
        TokenKind::Comma => Some(seq![44u8]),
        TokenKind::Colon => Some(seq![58u8]),
        TokenKind::ColonColon => Some(seq![58u8, 58u8]),
        TokenKind::Semicolon => Some(seq![59u8]),
        TokenKind::Percent => Some(seq![37u8]),
        TokenKind::Ampersand => Some(seq![38u8]),
        _ => None,
    }
}

/// Does a longer operator start like the mark `kind` at `i`?
pub open spec fn longer_mark(src: Seq<u8>, i: int, kind: TokenKind) -> bool {
    exists|k: TokenKind|
        (#[trigger] mark(k)) is Some && spells(src, i, mark(k)->0) && mark(k)->0.len()
            > mark(kind)->0.len()
}

proof fn lemma_marks()
    ensures
        "+"@ =~= seq!['+'],
        "-"@ =~= seq!['-'],
        "*"@ =~= seq!['*'],
        "**"@ =~= seq!['*', '*'],
        "/"@ =~= seq!['/'],
        "//"@ =~= seq!['/', '/'],
        "/="@ =~= seq!['/', '='],
        "="@ =~= seq!['='],
        "=="@ =~= seq!['=', '='],
        "=>"@ =~= seq!['=', '>'],
        "<"@ =~= seq!['<'],
        "<="@ =~= seq!['<', '='],
        ">"@ =~= seq!['>'],
        ">="@ =~= seq!['>', '='],
        "("@ =~= seq!['('],
        ")"@ =~= seq![')'],
        "["@ =~= seq!['['],
        "]"@ =~= seq![']'],
        ","@ =~= seq![','],
        ":"@ =~= seq![':'],
        "::"@ =~= seq![':', ':'],
        ";"@ =~= seq![';'],
        "%"@ =~= seq!['%'],
        "&"@ =~= seq!['&'],
{
    reveal_strlit("+");
    reveal_strlit("-");
    reveal_strlit("*");
    reveal_strlit("**");
    reveal_strlit("/");
    reveal_strlit("//");
    reveal_strlit("/=");
    reveal_strlit("=");
    reveal_strlit("==");
    reveal_strlit("=>");
    reveal_strlit("<");
    reveal_strlit("<=");
    reveal_strlit(">");
    reveal_strlit(">=");
    reveal_strlit("(");
    reveal_strlit(")");
    reveal_strlit("[");
    reveal_strlit("]");
    reveal_strlit(",");
    reveal_strlit(":");
    reveal_strlit("::");
    reveal_strlit(";");
    reveal_strlit("%");
    reveal_strlit("&");
}

proof fn lemma_punct_text(src: Seq<u8>, i: int)
    requires
        0 <= i < src.len(),
        punct_of(src[i], byte_at(src, i + 1)) is Some,
    ensures
        ({
            let (kind, text, n) = punct_of(src[i], byte_at(src, i + 1))->0;
            &&& 1 <= n <= 2
            &&& i + n <= src.len()
            &&& text == spelled(src, i, i + n)
            &&& mark(kind) == Some(src.subrange(i, i + n))
        }),
{
    lemma_marks();
    let (kind, text, n) = punct_of(src[i], byte_at(src, i + 1))->0;
    assert(text =~= spelled(src, i, i + n));
    assert(mark(kind)->0 =~= src.subrange(i, i + n));
}

/// An operator or a punctuation mark is read as such, and the longest that
/// stands there. The ampersand is left out: it may go on with a line instead.
pub proof fn marks_are_read(src: Seq<u8>, i: int, kind: TokenKind)
    requires
        mark(kind) is Some,
        kind != TokenKind::Ampersand,
        spells(src, i, mark(kind)->0),
        !longer_mark(src, i, kind),
    ensures
        token_spans(src, i, i + mark(kind)->0.len(), KindModel::Plain(kind)),
{
    let m = mark(kind)->0;
    let e = i + m.len();
    assert(src[i + 0] == m[0]);
    if m.len() == 2 {
        assert(src[i + 1] == m[1]);
    } else if i + 1 < src.len() {
        lemma_no_longer(src, i, kind, TokenKind::Power);
        lemma_no_longer(src, i, kind, TokenKind::Concat);
        lemma_no_longer(src, i, kind, TokenKind::Ne);
        lemma_no_longer(src, i, kind, TokenKind::Eq);
        lemma_no_longer(src, i, kind, TokenKind::Arrow);
        lemma_no_longer(src, i, kind, TokenKind::Le);
        lemma_no_longer(src, i, kind, TokenKind::Ge);
        lemma_no_longer(src, i, kind, TokenKind::ColonColon);
    }
    lemma_punct_text(src, i);
    lemma_first(src, i, e, KindModel::Plain(kind));
}

proof fn lemma_no_longer(src: Seq<u8>, i: int, kind: TokenKind, k: TokenKind)
    requires
        0 <= i,
        i + 1 < src.len(),
        mark(kind) is Some,
        mark(kind)->0.len() == 1,
        mark(k) is Some,
        mark(k)->0.len() == 2,
        !longer_mark(src, i, kind),
    ensures
        !(src[i] == mark(k)->0[0] && src[i + 1] == mark(k)->0[1]),
{
    if src[i] == mark(k)->0[0] && src[i + 1] == mark(k)->0[1] {
        assert(spells(src, i, mark(k)->0));
        assert(longer_mark(src, i, kind));
    }
}

/// The end of a line is a token.
pub proof fn line_ends_are_tokens(src: Seq<u8>, i: int)
    requires
        stands(src, i, |b: u8| b == 10),
    ensures
        token_spans(src, i, i + 1, KindModel::Plain(TokenKind::Newline)),
{
    reveal_strlit("\n");
    assert("\n"@ =~= spelled(src, i, i + 1));
    lemma_first(src, i, i + 1, KindModel::Plain(TokenKind::Newline));
}

/// The names of the operators between dots that the language has.
pub open spec fn operator_names() -> Seq<Seq<char>> {
    seq![
        "and"@,
        "or"@,
        "not"@,
        "eqv"@,
        "neqv"@,
        "eq"@,
        "ne"@,
        "lt"@,
        "le"@,
        "gt"@,
        "ge"@,
    ]
}

/// The lower-case form of a letter.
pub open spec fn small(b: u8) -> char {
    if 65 <= b <= 90 {
        (b + 32) as char
    } else {
        b as char
    }
}

/// Letters between dots are an operator: one of the language where they name it,
/// in either case, or else one of the program. `true` and `false` are logical
/// constants.
pub proof fn dotted_words_are_operators(src: Seq<u8>, i: int, e: int)
    requires
        i + 1 < e,
        stands(src, i, |b: u8| b == 46),
        all_stand(src, i + 1, e, |b: u8| letter(b) || b == 95),
        stands(src, e, |b: u8| b == 46),
        !stands(src, e + 1, |b: u8| b == 95),
    ensures
        ({
            let name = Seq::new((e - i - 1) as nat, |k: int| small(src[i + 1 + k]));
            token_spans(
                src,
                i,
                e + 1,
                if name == "true"@ || name == "false"@ {
                    KindModel::Plain(TokenKind::LogicalLiteral)
                } else if operator_names().contains(name) {
                    KindModel::DotOp(name)
                } else {
                    KindModel::DefinedOp(name)
                },
            )
        }),
{
    let name = Seq::new((e - i - 1) as nat, |k: int| small(src[i + 1 + k]));
    let p = |b: u8| letter(b) || b == 95;
    assert forall|k: int| i + 1 <= k < e implies ByteClass::Letter.holds(#[trigger] src[k]) by {
        assert(p(src[k]));
    }
    lemma_run(src, i + 1, e, ByteClass::Letter);
    assert(p(src[i + 1]));
    assert(lower_text(src.subrange(i + 1, e)) =~= name);
    lemma_operator_names(name);
    let kind = if name == "true"@ || name == "false"@ {
        KindModel::Plain(TokenKind::LogicalLiteral)
    } else if operator_names().contains(name) {
        KindModel::DotOp(name)
    } else {
        KindModel::DefinedOp(name)
    };
    lemma_first(src, i, e + 1, kind);
}

proof fn lemma_operator_names(name: Seq<char>)
    ensures
        operator_names().contains(name) || name == "true"@ || name == "false"@ <==> known_dot_op(name),
{
    let s = operator_names();
    assert(s[0] == "and"@ && s[1] == "or"@ && s[2] == "not"@ && s[3] == "eqv"@ && s[4] == "neqv"@
        && s[5] == "eq"@ && s[6] == "ne"@ && s[7] == "lt"@ && s[8] == "le"@ && s[9] == "gt"@ && s[10]
        == "ge"@);
    if known_dot_op(name) && !(name == "true"@ || name == "false"@) {
        assert(s.contains(name));
    }
}

/// Digits between quotes behind a letter for the base are a constant of that
/// base: binary, octal or hexadecimal.
pub proof fn based_constants_are_one_token(src: Seq<u8>, i: int, e: int)
    requires
        stands(src, i, |b: u8| b == 66 || b == 98 || b == 79 || b == 111 || b == 90 || b == 122),
        stands(src, i + 1, |b: u8| b == 34 || b == 39),
        i + 2 <= e,
        all_stand(src, i + 2, e, |b: u8| b != src[i + 1] && b != 10),
        stands(src, e, |b: u8| b == src[i + 1]),
    ensures
        token_spans(src, i, e + 1, KindModel::Plain(TokenKind::BozLiteral)),
{
    lemma_boz_end(src, i + 2, e, src[i + 1]);
    lemma_first(src, i, e + 1, KindModel::Plain(TokenKind::BozLiteral));
}

proof fn lemma_boz_end(src: Seq<u8>, i: int, e: int, q: u8)
    requires
        all_stand(src, i, e, |b: u8| b != q && b != 10),
        e < src.len() && src[e] == q,
    ensures
        boz_end(src, i, q) == e,
    decreases e - i,
{
    if i < e {
        assert((|b: u8| b != q && b != 10)(src[i]));
        lemma_boz_end(src, i + 1, e, q);
    }
}

/// Blanks before a token change nothing.
pub proof fn blanks_come_to_nothing(src: Seq<u8>, i: int, e: int)
    requires
        all_stand(src, i, e, |b: u8| b == 32 || b == 9 || b == 13),
    ensures
        lex_from(src, i) == lex_from(src, e),
{
    lemma_blanks(src, i, e);
    assert(skip_layout(src, i) == skip_layout(src, e));
}

proof fn lemma_blanks(src: Seq<u8>, i: int, e: int)
    requires
        all_stand(src, i, e, |b: u8| b == 32 || b == 9 || b == 13),
    ensures
        run_end(src, i, ByteClass::Blank) == run_end(src, e, ByteClass::Blank),
    decreases e - i,
{
    if i < e {
        assert((|b: u8| b == 32 || b == 9 || b == 13)(src[i]));
        lemma_blanks(src, i + 1, e);
    }
}

/// The text of a token is the source that it takes, but for strings that go on
/// over lines.
pub proof fn tokens_spell_their_source(src: Seq<u8>, i: int)
    requires
        0 <= i < src.len(),
    ensures
        scan_at(src, i) matches Scan::Token { kind, text, end } ==> kind != KindModel::Plain(
            TokenKind::StringLiteral,
        ) ==> i < end <= src.len() && text == Seq::new((end - i) as nat, |k: int| src[i + k] as char),
{
    lemma_scan_progress(src, i);
    if let Scan::Token { kind, text, end } = scan_at(src, i) {
        reveal_strlit("\n");
        if src[i] == 0x0a {
            assert(text =~= spelled(src, i, end));
        }
        if is_quote(src[i]) {
            lemma_string_ends(src, i + 1, src[i], seq![char_of(src[i])]);
        }
        if punct_of(src[i], byte_at(src, i + 1)) is Some {
            lemma_punct_text(src, i);
        }
        if kind != KindModel::Plain(TokenKind::StringLiteral) {
            assert(text == spelled(src, i, end));
            assert(text =~= Seq::new((end - i) as nat, |k: int| src[i + k] as char));
        }
    }
}

/// How many lines end before `i`.
pub open spec fn line_ends(src: Seq<u8>, i: int) -> nat {
    src.subrange(0, i).filter(|b: u8| b == 10).len()
}

/// The line of a place is one more than the lines that end before it, and its
/// column one more than the bytes between it and the start of its line.
pub proof fn places_are_lines_and_columns(src: Seq<u8>, start: int, i: int)
    requires
        0 <= start <= i <= src.len(),
        start == 0 || src[start - 1] == 10,
        forall|k: int| start <= k < i ==> #[trigger] src[k] != 10,
    ensures
        line_at(src, i) == 1 + line_ends(src, i),
        col_at(src, i) == 1 + (i - start),
{
    lemma_lines(src, i);
    lemma_column(src, start, i);
}

proof fn lemma_lines(src: Seq<u8>, i: int)
    requires
        0 <= i <= src.len(),
    ensures
        line_at(src, i) == 1 + line_ends(src, i),
    decreases i,
{
    reveal(Seq::filter);
    let p = |b: u8| b == 10;
    let s = src.subrange(0, i);
    if i > 0 {
        lemma_lines(src, i - 1);
        assert(s.drop_last() =~= src.subrange(0, i - 1));
        assert(s.last() == src[i - 1]);
    }
}

proof fn lemma_column(src: Seq<u8>, start: int, i: int)
    requires
        0 <= start <= i <= src.len(),
        start == 0 || src[start - 1] == 10,
        forall|k: int| start <= k < i ==> #[trigger] src[k] != 10,
    ensures
        col_at(src, i) == 1 + (i - start),
    decreases i - start,
{
    if start < i {
        assert(src[i - 1] != 10);
        lemma_column(src, start, i - 1);
    }
}

/// Is there a dot at `a` that belongs to the digits before it, up to `b`? Digits
/// follow it, or none and then no letter that would make it open an operator.
pub open spec fn fraction(src: Seq<u8>, i: int, a: int, b: int) -> bool {
    if stands(src, a, |x: u8| x == 46) && (i == a || !stands(src, a + 1, |x: u8| letter(x)) || (stands(
        src,
        a + 1,
        |x: u8| x == 68 || x == 69 || x == 100 || x == 101,
    ) && stands(src, a + 2, |x: u8| decimal(x) || x == 43 || x == 45))) {
        all_stand(src, a + 1, b, |x: u8| decimal(x)) && !stands(src, b, |x: u8| decimal(x))
    } else {
        a == b
    }
}

/// Is there an exponent from `b` up to `c`: a letter, a sign or none, and digits?
pub open spec fn exponent(src: Seq<u8>, b: int, c: int) -> bool {
    if stands(src, b, |x: u8| x == 68 || x == 69 || x == 100 || x == 101) {
        let d: int = if stands(src, b + 1, |x: u8| x == 43 || x == 45) {
            b + 2
        } else {
            b + 1
        };
        d < c && all_stand(src, d, c, |x: u8| decimal(x)) && !stands(src, c, |x: u8| decimal(x))
    } else {
        b == c
    }
}

/// Is there a kind from `c` up to `e`: an underscore, and digits or a name?
pub open spec fn kind_part(src: Seq<u8>, c: int, e: int) -> bool {
    if stands(src, c, |x: u8| x == 95) {
        if stands(src, c + 1, |x: u8| decimal(x)) {
            all_stand(src, c + 1, e, |x: u8| decimal(x)) && !stands(src, e, |x: u8| decimal(x))
        } else {
            all_stand(src, c + 1, e, |x: u8| in_name(x)) && !stands(src, e, |x: u8| in_name(x))
        }
    } else {
        c == e
    }
}

/// A number is digits with a fraction, an exponent and a kind, each or none: real
/// where it has a fraction or an exponent, an integer else.
pub proof fn numbers_are_one_token(src: Seq<u8>, i: int, a: int, b: int, c: int, e: int)
    requires
        all_stand(src, i, a, |x: u8| decimal(x)),
        !stands(src, a, |x: u8| decimal(x)),
        i < a || (stands(src, a, |x: u8| x == 46) && stands(src, a + 1, |x: u8| decimal(x))),
        fraction(src, i, a, b),
        exponent(src, b, c),
        kind_part(src, c, e),
        e <= src.len(),
    ensures
        token_spans(
            src,
            i,
            e,
            KindModel::Plain(
                if a < b || b < c {
                    TokenKind::RealLiteral
                } else {
                    TokenKind::IntegerLiteral
                },
            ),
        ),
{
    lemma_digit_run(src, i, a);
    if byte_at(src, a) == 0x2e && dot_is_numeric(src, i, a) {
        assert(fraction(src, i, a, b));
        lemma_digit_run(src, a + 1, b);
    }
    assert(mantissa_end(src, i) == b);
    if is_exponent(byte_at(src, b)) {
        let d = exponent_digits(src, b);
        lemma_digit_run(src, d, c);
    }
    if byte_at(src, c) == 0x5f {
        if stands(src, c + 1, |x: u8| decimal(x)) {
            lemma_digit_run(src, c + 1, e);
        } else {
            let p = |x: u8| in_name(x);
            assert forall|k: int| c + 1 <= k < e implies ByteClass::Word.holds(#[trigger] src[k]) by {
                assert(p(src[k]));
            }
            assert(e < src.len() ==> !p(src[e]));
            lemma_run(src, c + 1, e, ByteClass::Word);
        }
    }
    assert(kind_suffix_end(src, c) == e);
    lemma_first(
        src,
        i,
        e,
        KindModel::Plain(
            if a < b || b < c {
                TokenKind::RealLiteral
            } else {
                TokenKind::IntegerLiteral
            },
        ),
    );
}

/// An exponent without digits is an error.
pub proof fn empty_exponents_are_errors(src: Seq<u8>, i: int, a: int)
    requires
        i < a,
        all_stand(src, i, a, |x: u8| decimal(x)),
        stands(src, a, |x: u8| x == 68 || x == 69 || x == 100 || x == 101),
        !stands(src, a + 1, |x: u8| decimal(x) || x == 43 || x == 45),
    ensures
        lex_from(src, i).0.len() == 0,
        lex_from(src, i).1 is Some,
{
    lemma_digit_run(src, i, a);
    assert(run_end(src, i, ByteClass::Blank) == i);
    lemma_skip_layout(src, i);
    assert(skip_layout(src, i) == i);
}

/// A byte that no token starts with is an error.
pub proof fn strange_bytes_are_errors(src: Seq<u8>, i: int)
    requires
        stands(
            src,
            i,
            |b: u8| b >= 127 || b < 9 || b == 11 || b == 12 || 14 <= b < 32 || b == 35 || b == 36
                || b == 63 || b == 64 || b == 92 || b == 94 || b == 96 || 123 <= b,
        ),
    ensures
        lex_from(src, i).0.len() == 0,
        lex_from(src, i).1 matches Some(fault) && fault.start == i && fault.end == i + 1,
{
    assert(run_end(src, i, ByteClass::Blank) == i);
    lemma_skip_layout(src, i);
    assert(skip_layout(src, i) == i);
}

/// Where a line goes on that breaks off with the ampersand at `i`: its line feed
/// stands at `m`, with nothing but blanks and a comment before it, and the blanks
/// of the next line end at `n`.
pub open spec fn breaks_off(src: Seq<u8>, i: int, c: int, m: int, n: int) -> bool {
    &&& stands(src, i, |b: u8| b == 38)
    &&& i < c <= m < n
    &&& all_stand(src, i + 1, c, |b: u8| b == 32 || b == 9 || b == 13)
    &&& c < m ==> stands(src, c, |b: u8| b == 33) && all_stand(src, c, m, |b: u8| b != 10)
    &&& stands(src, m, |b: u8| b == 10)
    &&& all_stand(src, m + 1, n, |b: u8| b == 32 || b == 9 || b == 13)
    &&& !stands(src, n, |b: u8| b == 32 || b == 9 || b == 13)
}

/// The place where it goes on: behind a further ampersand.
pub open spec fn goes_on_at(src: Seq<u8>, n: int) -> int {
    if stands(src, n, |b: u8| b == 38) {
        n + 1
    } else {
        n
    }
}

proof fn lemma_breaks_off(src: Seq<u8>, i: int, c: int, m: int, n: int)
    requires
        breaks_off(src, i, c, m, n),
    ensures
        continuation(src, i) == Some(goes_on_at(src, n)),
        0 <= i < goes_on_at(src, n) <= src.len(),
{
    let p = |b: u8| b == 32 || b == 9 || b == 13;
    assert(src[m] == 10);
    assert forall|k: int| i + 1 <= k < c implies ByteClass::Blank.holds(#[trigger] src[k]) by {
        assert(p(src[k]));
    }
    if c < m {
        assert(src[c] == 33);
        let q = |b: u8| b != 10;
        assert forall|k: int| c <= k < m implies ByteClass::InLine.holds(#[trigger] src[k]) by {
            assert(q(src[k]));
        }
        lemma_run(src, c, m, ByteClass::InLine);
    }
    lemma_run(src, i + 1, c, ByteClass::Blank);
    assert forall|k: int| m + 1 <= k < n implies ByteClass::Blank.holds(#[trigger] src[k]) by {
        assert(p(src[k]));
    }
    assert(n < src.len() ==> !p(src[n]));
    lemma_run(src, m + 1, n, ByteClass::Blank);
}

/// An ampersand at the end of a line goes on with the next line, behind its blanks
/// and a further ampersand there. A comment may follow it.
pub proof fn continued_lines_are_one(src: Seq<u8>, i: int, c: int, m: int, n: int)
    requires
        breaks_off(src, i, c, m, n),
    ensures
        lex_from(src, i) == lex_from(src, goes_on_at(src, n)),
{
    let to = goes_on_at(src, n);
    lemma_breaks_off(src, i, c, m, n);
    assert(run_end(src, i, ByteClass::Blank) == i);
    lemma_skip_layout(src, i);
    lemma_skip_layout(src, to);
    assert(skip_layout(src, i) == skip_layout(src, to));
}

proof fn lemma_plain_content(src: Seq<u8>, i: int, e: int, q: u8, sofar: Seq<char>)
    requires
        all_stand(src, i, e, |b: u8| b != q && b != 10 && b != 38),
    ensures
        scan_string(src, i, q, sofar) == scan_string(src, e, q, sofar + spelled(src, i, e)),
    decreases e - i,
{
    if i < e {
        let p = |b: u8| b != q && b != 10 && b != 38;
        assert(p(src[i]));
        assert(continuation(src, i) is None);
        let t = sofar.push(char_of(src[i]));
        lemma_plain_content(src, i + 1, e, q, t);
        assert(t + spelled(src, i + 1, e) =~= sofar + spelled(src, i, e));
    } else {
        assert(sofar + spelled(src, i, e) =~= sofar);
    }
}

/// A string may break off and go on like any other line: what stands before the
/// ampersand and what stands where it goes on are its content, in one literal.
pub proof fn continued_strings_are_one(
    src: Seq<u8>,
    i: int,
    a: int,
    c: int,
    m: int,
    n: int,
    e: int,
)
    requires
        stands(src, i, |b: u8| b == 34 || b == 39),
        all_stand(src, i + 1, a, |b: u8| b != src[i] && b != 10 && b != 38),
        breaks_off(src, a, c, m, n),
        all_stand(src, goes_on_at(src, n), e, |b: u8| b != src[i] && b != 10 && b != 38),
        stands(src, e, |b: u8| b == src[i]),
        !stands(src, e + 1, |b: u8| b == src[i]),
    ensures
        lex_from(src, i).0.len() > 0,
        lex_from(src, i).0[0] == (TokenModel {
            kind: KindModel::Plain(TokenKind::StringLiteral),
            text: Seq::new((a - i) as nat, |k: int| src[i + k] as char) + Seq::new(
                (e + 1 - goes_on_at(src, n)) as nat,
                |k: int| src[goes_on_at(src, n) + k] as char,
            ),
            start: i,
            end: e + 1,
        }),
{
    let q = src[i];
    let to = goes_on_at(src, n);
    let p = |b: u8| b != q && b != 10 && b != 38;
    assert forall|k: int| i + 1 <= k < a implies p(#[trigger] src[k]) by {
        assert((|b: u8| b != src[i] && b != 10 && b != 38)(src[k]));
    }
    assert forall|k: int| to <= k < e implies p(#[trigger] src[k]) by {
        assert((|b: u8| b != src[i] && b != 10 && b != 38)(src[k]));
    }
    let start = seq![char_of(q)];
    let first = start + spelled(src, i + 1, a);
    let all = first + spelled(src, to, e);
    lemma_plain_content(src, i + 1, a, q, start);
    lemma_breaks_off(src, a, c, m, n);
    assert(scan_string(src, a, q, first) == scan_string(src, to, q, first));
    lemma_plain_content(src, to, e, q, first);
    assert(src[e] == q);
    assert(continuation(src, e) is None);
    assert(byte_at(src, e + 1) == q ==> e + 1 >= src.len());
    let text = Seq::new((a - i) as nat, |k: int| src[i + k] as char) + Seq::new(
        (e + 1 - to) as nat,
        |k: int| src[to + k] as char,
    );
    assert(all.push(char_of(q)) =~= text);
    lemma_skip_layout(src, i);
    assert(run_end(src, i, ByteClass::Blank) == i);
    assert(skip_layout(src, i) == i);
}

} // verus!
