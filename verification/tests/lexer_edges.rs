use armfortas::lexer::fixed::try_hollerith;
use armfortas::lexer::unicode::{is_all_white, trim};
use armfortas::lexer::{
    detect_source_form, is_keyword, tokenize_fixed, Keyword, LexError, Lexer, Position, SourceForm,
    Span, Token, TokenKind,
};

fn kinds(tokens: &[Token]) -> Vec<TokenKind> {
    tokens.iter().map(|t| t.kind.clone()).collect()
}

fn free(src: &str) -> Vec<Token> {
    Lexer::tokenize(src, 0).expect("lexes")
}

fn fault(src: &str) -> LexError {
    Lexer::tokenize(src, 7).expect_err("is refused")
}

#[test]
fn keywords_are_found_whatever_their_case() {
    assert_eq!(is_keyword("PROGRAM"), Some(Keyword::Program));
    assert_eq!(is_keyword("EndModule"), Some(Keyword::EndModule));
    assert_eq!(is_keyword("nOnE"), Some(Keyword::NoneKeyword));
    assert_eq!(is_keyword("programs"), None);
    assert_eq!(is_keyword(""), None);
    assert_eq!(is_keyword("\u{c9}LSE"), None);
}

#[test]
fn source_form_follows_the_extension() {
    assert_eq!(detect_source_form("a.f"), SourceForm::FixedForm);
    assert_eq!(detect_source_form("dir/b.for"), SourceForm::FixedForm);
    assert_eq!(detect_source_form("c.ftn"), SourceForm::FixedForm);
    assert_eq!(detect_source_form("c.f90"), SourceForm::FreeForm);
    assert_eq!(detect_source_form("f"), SourceForm::FreeForm);
}

#[test]
fn every_token_list_ends_with_end_of_file() {
    for src in ["", "\n", "x", "! c", "a = b ! c\n", "'s'"] {
        let t = free(src);
        assert_eq!(t.last().unwrap().kind, TokenKind::Eof, "{:?}", src);
        assert_eq!(t.iter().filter(|t| t.kind == TokenKind::Eof).count(), 1, "{:?}", src);
    }
}

#[test]
fn tokens_follow_each_other_in_the_source() {
    let t = free("do i = 1, 10\n  x(i) = i ** 2 ! square\nend do\n");
    for w in t.windows(2) {
        let (a, b) = (w[0].span.end, w[1].span.start);
        assert!((a.line, a.col) <= (b.line, b.col), "{:?} {:?}", w[0], w[1]);
    }
}

#[test]
fn spans_count_from_one() {
    let t = free("ab =\n  c");
    assert_eq!(t[0].span.start, Position { line: 1, col: 1 });
    assert_eq!(t[0].span.end, Position { line: 1, col: 3 });
    assert_eq!(t[1].span.start, Position { line: 1, col: 4 });
    let c = t.iter().find(|t| t.text == "c").unwrap();
    assert_eq!(c.span.start, Position { line: 2, col: 3 });
}

#[test]
fn text_outside_ascii_in_comments_is_kept() {
    let t = free("x = 1 ! \u{e9}t\u{e9}\n");
    let c = t.iter().find(|t| matches!(t.kind, TokenKind::Comment(_))).unwrap();
    assert!(c.text.contains("\u{e9}t\u{e9}"), "{:?}", c);
}

#[test]
fn faults_name_what_is_wrong_and_where() {
    let e = fault("x = 'abc");
    assert_eq!(e.msg, "unterminated string literal");
    assert_eq!(e.span.file_id, 7);
    assert_eq!(e.span.start, Position { line: 1, col: 5 });
    assert_eq!(fault("y = 1.0e+").msg, "expected digits in exponent");
    assert_eq!(fault("z = b'01").msg, "unterminated BOZ literal");
    assert_eq!(fault("a . b").msg, "unexpected '.'");
    assert_eq!(fault("a .foo b").msg, "expected closing '.' after .foo");
    assert_eq!(fault("a ~ b").msg, "unexpected character: '~'");
}

#[test]
fn faults_in_fixed_form_name_the_character() {
    let e = tokenize_fixed("      X = ~1\n", 0).expect_err("is refused");
    assert_eq!(e.msg, "unexpected character in fixed-form body: '~'");
}

#[test]
fn lex_error_display_gives_place_and_message() {
    let p = Position { line: 12, col: 3 };
    let e = LexError { span: Span { file_id: 0, start: p, end: p }, msg: "unexpected '.'".into() };
    assert_eq!(e.display(), "12:3: error: unexpected '.'");
}

#[test]
fn token_kinds_display_as_they_are_spelled() {
    assert_eq!(TokenKind::Power.display(), "**");
    assert_eq!(TokenKind::ColonColon.display(), "::");
    assert_eq!(TokenKind::DotOp("and".into()).display(), ".and.");
    assert_eq!(TokenKind::DefinedOp("cross".into()).display(), ".cross.");
    assert_eq!(TokenKind::Comment("! c".into()).display(), "comment");
    assert_eq!(TokenKind::Eof.display(), "end of file");
    assert_eq!(TokenKind::BozLiteral.display(), "BOZ literal");
}

#[test]
fn blanks_outside_strings_do_not_matter_in_fixed_form() {
    let a = tokenize_fixed("      DO 10 I = 1, N\n", 0).unwrap();
    let b = tokenize_fixed("      DO10I=1,N\n", 0).unwrap();
    let c = tokenize_fixed("      D O 1 0 I =1 ,N\n", 0).unwrap();
    assert_eq!(kinds(&a), kinds(&b));
    assert_eq!(kinds(&a), kinds(&c));
    let d = tokenize_fixed("      X = 'A B'\n", 0).unwrap();
    assert!(d.iter().any(|t| t.text.contains("A B")), "{:?}", d);
}

#[test]
fn hollerith_takes_as_many_characters_as_it_says() {
    assert_eq!(try_hollerith("5HHELLO,X", 0), Some(("5HHELLO".to_string(), 7)));
    assert_eq!(try_hollerith("9HSHORT", 0), None);
    assert_eq!(try_hollerith("HELLO", 0), None);
    assert_eq!(try_hollerith("X=2habc", 2), Some(("2hab".to_string(), 4)));
    // Half of a character is not UTF-8.
    assert_eq!(try_hollerith("1H\u{e9}", 0), Some(("1H\u{fffd}".to_string(), 3)));
}

#[test]
fn trimming_drops_white_space_of_every_kind() {
    assert_eq!(trim(" \t a b\u{a0}\u{2003}\r\n"), "a b");
    assert_eq!(trim("\u{3000}"), "");
    assert!(is_all_white(&vec![' ', '\t', '\u{85}']));
    assert!(!is_all_white(&vec![' ', 'x', ' ']));
    assert!(is_all_white(&vec![]));
}

#[test]
fn end_of_file_comes_again_and_again() {
    let mut lexer = Lexer::new("x & \n", 4);
    loop {
        let t = lexer.next_token().unwrap();
        if t.kind == TokenKind::Eof {
            for _ in 0..3 {
                let again = lexer.next_token().unwrap();
                assert_eq!(again.kind, TokenKind::Eof);
                assert_eq!(again.text, "");
                assert_eq!(again.span, t.span);
            }
            break;
        }
    }
}

#[test]
fn text_behind_column_72_does_not_matter() {
    let card = format!("{:<72}", "      CALL FOO(1, 2)");
    let plain = tokenize_fixed(&format!("{}\n", card), 0).unwrap();
    let tailed = tokenize_fixed(&format!("{}SEQ00010 ~'\n", card), 0).unwrap();
    assert_eq!(kinds(&plain), kinds(&tailed));
    for (a, b) in plain.iter().zip(&tailed) {
        assert_eq!((&a.text, a.span), (&b.text, b.span));
    }
    let blank = " ".repeat(72);
    let none = tokenize_fixed(&format!("{}\n", blank), 0).unwrap();
    let tail = tokenize_fixed(&format!("{}JUNK\n", blank), 0).unwrap();
    assert_eq!(kinds(&none), kinds(&tail));
}
