use armfortas::lexer::fixed::try_hollerith;
use armfortas::lexer::{detect_source_form, tokenize_fixed, Lexer, SourceForm, Token, TokenKind};


fn fixed_toks(src: &str) -> Vec<Token> {
    tokenize_fixed(src, 0).unwrap()
}

fn fixed_kinds(src: &str) -> Vec<TokenKind> {
    fixed_toks(src).into_iter()
        .map(|t| t.kind)
        .filter(|k| !matches!(k, TokenKind::Eof | TokenKind::Newline))
        .collect()
}

fn fixed_texts(src: &str) -> Vec<String> {
    fixed_toks(src).into_iter()
        .filter(|t| !matches!(t.kind, TokenKind::Eof | TokenKind::Newline | TokenKind::Comment(_)))
        .map(|t| t.text)
        .collect()
}

// ---- Comment detection ----

#[test]
fn comment_c_uppercase() {
    let k = fixed_kinds("C     This is a comment\n");
    assert_eq!(k, vec![TokenKind::Comment("C     This is a comment".into())]);
}

#[test]
fn comment_c_lowercase() {
    let k = fixed_kinds("c     This is a comment\n");
    assert_eq!(k, vec![TokenKind::Comment("c     This is a comment".into())]);
}

#[test]
fn comment_star() {
    let k = fixed_kinds("*     This is a comment\n");
    assert_eq!(k, vec![TokenKind::Comment("*     This is a comment".into())]);
}

#[test]
fn comment_bang() {
    let k = fixed_kinds("!     This is a comment\n");
    assert_eq!(k, vec![TokenKind::Comment("!     This is a comment".into())]);
}

// ---- Statement labels ----

#[test]
fn statement_with_label() {
    // "   10 CONTINUE" — label 10 in columns 1-5, CONTINUE in 7+
    let texts = fixed_texts("   10 CONTINUE\n");
    assert!(texts.contains(&"10".to_string()), "got: {:?}", texts);
    assert!(texts.contains(&"CONTINUE".to_string()), "got: {:?}", texts);
}

#[test]
fn statement_without_label() {
    // No label means the first token should be the identifier X, not a label number.
    let toks = fixed_toks("      X = 42\n");
    let first_meaningful = toks.iter()
        .find(|t| !matches!(t.kind, TokenKind::Newline | TokenKind::Eof | TokenKind::Comment(_)))
        .unwrap();
    assert_eq!(first_meaningful.kind, TokenKind::Identifier);
    assert_eq!(first_meaningful.text, "X");
}

// ---- Column 73+ ignored ----

#[test]
fn columns_past_72_ignored() {
    // Columns 73+ should be stripped. Place code in 7-72, junk in 73+.
    let line = format!("      X = 42{}\n", " ".repeat(60) + "JUNK");
    // Body should be "X = 42" + spaces, NOT including JUNK.
    let texts = fixed_texts(&line);
    assert!(texts.contains(&"X".to_string()));
    assert!(!texts.iter().any(|t| t.contains("JUNK")), "got: {:?}", texts);
}

// ---- Continuation lines ----

#[test]
fn continuation_in_column_6() {
    let src = "      X = 1 +\n     +  2\n";
    let kinds = fixed_kinds(src);
    assert!(kinds.contains(&TokenKind::Plus));
    // Should have both integer literals.
    let int_count = kinds.iter().filter(|k| **k == TokenKind::IntegerLiteral).count();
    assert_eq!(int_count, 2, "expected 2 integer literals, got {:?}", kinds);
}

#[test]
fn continuation_dollar_sign() {
    // Any non-space, non-zero character in column 6 is continuation.
    let src = "      X = 1 +\n     $  2\n";
    let kinds = fixed_kinds(src);
    let int_count = kinds.iter().filter(|k| **k == TokenKind::IntegerLiteral).count();
    assert_eq!(int_count, 2);
}

// ---- Tab-form extension ----

#[test]
fn tab_form_statement() {
    let src = "\tX = 42\n";
    let texts = fixed_texts(src);
    assert!(texts.contains(&"X".to_string()));
    assert!(texts.contains(&"42".to_string()));
}

#[test]
fn tab_form_continuation() {
    // Tab followed by digit 1-9 is continuation.
    let src = "\tX = 1 +\n\t1  2\n";
    let kinds = fixed_kinds(src);
    let int_count = kinds.iter().filter(|k| **k == TokenKind::IntegerLiteral).count();
    assert_eq!(int_count, 2, "got: {:?}", kinds);
}

// ---- Simple programs ----

#[test]
fn simple_fixed_form_program() {
    let src = "\
C     Hello World
      PROGRAM HELLO
      INTEGER I
      DO 10 I = 1, 10
         WRITE(*,*) I
   10 CONTINUE
      STOP
      END
";
    let tokens = tokenize_fixed(src, 0).unwrap();
    let ident_count = tokens.iter().filter(|t| t.kind == TokenKind::Identifier).count();
    assert!(ident_count >= 8, "expected 8+ identifiers, got {}", ident_count);

    // Should have a label "10".
    assert!(tokens.iter().any(|t| t.kind == TokenKind::IntegerLiteral && t.text == "10"));
}

// ---- Mode detection ----

#[test]
fn detect_free_form() {
    assert_eq!(detect_source_form("test.f90"), SourceForm::FreeForm);
    assert_eq!(detect_source_form("test.f95"), SourceForm::FreeForm);
    assert_eq!(detect_source_form("test.f03"), SourceForm::FreeForm);
    assert_eq!(detect_source_form("test.f08"), SourceForm::FreeForm);
    assert_eq!(detect_source_form("test.f18"), SourceForm::FreeForm);
}

#[test]
fn detect_fixed_form() {
    assert_eq!(detect_source_form("test.f"), SourceForm::FixedForm);
    assert_eq!(detect_source_form("test.for"), SourceForm::FixedForm);
    assert_eq!(detect_source_form("test.ftn"), SourceForm::FixedForm);
}

// ---- Unified token stream ----

#[test]
fn fixed_and_free_produce_same_tokens() {
    let free_src = "integer :: x\nx = 42\n";
    let fixed_src = "      integer :: x\n      x = 42\n";

    let free_kinds: Vec<_> = Lexer::tokenize(free_src, 0).unwrap()
        .into_iter().map(|t| t.kind)
        .filter(|k| !matches!(k, TokenKind::Eof | TokenKind::Newline))
        .collect();

    let fixed_kinds = fixed_kinds(fixed_src);

    assert_eq!(free_kinds, fixed_kinds,
        "free-form and fixed-form produced different tokens:\n  free:  {:?}\n  fixed: {:?}",
        free_kinds, fixed_kinds);
}

// ---- Blank lines ----

#[test]
fn blank_lines_handled() {
    let src = "      X = 1\n\n      Y = 2\n";
    let kinds = fixed_kinds(src);
    assert!(kinds.iter().filter(|k| **k == TokenKind::Identifier).count() >= 2);
}

// ---- Hollerith ----

#[test]
fn hollerith_parse() {
    assert_eq!(try_hollerith("3HABC", 0), Some(("3HABC".to_string(), 5)));
    assert_eq!(try_hollerith("6HFOOBAR", 0), Some(("6HFOOBAR".to_string(), 8)));
}

#[test]
fn hollerith_zero() {
    assert_eq!(try_hollerith("0HX", 0), Some(("0H".to_string(), 2)));
}

#[test]
fn hollerith_not_matched() {
    assert_eq!(try_hollerith("ABC", 0), None);
    assert_eq!(try_hollerith("3XABC", 0), None);
}


// ======================================================================
// Whitespace insensitivity tests — the core challenge of fixed-form
// ======================================================================

#[test]
fn whitespace_stripped_goto() {
    // GOTO100 → GO TO 100 → identifier GOTO100 (parser handles keyword split)
    // After stripping whitespace, this is a single identifier. That's correct —
    // the lexer produces GOTO100 as an identifier, and the parser would need to
    // handle the GOTO keyword. In a true fixed-form scanner, this is one token.
    let kinds = fixed_kinds("      GOTO100\n");
    // Should be a single identifier (whitespace stripped: "GOTO100").
    assert!(kinds.contains(&TokenKind::Identifier), "got: {:?}", kinds);
}

#[test]
fn whitespace_stripped_integer_decl() {
    // INTEGERI → after strip: "INTEGERI" → one identifier.
    // The parser handles "INTEGERI" as a keyword+identifier pair.
    let kinds = fixed_kinds("      INTEGERI\n");
    assert!(kinds.contains(&TokenKind::Identifier));
}

#[test]
fn whitespace_stripped_assignment() {
    // X=42 → identifier, =, integer
    let kinds = fixed_kinds("      X=42\n");
    assert_eq!(kinds, vec![
        TokenKind::Identifier, TokenKind::Assign, TokenKind::IntegerLiteral,
    ]);
}

#[test]
fn whitespace_stripped_expression() {
    // A+B*C → identifier, +, identifier, *, identifier
    let kinds = fixed_kinds("      A+B*C\n");
    assert_eq!(kinds, vec![
        TokenKind::Identifier, TokenKind::Plus,
        TokenKind::Identifier, TokenKind::Star,
        TokenKind::Identifier,
    ]);
}

#[test]
fn whitespace_stripped_with_parens() {
    // X=REAL(I) → identifier, =, identifier, (, identifier, )
    let kinds = fixed_kinds("      X=REAL(I)\n");
    assert_eq!(kinds, vec![
        TokenKind::Identifier, TokenKind::Assign,
        TokenKind::Identifier, TokenKind::LParen,
        TokenKind::Identifier, TokenKind::RParen,
    ]);
}

#[test]
fn whitespace_stripped_dot_op() {
    // A.AND.B → identifier, .and., identifier
    let kinds = fixed_kinds("      A.AND.B\n");
    assert_eq!(kinds, vec![
        TokenKind::Identifier,
        TokenKind::DotOp("and".into()),
        TokenKind::Identifier,
    ]);
}

#[test]
fn whitespace_stripped_real_literal() {
    // X=1.0D0 → identifier, =, real
    let kinds = fixed_kinds("      X=1.0D0\n");
    assert_eq!(kinds, vec![
        TokenKind::Identifier, TokenKind::Assign, TokenKind::RealLiteral,
    ]);
}

#[test]
fn whitespace_stripped_comparison() {
    // 1.EQ.2 → integer, .eq., integer
    let kinds = fixed_kinds("      IF(I.EQ.1)STOP\n");
    assert!(kinds.contains(&TokenKind::DotOp("eq".into())), "got: {:?}", kinds);
}

#[test]
fn whitespace_stripped_string_preserved() {
    // Whitespace INSIDE strings must be preserved.
    let kinds = fixed_kinds("      X='HELLO WORLD'\n");
    assert!(kinds.contains(&TokenKind::StringLiteral));
    let texts = fixed_texts("      X='HELLO WORLD'\n");
    assert!(texts.iter().any(|t| t.contains("HELLO WORLD")), "got: {:?}", texts);
}

// ---- Continuation over blank lines ----

#[test]
fn continuation_over_blank_line() {
    let src = "      X = 1 +\n\n     +  2\n";
    let kinds = fixed_kinds(src);
    let int_count = kinds.iter().filter(|k| **k == TokenKind::IntegerLiteral).count();
    assert_eq!(int_count, 2, "blank line should not break continuation, got: {:?}", kinds);
}

// ---- Hollerith integration ----

#[test]
fn hollerith_in_source() {
    // 3HABC in a statement should produce a string literal "ABC".
    let kinds = fixed_kinds("      X=3HABC\n");
    assert!(kinds.contains(&TokenKind::StringLiteral), "got: {:?}", kinds);
}

// ---- String in fixed-form ----

#[test]
fn string_literal_in_fixed_form() {
    let kinds = fixed_kinds("      X = 'IT''S'\n");
    assert!(kinds.contains(&TokenKind::StringLiteral));
    let texts = fixed_texts("      X = 'IT''S'\n");
    assert!(texts.iter().any(|t| t.contains("IT''S")), "got: {:?}", texts);
}
