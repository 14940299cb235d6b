use armfortas::lexer::{is_keyword, Keyword, Lexer, Position, Token, TokenKind};


fn toks(src: &str) -> Vec<Token> {
    Lexer::tokenize(src, 0).unwrap()
}

fn kinds(src: &str) -> Vec<TokenKind> {
    toks(src).into_iter().map(|t| t.kind).filter(|k| !matches!(k, TokenKind::Eof)).collect()
}

fn texts(src: &str) -> Vec<String> {
    toks(src).into_iter().map(|t| t.text).filter(|t| !t.is_empty()).collect()
}

// ---- Identifiers ----

#[test]
fn simple_identifier() {
    assert_eq!(kinds("foo"), vec![TokenKind::Identifier]);
    assert_eq!(texts("foo"), vec!["foo"]);
}

#[test]
fn identifier_with_underscore_and_digits() {
    assert_eq!(texts("my_var_2"), vec!["my_var_2"]);
}

#[test]
fn keyword_is_identifier() {
    // Keywords are not reserved — lexed as identifiers.
    let toks = kinds("integer real do if");
    assert_eq!(toks, vec![
        TokenKind::Identifier, TokenKind::Identifier,
        TokenKind::Identifier, TokenKind::Identifier,
    ]);
}

#[test]
fn is_keyword_helper() {
    assert_eq!(is_keyword("integer"), Some(Keyword::Integer));
    assert_eq!(is_keyword("INTEGER"), Some(Keyword::Integer));
    assert_eq!(is_keyword("foo"), None);
}

// ---- Integer literals ----

#[test]
fn integer_literal() {
    assert_eq!(kinds("42"), vec![TokenKind::IntegerLiteral]);
    assert_eq!(texts("42"), vec!["42"]);
}

#[test]
fn integer_with_kind() {
    assert_eq!(texts("42_8"), vec!["42_8"]);
    assert_eq!(kinds("42_8"), vec![TokenKind::IntegerLiteral]);
}

#[test]
fn integer_with_named_kind() {
    assert_eq!(texts("42_int64"), vec!["42_int64"]);
    assert_eq!(kinds("42_int64"), vec![TokenKind::IntegerLiteral]);
}

// ---- Real literals ----

#[test]
fn real_literal_basic() {
    assert_eq!(kinds("3.14"), vec![TokenKind::RealLiteral]);
    assert_eq!(texts("3.14"), vec!["3.14"]);
}

#[test]
fn real_literal_exponent_e() {
    assert_eq!(texts("6.022e23"), vec!["6.022e23"]);
    assert_eq!(kinds("6.022e23"), vec![TokenKind::RealLiteral]);
}

#[test]
fn real_literal_exponent_d() {
    assert_eq!(texts("1.0d0"), vec!["1.0d0"]);
    assert_eq!(kinds("1.0d0"), vec![TokenKind::RealLiteral]);
}

#[test]
fn real_literal_signed_exponent() {
    assert_eq!(texts("1.0e-5"), vec!["1.0e-5"]);
}

#[test]
fn real_literal_leading_dot() {
    assert_eq!(texts(".5"), vec![".5"]);
    assert_eq!(kinds(".5"), vec![TokenKind::RealLiteral]);
}

#[test]
fn real_literal_trailing_dot() {
    assert_eq!(texts("5."), vec!["5."]);
    assert_eq!(kinds("5."), vec![TokenKind::RealLiteral]);
}

#[test]
fn real_with_kind_suffix() {
    assert_eq!(texts("3.14_8"), vec!["3.14_8"]);
    assert_eq!(kinds("3.14_8"), vec![TokenKind::RealLiteral]);
}

#[test]
fn real_with_named_kind() {
    assert_eq!(texts("1.0_dp"), vec!["1.0_dp"]);
}

// ---- String literals ----

#[test]
fn string_single_quote() {
    let toks = toks("'hello'");
    assert_eq!(toks[0].kind, TokenKind::StringLiteral);
    assert_eq!(toks[0].text, "'hello'");
}

#[test]
fn string_double_quote() {
    let toks = toks("\"hello\"");
    assert_eq!(toks[0].kind, TokenKind::StringLiteral);
    assert_eq!(toks[0].text, "\"hello\"");
}

#[test]
fn string_doubled_quote_escape() {
    let toks = toks("'it''s'");
    assert_eq!(toks[0].kind, TokenKind::StringLiteral);
    assert_eq!(toks[0].text, "'it''s'");
}

#[test]
fn string_continuation() {
    // String continued across lines with &.
    // Content before & is part of the string (including the space).
    let src = "'hello &\n     &world'";
    let toks = toks(src);
    assert_eq!(toks[0].kind, TokenKind::StringLiteral);
    assert_eq!(toks[0].text, "'hello world'");
}

#[test]
fn string_continuation_no_space() {
    // No space before &: content is 'helloworld'.
    let src = "'hello&\n     &world'";
    let toks = toks(src);
    assert_eq!(toks[0].kind, TokenKind::StringLiteral);
    assert_eq!(toks[0].text, "'helloworld'");
}

#[test]
fn string_empty() {
    assert_eq!(toks("''")[0].kind, TokenKind::StringLiteral);
    assert_eq!(toks("''")[0].text, "''");
}

// ---- BOZ literals ----

#[test]
fn boz_binary() {
    let t = &toks("B'1010'")[0];
    assert_eq!(t.kind, TokenKind::BozLiteral);
    assert_eq!(t.text, "B'1010'");
}

#[test]
fn boz_octal() {
    let t = &toks("O'777'")[0];
    assert_eq!(t.kind, TokenKind::BozLiteral);
    assert_eq!(t.text, "O'777'");
}

#[test]
fn boz_hex() {
    let t = &toks("Z'FF'")[0];
    assert_eq!(t.kind, TokenKind::BozLiteral);
    assert_eq!(t.text, "Z'FF'");
}

#[test]
fn boz_lowercase() {
    let t = &toks("b\"1010\"")[0];
    assert_eq!(t.kind, TokenKind::BozLiteral);
    assert_eq!(t.text, "b\"1010\"");
}

// ---- Logical literals ----

#[test]
fn logical_true() {
    let t = &toks(".true.")[0];
    assert_eq!(t.kind, TokenKind::LogicalLiteral);
    assert_eq!(t.text, ".true.");
}

#[test]
fn logical_false() {
    let t = &toks(".false.")[0];
    assert_eq!(t.kind, TokenKind::LogicalLiteral);
    assert_eq!(t.text, ".false.");
}

#[test]
fn logical_with_kind() {
    let t = &toks(".true._4")[0];
    assert_eq!(t.kind, TokenKind::LogicalLiteral);
    assert_eq!(t.text, ".true._4");
}

// ---- Operators ----

#[test]
fn arithmetic_operators() {
    assert_eq!(kinds("+ - * /"), vec![
        TokenKind::Plus, TokenKind::Minus, TokenKind::Star, TokenKind::Slash,
    ]);
}

#[test]
fn power_operator() {
    assert_eq!(kinds("**"), vec![TokenKind::Power]);
}

#[test]
fn concat_operator() {
    assert_eq!(kinds("//"), vec![TokenKind::Concat]);
}

#[test]
fn comparison_operators() {
    assert_eq!(kinds("== /= < > <= >="), vec![
        TokenKind::Eq, TokenKind::Ne, TokenKind::Lt, TokenKind::Gt,
        TokenKind::Le, TokenKind::Ge,
    ]);
}

#[test]
fn dot_comparison_operators() {
    assert_eq!(kinds(".eq. .ne. .lt. .gt. .le. .ge."), vec![
        TokenKind::DotOp("eq".into()), TokenKind::DotOp("ne".into()),
        TokenKind::DotOp("lt".into()), TokenKind::DotOp("gt".into()),
        TokenKind::DotOp("le".into()), TokenKind::DotOp("ge".into()),
    ]);
}

#[test]
fn dot_logical_operators() {
    assert_eq!(kinds(".and. .or. .not."), vec![
        TokenKind::DotOp("and".into()), TokenKind::DotOp("or".into()),
        TokenKind::DotOp("not".into()),
    ]);
}

#[test]
fn dot_eqv_neqv() {
    assert_eq!(kinds(".eqv. .neqv."), vec![
        TokenKind::DotOp("eqv".into()), TokenKind::DotOp("neqv".into()),
    ]);
}

#[test]
fn defined_operator() {
    assert_eq!(kinds(".myop."), vec![TokenKind::DefinedOp("myop".into())]);
}

// ---- Punctuation ----

#[test]
fn punctuation() {
    assert_eq!(kinds("( ) [ ] , : ; %"), vec![
        TokenKind::LParen, TokenKind::RParen,
        TokenKind::LBracket, TokenKind::RBracket,
        TokenKind::Comma, TokenKind::Colon, TokenKind::Semicolon, TokenKind::Percent,
    ]);
}

#[test]
fn double_colon() {
    assert_eq!(kinds("::"), vec![TokenKind::ColonColon]);
}

#[test]
fn arrow() {
    assert_eq!(kinds("=>"), vec![TokenKind::Arrow]);
}

#[test]
fn assign() {
    assert_eq!(kinds("="), vec![TokenKind::Assign]);
}

// ---- Comments ----

#[test]
fn comment() {
    let toks = kinds("x ! this is a comment\n");
    assert_eq!(toks.len(), 3); // identifier, comment, newline
    assert!(matches!(toks[1], TokenKind::Comment(_)));
}

// ---- Newlines ----

#[test]
fn newline_is_statement_terminator() {
    assert_eq!(kinds("x\ny"), vec![
        TokenKind::Identifier, TokenKind::Newline, TokenKind::Identifier,
    ]);
}

#[test]
fn semicolon_is_statement_separator() {
    assert_eq!(kinds("x; y"), vec![
        TokenKind::Identifier, TokenKind::Semicolon, TokenKind::Identifier,
    ]);
}

// ---- Continuation lines ----

#[test]
fn continuation_joins_tokens() {
    let k = kinds("x + &\n  y");
    assert_eq!(k, vec![TokenKind::Identifier, TokenKind::Plus, TokenKind::Identifier]);
}

#[test]
fn continuation_with_leading_ampersand() {
    let k = kinds("x + &\n  &y");
    assert_eq!(k, vec![TokenKind::Identifier, TokenKind::Plus, TokenKind::Identifier]);
}

#[test]
fn continuation_with_comment() {
    let k = kinds("x + & ! comment\n  y");
    assert_eq!(k, vec![TokenKind::Identifier, TokenKind::Plus, TokenKind::Identifier]);
}

// ---- Source locations ----

#[test]
fn source_locations() {
    let toks = toks("x = 42\n");
    // x at line 1, col 1
    assert_eq!(toks[0].span.start, Position { line: 1, col: 1 });
    // = at line 1, col 3
    assert_eq!(toks[1].span.start, Position { line: 1, col: 3 });
    // 42 at line 1, col 5
    assert_eq!(toks[2].span.start, Position { line: 1, col: 5 });
}

// ---- Complex expressions ----

#[test]
fn complex_declaration() {
    let k = kinds("integer, allocatable :: x(:,:)");
    assert_eq!(k, vec![
        TokenKind::Identifier, TokenKind::Comma, TokenKind::Identifier,
        TokenKind::ColonColon,
        TokenKind::Identifier, TokenKind::LParen, TokenKind::Colon,
        TokenKind::Comma, TokenKind::Colon, TokenKind::RParen,
    ]);
}

#[test]
fn pointer_assignment() {
    let k = kinds("ptr => target");
    assert_eq!(k, vec![TokenKind::Identifier, TokenKind::Arrow, TokenKind::Identifier]);
}

#[test]
fn component_access() {
    let k = kinds("obj%member");
    assert_eq!(k, vec![TokenKind::Identifier, TokenKind::Percent, TokenKind::Identifier]);
}

#[test]
fn array_constructor_bracket() {
    let k = kinds("[1, 2, 3]");
    assert_eq!(k, vec![
        TokenKind::LBracket, TokenKind::IntegerLiteral, TokenKind::Comma,
        TokenKind::IntegerLiteral, TokenKind::Comma, TokenKind::IntegerLiteral,
        TokenKind::RBracket,
    ]);
}

// ---- Ambiguity cases ----

#[test]
fn real_number_not_dot_op() {
    // 1.0 should lex as a single real literal, not 1 .0
    let k = kinds("1.0");
    assert_eq!(k, vec![TokenKind::RealLiteral]);
}

#[test]
fn integer_dot_and_with_spaces() {
    let k = kinds("a .and. b");
    assert_eq!(k, vec![
        TokenKind::Identifier, TokenKind::DotOp("and".into()), TokenKind::Identifier,
    ]);
}

#[test]
fn integer_dot_eq_no_spaces() {
    // Critical ambiguity: 1.eq.2 must NOT be parsed as a real with exponent.
    // It's: integer(1), .eq., integer(2)
    let k = kinds("1.eq.2");
    assert_eq!(k, vec![
        TokenKind::IntegerLiteral, TokenKind::DotOp("eq".into()), TokenKind::IntegerLiteral,
    ]);
}

#[test]
fn integer_dot_and_no_spaces() {
    let k = kinds("1.and.2");
    assert_eq!(k, vec![
        TokenKind::IntegerLiteral, TokenKind::DotOp("and".into()), TokenKind::IntegerLiteral,
    ]);
}

#[test]
fn integer_dot_ne_no_spaces() {
    let k = kinds("x.ne.y");
    assert_eq!(k, vec![
        TokenKind::Identifier, TokenKind::DotOp("ne".into()), TokenKind::Identifier,
    ]);
}

#[test]
fn real_with_exponent_not_dot_op() {
    // 1.0e5 is a real, not 1 .0e5
    assert_eq!(kinds("1.0e5"), vec![TokenKind::RealLiteral]);
    assert_eq!(texts("1.0e5"), vec!["1.0e5"]);
}

#[test]
fn real_with_d_exponent_not_dot_op() {
    // 1.0d0 is a double-precision real
    assert_eq!(kinds("1.0d0"), vec![TokenKind::RealLiteral]);
}

#[test]
fn real_dot_e_plus_is_exponent() {
    // 1.e+5 — the e is followed by + so it's an exponent
    assert_eq!(kinds("1.e+5"), vec![TokenKind::RealLiteral]);
    assert_eq!(texts("1.e+5"), vec!["1.e+5"]);
}

#[test]
fn five_dot_eq_three() {
    // 5.eq.3 — integer, .eq., integer (not a real)
    let k = kinds("5.eq.3");
    assert_eq!(k, vec![
        TokenKind::IntegerLiteral, TokenKind::DotOp("eq".into()), TokenKind::IntegerLiteral,
    ]);
}

// ---- Error cases ----

#[test]
fn unterminated_string() {
    let result = Lexer::tokenize("'unterminated\n", 0);
    assert!(result.is_err());
}

#[test]
fn unterminated_boz() {
    let result = Lexer::tokenize("B'1010\n", 0);
    assert!(result.is_err());
}

// ---- Multi-line program ----

#[test]
fn simple_program() {
    let src = "\
program hello
    implicit none
    integer :: x
    x = 42
    print *, x
end program hello
";
    let tokens = Lexer::tokenize(src, 0).unwrap();
    let ident_count = tokens.iter().filter(|t| t.kind == TokenKind::Identifier).count();
    assert!(ident_count >= 8, "expected 8+ identifiers, got {}", ident_count);
    let last_non_eof = tokens.iter().rev().find(|t| t.kind != TokenKind::Eof && t.kind != TokenKind::Newline).unwrap();
    assert_eq!(last_non_eof.text, "hello");
}
