use lexparse::lexer::{
    BinaryOperator, Conditional, LexError, Lexer, Literal, Scope, Surround, Token, UnaryOperator,
};

fn lex_all(src: &str) -> Vec<Token> {
    let mut lexer = Lexer::new(src.to_string());
    lexer.tokenize().expect("tokenization should succeed")
}

fn lex_err(src: &str) -> LexError {
    let mut lexer = Lexer::new(src.to_string());
    lexer.tokenize().expect_err("tokenization should fail")
}

#[test]
fn negated_and_is_one_token() {
    // `!and` is exactly one negated-and binary operator token, not a unary
    // not followed by an identifier.
    let tokens = lex_all("!and");
    assert_eq!(
        tokens,
        vec![Token::BinaryOp(BinaryOperator::NotAnd), Token::EOF]
    );
}

#[test]
fn negated_or_and_xor() {
    assert_eq!(
        lex_all("!or"),
        vec![Token::BinaryOp(BinaryOperator::NotOr), Token::EOF]
    );
    assert_eq!(
        lex_all("!xor"),
        vec![Token::BinaryOp(BinaryOperator::NotXor), Token::EOF]
    );
}

#[test]
fn bang_with_other_follower_is_not() {
    let tokens = lex_all("!a");
    assert_eq!(
        tokens,
        vec![
            Token::UnaryOp(UnaryOperator::Not),
            Token::Ident("a".to_string()),
            Token::EOF
        ]
    );
}

#[test]
fn negated_or_followed_by_ident() {
    let tokens = lex_all("!ory");
    assert_eq!(
        tokens,
        vec![
            Token::BinaryOp(BinaryOperator::NotOr),
            Token::Ident("y".to_string()),
            Token::EOF
        ]
    );
}

#[test]
fn keywords_and_identifiers() {
    let tokens = lex_all("let if elif else true false and or xor x_y");
    assert_eq!(
        tokens,
        vec![
            Token::Let,
            Token::Cond(Conditional::If),
            Token::Cond(Conditional::Elif),
            Token::Cond(Conditional::Else),
            Token::Lit(Literal::True),
            Token::Lit(Literal::False),
            Token::BinaryOp(BinaryOperator::And),
            Token::BinaryOp(BinaryOperator::Or),
            Token::BinaryOp(BinaryOperator::Xor),
            Token::Ident("x_y".to_string()),
            Token::EOF
        ]
    );
}

#[test]
fn punctuation_and_delimiters() {
    let tokens = lex_all(", = \n { } ( ) [ ] |> <|");
    assert_eq!(
        tokens,
        vec![
            Token::Comma,
            Token::Assign,
            Token::NewLine,
            Token::Surr(Surround::Open(Scope::Block)),
            Token::Surr(Surround::Close(Scope::Block)),
            Token::Surr(Surround::Open(Scope::Tuple)),
            Token::Surr(Surround::Close(Scope::Tuple)),
            Token::Surr(Surround::Open(Scope::List)),
            Token::Surr(Surround::Close(Scope::List)),
            Token::Surr(Surround::Open(Scope::Lexical)),
            Token::Surr(Surround::Close(Scope::Lexical)),
            Token::EOF
        ]
    );
}

#[test]
fn empty_input_yields_end_of_input() {
    assert_eq!(lex_all(""), vec![Token::EOF]);
    assert_eq!(lex_all("  \t "), vec![Token::EOF]);
}

#[test]
fn invalid_character_reports_offset() {
    assert_eq!(lex_err("@"), LexError::InvalidCharacter { at: 0 });
    assert_eq!(lex_err("ab @"), LexError::InvalidCharacter { at: 3 });
    assert_eq!(lex_err("|x"), LexError::InvalidCharacter { at: 1 });
    assert_eq!(lex_err("<x"), LexError::InvalidCharacter { at: 1 });
}

#[test]
fn unexpected_eof_reports_offset() {
    assert_eq!(lex_err("|"), LexError::UnexpectedEof { at: 1 });
    assert_eq!(lex_err("a <"), LexError::UnexpectedEof { at: 3 });
}

#[test]
fn token_spans_skip_leading_blanks() {
    let mut lexer = Lexer::new("  let xy".to_string());
    assert_eq!(lexer.next_token(), Ok((2, 5, Token::Let)));
    assert_eq!(lexer.next_token(), Ok((6, 8, Token::Ident("xy".to_string()))));
    assert_eq!(lexer.next_token(), Ok((8, 8, Token::EOF)));
}

#[test]
fn retokenizing_a_span_reproduces_the_token() {
    // Position bookkeeping is self-consistent: re-tokenizing the exact byte
    // range a token reports as its own span yields an equal token.
    let src = "  !or x\nlet y_z = false !and true <| |> { } ( ) [ ] , = !b";
    let mut lexer = Lexer::new(src.to_string());
    loop {
        let (start, end, token) = lexer.next_token().expect("valid source");
        let again = Lexer::new(src[start..end].to_string()).next_token();
        assert_eq!(again, Ok((0, end - start, token.clone())));
        if token == Token::EOF {
            break;
        }
    }
}
