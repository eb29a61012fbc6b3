use lexparse::ast::{
    ASTNode, Declaration, Expression, ParseError, Parser, ScopeError, ScopeTree,
};
use lexparse::lexer::{BinaryOperator, Lexer, Literal, Scope, Token, UnaryOperator};
use lexparse::{parse_source, FrontendError};

fn parse(src: &str) -> Result<Vec<ASTNode>, FrontendError> {
    parse_source(src.to_string())
}

fn var(name: &str) -> Expression {
    Expression::Variable(name.to_string())
}

fn binary(lhs: Expression, op: BinaryOperator, rhs: Expression) -> Expression {
    Expression::Binary {
        lhs: Box::new(lhs),
        operator: op,
        rhs: Box::new(rhs),
    }
}

#[test]
fn let_binds_a_name_to_a_literal() {
    // "let x = true" parses to a single declaration binding `x` to the
    // boolean literal true.
    assert_eq!(
        parse("let x = true"),
        Ok(vec![ASTNode::Decl(Declaration::Variable {
            name: "x".to_string(),
            expression: Expression::Literal(Literal::True),
        })])
    );
}

#[test]
fn binary_chain_folds_left_to_right() {
    // "a and b and c" groups as (a and b) and c: flat left-to-right folding
    // with no precedence distinction.
    assert_eq!(
        parse("a and b and c"),
        Ok(vec![ASTNode::Expr(binary(
            binary(var("a"), BinaryOperator::And, var("b")),
            BinaryOperator::And,
            var("c"),
        ))])
    );
}

#[test]
fn mixed_operators_still_fold_left_to_right() {
    assert_eq!(
        parse("a or b !and c xor d"),
        Ok(vec![ASTNode::Expr(binary(
            binary(
                binary(var("a"), BinaryOperator::Or, var("b")),
                BinaryOperator::NotAnd,
                var("c"),
            ),
            BinaryOperator::Xor,
            var("d"),
        ))])
    );
}

#[test]
fn lexical_scope_collects_statements_in_order() {
    // A lexical scope parses to a single LexicalScope expression whose inner
    // node sequence holds the statements between the delimiters, in their
    // original order.
    assert_eq!(
        parse("|>\na\nb\n<|"),
        Ok(vec![ASTNode::Expr(Expression::LexicalScope(vec![
            ASTNode::Expr(var("a")),
            ASTNode::Expr(var("b")),
        ]))])
    );
}

#[test]
fn block_scope_collects_statements() {
    assert_eq!(
        parse("{\na\n}"),
        Ok(vec![ASTNode::Expr(Expression::BlockScope(vec![
            ASTNode::Expr(var("a")),
        ]))])
    );
}

#[test]
fn scopes_nest() {
    assert_eq!(
        parse("{\n|>\na\n<|\n}"),
        Ok(vec![ASTNode::Expr(Expression::BlockScope(vec![
            ASTNode::Expr(Expression::LexicalScope(vec![ASTNode::Expr(var("a"))])),
        ]))])
    );
}

#[test]
fn balanced_input_parses_to_top_level_statements() {
    // A well-formed input with balanced, matching delimiters parses to the
    // Root frame's statements alone: no scope is left open.
    assert_eq!(
        parse("x\n{\ny\n}\nz"),
        Ok(vec![
            ASTNode::Expr(var("x")),
            ASTNode::Expr(Expression::BlockScope(vec![ASTNode::Expr(var("y"))])),
            ASTNode::Expr(var("z")),
        ])
    );
}

#[test]
fn unary_operator_applies_to_next_value() {
    assert_eq!(
        parse("!a"),
        Ok(vec![ASTNode::Expr(Expression::Unary {
            expression: Box::new(var("a")),
            operator: UnaryOperator::Not,
        })])
    );
}

#[test]
fn declaration_with_binary_chain() {
    assert_eq!(
        parse("let x = a or false"),
        Ok(vec![ASTNode::Decl(Declaration::Variable {
            name: "x".to_string(),
            expression: binary(var("a"), BinaryOperator::Or, Expression::Literal(Literal::False)),
        })])
    );
}

#[test]
fn empty_input_parses_to_no_statements() {
    assert_eq!(parse(""), Ok(vec![]));
    assert_eq!(parse("\n\n"), Ok(vec![]));
}

#[test]
fn newline_separates_statements() {
    assert_eq!(
        parse("true\nfalse"),
        Ok(vec![
            ASTNode::Expr(Expression::Literal(Literal::True)),
            ASTNode::Expr(Expression::Literal(Literal::False)),
        ])
    );
}

#[test]
fn mismatched_closer_fails_at_its_token() {
    // An opening delimiter of one kind closed by a delimiter of another kind
    // fails with a scope mismatch at the position of the mismatched closer.
    // Tokens: `{` `\n` `a` `\n` `<|`, so the closer has index 4.
    assert_eq!(
        parse("{\na\n<|"),
        Err(FrontendError::Parse(ParseError::Scope {
            err: ScopeError::ScopeMismatch,
            at: 4,
        }))
    );
}

#[test]
fn closer_without_open_scope_fails() {
    assert_eq!(
        parse("}"),
        Err(FrontendError::Parse(ParseError::Scope {
            err: ScopeError::NoOpenScope,
            at: 0,
        }))
    );
}

#[test]
fn unclosed_scope_at_end_of_input_fails() {
    assert_eq!(
        parse("{\na\n"),
        Err(FrontendError::Parse(ParseError::UnbalancedScope))
    );
    assert_eq!(
        parse("|>"),
        Err(FrontendError::Parse(ParseError::UnbalancedScope))
    );
}

#[test]
fn grammar_violations_report_the_offending_token() {
    // A comma opens no statement.
    assert_eq!(
        parse(","),
        Err(FrontendError::Parse(ParseError::UnexpectedToken { at: 0 }))
    );
    // `let` must be followed by an identifier.
    assert_eq!(
        parse("let ,"),
        Err(FrontendError::Parse(ParseError::UnexpectedToken { at: 1 }))
    );
    // The identifier must be followed by an assignment.
    assert_eq!(
        parse("let x true"),
        Err(FrontendError::Parse(ParseError::UnexpectedToken { at: 2 }))
    );
    // An expression ends only at a newline, a binary operator or the end.
    assert_eq!(
        parse("a ,"),
        Err(FrontendError::Parse(ParseError::UnexpectedToken { at: 1 }))
    );
    // Tuple scopes are reserved and not part of the expression grammar yet.
    assert_eq!(
        parse("("),
        Err(FrontendError::Parse(ParseError::UnexpectedToken { at: 0 }))
    );
}

#[test]
fn lex_failures_surface_through_parse_source() {
    assert_eq!(
        parse("a @ b"),
        Err(FrontendError::Lex(lexparse::lexer::LexError::InvalidCharacter { at: 2 }))
    );
}

#[test]
fn parser_over_explicit_tokens() {
    let tokens = vec![
        Token::Ident("a".to_string()),
        Token::BinaryOp(BinaryOperator::Xor),
        Token::Lit(Literal::True),
        Token::EOF,
    ];
    let parser = Parser::new(tokens);
    assert_eq!(
        parser.lfg(),
        Ok(vec![ASTNode::Expr(binary(
            var("a"),
            BinaryOperator::Xor,
            Expression::Literal(Literal::True),
        ))])
    );
}

#[test]
fn parse_statement_steps_through_the_stream() {
    let mut lexer = Lexer::new("a\nb".to_string());
    let tokens = lexer.tokenize().expect("valid source");
    let mut parser = Parser::new(tokens);
    assert_eq!(parser.parse_statement(), Ok(Some(ASTNode::Expr(var("a")))));
    assert_eq!(parser.parse_statement(), Ok(Some(ASTNode::Expr(var("b")))));
    assert_eq!(parser.parse_statement(), Ok(None));
}

#[test]
fn scope_tree_collects_and_reports_statements() {
    let mut frame = ScopeTree::new(Scope::Block);
    assert!(frame.statements().is_empty());
    frame.push(ASTNode::Expr(var("a")));
    frame.push(ASTNode::Expr(var("b")));
    assert_eq!(
        frame.statements(),
        vec![ASTNode::Expr(var("a")), ASTNode::Expr(var("b"))]
    );
    assert!(frame.is_scope(Scope::Block));
    assert!(!frame.is_scope(Scope::Lexical));

    let lexical = ScopeTree::new(Scope::Lexical);
    assert!(lexical.is_scope(Scope::Lexical));
    assert!(!lexical.is_scope(Scope::Block));

    let root = ScopeTree::default();
    assert!(!root.is_scope(Scope::Block));
    assert!(!root.is_scope(Scope::Lexical));
    assert_eq!(root, ScopeTree::Root(vec![]));
}

#[test]
fn from_scope_materializes_the_matching_expression() {
    let nodes = vec![ASTNode::Expr(var("a"))];
    assert_eq!(
        Expression::from_scope(Scope::Block, nodes),
        Expression::BlockScope(vec![ASTNode::Expr(var("a"))])
    );
    let nodes = vec![ASTNode::Expr(var("b"))];
    assert_eq!(
        Expression::from_scope(Scope::Lexical, nodes),
        Expression::LexicalScope(vec![ASTNode::Expr(var("b"))])
    );
}

#[test]
fn list_delimiters_are_reserved() {
    assert_eq!(
        parse("["),
        Err(FrontendError::Parse(ParseError::UnexpectedToken { at: 0 }))
    );
    assert_eq!(
        parse("]"),
        Err(FrontendError::Parse(ParseError::Scope {
            err: ScopeError::NoOpenScope,
            at: 0,
        }))
    );
    // Tokens: `{` `\n` `]`, so the mismatched closer has index 2.
    assert_eq!(
        parse("{\n]"),
        Err(FrontendError::Parse(ParseError::Scope {
            err: ScopeError::ScopeMismatch,
            at: 2,
        }))
    );
}

#[test]
fn conditional_keywords_are_not_statements_yet() {
    assert_eq!(
        parse("if"),
        Err(FrontendError::Parse(ParseError::UnexpectedToken { at: 0 }))
    );
}

#[test]
fn scope_is_not_a_declaration_initializer() {
    // A declaration's initializer is an expression: a variable, a literal,
    // or a unary operator applied to one.  Tokens: `let` `x` `=` `{`.
    assert_eq!(
        parse("let x = {"),
        Err(FrontendError::Parse(ParseError::UnexpectedToken { at: 3 }))
    );
}
