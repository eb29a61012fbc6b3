//! Abstract syntax tree and recursive-descent parser.
//!
//! The parser consumes a token stream, one token of state plus one token of
//! lookahead, and builds AST nodes.  Nested block and lexical scopes are
//! tracked on an explicit stack of frames: a frame is pushed on an opening
//! delimiter and popped, and materialized into a scope expression, on the
//! matching closing delimiter.  The functions `spec_parse_statement` and
//! `spec_run` give the mathematical definition of parsing; the executable
//! parser is verified against them.
use vstd::prelude::*;

use crate::lexer::{toks_v, BinaryOperator, Literal, Scope, Surround, Token, TokenV, UnaryOperator};

verus! {

broadcast use vstd::std_specs::vec::group_vec_axioms, vstd::seq::axiom_seq_index_decreases;

/// A statement: an expression statement or a declaration.
#[derive(Debug, PartialEq)]
pub enum ASTNode {
    Expr(Expression),
    Decl(Declaration),
}

/// An expression of the language.
#[derive(Debug, PartialEq)]
pub enum Expression {
    Unary { expression: Box<Expression>, operator: UnaryOperator },
    Binary { lhs: Box<Expression>, operator: BinaryOperator, rhs: Box<Expression> },
    Literal(Literal),
    Variable(String),
    LexicalScope(Vec<ASTNode>),
    BlockScope(Vec<ASTNode>),
}

/// A declaration binding a name to the value of an expression.
#[derive(Debug, PartialEq)]
pub enum Declaration {
    Variable { name: String, expression: Expression },
}

/// An open scope frame: the statements collected so far while the frame is
/// open.  Root is the implicit outermost frame; it is created at parser
/// construction and never popped.
#[derive(Debug, PartialEq)]
pub enum ScopeTree {
    Root(Vec<ASTNode>),
    Lexical(Vec<ASTNode>),
    Block(Vec<ASTNode>),
}

/// The mathematical value of a statement.
#[verifier::ext_equal]
pub enum NodeV {
    Expr(ExprV),
    Decl(DeclV),
}

/// The mathematical value of an expression.
#[verifier::ext_equal]
pub enum ExprV {
    Unary { expression: Box<ExprV>, operator: UnaryOperator },
    Binary { lhs: Box<ExprV>, operator: BinaryOperator, rhs: Box<ExprV> },
    Literal(Literal),
    Variable(Seq<char>),
    LexicalScope(Seq<NodeV>),
    BlockScope(Seq<NodeV>),
}

/// The mathematical value of a declaration.
#[verifier::ext_equal]
pub enum DeclV {
    Variable { name: Seq<char>, expression: ExprV },
}

/// The mathematical value of a scope frame.
#[verifier::ext_equal]
pub enum FrameV {
    Root(Seq<NodeV>),
    Lexical(Seq<NodeV>),
    Block(Seq<NodeV>),
}

impl ASTNode {
    /// The mathematical value of this statement.
    pub open spec fn deep_view(self) -> NodeV
        decreases self,
    {
        match self {
            ASTNode::Expr(e) => NodeV::Expr(e.deep_view()),
            ASTNode::Decl(d) => NodeV::Decl(d.deep_view()),
        }
    }
}

impl Declaration {
    /// The mathematical value of this declaration.
    pub open spec fn deep_view(self) -> DeclV
        decreases self,
    {
        match self {
            Declaration::Variable { name, expression } => DeclV::Variable {
                name: name@,
                expression: expression.deep_view(),
            },
        }
    }
}

impl Expression {
    /// The mathematical value of this expression.
    pub open spec fn deep_view(self) -> ExprV
        decreases self,
        via Self::deep_view_decreases
    {
        match self {
            Expression::Unary { expression, operator } => ExprV::Unary {
                expression: Box::new((*expression).deep_view()),
                operator,
            },
            Expression::Binary { lhs, operator, rhs } => ExprV::Binary {
                lhs: Box::new((*lhs).deep_view()),
                operator,
                rhs: Box::new((*rhs).deep_view()),
            },
            Expression::Literal(l) => ExprV::Literal(l),
            Expression::Variable(n) => ExprV::Variable(n@),
            Expression::LexicalScope(v) => ExprV::LexicalScope(nodes_v(v@)),
            Expression::BlockScope(v) => ExprV::BlockScope(nodes_v(v@)),
        }
    }

    #[via_fn]
    proof fn deep_view_decreases(self) {
        match self {
            Expression::LexicalScope(v) => {
                assert(decreases_to!(self => v));
                assert(decreases_to!(v => v@));
                assert(decreases_to!(self => v@));
            },
            Expression::BlockScope(v) => {
                assert(decreases_to!(self => v));
                assert(decreases_to!(v => v@));
                assert(decreases_to!(self => v@));
            },
            _ => {},
        }
    }
}

/// The mathematical values of a statement sequence.
pub open spec fn nodes_v(s: Seq<ASTNode>) -> Seq<NodeV>
    decreases s,
{
    if s.len() == 0 {
        Seq::empty()
    } else {
        nodes_v(s.drop_last()).push(s.last().deep_view())
    }
}

/// `nodes_v` maps a statement sequence elementwise to its views.
pub proof fn lemma_nodes_v(s: Seq<ASTNode>)
    ensures
        nodes_v(s).len() == s.len(),
        forall|i: int| 0 <= i < s.len() ==> nodes_v(s)[i] == (#[trigger] s[i]).deep_view(),
    decreases s.len(),
{
    if s.len() > 0 {
        lemma_nodes_v(s.drop_last());
        assert forall|i: int| 0 <= i < s.len() implies nodes_v(s)[i] == (#[trigger] s[i]).deep_view() by {
            if i < s.len() - 1 {
                assert(s.drop_last()[i] == s[i]);
                assert(nodes_v(s)[i] == nodes_v(s.drop_last())[i]);
            } else {
                assert(s.last() == s[i]);
            }
        }
    }
}

impl ScopeTree {
    /// The mathematical value of this frame.
    pub open spec fn deep_view(self) -> FrameV {
        match self {
            ScopeTree::Root(v) => FrameV::Root(nodes_v(v@)),
            ScopeTree::Lexical(v) => FrameV::Lexical(nodes_v(v@)),
            ScopeTree::Block(v) => FrameV::Block(nodes_v(v@)),
        }
    }

    /// The statements this frame has collected.
    pub open spec fn spec_statements(self) -> Seq<ASTNode> {
        match self {
            ScopeTree::Root(v) => v@,
            ScopeTree::Lexical(v) => v@,
            ScopeTree::Block(v) => v@,
        }
    }
}

/// The mathematical values of a frame stack.
pub open spec fn frames_v(s: Seq<ScopeTree>) -> Seq<FrameV> {
    s.map_values(|f: ScopeTree| f.deep_view())
}

impl FrameV {
    /// The statements of the frame.
    pub open spec fn stmts(self) -> Seq<NodeV> {
        match self {
            FrameV::Root(s) => s,
            FrameV::Lexical(s) => s,
            FrameV::Block(s) => s,
        }
    }

    /// The frame with one more statement appended.
    pub open spec fn push_stmt(self, n: NodeV) -> FrameV {
        match self {
            FrameV::Root(s) => FrameV::Root(s.push(n)),
            FrameV::Lexical(s) => FrameV::Lexical(s.push(n)),
            FrameV::Block(s) => FrameV::Block(s.push(n)),
        }
    }

    /// Whether the frame is of the given scope kind.  Root is of no kind;
    /// Tuple and List frames do not exist.
    pub open spec fn is_kind(self, k: Scope) -> bool {
        match self {
            FrameV::Root(_) => false,
            FrameV::Lexical(_) => k == Scope::Lexical,
            FrameV::Block(_) => k == Scope::Block,
        }
    }
}

/// A fresh, empty frame of the given kind.
pub open spec fn new_frame(k: Scope) -> FrameV
    recommends
        k == Scope::Block || k == Scope::Lexical,
{
    if k == Scope::Block {
        FrameV::Block(Seq::empty())
    } else {
        FrameV::Lexical(Seq::empty())
    }
}

/// The scope expression a closed frame of kind `k` materializes into.
pub open spec fn scope_expr(k: Scope, ns: Seq<NodeV>) -> ExprV
    recommends
        k == Scope::Block || k == Scope::Lexical,
{
    if k == Scope::Block {
        ExprV::BlockScope(ns)
    } else {
        ExprV::LexicalScope(ns)
    }
}

/// A parsing failure.  `at` is the index of the offending token in the
/// token stream.
#[derive(Clone, Copy, Debug, PartialEq, Eq, Structural)]
pub enum ParseError {
    /// A token appears where the grammar forbids it.
    UnexpectedToken { at: usize },
    /// A scope delimiter does not fit the open scopes; see `ScopeError`.
    Scope { err: ScopeError, at: usize },
    /// The input ended while scopes other than Root were still open.
    UnbalancedScope,
}

/// A scope stack failure.
#[derive(Clone, Copy, Debug, PartialEq, Eq, Structural)]
pub enum ScopeError {
    /// A closing delimiter's kind differs from the open frame's kind.
    ScopeMismatch,
    /// A closing delimiter appears with no open frame beyond Root.
    NoOpenScope,
}

/// The token at index `i` of the stream; past its end, end-of-input.
pub open spec fn tok_v_at(ts: Seq<TokenV>, i: int) -> TokenV {
    if 0 <= i < ts.len() {
        ts[i]
    } else {
        TokenV::EOF
    }
}

/// A primary expression at token position `pos`: a variable, a literal, or a
/// unary operator applied to the next variable or literal.  Returns the
/// expression and the position just past it.
pub open spec fn spec_parse_primary(ts: Seq<TokenV>, pos: int) -> Result<
    (ExprV, int),
    ParseError,
> {
    match tok_v_at(ts, pos) {
        TokenV::Ident(name) => Ok((ExprV::Variable(name), pos + 1)),
        TokenV::Lit(l) => Ok((ExprV::Literal(l), pos + 1)),
        TokenV::UnaryOp(op) => match tok_v_at(ts, pos + 1) {
            TokenV::Ident(name) => Ok(
                (
                    ExprV::Unary { expression: Box::new(ExprV::Variable(name)), operator: op },
                    pos + 2,
                ),
            ),
            TokenV::Lit(l) => Ok(
                (ExprV::Unary { expression: Box::new(ExprV::Literal(l)), operator: op }, pos + 2),
            ),
            _ => Err(ParseError::UnexpectedToken { at: (pos + 1) as usize }),
        },
        _ => Err(ParseError::UnexpectedToken { at: pos as usize }),
    }
}

/// A chain of binary operators folded strictly left to right: `lhs op e1 op2
/// e2 ...`, where each further operator wraps the expression built so far as
/// its left operand.  `pos` stands at the first token after `op`.
pub open spec fn spec_parse_binary(ts: Seq<TokenV>, pos: int, op: BinaryOperator, lhs: ExprV) -> Result<
    (ExprV, int),
    ParseError,
>
    decreases ts.len() - pos,
{
    match spec_parse_primary(ts, pos) {
        Err(e) => Err(e),
        Ok((rhs, p)) => {
            let rv = ExprV::Binary { lhs: Box::new(lhs), operator: op, rhs: Box::new(rhs) };
            match tok_v_at(ts, p) {
                TokenV::BinaryOp(op2) => spec_parse_binary(ts, p + 1, op2, rv),
                TokenV::NewLine => Ok((rv, p)),
                TokenV::EOF => Ok((rv, p)),
                _ => Err(ParseError::UnexpectedToken { at: p as usize }),
            }
        },
    }
}

/// One expression at token position `pos`: a primary expression, continued
/// as a binary chain when a binary operator follows and `allow_chain` is
/// set.  The expression ends before a newline, a binary operator when
/// `allow_chain` is not set, or end-of-input; anything else is a syntax
/// error.
pub open spec fn spec_parse_expression(ts: Seq<TokenV>, pos: int, allow_chain: bool) -> Result<
    (ExprV, int),
    ParseError,
> {
    match spec_parse_primary(ts, pos) {
        Err(e) => Err(e),
        Ok((prim, p)) => match tok_v_at(ts, p) {
            TokenV::BinaryOp(op) => if allow_chain {
                spec_parse_binary(ts, p + 1, op, prim)
            } else {
                Ok((prim, p))
            },
            TokenV::NewLine => Ok((prim, p)),
            TokenV::EOF => Ok((prim, p)),
            _ => Err(ParseError::UnexpectedToken { at: p as usize }),
        },
    }
}

/// One statement at token position `pos`, against the given frame stack.
/// `Ok((Some(n), p, st))` is a parsed statement with the position and stack
/// after it; `Ok((None, p, st))` is normal termination at end-of-input.
/// Leading newlines are skipped.  An opening delimiter pushes a frame; a
/// closing delimiter pops the matching frame and materializes it into a
/// scope expression, which is the statement's value.
pub open spec fn spec_parse_statement(ts: Seq<TokenV>, pos: int, stack: Seq<FrameV>) -> Result<
    (Option<NodeV>, int, Seq<FrameV>),
    ParseError,
>
    decreases ts.len() - pos,
{
    match tok_v_at(ts, pos) {
        TokenV::NewLine => spec_parse_statement(ts, pos + 1, stack),
        TokenV::EOF => Ok((None, pos, stack)),
        TokenV::Ident(_) => match spec_parse_expression(ts, pos, true) {
            Ok((e, p)) => Ok((Some(NodeV::Expr(e)), p, stack)),
            Err(er) => Err(er),
        },
        TokenV::Lit(_) => match spec_parse_expression(ts, pos, true) {
            Ok((e, p)) => Ok((Some(NodeV::Expr(e)), p, stack)),
            Err(er) => Err(er),
        },
        TokenV::UnaryOp(_) => match spec_parse_expression(ts, pos, true) {
            Ok((e, p)) => Ok((Some(NodeV::Expr(e)), p, stack)),
            Err(er) => Err(er),
        },
        TokenV::Surr(Surround::Open(k)) => if k == Scope::Block || k == Scope::Lexical {
            spec_parse_statement(ts, pos + 1, stack.push(new_frame(k)))
        } else {
            Err(ParseError::UnexpectedToken { at: pos as usize })
        },
        TokenV::Surr(Surround::Close(k)) => if stack.len() <= 1 {
            Err(ParseError::Scope { err: ScopeError::NoOpenScope, at: pos as usize })
        } else if stack.last().is_kind(k) {
            Ok(
                (
                    Some(NodeV::Expr(scope_expr(k, stack.last().stmts()))),
                    pos + 1,
                    stack.drop_last(),
                ),
            )
        } else {
            Err(ParseError::Scope { err: ScopeError::ScopeMismatch, at: pos as usize })
        },
        TokenV::Let => match tok_v_at(ts, pos + 1) {
            TokenV::Ident(name) => match tok_v_at(ts, pos + 2) {
                TokenV::Assign => match spec_parse_expression(ts, pos + 3, true) {
                    Ok((e, p)) => Ok(
                        (Some(NodeV::Decl(DeclV::Variable { name, expression: e })), p, stack),
                    ),
                    Err(er) => Err(er),
                },
                _ => Err(ParseError::UnexpectedToken { at: (pos + 2) as usize }),
            },
            _ => Err(ParseError::UnexpectedToken { at: (pos + 1) as usize }),
        },
        _ => Err(ParseError::UnexpectedToken { at: pos as usize }),
    }
}

/// A primary expression occupies one or two tokens inside the stream.
pub proof fn lemma_primary_advances(ts: Seq<TokenV>, pos: int)
    ensures
        match spec_parse_primary(ts, pos) {
            Ok((e, p)) => 0 <= pos && pos + 1 <= p <= ts.len(),
            Err(_) => true,
        },
{
}

/// A binary chain ends strictly after the position it starts at, inside the
/// stream.
pub proof fn lemma_binary_advances(ts: Seq<TokenV>, pos: int, op: BinaryOperator, lhs: ExprV)
    ensures
        match spec_parse_binary(ts, pos, op, lhs) {
            Ok((e, p)) => 0 <= pos && pos < p <= ts.len(),
            Err(_) => true,
        },
    decreases ts.len() - pos,
{
    lemma_primary_advances(ts, pos);
    match spec_parse_primary(ts, pos) {
        Ok((rhs, p)) => {
            let rv = ExprV::Binary { lhs: Box::new(lhs), operator: op, rhs: Box::new(rhs) };
            match tok_v_at(ts, p) {
                TokenV::BinaryOp(op2) => {
                    lemma_binary_advances(ts, p + 1, op2, rv);
                },
                _ => {},
            }
        },
        Err(_) => {},
    }
}

/// An expression ends strictly after the position it starts at, inside the
/// stream.
pub proof fn lemma_expression_advances(ts: Seq<TokenV>, pos: int, allow_chain: bool)
    ensures
        match spec_parse_expression(ts, pos, allow_chain) {
            Ok((e, p)) => 0 <= pos && pos < p <= ts.len(),
            Err(_) => true,
        },
{
    lemma_primary_advances(ts, pos);
    match spec_parse_primary(ts, pos) {
        Ok((prim, p)) => {
            match tok_v_at(ts, p) {
                TokenV::BinaryOp(op) => {
                    if allow_chain {
                        lemma_binary_advances(ts, p + 1, op, prim);
                    }
                },
                _ => {},
            }
        },
        Err(_) => {},
    }
}

/// A parsed statement ends strictly after the position it starts at, inside
/// the stream, and leaves the frame stack non-empty; normal termination
/// stays in place up to newline skipping.
pub proof fn lemma_statement_advances(ts: Seq<TokenV>, pos: int, stack: Seq<FrameV>)
    requires
        0 <= pos <= ts.len(),
        stack.len() >= 1,
    ensures
        match spec_parse_statement(ts, pos, stack) {
            Ok((n, p, st)) => pos <= p <= ts.len() && st.len() >= 1 && (n is Some ==> pos < p),
            Err(_) => true,
        },
    decreases ts.len() - pos,
{
    match tok_v_at(ts, pos) {
        TokenV::NewLine => {
            lemma_statement_advances(ts, pos + 1, stack);
        },
        TokenV::Ident(_) => {
            lemma_expression_advances(ts, pos, true);
        },
        TokenV::Lit(_) => {
            lemma_expression_advances(ts, pos, true);
        },
        TokenV::UnaryOp(_) => {
            lemma_expression_advances(ts, pos, true);
        },
        TokenV::Surr(Surround::Open(k)) => {
            if k == Scope::Block || k == Scope::Lexical {
                lemma_statement_advances(ts, pos + 1, stack.push(new_frame(k)));
            }
        },
        TokenV::Let => {
            lemma_expression_advances(ts, pos + 3, true);
        },
        _ => {},
    }
}

/// The driving loop: statements are parsed one after the other, each
/// appended to the frame on top of the stack, until end-of-input or the
/// first failure.  On success the result is the final frame stack; reaching
/// end-of-input with frames other than Root still open is an error.
pub open spec fn spec_run(ts: Seq<TokenV>, pos: int, stack: Seq<FrameV>) -> Result<
    Seq<FrameV>,
    ParseError,
>
    decreases ts.len() - pos,
    when 0 <= pos <= ts.len() && stack.len() >= 1
    via spec_run_decreases
{
    match spec_parse_statement(ts, pos, stack) {
        Err(e) => Err(e),
        Ok((None, p, st)) => if st.len() == 1 {
            Ok(st)
        } else {
            Err(ParseError::UnbalancedScope)
        },
        Ok((Some(n), p, st)) => spec_run(ts, p, st.drop_last().push(st.last().push_stmt(n))),
    }
}

#[via_fn]
proof fn spec_run_decreases(ts: Seq<TokenV>, pos: int, stack: Seq<FrameV>) {
    if 0 <= pos <= ts.len() && stack.len() >= 1 {
        lemma_statement_advances(ts, pos, stack);
    }
}

/// A well-formed frame stack: Root at the bottom and nowhere else.
pub open spec fn stack_wf(stack: Seq<FrameV>) -> bool {
    stack.len() >= 1 && stack[0] is Root && forall|i: int|
        1 <= i < stack.len() ==> !((#[trigger] stack[i]) is Root)
}

/// Statement parsing preserves stack well-formedness.
pub proof fn lemma_statement_stack_wf(ts: Seq<TokenV>, pos: int, stack: Seq<FrameV>)
    requires
        0 <= pos <= ts.len(),
        stack_wf(stack),
    ensures
        match spec_parse_statement(ts, pos, stack) {
            Ok((n, p, st)) => stack_wf(st),
            Err(_) => true,
        },
    decreases ts.len() - pos,
{
    match tok_v_at(ts, pos) {
        TokenV::NewLine => {
            lemma_statement_stack_wf(ts, pos + 1, stack);
        },
        TokenV::Surr(Surround::Open(k)) => {
            if k == Scope::Block || k == Scope::Lexical {
                assert(stack_wf(stack.push(new_frame(k))));
                lemma_statement_stack_wf(ts, pos + 1, stack.push(new_frame(k)));
            }
        },
        TokenV::Surr(Surround::Close(k)) => {
            if stack.len() > 1 && stack.last().is_kind(k) {
                assert(stack_wf(stack.drop_last()));
            }
        },
        _ => {},
    }
}

/// For all well-formed inputs whose scope delimiters balance with matching
/// kinds, parsing terminates with an empty scope stack above Root: whenever
/// the run succeeds, the final stack is exactly the Root frame.
pub proof fn lemma_run_success_root_only(ts: Seq<TokenV>, pos: int, stack: Seq<FrameV>)
    requires
        0 <= pos <= ts.len(),
        stack_wf(stack),
    ensures
        match spec_run(ts, pos, stack) {
            Ok(st) => st.len() == 1 && st[0] is Root,
            Err(_) => true,
        },
    decreases ts.len() - pos,
{
    lemma_statement_advances(ts, pos, stack);
    lemma_statement_stack_wf(ts, pos, stack);
    match spec_parse_statement(ts, pos, stack) {
        Ok((n, p, st)) => {
            match n {
                Some(node) => {
                    let st2 = st.drop_last().push(st.last().push_stmt(node));
                    assert(stack_wf(st2)) by {
                        assert(st2.len() == st.len());
                        assert(st2[0] == if st.len() == 1 {
                            st.last().push_stmt(node)
                        } else {
                            st[0]
                        });
                        assert forall|i: int| 1 <= i < st2.len() implies !((#[trigger] st2[i])
                            is Root) by {
                            if i < st.len() - 1 {
                                assert(st2[i] == st[i]);
                            } else {
                                assert(st2[i] == st.last().push_stmt(node));
                            }
                        }
                    }
                    lemma_run_success_root_only(ts, p, st2);
                },
                None => {},
            }
        },
        Err(_) => {},
    }
}

/// A matching closing delimiter materializes the innermost open frame into
/// a scope expression holding exactly the statements the frame collected, in
/// the order they were appended, and uncovers the enclosing frame.
pub proof fn lemma_close_materializes_frame(ts: Seq<TokenV>, pos: int, stack: Seq<FrameV>, k: Scope)
    requires
        stack.len() > 1,
        tok_v_at(ts, pos) == TokenV::Surr(Surround::Close(k)),
        stack.last().is_kind(k),
    ensures
        spec_parse_statement(ts, pos, stack) == Ok::<(Option<NodeV>, int, Seq<FrameV>), ParseError>(
            (
                Some(NodeV::Expr(scope_expr(k, stack.last().stmts()))),
                pos + 1,
                stack.drop_last(),
            ),
        ),
{
}

/// Binary chains fold flat, strictly left to right: each operator wraps the
/// expression built so far as its left operand, so the right operand of the
/// resulting expression is never itself a binary node.
pub proof fn lemma_binary_fold_is_flat(ts: Seq<TokenV>, pos: int, op: BinaryOperator, lhs: ExprV)
    ensures
        match spec_parse_binary(ts, pos, op, lhs) {
            Ok((e, p)) => e matches ExprV::Binary { lhs: _, operator: _, rhs } && !((*rhs)
                is Binary),
            Err(_) => true,
        },
    decreases ts.len() - pos,
{
    match spec_parse_primary(ts, pos) {
        Ok((rhs, p)) => {
            let rv = ExprV::Binary { lhs: Box::new(lhs), operator: op, rhs: Box::new(rhs) };
            match tok_v_at(ts, p) {
                TokenV::BinaryOp(op2) => {
                    lemma_binary_fold_is_flat(ts, p + 1, op2, rv);
                },
                _ => {},
            }
        },
        Err(_) => {},
    }
}

/// For any input where the statement parser stands at a closing delimiter
/// whose kind differs from the innermost open frame's kind, parsing fails
/// with a scope mismatch at that closer's position.
pub proof fn lemma_scope_mismatch_fails(ts: Seq<TokenV>, pos: int, stack: Seq<FrameV>, k: Scope)
    requires
        stack.len() > 1,
        tok_v_at(ts, pos) == TokenV::Surr(Surround::Close(k)),
        !stack.last().is_kind(k),
    ensures
        spec_parse_statement(ts, pos, stack) == Err::<(Option<NodeV>, int, Seq<FrameV>), ParseError>(
            ParseError::Scope { err: ScopeError::ScopeMismatch, at: pos as usize },
        ),
{
}

/// Appending a statement appends its view.
pub proof fn lemma_nodes_v_push(s: Seq<ASTNode>, n: ASTNode)
    ensures
        nodes_v(s.push(n)) == nodes_v(s).push(n.deep_view()),
{
    assert(s.push(n).drop_last() =~= s);
    assert(s.push(n).last() == n);
}

impl Expression {
    /// The scope expression a closed frame of kind `scope` materializes
    /// into, owning the statements the frame collected.  Only block and
    /// lexical scopes are materialized.
    pub fn from_scope(scope: Scope, statements: Vec<ASTNode>) -> (r: Self)
        requires
            scope == Scope::Block || scope == Scope::Lexical,
        ensures
            r.deep_view() == scope_expr(scope, nodes_v(statements@)),
    {
        match scope {
            Scope::Block => Self::BlockScope(statements),
            Scope::Lexical => Self::LexicalScope(statements),
            _ => vstd::pervasive::unreached(),
        }
    }
}

impl ScopeTree {
    /// A fresh, empty frame of the given kind.  Only block and lexical
    /// frames are ever created; the Root frame exists from construction.
    pub fn new(scope_type: Scope) -> (r: Self)
        requires
            scope_type == Scope::Block || scope_type == Scope::Lexical,
        ensures
            r.deep_view() == new_frame(scope_type),
            r.spec_statements() == Seq::<ASTNode>::empty(),
    {
        match scope_type {
            Scope::Block => Self::Block(Vec::new()),
            Scope::Lexical => Self::Lexical(Vec::new()),
            _ => vstd::pervasive::unreached(),
        }
    }

    /// A copy of the statements this frame has collected, in the order they
    /// were appended.
    pub fn statements(&self) -> (r: Vec<ASTNode>)
        ensures
            nodes_v(r@) == self.deep_view().stmts(),
            r@.len() == self.spec_statements().len(),
    {
        match self {
            Self::Block(statements) => dup_nodes(statements),
            Self::Lexical(statements) => dup_nodes(statements),
            Self::Root(statements) => dup_nodes(statements),
        }
    }

    /// Appends a statement to the frame, keeping its kind and the order of
    /// what was collected before.
    pub fn push(&mut self, node: ASTNode)
        ensures
            final(self).spec_statements() == old(self).spec_statements().push(node),
            final(self).deep_view() == old(self).deep_view().push_stmt(node.deep_view()),
    {
        proof {
            lemma_nodes_v_push(self.spec_statements(), node);
        }
        match self {
            Self::Root(statements) => statements.push(node),
            Self::Lexical(statements) => statements.push(node),
            Self::Block(statements) => statements.push(node),
        }
    }

    /// Whether this frame is of the given scope kind.  The Root frame is of
    /// no kind.
    pub fn is_scope(&self, compare: Scope) -> (r: bool)
        ensures
            r == self.deep_view().is_kind(compare),
    {
        match self {
            Self::Block(_) => compare == Scope::Block,
            Self::Lexical(_) => compare == Scope::Lexical,
            Self::Root(_) => false,
        }
    }
}

impl ASTNode {
    /// A copy of this statement with an equal mathematical value.
    pub fn dup(&self) -> (r: ASTNode)
        ensures
            r.deep_view() == self.deep_view(),
        decreases self,
    {
        match self {
            ASTNode::Expr(e) => ASTNode::Expr(e.dup()),
            ASTNode::Decl(d) => ASTNode::Decl(d.dup()),
        }
    }
}

impl Declaration {
    /// A copy of this declaration with an equal mathematical value.
    pub fn dup(&self) -> (r: Declaration)
        ensures
            r.deep_view() == self.deep_view(),
        decreases self,
    {
        match self {
            Declaration::Variable { name, expression } => Declaration::Variable {
                name: name.clone(),
                expression: expression.dup(),
            },
        }
    }
}

impl Expression {
    /// A copy of this expression with an equal mathematical value.
    pub fn dup(&self) -> (r: Expression)
        ensures
            r.deep_view() == self.deep_view(),
        decreases self,
    {
        match self {
            Expression::Unary { expression, operator } => Expression::Unary {
                expression: Box::new(expression.dup()),
                operator: *operator,
            },
            Expression::Binary { lhs, operator, rhs } => Expression::Binary {
                lhs: Box::new(lhs.dup()),
                operator: *operator,
                rhs: Box::new(rhs.dup()),
            },
            Expression::Literal(l) => Expression::Literal(*l),
            Expression::Variable(n) => Expression::Variable(n.clone()),
            Expression::LexicalScope(v) => {
                proof {
                    assert(decreases_to!(*self => *v));
                    assert(decreases_to!(*v => v@));
                }
                Expression::LexicalScope(dup_nodes(v))
            },
            Expression::BlockScope(v) => {
                proof {
                    assert(decreases_to!(*self => *v));
                    assert(decreases_to!(*v => v@));
                }
                Expression::BlockScope(dup_nodes(v))
            },
        }
    }
}

/// A copy of a statement vector whose elements have equal mathematical
/// values, in the same order.
pub fn dup_nodes(v: &Vec<ASTNode>) -> (r: Vec<ASTNode>)
    ensures
        nodes_v(r@) == nodes_v(v@),
        r@.len() == v@.len(),
    decreases v@,
{
    let ghost s = v@;
    let mut out: Vec<ASTNode> = Vec::new();
    let mut k: usize = 0;
    while k < v.len()
        invariant
            s == v@,
            k <= s.len(),
            out@.len() == k as int,
            forall|j: int| 0 <= j < k ==> (#[trigger] out@[j]).deep_view() == s[j].deep_view(),
        decreases s.len() - k,
    {
        proof {
            assert(decreases_to!(v@ => v@[k as int]));
        }
        let d = v[k].dup();
        out.push(d);
        k = k + 1;
    }
    proof {
        lemma_nodes_v(out@);
        lemma_nodes_v(v@);
        assert forall|j: int| 0 <= j < v@.len() implies nodes_v(out@)[j] == nodes_v(v@)[j] by {
            assert(nodes_v(out@)[j] == out@[j].deep_view());
            assert(nodes_v(v@)[j] == v@[j].deep_view());
        }
        assert(nodes_v(out@) =~= nodes_v(v@));
    }
    out
}

impl Default for ScopeTree {
    /// The implicit outermost frame: an empty Root.
    fn default() -> (r: Self)
        ensures
            r.deep_view() == FrameV::Root(Seq::<NodeV>::empty()),
            r.spec_statements() == Seq::<ASTNode>::empty(),
    {
        Self::Root(Vec::new())
    }
}

/// The view of an optional statement.
pub open spec fn opt_node_v(o: Option<ASTNode>) -> Option<NodeV> {
    match o {
        Some(n) => Some(n.deep_view()),
        None => None,
    }
}

/// `frames_v` maps a frame stack elementwise to its views.
pub proof fn lemma_frames_v(s: Seq<ScopeTree>)
    ensures
        frames_v(s).len() == s.len(),
        forall|i: int| 0 <= i < s.len() ==> frames_v(s)[i] == (#[trigger] s[i]).deep_view(),
{
}

/// Pushing a frame pushes its view.
pub proof fn lemma_frames_v_push(s: Seq<ScopeTree>, f: ScopeTree)
    ensures
        frames_v(s.push(f)) == frames_v(s).push(f.deep_view()),
{
    lemma_frames_v(s);
    lemma_frames_v(s.push(f));
    assert(frames_v(s.push(f)) =~= frames_v(s).push(f.deep_view()));
}

/// Dropping the last frame drops its view.
pub proof fn lemma_frames_v_drop(s: Seq<ScopeTree>)
    requires
        s.len() > 0,
    ensures
        frames_v(s.drop_last()) == frames_v(s).drop_last(),
{
    lemma_frames_v(s);
    lemma_frames_v(s.drop_last());
    assert(frames_v(s.drop_last()) =~= frames_v(s).drop_last());
}

/// The recursive-descent parser: the current token, one token of lookahead
/// through the stream, and the stack of open scope frames.
pub struct Parser {
    position: usize,
    length: usize,
    input: Vec<Token>,
    token: Token,
    scope_stack: Vec<ScopeTree>,
}

impl Parser {
    /// The views of the tokens the parser consumes.
    pub closed spec fn toks(self) -> Seq<TokenV> {
        toks_v(self.input@)
    }

    /// The index of the current token.
    pub closed spec fn pos(self) -> int {
        self.position as int
    }

    /// The views of the open scope frames, bottom first.
    pub closed spec fn frames(self) -> Seq<FrameV> {
        frames_v(self.scope_stack@)
    }

    /// The parser's invariant: the position stays within the stream, the
    /// cached current token agrees with the stream, and the frame stack is
    /// never empty, with Root at the bottom and nowhere else.
    pub closed spec fn wf(self) -> bool {
        &&& self.position <= self.input@.len()
        &&& self.length == self.input@.len()
        &&& self.token.deep_view() == tok_v_at(self.toks(), self.pos())
        &&& stack_wf(self.frames())
    }

    /// A parser over the given token stream, positioned at its first token,
    /// with the Root frame as the only open scope.
    pub fn new(input: Vec<Token>) -> (r: Parser)
        ensures
            r.wf(),
            r.toks() == toks_v(input@),
            r.pos() == 0,
            r.frames() == seq![FrameV::Root(Seq::<NodeV>::empty())],
    {
        let length = input.len();
        let token = if length > 0 {
            input[0].dup()
        } else {
            Token::EOF
        };
        let mut scope_stack: Vec<ScopeTree> = Vec::new();
        scope_stack.push(ScopeTree::default());
        let r = Parser { position: 0, length, input, token, scope_stack };
        proof {
            assert(r.frames() =~= seq![FrameV::Root(Seq::<NodeV>::empty())]);
            assert(r.toks().len() == r.input@.len());
            if r.input@.len() > 0 {
                assert(r.toks()[0] == r.input@[0].deep_view());
            }
        }
        r
    }

    /// Advances to the next token.  At the end of the stream the parser
    /// stays put, with end-of-input as its current token.
    fn next_token(&mut self)
        requires
            old(self).wf(),
        ensures
            final(self).wf(),
            final(self).toks() == old(self).toks(),
            final(self).frames() == old(self).frames(),
            final(self).pos() == if old(self).pos() < old(self).toks().len() {
                old(self).pos() + 1
            } else {
                old(self).pos()
            },
    {
        if self.position < self.length {
            self.position = self.position + 1;
        }
        if self.position < self.length {
            let t = self.input[self.position].dup();
            proof {
                assert(self.toks()[self.position as int] == self.input@[
                    self.position as int
                ].deep_view());
            }
            self.token = t;
        } else {
            self.token = Token::EOF;
        }
    }

    /// The variable or literal after the current token, as an expression.
    /// Used for the operand of a unary operator.
    fn next_value(&mut self) -> (r: Result<Expression, ParseError>)
        requires
            old(self).wf(),
            old(self).pos() < old(self).toks().len(),
        ensures
            final(self).wf(),
            final(self).toks() == old(self).toks(),
            final(self).frames() == old(self).frames(),
            match tok_v_at(old(self).toks(), old(self).pos() + 1) {
                TokenV::Ident(name) => r matches Ok(e) && e.deep_view() == ExprV::Variable(name)
                    && final(self).pos() == old(self).pos() + 1,
                TokenV::Lit(l) => r matches Ok(e) && e.deep_view() == ExprV::Literal(l)
                    && final(self).pos() == old(self).pos() + 1,
                _ => r == Err::<Expression, ParseError>(
                    ParseError::UnexpectedToken { at: (old(self).pos() + 1) as usize },
                ),
            },
    {
        self.next_token();
        match &self.token {
            Token::Ident(name) => Ok(Expression::Variable(name.clone())),
            Token::Lit(l) => Ok(Expression::Literal(*l)),
            _ => Err(ParseError::UnexpectedToken { at: self.position }),
        }
    }

    /// One expression starting at the current token: a primary expression,
    /// continued as a left-folded binary chain when a binary operator
    /// follows and `check_binary` is set.
    fn parse_expression(&mut self, check_binary: bool) -> (r: Result<Expression, ParseError>)
        requires
            old(self).wf(),
        ensures
            final(self).wf(),
            final(self).toks() == old(self).toks(),
            final(self).frames() == old(self).frames(),
            match spec_parse_expression(old(self).toks(), old(self).pos(), check_binary) {
                Ok((e, p)) => r matches Ok(expr) && expr.deep_view() == e && final(self).pos()
                    == p,
                Err(er) => r matches Err(e2) && e2 == er,
            },
        decreases old(self).toks().len() - old(self).pos(), 0int,
    {
        let ghost ts = self.toks();
        let ghost pos0 = self.pos();
        let prim: Expression = match &self.token {
            Token::Ident(name) => Expression::Variable(name.clone()),
            Token::Lit(l) => Expression::Literal(*l),
            Token::UnaryOp(op) => {
                let op = *op;
                match self.next_value() {
                    Ok(v) => Expression::Unary { expression: Box::new(v), operator: op },
                    Err(e) => {
                        return Err(e);
                    },
                }
            },
            _ => {
                return Err(ParseError::UnexpectedToken { at: self.position });
            },
        };
        self.next_token();
        let ghost p = self.pos();
        proof {
            lemma_primary_advances(ts, pos0);
        }
        match &self.token {
            Token::BinaryOp(op) => {
                if check_binary {
                    let op = *op;
                    self.next_token();
                    self.parse_binary_expression(op, prim)
                } else {
                    Ok(prim)
                }
            },
            Token::NewLine => Ok(prim),
            Token::EOF => Ok(prim),
            _ => Err(ParseError::UnexpectedToken { at: self.position }),
        }
    }

    /// A chain of binary operators folded strictly left to right: each
    /// further operator wraps the expression built so far as its left
    /// operand.  There is no precedence distinction between operators.
    fn parse_binary_expression(&mut self, operator: BinaryOperator, lhs: Expression) -> (r: Result<
        Expression,
        ParseError,
    >)
        requires
            old(self).wf(),
        ensures
            final(self).wf(),
            final(self).toks() == old(self).toks(),
            final(self).frames() == old(self).frames(),
            match spec_parse_binary(
                old(self).toks(),
                old(self).pos(),
                operator,
                lhs.deep_view(),
            ) {
                Ok((e, p)) => r matches Ok(expr) && expr.deep_view() == e && final(self).pos()
                    == p,
                Err(er) => r matches Err(e2) && e2 == er,
            },
        decreases old(self).toks().len() - old(self).pos(), 1int,
    {
        let ghost ts = self.toks();
        let ghost pos0 = self.pos();
        proof {
            lemma_expression_advances(ts, pos0, false);
        }
        let rhs = match self.parse_expression(false) {
            Ok(e) => e,
            Err(e) => {
                return Err(e);
            },
        };
        let rv = Expression::Binary { lhs: Box::new(lhs), operator, rhs: Box::new(rhs) };
        match &self.token {
            Token::BinaryOp(op2) => {
                let op2 = *op2;
                self.next_token();
                self.parse_binary_expression(op2, rv)
            },
            Token::NewLine => Ok(rv),
            Token::EOF => Ok(rv),
            _ => Err(ParseError::UnexpectedToken { at: self.position }),
        }
    }

    /// One statement starting at the current token, after skipping leading
    /// newlines: an expression statement, a declaration, an opening
    /// delimiter (which pushes a scope frame and re-enters), or a closing
    /// delimiter (which pops the matching frame and materializes it into a
    /// scope expression).  `Ok(None)` signals normal termination at
    /// end-of-input.
    pub fn parse_statement(&mut self) -> (r: Result<Option<ASTNode>, ParseError>)
        requires
            old(self).wf(),
        ensures
            final(self).wf(),
            final(self).toks() == old(self).toks(),
            match spec_parse_statement(old(self).toks(), old(self).pos(), old(self).frames()) {
                Ok((n, p, st)) => r matches Ok(node) && opt_node_v(node) == n && final(self).pos()
                    == p && final(self).frames() == st,
                Err(er) => r matches Err(e2) && e2 == er,
            },
        decreases old(self).toks().len() - old(self).pos(),
    {
        let ghost ts = self.toks();
        let ghost pos0 = self.pos();
        let ghost st0 = self.frames();
        match &self.token {
            Token::NewLine => {
                self.next_token();
                self.parse_statement()
            },
            Token::EOF => Ok(None),
            Token::Ident(_) => match self.parse_expression(true) {
                Ok(e) => Ok(Some(ASTNode::Expr(e))),
                Err(er) => Err(er),
            },
            Token::Lit(_) => match self.parse_expression(true) {
                Ok(e) => Ok(Some(ASTNode::Expr(e))),
                Err(er) => Err(er),
            },
            Token::UnaryOp(_) => match self.parse_expression(true) {
                Ok(e) => Ok(Some(ASTNode::Expr(e))),
                Err(er) => Err(er),
            },
            Token::Surr(Surround::Open(k)) => {
                let k = *k;
                if k == Scope::Block || k == Scope::Lexical {
                    let frame = ScopeTree::new(k);
                    proof {
                        lemma_frames_v_push(self.scope_stack@, frame);
                    }
                    self.scope_stack.push(frame);
                    proof {
                        assert(self.frames() == st0.push(new_frame(k)));
                        assert(stack_wf(self.frames()));
                    }
                    self.next_token();
                    self.parse_statement()
                } else {
                    Err(ParseError::UnexpectedToken { at: self.position })
                }
            },
            Token::Surr(Surround::Close(k)) => {
                let k = *k;
                if self.scope_stack.len() <= 1 {
                    Err(ParseError::Scope { err: ScopeError::NoOpenScope, at: self.position })
                } else {
                    proof {
                        lemma_frames_v(self.scope_stack@);
                        lemma_frames_v_drop(self.scope_stack@);
                    }
                    let frame = match self.scope_stack.pop() {
                        Some(f) => f,
                        None => vstd::pervasive::unreached(),
                    };
                    proof {
                        assert(frame.deep_view() == st0.last());
                        assert(self.frames() == st0.drop_last());
                        assert(stack_wf(self.frames()));
                    }
                    if frame.is_scope(k) {
                        let stmts = match frame {
                            ScopeTree::Root(v) => v,
                            ScopeTree::Lexical(v) => v,
                            ScopeTree::Block(v) => v,
                        };
                        self.next_token();
                        Ok(Some(ASTNode::Expr(Expression::from_scope(k, stmts))))
                    } else {
                        Err(
                            ParseError::Scope {
                                err: ScopeError::ScopeMismatch,
                                at: self.position,
                            },
                        )
                    }
                }
            },
            Token::Let => {
                self.next_token();
                let name = match &self.token {
                    Token::Ident(n) => n.clone(),
                    _ => {
                        return Err(ParseError::UnexpectedToken { at: self.position });
                    },
                };
                self.next_token();
                match &self.token {
                    Token::Assign => {},
                    _ => {
                        return Err(ParseError::UnexpectedToken { at: self.position });
                    },
                }
                self.next_token();
                match self.parse_expression(true) {
                    Ok(e) => Ok(Some(ASTNode::Decl(Declaration::Variable { name, expression: e }))),
                    Err(er) => Err(er),
                }
            },
            _ => Err(ParseError::UnexpectedToken { at: self.position }),
        }
    }

    /// The driving loop: parses statements one after the other, appending
    /// each to the frame on top of the stack, until end-of-input or the
    /// first failure.  On success the result is the ordered sequence of the
    /// program's top-level statements; end-of-input with scopes other than
    /// Root still open is an error.
    pub fn lfg(self) -> (r: Result<Vec<ASTNode>, ParseError>)
        requires
            self.wf(),
        ensures
            match spec_run(self.toks(), self.pos(), self.frames()) {
                Ok(st) => r matches Ok(ns) && st.len() == 1 && nodes_v(ns@) == st[0].stmts(),
                Err(e) => r == Err::<Vec<ASTNode>, ParseError>(e),
            },
    {
        let ghost ts = self.toks();
        let ghost target = spec_run(self.toks(), self.pos(), self.frames());
        let mut this = self;
        loop
            invariant
                this.wf(),
                this.toks() == ts,
                ts == self.toks(),
                target == spec_run(self.toks(), self.pos(), self.frames()),
                spec_run(ts, this.pos(), this.frames()) == target,
            decreases ts.len() - this.pos(),
        {
            let ghost pos_here = this.pos();
            let ghost st_here = this.frames();
            proof {
                lemma_statement_advances(ts, pos_here, st_here);
            }
            let step = this.parse_statement();
            match step {
                Err(e) => {
                    return Err(e);
                },
                Ok(None) => {
                    if this.scope_stack.len() == 1 {
                        proof {
                            lemma_frames_v(this.scope_stack@);
                        }
                        let frame = match this.scope_stack.pop() {
                            Some(f) => f,
                            None => vstd::pervasive::unreached(),
                        };
                        let stmts = match frame {
                            ScopeTree::Root(v) => v,
                            ScopeTree::Lexical(v) => v,
                            ScopeTree::Block(v) => v,
                        };
                        return Ok(stmts);
                    } else {
                        return Err(ParseError::UnbalancedScope);
                    }
                },
                Ok(Some(node)) => {
                    let ghost st_after = this.frames();
                    proof {
                        lemma_frames_v(this.scope_stack@);
                        lemma_frames_v_drop(this.scope_stack@);
                    }
                    let mut top = match this.scope_stack.pop() {
                        Some(f) => f,
                        None => vstd::pervasive::unreached(),
                    };
                    top.push(node);
                    proof {
                        lemma_frames_v_push(this.scope_stack@, top);
                    }
                    this.scope_stack.push(top);
                    proof {
                        assert(this.frames() == st_after.drop_last().push(
                            st_after.last().push_stmt(node.deep_view()),
                        ));
                        assert(stack_wf(this.frames())) by {
                            let st2 = this.frames();
                            assert(st2.len() == st_after.len());
                            assert forall|i: int| 1 <= i < st2.len() implies !((
                            #[trigger] st2[i]) is Root) by {
                                if i < st_after.len() - 1 {
                                    assert(st2[i] == st_after[i]);
                                } else {
                                    assert(st2[i] == st_after.last().push_stmt(node.deep_view()));
                                }
                            }
                            if st_after.len() == 1 {
                                assert(st2[0] == st_after.last().push_stmt(node.deep_view()));
                            } else {
                                assert(st2[0] == st_after[0]);
                            }
                        }
                    }
                },
            }
        }
    }
}

} // verus!
