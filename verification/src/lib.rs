//! A verified front end for a small expression-oriented language: a
//! tokenizer and a recursive-descent parser with explicit scope tracking.
//!
//! The tokenizer turns source text into a stream of tokens; the parser turns
//! the token stream into a sequence of abstract-syntax-tree nodes, tracking
//! nested block and lexical scopes on an explicit stack.  Both are verified
//! against spec-level definitions of the grammar.
use vstd::prelude::*;

pub mod ast;
pub mod lexer;

use crate::ast::{nodes_v, spec_run, ASTNode, FrameV, NodeV, ParseError, Parser};
use crate::lexer::{spec_tokenize, LexError, Lexer};

verus! {

/// A front-end failure: a lexing failure or a parsing failure.
#[derive(Clone, Copy, Debug, PartialEq, Eq, Structural)]
pub enum FrontendError {
    Lex(LexError),
    Parse(ParseError),
}

/// The top-level statements of a source text given as UTF-8 bytes, or its
/// first lexing or parsing failure.
pub open spec fn spec_parse_source(s: Seq<u8>) -> Result<Seq<NodeV>, FrontendError> {
    match spec_tokenize(s, 0) {
        Err(e) => Err(FrontendError::Lex(e)),
        Ok(tvs) => match spec_run(tvs, 0, seq![FrameV::Root(Seq::<NodeV>::empty())]) {
            Err(e) => Err(FrontendError::Parse(e)),
            Ok(st) => Ok(st[0].stmts()),
        },
    }
}

/// Parses a complete source text: the ordered sequence of its top-level
/// statements, or the first lexing or parsing failure.
pub fn parse_source(source: String) -> (r: Result<Vec<ASTNode>, FrontendError>)
    ensures
        match spec_parse_source(vstd::utf8::encode_utf8(source@)) {
            Ok(ns) => r matches Ok(nodes) && nodes_v(nodes@) == ns,
            Err(e) => r == Err::<Vec<ASTNode>, FrontendError>(e),
        },
{
    let mut lexer = Lexer::new(source);
    let tokens = match lexer.tokenize() {
        Ok(ts) => ts,
        Err(e) => {
            return Err(FrontendError::Lex(e));
        },
    };
    let parser = Parser::new(tokens);
    match parser.lfg() {
        Ok(ns) => Ok(ns),
        Err(e) => Err(FrontendError::Parse(e)),
    }
}

} // verus!
