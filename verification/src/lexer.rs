//! Token model and tokenizer for the expression language.
//!
//! The tokenizer scans raw bytes and produces one token at a time.  Multi
//! character operators (`!and`, `|>`, `<|`, ...) are recognised with bounded
//! lookahead.  The functions `spec_next_token` and `spec_tokenize` give the
//! mathematical definition of tokenization; the executable lexer is verified
//! against them.
use vstd::prelude::*;
use vstd::string::StrSliceExecFns;

verus! {

broadcast use vstd::std_specs::vec::group_vec_axioms, vstd::seq::axiom_seq_index_decreases;

/// A lexical token.  Every scope delimiter carries the kind of scope it
/// delimits, so open/close pairs can be validated structurally.
#[derive(Clone, Debug, PartialEq)]
pub enum Token {
    Ident(String),
    Lit(Literal),
    UnaryOp(UnaryOperator),
    BinaryOp(BinaryOperator),
    Cond(Conditional),
    Surr(Surround),
    Let,
    Assign,
    NewLine,
    Comma,
    EOF,
}

#[derive(Clone, Copy, Debug, PartialEq, Eq, Structural)]
pub enum UnaryOperator {
    Not,
}

#[derive(Clone, Copy, Debug, PartialEq, Eq, Structural)]
pub enum BinaryOperator {
    NotAnd,
    NotOr,
    NotXor,
    And,
    Or,
    Xor,
}

#[derive(Clone, Copy, Debug, PartialEq, Eq, Structural)]
pub enum Surround {
    Open(Scope),
    Close(Scope),
}

/// The kind of a scope.  Tuple and List are reserved for grouping and
/// collection literals; Block and Lexical are the kinds the parser
/// materializes into scope expressions.
#[derive(Clone, Copy, Debug, PartialEq, Eq, Structural)]
pub enum Scope {
    Tuple,
    List,
    Block,
    Lexical,
}

#[derive(Clone, Copy, Debug, PartialEq, Eq, Structural)]
pub enum Conditional {
    If,
    Elif,
    Else,
    Match,
}

#[derive(Clone, Copy, Debug, PartialEq, Eq, Structural)]
pub enum Literal {
    True,
    False,
}

/// The mathematical value of a token: identifier names become character
/// sequences.  Contracts speak of tokens through this type.
#[verifier::ext_equal]
pub enum TokenV {
    Ident(Seq<char>),
    Lit(Literal),
    UnaryOp(UnaryOperator),
    BinaryOp(BinaryOperator),
    Cond(Conditional),
    Surr(Surround),
    Let,
    Assign,
    NewLine,
    Comma,
    EOF,
}

impl Token {
    /// The mathematical value of this token.
    pub open spec fn deep_view(self) -> TokenV {
        match self {
            Token::Ident(s) => TokenV::Ident(s@),
            Token::Lit(l) => TokenV::Lit(l),
            Token::UnaryOp(op) => TokenV::UnaryOp(op),
            Token::BinaryOp(op) => TokenV::BinaryOp(op),
            Token::Cond(c) => TokenV::Cond(c),
            Token::Surr(s) => TokenV::Surr(s),
            Token::Let => TokenV::Let,
            Token::Assign => TokenV::Assign,
            Token::NewLine => TokenV::NewLine,
            Token::Comma => TokenV::Comma,
            Token::EOF => TokenV::EOF,
        }
    }

    /// An equal copy of this token.
    pub fn dup(&self) -> (r: Token)
        ensures
            r == *self,
    {
        match self {
            Token::Ident(s) => Token::Ident(s.clone()),
            Token::Lit(l) => Token::Lit(*l),
            Token::UnaryOp(op) => Token::UnaryOp(*op),
            Token::BinaryOp(op) => Token::BinaryOp(*op),
            Token::Cond(c) => Token::Cond(*c),
            Token::Surr(s) => Token::Surr(*s),
            Token::Let => Token::Let,
            Token::Assign => Token::Assign,
            Token::NewLine => Token::NewLine,
            Token::Comma => Token::Comma,
            Token::EOF => Token::EOF,
        }
    }
}

/// The mathematical values of a token sequence.
pub open spec fn toks_v(ts: Seq<Token>) -> Seq<TokenV> {
    ts.map_values(|t: Token| t.deep_view())
}

/// A lexing failure, with the byte offset at which it happened.
#[derive(Clone, Copy, Debug, PartialEq, Eq, Structural)]
pub enum LexError {
    /// A byte matches no lexical rule.
    InvalidCharacter { at: usize },
    /// Lookahead ran past the end of the buffer while expecting more input.
    UnexpectedEof { at: usize },
}


/// Byte values of the characters the grammar uses.
pub const B_TAB: u8 = 9;

pub const B_NEWLINE: u8 = 10;

pub const B_SPACE: u8 = 32;

pub const B_BANG: u8 = 33;

pub const B_LPAREN: u8 = 40;

pub const B_RPAREN: u8 = 41;

pub const B_COMMA: u8 = 44;

pub const B_LESS: u8 = 60;

pub const B_EQUALS: u8 = 61;

pub const B_GREATER: u8 = 62;

pub const B_LBRACKET: u8 = 91;

pub const B_RBRACKET: u8 = 93;

pub const B_LBRACE: u8 = 123;

pub const B_PIPE: u8 = 124;

pub const B_RBRACE: u8 = 125;

/// The keywords of the language, as byte sequences.
pub open spec fn kw_let() -> Seq<u8> {
    seq![108u8, 101u8, 116u8]
}

pub open spec fn kw_if() -> Seq<u8> {
    seq![105u8, 102u8]
}

pub open spec fn kw_elif() -> Seq<u8> {
    seq![101u8, 108u8, 105u8, 102u8]
}

pub open spec fn kw_else() -> Seq<u8> {
    seq![101u8, 108u8, 115u8, 101u8]
}

pub open spec fn kw_true() -> Seq<u8> {
    seq![116u8, 114u8, 117u8, 101u8]
}

pub open spec fn kw_false() -> Seq<u8> {
    seq![102u8, 97u8, 108u8, 115u8, 101u8]
}

pub open spec fn kw_and() -> Seq<u8> {
    seq![97u8, 110u8, 100u8]
}

pub open spec fn kw_or() -> Seq<u8> {
    seq![111u8, 114u8]
}

pub open spec fn kw_xor() -> Seq<u8> {
    seq![120u8, 111u8, 114u8]
}

/// Space and tab are skipped before a token; newlines are significant.
pub open spec fn is_blank(b: u8) -> bool {
    b == B_SPACE || b == B_TAB
}

/// Bytes that may form an identifier: ASCII letters and underscore.
pub open spec fn is_ident_byte(b: u8) -> bool {
    (97 <= b <= 122) || (65 <= b <= 90) || b == 95
}

/// The ASCII characters of a byte sequence.
pub open spec fn chars_of(bs: Seq<u8>) -> Seq<char> {
    bs.map_values(|b: u8| b as char)
}

/// The first position at or after `pos` that does not hold a blank.
pub open spec fn skip_blanks(s: Seq<u8>, pos: int) -> int
    decreases s.len() - pos,
{
    if pos < s.len() && is_blank(s[pos]) {
        skip_blanks(s, pos + 1)
    } else {
        pos
    }
}

/// The first position at or after `pos` that does not hold an identifier byte.
pub open spec fn ident_end(s: Seq<u8>, pos: int) -> int
    decreases s.len() - pos,
{
    if pos < s.len() && is_ident_byte(s[pos]) {
        ident_end(s, pos + 1)
    } else {
        pos
    }
}

/// Whether the word `w` occurs in `s` starting at position `p`.
pub open spec fn word_at(s: Seq<u8>, p: int, w: Seq<u8>) -> bool {
    p + w.len() <= s.len() && forall|k: int| 0 <= k < w.len() ==> s[p + k] == w[k]
}

/// The token an identifier word stands for: a keyword where the word is in
/// the keyword table, a generic identifier otherwise.
pub open spec fn keyword_or_ident(w: Seq<u8>) -> TokenV {
    if w == kw_let() {
        TokenV::Let
    } else if w == kw_if() {
        TokenV::Cond(Conditional::If)
    } else if w == kw_elif() {
        TokenV::Cond(Conditional::Elif)
    } else if w == kw_else() {
        TokenV::Cond(Conditional::Else)
    } else if w == kw_true() {
        TokenV::Lit(Literal::True)
    } else if w == kw_false() {
        TokenV::Lit(Literal::False)
    } else if w == kw_and() {
        TokenV::BinaryOp(BinaryOperator::And)
    } else if w == kw_or() {
        TokenV::BinaryOp(BinaryOperator::Or)
    } else if w == kw_xor() {
        TokenV::BinaryOp(BinaryOperator::Xor)
    } else {
        TokenV::Ident(chars_of(w))
    }
}

/// The token that starts at position `p`, where `p` holds a non-blank byte,
/// together with the position just past it.
pub open spec fn token_at(s: Seq<u8>, p: int) -> Result<(TokenV, int), LexError> {
    let b = s[p];
    if b == B_COMMA {
        Ok((TokenV::Comma, p + 1))
    } else if b == B_EQUALS {
        Ok((TokenV::Assign, p + 1))
    } else if b == B_NEWLINE {
        Ok((TokenV::NewLine, p + 1))
    } else if b == B_LBRACE {
        Ok((TokenV::Surr(Surround::Open(Scope::Block)), p + 1))
    } else if b == B_RBRACE {
        Ok((TokenV::Surr(Surround::Close(Scope::Block)), p + 1))
    } else if b == B_LPAREN {
        Ok((TokenV::Surr(Surround::Open(Scope::Tuple)), p + 1))
    } else if b == B_RPAREN {
        Ok((TokenV::Surr(Surround::Close(Scope::Tuple)), p + 1))
    } else if b == B_LBRACKET {
        Ok((TokenV::Surr(Surround::Open(Scope::List)), p + 1))
    } else if b == B_RBRACKET {
        Ok((TokenV::Surr(Surround::Close(Scope::List)), p + 1))
    } else if b == B_PIPE {
        if p + 1 < s.len() {
            if s[p + 1] == B_GREATER {
                Ok((TokenV::Surr(Surround::Open(Scope::Lexical)), p + 2))
            } else {
                Err(LexError::InvalidCharacter { at: (p + 1) as usize })
            }
        } else {
            Err(LexError::UnexpectedEof { at: (p + 1) as usize })
        }
    } else if b == B_LESS {
        if p + 1 < s.len() {
            if s[p + 1] == B_PIPE {
                Ok((TokenV::Surr(Surround::Close(Scope::Lexical)), p + 2))
            } else {
                Err(LexError::InvalidCharacter { at: (p + 1) as usize })
            }
        } else {
            Err(LexError::UnexpectedEof { at: (p + 1) as usize })
        }
    } else if b == B_BANG {
        if word_at(s, p + 1, kw_and()) {
            Ok((TokenV::BinaryOp(BinaryOperator::NotAnd), p + 4))
        } else if word_at(s, p + 1, kw_or()) {
            Ok((TokenV::BinaryOp(BinaryOperator::NotOr), p + 3))
        } else if word_at(s, p + 1, kw_xor()) {
            Ok((TokenV::BinaryOp(BinaryOperator::NotXor), p + 4))
        } else {
            Ok((TokenV::UnaryOp(UnaryOperator::Not), p + 1))
        }
    } else if is_ident_byte(b) {
        Ok((keyword_or_ident(s.subrange(p, ident_end(s, p))), ident_end(s, p)))
    } else {
        Err(LexError::InvalidCharacter { at: p as usize })
    }
}

/// The next token of `s` from position `pos`: its value, the position where
/// it starts (after skipping blanks) and the position just past it.  At the
/// end of the buffer the token is end-of-input, with an empty span.
pub open spec fn spec_next_token(s: Seq<u8>, pos: int) -> Result<(TokenV, int, int), LexError> {
    let start = skip_blanks(s, pos);
    if start >= s.len() {
        Ok((TokenV::EOF, start, start))
    } else {
        match token_at(s, start) {
            Ok((t, end)) => Ok((t, start, end)),
            Err(e) => Err(e),
        }
    }
}

/// Blank skipping stays within the buffer and lands on a non-blank.
pub proof fn lemma_skip_blanks_bounds(s: Seq<u8>, pos: int)
    requires
        0 <= pos <= s.len(),
    ensures
        pos <= skip_blanks(s, pos) <= s.len(),
        skip_blanks(s, pos) < s.len() ==> !is_blank(s[skip_blanks(s, pos)]),
    decreases s.len() - pos,
{
    if pos < s.len() && is_blank(s[pos]) {
        lemma_skip_blanks_bounds(s, pos + 1);
    }
}

/// The identifier scan stays within the buffer; every byte before its result
/// is an identifier byte and the byte at its result, if any, is not.
pub proof fn lemma_ident_end_bounds(s: Seq<u8>, pos: int)
    requires
        0 <= pos <= s.len(),
    ensures
        pos <= ident_end(s, pos) <= s.len(),
        forall|i: int| pos <= i < ident_end(s, pos) ==> is_ident_byte(#[trigger] s[i]),
        ident_end(s, pos) < s.len() ==> !is_ident_byte(s[ident_end(s, pos)]),
    decreases s.len() - pos,
{
    if pos < s.len() && is_ident_byte(s[pos]) {
        lemma_ident_end_bounds(s, pos + 1);
    }
}

/// A token that is not end-of-input occupies a non-empty span inside the
/// buffer, after its leading blanks.
pub proof fn lemma_next_token_bounds(s: Seq<u8>, pos: int)
    requires
        0 <= pos <= s.len(),
    ensures
        match spec_next_token(s, pos) {
            Ok((t, start, end)) => pos <= start <= end <= s.len() && (t != TokenV::EOF ==> start
                < end),
            Err(_) => true,
        },
{
    lemma_skip_blanks_bounds(s, pos);
    let start = skip_blanks(s, pos);
    if start < s.len() {
        lemma_ident_end_bounds(s, start);
        if is_ident_byte(s[start]) {
            assert(ident_end(s, start) > start);
        }
    }
}

/// The tokens of `s` from position `pos` on, ending with the end-of-input
/// token, or the first lexing failure.
pub open spec fn spec_tokenize(s: Seq<u8>, pos: int) -> Result<Seq<TokenV>, LexError>
    decreases s.len() - pos,
    when 0 <= pos <= s.len()
{
    match spec_next_token(s, pos) {
        Err(e) => Err(e),
        Ok((t, start, end)) => if t == TokenV::EOF {
            Ok(seq![TokenV::EOF])
        } else {
            proof {
                lemma_next_token_bounds(s, pos);
            }
            match spec_tokenize(s, end) {
                Err(e) => Err(e),
                Ok(rest) => Ok(seq![t] + rest),
            }
        },
    }
}

/// All bytes of a sequence are ASCII.
pub open spec fn all_ascii(bs: Seq<u8>) -> bool {
    forall|i: int| 0 <= i < bs.len() ==> #[trigger] bs[i] < 128
}

/// Relies on String::from_utf8: bytes that are all ASCII are valid UTF-8 and
/// decode to the characters with the same code points, in the same order.
#[verifier::external_body]
fn ascii_bytes_to_string(bytes: Vec<u8>) -> (r: String)
    requires
        all_ascii(bytes@),
    ensures
        r@ == chars_of(bytes@),
{
    String::from_utf8(bytes).unwrap()
}

/// The tokenizer.  It scans the source buffer byte by byte, skipping spaces
/// and tabs, and produces one token per call to `next_token`.
#[derive(Debug)]
pub struct Lexer {
    position: usize,
    input: Vec<u8>,
}

impl Lexer {
    /// The source buffer the lexer scans.
    pub closed spec fn bytes(self) -> Seq<u8> {
        self.input@
    }

    /// The current byte offset of the lexer.
    pub closed spec fn pos(self) -> int {
        self.position as int
    }

    /// The lexer's position never leaves the buffer.
    pub open spec fn wf(self) -> bool {
        0 <= self.pos() <= self.bytes().len()
    }

    /// A lexer over the UTF-8 bytes of `input`, positioned at its start.
    pub fn new(input: String) -> (r: Lexer)
        ensures
            r.wf(),
            r.pos() == 0,
            r.bytes() == vstd::utf8::encode_utf8(input@),
    {
        let bytes = input.as_str().as_bytes_vec();
        Lexer { position: 0, input: bytes }
    }

    /// The next token of the buffer: `Ok((start, end, token))` gives the
    /// token together with the byte span `start .. end` it occupies, and
    /// leaves the lexer just past it.  At the end of the buffer the token is
    /// `Token::EOF` with an empty span.  On a lexing failure the lexer does
    /// not move.
    pub fn next_token(&mut self) -> (r: Result<(usize, usize, Token), LexError>)
        requires
            old(self).wf(),
        ensures
            final(self).wf(),
            final(self).bytes() == old(self).bytes(),
            match spec_next_token(old(self).bytes(), old(self).pos()) {
                Ok((t, start, end)) => r matches Ok(sp) && sp.0 == start && sp.1 == end
                    && sp.2.deep_view() == t && final(self).pos() == end,
                Err(e) => r == Err::<(usize, usize, Token), LexError>(e) && final(self).pos()
                    == old(self).pos(),
            },
    {
        let ghost s = self.input@;
        let ghost pos0 = self.position as int;
        let len = self.input.len();
        let mut i = self.position;
        loop
            invariant
                self == old(self),
                s == self.input@,
                len == s.len(),
                pos0 <= i as int <= s.len(),
                skip_blanks(s, pos0) == skip_blanks(s, i as int),
            ensures
                self == old(self),
                s == self.input@,
                pos0 <= i as int <= s.len(),
                i as int == skip_blanks(s, pos0),
            decreases s.len() - i,
        {
            if i >= len {
                break;
            }
            let b = self.input[i];
            if !(b == B_SPACE || b == B_TAB) {
                break;
            }
            i = i + 1;
        }
        let ghost start = i as int;
        proof {
            assert(seq![97u8, 110u8, 100u8] =~= kw_and());
            assert(seq![111u8, 114u8] =~= kw_or());
            assert(seq![120u8, 111u8, 114u8] =~= kw_xor());
        }
        if i >= len {
            self.position = i;
            return Ok((i, i, Token::EOF));
        }
        let b = self.input[i];
        if b == B_COMMA {
            self.position = i + 1;
            Ok((i, i + 1, Token::Comma))
        } else if b == B_EQUALS {
            self.position = i + 1;
            Ok((i, i + 1, Token::Assign))
        } else if b == B_NEWLINE {
            self.position = i + 1;
            Ok((i, i + 1, Token::NewLine))
        } else if b == B_LBRACE {
            self.position = i + 1;
            Ok((i, i + 1, Token::Surr(Surround::Open(Scope::Block))))
        } else if b == B_RBRACE {
            self.position = i + 1;
            Ok((i, i + 1, Token::Surr(Surround::Close(Scope::Block))))
        } else if b == B_LPAREN {
            self.position = i + 1;
            Ok((i, i + 1, Token::Surr(Surround::Open(Scope::Tuple))))
        } else if b == B_RPAREN {
            self.position = i + 1;
            Ok((i, i + 1, Token::Surr(Surround::Close(Scope::Tuple))))
        } else if b == B_LBRACKET {
            self.position = i + 1;
            Ok((i, i + 1, Token::Surr(Surround::Open(Scope::List))))
        } else if b == B_RBRACKET {
            self.position = i + 1;
            Ok((i, i + 1, Token::Surr(Surround::Close(Scope::List))))
        } else if b == B_PIPE {
            if i + 1 < len {
                if self.input[i + 1] == B_GREATER {
                    self.position = i + 2;
                    Ok((i, i + 2, Token::Surr(Surround::Open(Scope::Lexical))))
                } else {
                    Err(LexError::InvalidCharacter { at: i + 1 })
                }
            } else {
                Err(LexError::UnexpectedEof { at: i + 1 })
            }
        } else if b == B_LESS {
            if i + 1 < len {
                if self.input[i + 1] == B_PIPE {
                    self.position = i + 2;
                    Ok((i, i + 2, Token::Surr(Surround::Close(Scope::Lexical))))
                } else {
                    Err(LexError::InvalidCharacter { at: i + 1 })
                }
            } else {
                Err(LexError::UnexpectedEof { at: i + 1 })
            }
        } else if b == B_BANG {
            if self.word_follows(i, 97, 110, 100) {
                self.position = i + 4;
                Ok((i, i + 4, Token::BinaryOp(BinaryOperator::NotAnd)))
            } else if self.word_follows2(i, 111, 114) {
                self.position = i + 3;
                Ok((i, i + 3, Token::BinaryOp(BinaryOperator::NotOr)))
            } else if self.word_follows(i, 120, 111, 114) {
                self.position = i + 4;
                Ok((i, i + 4, Token::BinaryOp(BinaryOperator::NotXor)))
            } else {
                self.position = i + 1;
                Ok((i, i + 1, Token::UnaryOp(UnaryOperator::Not)))
            }
        } else if (97 <= b && b <= 122) || (65 <= b && b <= 90) || b == 95 {
            let (name, end) = self.read_ident(i);
            self.position = end;
            Ok((i, end, name))
        } else {
            Err(LexError::InvalidCharacter { at: i })
        }
    }

    /// Whether the three bytes after position `p` are `a`, `b`, `c`.
    fn word_follows(&self, p: usize, a: u8, b: u8, c: u8) -> (r: bool)
        requires
            self.wf(),
            p < self.bytes().len(),
        ensures
            r == word_at(self.bytes(), p + 1, seq![a, b, c]),
    {
        let ghost w = seq![a, b, c];
        let ghost s = self.bytes();
        proof {
            assert(w.len() == 3 && w[0] == a && w[1] == b && w[2] == c);
        }
        let len = self.input.len();
        if len - p >= 4 {
            let r = self.input[p + 1] == a && self.input[p + 2] == b && self.input[p + 3] == c;
            proof {
                if r {
                    assert forall|k: int| 0 <= k < w.len() implies s[p + 1 + k] == w[k] by {
                        if k == 0 {
                            assert(s[p + 1 + 0] == a);
                        } else if k == 1 {
                            assert(s[p + 1 + 1] == b);
                        } else {
                            assert(s[p + 1 + 2] == c);
                        }
                    }
                } else {
                    if s[p + 1] != a {
                        assert(s[p + 1 + 0] != w[0]);
                    } else if s[p + 2] != b {
                        assert(s[p + 1 + 1] != w[1]);
                    } else {
                        assert(s[p + 1 + 2] != w[2]);
                    }
                }
            }
            r
        } else {
            false
        }
    }

    /// Whether the two bytes after position `p` are `a`, `b`.
    fn word_follows2(&self, p: usize, a: u8, b: u8) -> (r: bool)
        requires
            self.wf(),
            p < self.bytes().len(),
        ensures
            r == word_at(self.bytes(), p + 1, seq![a, b]),
    {
        let ghost w = seq![a, b];
        let ghost s = self.bytes();
        proof {
            assert(w.len() == 2 && w[0] == a && w[1] == b);
        }
        let len = self.input.len();
        if len - p >= 3 {
            let r = self.input[p + 1] == a && self.input[p + 2] == b;
            proof {
                if r {
                    assert forall|k: int| 0 <= k < w.len() implies s[p + 1 + k] == w[k] by {
                        if k == 0 {
                            assert(s[p + 1 + 0] == a);
                        } else {
                            assert(s[p + 1 + 1] == b);
                        }
                    }
                } else {
                    if s[p + 1] != a {
                        assert(s[p + 1 + 0] != w[0]);
                    } else {
                        assert(s[p + 1 + 1] != w[1]);
                    }
                }
            }
            r
        } else {
            false
        }
    }

    /// The identifier or keyword that starts at position `start`: the token
    /// it classifies to and the position just past its last byte.
    fn read_ident(&self, start: usize) -> (r: (Token, usize))
        requires
            self.wf(),
            start < self.bytes().len(),
            is_ident_byte(self.bytes()[start as int]),
        ensures
            r.1 == ident_end(self.bytes(), start as int),
            start < r.1 <= self.bytes().len(),
            r.0.deep_view() == keyword_or_ident(
                self.bytes().subrange(start as int, r.1 as int),
            ),
    {
        let ghost s = self.input@;
        let len = self.input.len();
        let mut e = start;
        loop
            invariant
                self.wf(),
                s == self.input@,
                len == s.len(),
                start <= e as int <= s.len(),
                ident_end(s, start as int) == ident_end(s, e as int),
            ensures
                start <= e as int <= s.len(),
                e as int == ident_end(s, start as int),
            decreases s.len() - e,
        {
            if e >= len {
                break;
            }
            let b = self.input[e];
            if !((97 <= b && b <= 122) || (65 <= b && b <= 90) || b == 95) {
                break;
            }
            e = e + 1;
        }
        proof {
            lemma_ident_end_bounds(s, start as int);
        }
        let tok = self.classify_word(start, e);
        (tok, e)
    }

    /// The token a scanned word stands for: the keyword where the word is in
    /// the keyword table, a generic identifier otherwise.
    fn classify_word(&self, start: usize, end: usize) -> (t: Token)
        requires
            self.wf(),
            start < end <= self.bytes().len(),
            forall|k: int| start <= k < end ==> is_ident_byte(#[trigger] self.bytes()[k]),
        ensures
            t.deep_view() == keyword_or_ident(self.bytes().subrange(start as int, end as int)),
    {
        let ghost s = self.input@;
        let ghost w = s.subrange(start as int, end as int);
        let n = end - start;
        let v = &self.input;
        proof {
            assert forall|k: int| 0 <= k < w.len() implies w[k] == s[start + k] by {}
        }
        if n == 3 && v[start] == 108 && v[start + 1] == 101 && v[start + 2] == 116 {
            proof {
                assert(w =~= kw_let());
            }
            Token::Let
        } else if n == 2 && v[start] == 105 && v[start + 1] == 102 {
            proof {
                assert(w =~= kw_if());
            }
            Token::Cond(Conditional::If)
        } else if n == 4 && v[start] == 101 && v[start + 1] == 108 && v[start + 2] == 105 && v[
            start + 3] == 102 {
            proof {
                assert(w =~= kw_elif());
            }
            Token::Cond(Conditional::Elif)
        } else if n == 4 && v[start] == 101 && v[start + 1] == 108 && v[start + 2] == 115 && v[
            start + 3] == 101 {
            proof {
                assert(w =~= kw_else());
            }
            Token::Cond(Conditional::Else)
        } else if n == 4 && v[start] == 116 && v[start + 1] == 114 && v[start + 2] == 117 && v[
            start + 3] == 101 {
            proof {
                assert(w =~= kw_true());
            }
            Token::Lit(Literal::True)
        } else if n == 5 && v[start] == 102 && v[start + 1] == 97 && v[start + 2] == 108 && v[
            start + 3] == 115 && v[start + 4] == 101 {
            proof {
                assert(w =~= kw_false());
            }
            Token::Lit(Literal::False)
        } else if n == 3 && v[start] == 97 && v[start + 1] == 110 && v[start + 2] == 100 {
            proof {
                assert(w =~= kw_and());
            }
            Token::BinaryOp(BinaryOperator::And)
        } else if n == 2 && v[start] == 111 && v[start + 1] == 114 {
            proof {
                assert(w =~= kw_or());
            }
            Token::BinaryOp(BinaryOperator::Or)
        } else if n == 3 && v[start] == 120 && v[start + 1] == 111 && v[start + 2] == 114 {
            proof {
                assert(w =~= kw_xor());
            }
            Token::BinaryOp(BinaryOperator::Xor)
        } else {
            proof {
                lemma_kw_shapes();
                lemma_word_in_buffer(w, s, start as int, end as int);
            }
            let mut name_bytes: Vec<u8> = Vec::new();
            let mut k = start;
            while k < end
                invariant
                    self.wf(),
                    s == self.input@,
                    w == s.subrange(start as int, end as int),
                    start <= k as int <= end <= s.len(),
                    name_bytes@.len() == k - start,
                    forall|j: int| 0 <= j < name_bytes@.len() ==> name_bytes@[j] == w[j],
                    forall|j: int| start <= j < end ==> is_ident_byte(#[trigger] s[j]),
                decreases end - k,
            {
                let byte = self.input[k];
                name_bytes.push(byte);
                k = k + 1;
            }
            proof {
                assert(name_bytes@ =~= w);
            }
            let name = ascii_bytes_to_string(name_bytes);
            Token::Ident(name)
        }
    }
}

/// The byte values of each keyword.
pub proof fn lemma_kw_shapes()
    ensures
        kw_let().len() == 3 && kw_let()[0] == 108 && kw_let()[1] == 101 && kw_let()[2] == 116,
        kw_if().len() == 2 && kw_if()[0] == 105 && kw_if()[1] == 102,
        kw_elif().len() == 4 && kw_elif()[0] == 101 && kw_elif()[1] == 108 && kw_elif()[2] == 105
            && kw_elif()[3] == 102,
        kw_else().len() == 4 && kw_else()[0] == 101 && kw_else()[1] == 108 && kw_else()[2] == 115
            && kw_else()[3] == 101,
        kw_true().len() == 4 && kw_true()[0] == 116 && kw_true()[1] == 114 && kw_true()[2] == 117
            && kw_true()[3] == 101,
        kw_false().len() == 5 && kw_false()[0] == 102 && kw_false()[1] == 97 && kw_false()[2]
            == 108 && kw_false()[3] == 115 && kw_false()[4] == 101,
        kw_and().len() == 3 && kw_and()[0] == 97 && kw_and()[1] == 110 && kw_and()[2] == 100,
        kw_or().len() == 2 && kw_or()[0] == 111 && kw_or()[1] == 114,
        kw_xor().len() == 3 && kw_xor()[0] == 120 && kw_xor()[1] == 111 && kw_xor()[2] == 114,
{
}

/// A scanned word holds exactly the buffer's bytes over its range.
pub proof fn lemma_word_in_buffer(w: Seq<u8>, s: Seq<u8>, start: int, end: int)
    requires
        0 <= start < end <= s.len(),
        w == s.subrange(start, end),
    ensures
        forall|k: int| 0 <= k < w.len() ==> w[k] == s[start + k],
        w.len() == end - start,
{
    assert forall|k: int| 0 <= k < w.len() implies w[k] == s[start + k] by {}
}

impl Lexer {
    /// All tokens of the buffer from the current position on, ending with
    /// the end-of-input token, or the first lexing failure.
    pub fn tokenize(&mut self) -> (r: Result<Vec<Token>, LexError>)
        requires
            old(self).wf(),
        ensures
            final(self).wf(),
            final(self).bytes() == old(self).bytes(),
            match spec_tokenize(old(self).bytes(), old(self).pos()) {
                Ok(tvs) => r matches Ok(ts) && toks_v(ts@) == tvs,
                Err(e) => r == Err::<Vec<Token>, LexError>(e),
            },
    {
        let ghost s = old(self).bytes();
        let ghost pos0 = old(self).pos();
        let mut out: Vec<Token> = Vec::new();
        loop
            invariant
                self.wf(),
                s == self.bytes(),
                s == old(self).bytes(),
                pos0 == old(self).pos(),
                match spec_tokenize(s, self.pos()) {
                    Ok(rest) => spec_tokenize(s, pos0) == Ok::<Seq<TokenV>, LexError>(
                        toks_v(out@) + rest,
                    ),
                    Err(e) => spec_tokenize(s, pos0) == Err::<Seq<TokenV>, LexError>(e),
                },
            decreases s.len() - self.pos(),
        {
            let ghost pos_here = self.pos();
            let ghost old_out = out@;
            let step = self.next_token();
            match step {
                Ok((st, en, tok)) => {
                    proof {
                        lemma_next_token_bounds(s, pos_here);
                    }
                    match tok {
                        Token::EOF => {
                            out.push(tok);
                            proof {
                                assert(toks_v(out@) =~= toks_v(old_out) + seq![TokenV::EOF]);
                            }
                            return Ok(out);
                        },
                        _ => {
                            let ghost tv = tok.deep_view();
                            out.push(tok);
                            proof {
                                assert(tv != TokenV::EOF);
                                assert(toks_v(out@) =~= toks_v(old_out) + seq![tv]);
                                if spec_tokenize(s, self.pos()) is Ok {
                                    let rest = spec_tokenize(s, self.pos())->Ok_0;
                                    assert(toks_v(old_out) + (seq![tv] + rest) =~= toks_v(out@)
                                        + rest);
                                }
                            }
                        },
                    }
                },
                Err(e) => {
                    return Err(e);
                },
            }
        }
    }
}

/// Scanning a buffer whose bytes from `q` on are all identifier bytes runs
/// to its end.
proof fn lemma_ident_end_all(s: Seq<u8>, q: int)
    requires
        0 <= q <= s.len(),
        forall|i: int| q <= i < s.len() ==> is_ident_byte(#[trigger] s[i]),
    ensures
        ident_end(s, q) == s.len(),
    decreases s.len() - q,
{
    if q < s.len() {
        lemma_ident_end_all(s, q + 1);
    }
}

/// Position bookkeeping is self-consistent: tokenizing exactly the byte
/// range a token reports as its own span reproduces an equal token, spanning
/// the whole range.
pub proof fn lemma_token_span_roundtrip(s: Seq<u8>, pos: int)
    requires
        0 <= pos <= s.len(),
        spec_next_token(s, pos) is Ok,
    ensures
        ({
            let (t, start, end) = spec_next_token(s, pos)->Ok_0;
            spec_next_token(s.subrange(start, end), 0) == Ok::<(TokenV, int, int), LexError>(
                (t, 0, end - start),
            )
        }),
{
    lemma_skip_blanks_bounds(s, pos);
    lemma_next_token_bounds(s, pos);
    let (t, start, end) = spec_next_token(s, pos)->Ok_0;
    let sub = s.subrange(start, end);
    if start >= s.len() {
        // end-of-input: the span is empty, and so is its tokenization
        assert(sub.len() == 0);
    } else {
        assert(!is_blank(s[start]));
        assert(sub[0] == s[start]);
        assert(skip_blanks(sub, 0) == 0);
        let b = s[start];
        if b == B_BANG {
            if word_at(s, start + 1, kw_and()) {
                assert(sub.len() == 4);
                assert(word_at(sub, 1, kw_and())) by {
                    assert forall|k: int| 0 <= k < kw_and().len() implies sub[1 + k] == kw_and()[k] by {
                        assert(sub[1 + k] == s[start + 1 + k]);
                    }
                }
            } else if word_at(s, start + 1, kw_or()) {
                assert(sub.len() == 3);
                assert(!word_at(sub, 1, kw_and()));
                assert(word_at(sub, 1, kw_or())) by {
                    assert forall|k: int| 0 <= k < kw_or().len() implies sub[1 + k] == kw_or()[k] by {
                        assert(sub[1 + k] == s[start + 1 + k]);
                    }
                }
            } else if word_at(s, start + 1, kw_xor()) {
                assert(sub.len() == 4);
                assert(!word_at(sub, 1, kw_and())) by {
                    if word_at(sub, 1, kw_and()) {
                        assert forall|k: int|
                            0 <= k < kw_and().len() implies s[start + 1 + k] == kw_and()[k] by {
                            assert(sub[1 + k] == s[start + 1 + k]);
                        }
                    }
                }
                assert(!word_at(sub, 1, kw_or())) by {
                    if word_at(sub, 1, kw_or()) {
                        assert forall|k: int|
                            0 <= k < kw_or().len() implies s[start + 1 + k] == kw_or()[k] by {
                            assert(sub[1 + k] == s[start + 1 + k]);
                        }
                    }
                }
                assert(word_at(sub, 1, kw_xor())) by {
                    assert forall|k: int| 0 <= k < kw_xor().len() implies sub[1 + k] == kw_xor()[k] by {
                        assert(sub[1 + k] == s[start + 1 + k]);
                    }
                }
            } else {
                assert(sub.len() == 1);
            }
        } else if is_ident_byte(b) && b != B_BANG {
            lemma_ident_end_bounds(s, start);
            assert(end == ident_end(s, start));
            assert forall|i: int| 0 <= i < sub.len() implies is_ident_byte(#[trigger] sub[i]) by {
                assert(sub[i] == s[start + i]);
            }
            lemma_ident_end_all(sub, 0);
            assert(ident_end(sub, 0) == sub.len());
            assert(sub.subrange(0, sub.len() as int) =~= sub);
            assert(s.subrange(start, ident_end(s, start)) =~= sub);
        } else {
            // single- and two-byte punctuation: the span holds exactly the
            // bytes the rules inspected
            if sub.len() >= 2 {
                assert(sub[1] == s[start + 1]);
            }
        }
    }
}

} // verus!
