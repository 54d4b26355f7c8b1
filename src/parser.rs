use crate::expr::{Binary, Expr, Literal, LiteralValue, Tree};
use crate::lexer::{lemma_lex_step_bounds, lex_step, spec_tokenize, token_at, Lexer, LexerError};
use crate::token::{Span, Token, TokenKind, TokenValue};
use vstd::prelude::*;

verus! {

/// A syntactic fault, or a lexical one met on the way.
#[derive(Debug, Clone, Copy, PartialEq, Eq, Structural)]
pub enum ParserError {
    /// A number was expected, or the end of the input, and the token with this
    /// span stood there instead.
    InvalidToken(Span),
    /// The lexer failed where the parser asked for a token.
    Lexer(LexerError),
}

/// The tree read from some offset and the offset after it, or the first fault.
pub type Parsed = Result<(Tree, int), ParserError>;

pub open spec fn is_sum_op(k: TokenKind) -> bool {
    k == TokenKind::Plus || k == TokenKind::Minus
}

pub open spec fn is_product_op(k: TokenKind) -> bool {
    k == TokenKind::Star || k == TokenKind::Slash
}

/// `factor := Number`, read at offset `i` of `s`.
pub open spec fn spec_factor(s: Seq<char>, i: int) -> Parsed {
    match lex_step(s, i) {
        Err(x) => Err(ParserError::Lexer(x)),
        Ok((k, e)) => if k == TokenKind::Number {
            Ok((Tree::Leaf(s.subrange(i, e)), e))
        } else {
            Err(ParserError::InvalidToken(Span { start: i as usize, end: e as usize }))
        },
    }
}

pub proof fn lemma_factor_bounds(s: Seq<char>, i: int)
    ensures
        spec_factor(s, i) matches Ok((t, j)) ==> 0 <= i < j <= s.len(),
{
    lemma_lex_step_bounds(s, i);
}

/// The rest of a `term` whose operands so far fold into `acc`: while the token
/// at `i` is `*` or `/`, it joins `acc` and the next factor into a new node.
pub open spec fn term_rest(s: Seq<char>, acc: Tree, i: int) -> Parsed
    decreases s.len() - i,
{
    match lex_step(s, i) {
        Err(x) => Err(ParserError::Lexer(x)),
        Ok((k, e)) => if is_product_op(k) {
            proof {
                lemma_lex_step_bounds(s, i);
                lemma_factor_bounds(s, e);
            }
            match spec_factor(s, e) {
                Err(x) => Err(x),
                Ok((r, j)) => term_rest(
                    s,
                    Tree::Node(Box::new(acc), token_at(s, k, i, e), Box::new(r)),
                    j,
                ),
            }
        } else {
            Ok((acc, i))
        },
    }
}

/// `term := factor (('*' | '/') factor)*`, read at offset `i` of `s`.
pub open spec fn spec_term(s: Seq<char>, i: int) -> Parsed {
    match spec_factor(s, i) {
        Err(x) => Err(x),
        Ok((t, j)) => term_rest(s, t, j),
    }
}

pub proof fn lemma_term_rest_bounds(s: Seq<char>, acc: Tree, i: int)
    requires
        0 <= i <= s.len(),
    ensures
        term_rest(s, acc, i) matches Ok((t, j)) ==> i <= j <= s.len(),
    decreases s.len() - i,
{
    lemma_lex_step_bounds(s, i);
    if let Ok((k, e)) = lex_step(s, i) {
        if is_product_op(k) {
            lemma_factor_bounds(s, e);
            if let Ok((r, j)) = spec_factor(s, e) {
                lemma_term_rest_bounds(
                    s,
                    Tree::Node(Box::new(acc), token_at(s, k, i, e), Box::new(r)),
                    j,
                );
            }
        }
    }
}

pub proof fn lemma_term_bounds(s: Seq<char>, i: int)
    ensures
        spec_term(s, i) matches Ok((t, j)) ==> 0 <= i < j <= s.len(),
{
    lemma_factor_bounds(s, i);
    if let Ok((t, j)) = spec_factor(s, i) {
        lemma_term_rest_bounds(s, t, j);
    }
}

/// The rest of an `expr` whose operands so far fold into `acc`: while the token
/// at `i` is `+` or `-`, it joins `acc` and the next term into a new node.
pub open spec fn expr_rest(s: Seq<char>, acc: Tree, i: int) -> Parsed
    decreases s.len() - i,
{
    match lex_step(s, i) {
        Err(x) => Err(ParserError::Lexer(x)),
        Ok((k, e)) => if is_sum_op(k) {
            proof {
                lemma_lex_step_bounds(s, i);
                lemma_term_bounds(s, e);
            }
            match spec_term(s, e) {
                Err(x) => Err(x),
                Ok((r, j)) => expr_rest(
                    s,
                    Tree::Node(Box::new(acc), token_at(s, k, i, e), Box::new(r)),
                    j,
                ),
            }
        } else {
            Ok((acc, i))
        },
    }
}

/// `expr := term (('+' | '-') term)*`, read at offset `i` of `s`.
pub open spec fn spec_expr(s: Seq<char>, i: int) -> Parsed {
    match spec_term(s, i) {
        Err(x) => Err(x),
        Ok((t, j)) => expr_rest(s, t, j),
    }
}

/// An `expr` read at offset `i` that must reach the end of the input.
pub open spec fn parse_from(s: Seq<char>, i: int) -> Result<Tree, ParserError> {
    match spec_expr(s, i) {
        Err(x) => Err(x),
        Ok((t, j)) => match lex_step(s, j) {
            Err(x) => Err(ParserError::Lexer(x)),
            Ok((k, e)) => if k == TokenKind::Eof {
                Ok(t)
            } else {
                Err(ParserError::InvalidToken(Span { start: j as usize, end: e as usize }))
            },
        },
    }
}

/// The tree of the whole source `s`, or the first fault.
pub open spec fn spec_parse(s: Seq<char>) -> Result<Tree, ParserError> {
    parse_from(s, 0)
}

pub open spec fn tree_of(r: Result<Expr, ParserError>) -> Result<Tree, ParserError> {
    match r {
        Ok(x) => Ok(x.tree()),
        Err(e) => Err(e),
    }
}

/// What a step that read a part of the tree owes: on success the tree that
/// `expected` gives, with the cursor at `pos` after it; else the same fault.
pub open spec fn reads(r: Result<Expr, ParserError>, pos: int, expected: Parsed) -> bool {
    match expected {
        Ok((t, j)) => r matches Ok(x) && x.tree() == t && pos == j,
        Err(e) => r matches Err(y) && y == e,
    }
}

/// Tokenizing and parsing are functions of the source text alone: equal
/// sources give equal token sequences and equal trees.
pub proof fn lemma_deterministic(s1: Seq<char>, s2: Seq<char>)
    requires
        s1 == s2,
    ensures
        spec_tokenize(s1) == spec_tokenize(s2),
        spec_parse(s1) == spec_parse(s2),
{
}

fn has_kind(kinds: &[TokenKind], k: TokenKind) -> (r: bool)
    ensures
        r == kinds@.contains(k),
{
    let mut i: usize = 0;
    while i < kinds.len()
        invariant
            i <= kinds@.len(),
            forall|j: int| 0 <= j < i ==> kinds@[j] != k,
        decreases kinds.len() - i,
    {
        if kinds[i] == k {
            return true;
        }
        i = i + 1;
    }
    false
}

/// A recursive-descent parser with one token of lookahead over its own lexer.
#[derive(Debug, Clone)]
pub struct Parser<'a> {
    src: &'a str,
    lexer: Lexer<'a>,
}

impl<'a> Parser<'a> {
    /// The characters of the source.
    pub closed spec fn source(&self) -> Seq<char> {
        self.lexer.source()
    }

    /// The offset of the next token.
    pub closed spec fn position(&self) -> int {
        self.lexer.position()
    }

    pub closed spec fn wf(&self) -> bool {
        &&& self.lexer.wf()
        &&& self.lexer.source() == self.src@
    }

    pub fn new(src: &'a str) -> (r: Self)
        ensures
            r.wf(),
            r.source() == src@,
            r.position() == 0,
    {
        Parser { src, lexer: Lexer::new(src) }
    }

    /// The whole input as one expression, or the first fault.
    pub fn parse(&mut self) -> (r: Result<Expr<'a>, ParserError>)
        requires
            old(self).wf(),
        ensures
            final(self).wf(),
            final(self).source() == old(self).source(),
            tree_of(r) == parse_from(old(self).source(), old(self).position()),
    {
        let e = self.expr()?;
        let end = self.advance()?;
        if end.kind == TokenKind::Eof {
            Ok(e)
        } else {
            Err(ParserError::InvalidToken(end.span))
        }
    }

    /// The token at the cursor, which stays where it is.
    fn peek(&self) -> (r: Result<Token<'a>, ParserError>)
        requires
            self.wf(),
        ensures
            match lex_step(self.source(), self.position()) {
                Ok((k, e)) => r matches Ok(t) && t@ == token_at(self.source(), k, self.position(), e),
                Err(x) => r == Err::<Token<'a>, ParserError>(ParserError::Lexer(x)),
            },
    {
        match self.lexer.peek_token() {
            Ok(t) => Ok(t),
            Err(x) => Err(ParserError::Lexer(x)),
        }
    }

    /// The token at the cursor; the cursor moves past it.
    fn advance(&mut self) -> (r: Result<Token<'a>, ParserError>)
        requires
            old(self).wf(),
        ensures
            final(self).wf(),
            final(self).source() == old(self).source(),
            match lex_step(old(self).source(), old(self).position()) {
                Ok((k, e)) => r matches Ok(t) && t@ == token_at(
                    old(self).source(),
                    k,
                    old(self).position(),
                    e,
                ) && final(self).position() == e,
                Err(x) => r == Err::<Token<'a>, ParserError>(ParserError::Lexer(x)),
            },
    {
        match self.lexer.next_token() {
            Ok(t) => Ok(t),
            Err(x) => Err(ParserError::Lexer(x)),
        }
    }

    /// The token at the cursor if its kind is one of `kinds`, and then the
    /// cursor moves past it; else `None`, and the cursor stays.
    fn next_if_matches(&mut self, kinds: &[TokenKind]) -> (r: Result<
        Option<Token<'a>>,
        ParserError,
    >)
        requires
            old(self).wf(),
        ensures
            final(self).wf(),
            final(self).source() == old(self).source(),
            match lex_step(old(self).source(), old(self).position()) {
                Ok((k, e)) => if kinds@.contains(k) {
                    r matches Ok(Some(t)) && t@ == token_at(
                        old(self).source(),
                        k,
                        old(self).position(),
                        e,
                    ) && final(self).position() == e
                } else {
                    r matches Ok(None) && final(self).position() == old(self).position()
                },
                Err(x) => r == Err::<Option<Token<'a>>, ParserError>(ParserError::Lexer(x)),
            },
    {
        let t = self.peek()?;
        if has_kind(kinds, t.kind) {
            let t = self.advance()?;
            Ok(Some(t))
        } else {
            Ok(None)
        }
    }

    /// `factor := Number`.
    fn factor(&mut self) -> (r: Result<Expr<'a>, ParserError>)
        requires
            old(self).wf(),
        ensures
            final(self).wf(),
            final(self).source() == old(self).source(),
            reads(r, final(self).position(), spec_factor(old(self).source(), old(self).position())),
    {
        let t = self.advance()?;
        if t.kind == TokenKind::Number {
            match t.value {
                Some(TokenValue::String(text)) => Ok(
                    Expr::Literal(Literal::new(LiteralValue::Number(text.to_owned()))),
                ),
                None => Err(ParserError::InvalidToken(t.span)),
            }
        } else {
            Err(ParserError::InvalidToken(t.span))
        }
    }

    /// `term := factor (('*' | '/') factor)*`, folded to the left.
    fn term(&mut self) -> (r: Result<Expr<'a>, ParserError>)
        requires
            old(self).wf(),
        ensures
            final(self).wf(),
            final(self).source() == old(self).source(),
            reads(r, final(self).position(), spec_term(old(self).source(), old(self).position())),
    {
        let ghost s = self.source();
        let ghost p0 = self.position();
        proof {
            lemma_factor_bounds(s, p0);
        }
        let mut expr = self.factor()?;
        let ops = [TokenKind::Star, TokenKind::Slash];
        assert(ops@.contains(TokenKind::Star) && ops@.contains(TokenKind::Slash));
        loop
            invariant
                self.wf(),
                self.source() == s,
                s == old(self).source(),
                p0 == old(self).position(),
                0 <= self.position() <= s.len(),
                ops@ == seq![TokenKind::Star, TokenKind::Slash],
                term_rest(s, expr.tree(), self.position()) == spec_term(s, p0),
            decreases s.len() - self.position(),
        {
            let ghost p = self.position();
            proof {
                lemma_lex_step_bounds(s, p);
                if let Ok((k, e)) = lex_step(s, p) {
                    lemma_factor_bounds(s, e);
                    assert(ops@.contains(k) <==> is_product_op(k));
                }
            }
            match self.next_if_matches(&ops)? {
                Some(op) => {
                    let right = self.factor()?;
                    expr = Expr::Binary(Binary::new(expr, op, right));
                },
                None => {
                    return Ok(expr);
                },
            }
        }
    }

    /// `expr := term (('+' | '-') term)*`, folded to the left.
    fn expr(&mut self) -> (r: Result<Expr<'a>, ParserError>)
        requires
            old(self).wf(),
        ensures
            final(self).wf(),
            final(self).source() == old(self).source(),
            reads(r, final(self).position(), spec_expr(old(self).source(), old(self).position())),
    {
        let ghost s = self.source();
        let ghost p0 = self.position();
        proof {
            lemma_term_bounds(s, p0);
        }
        let mut expr = self.term()?;
        let ops = [TokenKind::Plus, TokenKind::Minus];
        assert(ops@.contains(TokenKind::Plus) && ops@.contains(TokenKind::Minus));
        loop
            invariant
                self.wf(),
                self.source() == s,
                s == old(self).source(),
                p0 == old(self).position(),
                0 <= self.position() <= s.len(),
                ops@ == seq![TokenKind::Plus, TokenKind::Minus],
                expr_rest(s, expr.tree(), self.position()) == spec_expr(s, p0),
            decreases s.len() - self.position(),
        {
            let ghost p = self.position();
            proof {
                lemma_lex_step_bounds(s, p);
                if let Ok((k, e)) = lex_step(s, p) {
                    lemma_term_bounds(s, e);
                    assert(ops@.contains(k) <==> is_sum_op(k));
                }
            }
            match self.next_if_matches(&ops)? {
                Some(op) => {
                    let right = self.term()?;
                    expr = Expr::Binary(Binary::new(expr, op, right));
                },
                None => {
                    return Ok(expr);
                },
            }
        }
    }
}

/// The tree of the whole of `src`, or the first fault.
pub fn parse<'a>(src: &'a str) -> (r: Result<Expr<'a>, ParserError>)
    ensures
        tree_of(r) == spec_parse(src@),
{
    let mut parser = Parser::new(src);
    parser.parse()
}

} // verus!
