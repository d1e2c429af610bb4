//! Recursive-descent parser: enforces the four-tier precedence grammar
//!
//! ```text
//! expression := term ( ('+' | '-') term )*      left-associative
//! term       := factor ( ('*' | '/') factor )*  left-associative
//! factor     := primary ( '^' factor )?         right-associative
//! primary    := Number | '(' expression ')'
//! ```

use vstd::prelude::*;

use crate::ast::{ast_view, ASTNode, AstView};
use crate::lexer::token_views;
use crate::tokens::{Token, TokenView};

verus! {

/// Why parsing failed: a token that no production can use, or an input that
/// ended while a production still expected one.
#[derive(Debug, PartialEq, Eq)]
pub enum ParserErrorKind {
    UnexpectedToken(Token),
    UnexpectedEndOfInput,
}

/// The mathematical shape of a parsing failure.
pub enum ParserErrorKindView {
    UnexpectedToken(TokenView),
    UnexpectedEndOfInput,
}

impl View for ParserErrorKind {
    type V = ParserErrorKindView;

    open spec fn view(&self) -> ParserErrorKindView {
        match *self {
            ParserErrorKind::UnexpectedToken(ref t) => ParserErrorKindView::UnexpectedToken(t@),
            ParserErrorKind::UnexpectedEndOfInput => ParserErrorKindView::UnexpectedEndOfInput,
        }
    }
}

/// A parsing failure; an unexpected token is carried along for diagnostics.
#[derive(Debug, PartialEq, Eq)]
pub struct ParserError(pub ParserErrorKind);

impl View for ParserError {
    type V = ParserErrorKindView;

    open spec fn view(&self) -> ParserErrorKindView {
        self.0@
    }
}

impl ParserError {
    /// The failure described in words.
    pub open spec fn spec_message(&self) -> Seq<char> {
        match self@ {
            ParserErrorKindView::UnexpectedToken(_) => "Unexpected token"@,
            ParserErrorKindView::UnexpectedEndOfInput => "Unexpected end of input"@,
        }
    }

    pub fn message(&self) -> (m: String)
        ensures
            m@ == self.spec_message(),
    {
        match &self.0 {
            ParserErrorKind::UnexpectedToken(_) => String::from_str("Unexpected token"),
            ParserErrorKind::UnexpectedEndOfInput => String::from_str("Unexpected end of input"),
        }
    }
}

/// An operator that joins terms into an expression.
pub open spec fn is_additive_op(t: TokenView) -> bool {
    t is Plus || t is Minus
}

/// An operator that joins factors into a term.
pub open spec fn is_multiplicative_op(t: TokenView) -> bool {
    t is Multiply || t is Divide
}

/// The node an additive operator builds.
pub open spec fn apply_additive(op: TokenView, l: AstView, r: AstView) -> AstView {
    if op is Plus {
        AstView::Add(Box::new(l), Box::new(r))
    } else {
        AstView::Subtract(Box::new(l), Box::new(r))
    }
}

/// The node a multiplicative operator builds.
pub open spec fn apply_multiplicative(op: TokenView, l: AstView, r: AstView) -> AstView {
    if op is Multiply {
        AstView::Multiply(Box::new(l), Box::new(r))
    } else {
        AstView::Divide(Box::new(l), Box::new(r))
    }
}

/// One result of a grammar production: the tree built and the position of
/// the first token it did not consume.
pub type ParseStep = Result<(AstView, int), ParserErrorKindView>;

/// `expression := term ( ('+' | '-') term )*`, starting at `pos`.
pub open spec fn parse_expression_at(t: Seq<TokenView>, pos: int) -> ParseStep
    decreases t.len() - pos, 6int,
        when 0 <= pos <= t.len()
{
    match parse_term_at(t, pos) {
        Err(e) => Err(e),
        Ok((left, p)) => if pos <= p <= t.len() {
            parse_expression_rest(t, p, left)
        } else {
            Err(ParserErrorKindView::UnexpectedEndOfInput)
        },
    }
}

/// The left-associative fold of `( ('+' | '-') term )*` onto `left`.
pub open spec fn parse_expression_rest(t: Seq<TokenView>, pos: int, left: AstView) -> ParseStep
    decreases t.len() - pos, 5int,
        when 0 <= pos <= t.len()
{
    if pos < t.len() && is_additive_op(t[pos]) {
        match parse_term_at(t, pos + 1) {
            Err(e) => Err(e),
            Ok((right, p2)) => if pos < p2 <= t.len() {
                parse_expression_rest(t, p2, apply_additive(t[pos], left, right))
            } else {
                Err(ParserErrorKindView::UnexpectedEndOfInput)
            },
        }
    } else {
        Ok((left, pos))
    }
}

/// `term := factor ( ('*' | '/') factor )*`, starting at `pos`.
pub open spec fn parse_term_at(t: Seq<TokenView>, pos: int) -> ParseStep
    decreases t.len() - pos, 4int,
        when 0 <= pos <= t.len()
{
    match parse_factor_at(t, pos) {
        Err(e) => Err(e),
        Ok((left, p)) => if pos <= p <= t.len() {
            parse_term_rest(t, p, left)
        } else {
            Err(ParserErrorKindView::UnexpectedEndOfInput)
        },
    }
}

/// The left-associative fold of `( ('*' | '/') factor )*` onto `left`.
pub open spec fn parse_term_rest(t: Seq<TokenView>, pos: int, left: AstView) -> ParseStep
    decreases t.len() - pos, 3int,
        when 0 <= pos <= t.len()
{
    if pos < t.len() && is_multiplicative_op(t[pos]) {
        match parse_factor_at(t, pos + 1) {
            Err(e) => Err(e),
            Ok((right, p2)) => if pos < p2 <= t.len() {
                parse_term_rest(t, p2, apply_multiplicative(t[pos], left, right))
            } else {
                Err(ParserErrorKindView::UnexpectedEndOfInput)
            },
        }
    } else {
        Ok((left, pos))
    }
}

/// `factor := primary ( '^' factor )?`: the right recursion makes `^`
/// right-associative.
pub open spec fn parse_factor_at(t: Seq<TokenView>, pos: int) -> ParseStep
    decreases t.len() - pos, 2int,
        when 0 <= pos <= t.len()
{
    match parse_primary_at(t, pos) {
        Err(e) => Err(e),
        Ok((base, p)) => if pos <= p && p < t.len() && t[p] is Power {
            match parse_factor_at(t, p + 1) {
                Err(e) => Err(e),
                Ok((exponent, p2)) => Ok(
                    (AstView::Power(Box::new(base), Box::new(exponent)), p2),
                ),
            }
        } else {
            Ok((base, p))
        },
    }
}

/// `primary := Number | '(' expression ')'`.  A missing closing parenthesis
/// is rejected: at the end of the input as an unexpected end, anywhere else
/// as an unexpected token.
pub open spec fn parse_primary_at(t: Seq<TokenView>, pos: int) -> ParseStep
    decreases t.len() - pos, 0int,
        when 0 <= pos <= t.len()
{
    if pos >= t.len() {
        Err(ParserErrorKindView::UnexpectedEndOfInput)
    } else {
        match t[pos] {
            TokenView::Number(lit) => Ok((AstView::Number(lit), pos + 1)),
            TokenView::LeftParen => match parse_expression_at(t, pos + 1) {
                Err(e) => Err(e),
                Ok((inner, p)) => if p >= t.len() {
                    Err(ParserErrorKindView::UnexpectedEndOfInput)
                } else if t[p] is RightParen {
                    Ok((inner, p + 1))
                } else {
                    Err(ParserErrorKindView::UnexpectedToken(t[p]))
                },
            },
            _ => Err(ParserErrorKindView::UnexpectedToken(t[pos])),
        }
    }
}

/// A successful expression consumes at least one token and stays inside the
/// token sequence.
pub proof fn lemma_progress_expression(t: Seq<TokenView>, pos: int)
    requires
        0 <= pos <= t.len(),
    ensures
        parse_expression_at(t, pos) matches Ok(r) ==> pos < r.1 <= t.len(),
    decreases t.len() - pos, 6int,
{
    lemma_progress_term(t, pos);
    if let Ok((left, p)) = parse_term_at(t, pos) {
        lemma_progress_expression_rest(t, p, left);
    }
}

/// The additive fold never moves backwards and stays inside the tokens.
pub proof fn lemma_progress_expression_rest(t: Seq<TokenView>, pos: int, left: AstView)
    requires
        0 <= pos <= t.len(),
    ensures
        parse_expression_rest(t, pos, left) matches Ok(r) ==> pos <= r.1 <= t.len(),
    decreases t.len() - pos, 5int,
{
    if pos < t.len() && is_additive_op(t[pos]) {
        lemma_progress_term(t, pos + 1);
        if let Ok((right, p2)) = parse_term_at(t, pos + 1) {
            lemma_progress_expression_rest(t, p2, apply_additive(t[pos], left, right));
        }
    }
}

/// A successful term consumes at least one token and stays inside the
/// token sequence.
pub proof fn lemma_progress_term(t: Seq<TokenView>, pos: int)
    requires
        0 <= pos <= t.len(),
    ensures
        parse_term_at(t, pos) matches Ok(r) ==> pos < r.1 <= t.len(),
    decreases t.len() - pos, 4int,
{
    lemma_progress_factor(t, pos);
    if let Ok((left, p)) = parse_factor_at(t, pos) {
        lemma_progress_term_rest(t, p, left);
    }
}

/// The multiplicative fold never moves backwards and stays inside the
/// tokens.
pub proof fn lemma_progress_term_rest(t: Seq<TokenView>, pos: int, left: AstView)
    requires
        0 <= pos <= t.len(),
    ensures
        parse_term_rest(t, pos, left) matches Ok(r) ==> pos <= r.1 <= t.len(),
    decreases t.len() - pos, 3int,
{
    if pos < t.len() && is_multiplicative_op(t[pos]) {
        lemma_progress_factor(t, pos + 1);
        if let Ok((right, p2)) = parse_factor_at(t, pos + 1) {
            lemma_progress_term_rest(t, p2, apply_multiplicative(t[pos], left, right));
        }
    }
}

/// A successful factor consumes at least one token and stays inside the
/// token sequence.
pub proof fn lemma_progress_factor(t: Seq<TokenView>, pos: int)
    requires
        0 <= pos <= t.len(),
    ensures
        parse_factor_at(t, pos) matches Ok(r) ==> pos < r.1 <= t.len(),
    decreases t.len() - pos, 2int,
{
    lemma_progress_primary(t, pos);
    if let Ok((base, p)) = parse_primary_at(t, pos) {
        if pos <= p && p < t.len() && t[p] is Power {
            lemma_progress_factor(t, p + 1);
        }
    }
}

/// A successful primary consumes at least one token and stays inside the
/// token sequence.
pub proof fn lemma_progress_primary(t: Seq<TokenView>, pos: int)
    requires
        0 <= pos <= t.len(),
    ensures
        parse_primary_at(t, pos) matches Ok(r) ==> pos < r.1 <= t.len(),
    decreases t.len() - pos, 0int,
{
    if pos < t.len() && t[pos] is LeftParen {
        lemma_progress_expression(t, pos + 1);
    }
}

/// The parser: the complete token sequence and a cursor that only moves
/// forward.
pub struct Parser {
    pub tokens: Vec<Token>,
    pub pos: usize,
}

impl Parser {
    /// The cursor never leaves the token sequence.
    pub open spec fn wf(&self) -> bool {
        self.pos <= self.tokens@.len()
    }

    /// The token sequence as mathematical values.
    pub open spec fn toks(&self) -> Seq<TokenView> {
        token_views(self.tokens@)
    }

    pub fn new(tokens: Vec<Token>) -> (parser: Parser)
        ensures
            parser.wf(),
            parser.tokens@ == tokens@,
            parser.pos == 0,
    {
        Parser { tokens, pos: 0 }
    }

    /// Parse one expression from the start of the remaining tokens.  Tokens
    /// after the expression are left unconsumed.
    pub fn parse(&mut self) -> (r: Result<ASTNode, ParserError>)
        requires
            old(self).wf(),
        ensures
            final(self).wf(),
            final(self).tokens@ == old(self).tokens@,
            old(self).pos <= final(self).pos,
            ({
                match parse_expression_at(old(self).toks(), old(self).pos as int) {
                    Ok(r2) => r matches Ok(node) && ast_view(node) == r2.0 && final(self).pos
                        == r2.1,
                    Err(k) => r matches Err(e) && e@ == k,
                }
            }),
    {
        self.parse_expression()
    }

    fn parse_expression(&mut self) -> (r: Result<ASTNode, ParserError>)
        requires
            old(self).wf(),
        ensures
            final(self).wf(),
            final(self).tokens@ == old(self).tokens@,
            old(self).pos <= final(self).pos,
            ({
                match parse_expression_at(old(self).toks(), old(self).pos as int) {
                    Ok(r2) => r matches Ok(node) && ast_view(node) == r2.0 && final(self).pos
                        == r2.1,
                    Err(k) => r matches Err(e) && e@ == k,
                }
            }),
        decreases self.tokens@.len() - self.pos, 6int,
    {
        let ghost t = self.toks();
        let ghost pos0 = self.pos as int;
        let mut left = match self.parse_term() {
            Ok(node) => node,
            Err(e) => {
                return Err(e);
            },
        };
        proof {
            lemma_progress_term(t, pos0);
        }
        loop
            invariant
                self.wf(),
                self.tokens@ == old(self).tokens@,
                t == token_views(self.tokens@),
                0 <= pos0 <= self.pos as int <= t.len(),
                pos0 == old(self).pos as int,
                parse_expression_at(t, pos0) == parse_expression_rest(
                    t,
                    self.pos as int,
                    ast_view(left),
                ),
            decreases t.len() - self.pos,
        {
            let ghost cur = self.pos as int;
            if self.pos >= self.tokens.len() {
                return Ok(left);
            }
            let is_plus = matches!(&self.tokens[self.pos], Token::Plus);
            let is_minus = matches!(&self.tokens[self.pos], Token::Minus);
            if !is_plus && !is_minus {
                return Ok(left);
            }
            self.pos = self.pos + 1;
            let ghost lprev = ast_view(left);
            match self.parse_term() {
                Err(e) => {
                    return Err(e);
                },
                Ok(right) => {
                    proof {
                        lemma_progress_term(t, cur + 1);
                    }
                    left = if is_plus {
                        ASTNode::Add(Box::new(left), Box::new(right))
                    } else {
                        ASTNode::Subtract(Box::new(left), Box::new(right))
                    };
                    proof {
                        assert(parse_expression_rest(t, cur, lprev) == parse_expression_rest(
                            t,
                            self.pos as int,
                            ast_view(left),
                        ));
                    }
                },
            }
        }
    }

    fn parse_term(&mut self) -> (r: Result<ASTNode, ParserError>)
        requires
            old(self).wf(),
        ensures
            final(self).wf(),
            final(self).tokens@ == old(self).tokens@,
            old(self).pos <= final(self).pos,
            ({
                match parse_term_at(old(self).toks(), old(self).pos as int) {
                    Ok(r2) => r matches Ok(node) && ast_view(node) == r2.0 && final(self).pos
                        == r2.1,
                    Err(k) => r matches Err(e) && e@ == k,
                }
            }),
        decreases self.tokens@.len() - self.pos, 4int,
    {
        let ghost t = self.toks();
        let ghost pos0 = self.pos as int;
        let mut left = match self.parse_factor() {
            Ok(node) => node,
            Err(e) => {
                return Err(e);
            },
        };
        proof {
            lemma_progress_factor(t, pos0);
        }
        loop
            invariant
                self.wf(),
                self.tokens@ == old(self).tokens@,
                t == token_views(self.tokens@),
                0 <= pos0 <= self.pos as int <= t.len(),
                pos0 == old(self).pos as int,
                parse_term_at(t, pos0) == parse_term_rest(t, self.pos as int, ast_view(left)),
            decreases t.len() - self.pos,
        {
            let ghost cur = self.pos as int;
            if self.pos >= self.tokens.len() {
                return Ok(left);
            }
            let is_mul = matches!(&self.tokens[self.pos], Token::Multiply);
            let is_div = matches!(&self.tokens[self.pos], Token::Divide);
            if !is_mul && !is_div {
                return Ok(left);
            }
            self.pos = self.pos + 1;
            let ghost lprev = ast_view(left);
            match self.parse_factor() {
                Err(e) => {
                    return Err(e);
                },
                Ok(right) => {
                    proof {
                        lemma_progress_factor(t, cur + 1);
                    }
                    left = if is_mul {
                        ASTNode::Multiply(Box::new(left), Box::new(right))
                    } else {
                        ASTNode::Divide(Box::new(left), Box::new(right))
                    };
                    proof {
                        assert(parse_term_rest(t, cur, lprev) == parse_term_rest(
                            t,
                            self.pos as int,
                            ast_view(left),
                        ));
                    }
                },
            }
        }
    }

    fn parse_factor(&mut self) -> (r: Result<ASTNode, ParserError>)
        requires
            old(self).wf(),
        ensures
            final(self).wf(),
            final(self).tokens@ == old(self).tokens@,
            old(self).pos <= final(self).pos,
            ({
                match parse_factor_at(old(self).toks(), old(self).pos as int) {
                    Ok(r2) => r matches Ok(node) && ast_view(node) == r2.0 && final(self).pos
                        == r2.1,
                    Err(k) => r matches Err(e) && e@ == k,
                }
            }),
        decreases self.tokens@.len() - self.pos, 2int,
    {
        let ghost t = self.toks();
        let ghost pos0 = self.pos as int;
        let base = match self.parse_primary() {
            Ok(node) => node,
            Err(e) => {
                return Err(e);
            },
        };
        proof {
            lemma_progress_primary(t, pos0);
        }
        if self.pos < self.tokens.len() && matches!(&self.tokens[self.pos], Token::Power) {
            self.pos = self.pos + 1;
            match self.parse_factor() {
                Err(e) => Err(e),
                Ok(exponent) => Ok(ASTNode::Power(Box::new(base), Box::new(exponent))),
            }
        } else {
            Ok(base)
        }
    }

    fn parse_primary(&mut self) -> (r: Result<ASTNode, ParserError>)
        requires
            old(self).wf(),
        ensures
            final(self).wf(),
            final(self).tokens@ == old(self).tokens@,
            old(self).pos <= final(self).pos,
            ({
                match parse_primary_at(old(self).toks(), old(self).pos as int) {
                    Ok(r2) => r matches Ok(node) && ast_view(node) == r2.0 && final(self).pos
                        == r2.1,
                    Err(k) => r matches Err(e) && e@ == k,
                }
            }),
        decreases self.tokens@.len() - self.pos, 0int,
    {
        let ghost t = self.toks();
        let ghost pos0 = self.pos as int;
        if self.pos >= self.tokens.len() {
            return Err(ParserError(ParserErrorKind::UnexpectedEndOfInput));
        }
        let token = self.tokens[self.pos].clone();
        match token {
            Token::Number(lit) => {
                self.pos = self.pos + 1;
                Ok(ASTNode::Number(lit))
            },
            Token::LeftParen => {
                self.pos = self.pos + 1;
                let inner = match self.parse_expression() {
                    Ok(node) => node,
                    Err(e) => {
                        return Err(e);
                    },
                };
                proof {
                    lemma_progress_expression(t, pos0 + 1);
                }
                if self.pos >= self.tokens.len() {
                    return Err(ParserError(ParserErrorKind::UnexpectedEndOfInput));
                }
                if matches!(&self.tokens[self.pos], Token::RightParen) {
                    self.pos = self.pos + 1;
                    Ok(inner)
                } else {
                    let offending = self.tokens[self.pos].clone();
                    Err(ParserError(ParserErrorKind::UnexpectedToken(offending)))
                }
            },
            other => Err(ParserError(ParserErrorKind::UnexpectedToken(other))),
        }
    }
}

} // verus!
