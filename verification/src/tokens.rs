//! The closed set of lexical categories the lexer can emit.

use vstd::prelude::*;

verus! {

/// A lexical token.  `Number` carries the literal text exactly as it stood
/// in the source: a run of decimal digits with at most one `.` inside.
#[derive(Debug, PartialEq, Eq)]
pub enum Token {
    Number(String),
    Plus,
    Minus,
    Multiply,
    Divide,
    Power,
    LeftParen,
    RightParen,
}

/// The mathematical shape of a token: the literal text of a number is a
/// sequence of characters, everything else is a bare category.
pub enum TokenView {
    Number(Seq<char>),
    Plus,
    Minus,
    Multiply,
    Divide,
    Power,
    LeftParen,
    RightParen,
}

impl View for Token {
    type V = TokenView;

    open spec fn view(&self) -> TokenView {
        match *self {
            Token::Number(ref s) => TokenView::Number(s@),
            Token::Plus => TokenView::Plus,
            Token::Minus => TokenView::Minus,
            Token::Multiply => TokenView::Multiply,
            Token::Divide => TokenView::Divide,
            Token::Power => TokenView::Power,
            Token::LeftParen => TokenView::LeftParen,
            Token::RightParen => TokenView::RightParen,
        }
    }
}

impl Clone for Token {
    fn clone(&self) -> (r: Self)
        ensures
            r@ == self@,
    {
        match self {
            Token::Number(s) => Token::Number(s.clone()),
            Token::Plus => Token::Plus,
            Token::Minus => Token::Minus,
            Token::Multiply => Token::Multiply,
            Token::Divide => Token::Divide,
            Token::Power => Token::Power,
            Token::LeftParen => Token::LeftParen,
            Token::RightParen => Token::RightParen,
        }
    }
}

impl Token {
    /// The name of the operation a binary-operator token stands for; a
    /// number or a parenthesis performs none.
    pub fn get_operation(&self) -> (r: Option<&'static str>)
        ensures
            self is Plus ==> (r matches Some(s) && s@ == "plus"@),
            self is Minus ==> (r matches Some(s) && s@ == "minus"@),
            self is Multiply ==> (r matches Some(s) && s@ == "multiply"@),
            self is Divide ==> (r matches Some(s) && s@ == "divide"@),
            self is Power ==> (r matches Some(s) && s@ == "power"@),
            self is Number || self is LeftParen || self is RightParen ==> r is None,
    {
        match self {
            Token::Plus => Some(Plus::op_name()),
            Token::Minus => Some(Minus::op_name()),
            Token::Multiply => Some(Multiply::op_name()),
            Token::Divide => Some(Divide::op_name()),
            Token::Power => Some(Power::op_name()),
            _ => None,
        }
    }
}

/// The `+` token.
#[derive(Debug, Clone, Copy, PartialEq, Eq, Structural)]
pub struct Plus;

impl Plus {
    /// The name of the operation the token performs.
    pub fn op_name() -> (r: &'static str)
        ensures
            r@ == "plus"@,
    {
        "plus"
    }

    /// How the token is written in the source text.
    pub fn as_str() -> (r: &'static str)
        ensures
            r@ == "+"@,
    {
        "+"
    }
}

/// The `-` token.
#[derive(Debug, Clone, Copy, PartialEq, Eq, Structural)]
pub struct Minus;

impl Minus {
    /// The name of the operation the token performs.
    pub fn op_name() -> (r: &'static str)
        ensures
            r@ == "minus"@,
    {
        "minus"
    }

    /// How the token is written in the source text.
    pub fn as_str() -> (r: &'static str)
        ensures
            r@ == "-"@,
    {
        "-"
    }
}

/// The `*` token.
#[derive(Debug, Clone, Copy, PartialEq, Eq, Structural)]
pub struct Multiply;

impl Multiply {
    /// The name of the operation the token performs.
    pub fn op_name() -> (r: &'static str)
        ensures
            r@ == "multiply"@,
    {
        "multiply"
    }

    /// How the token is written in the source text.
    pub fn as_str() -> (r: &'static str)
        ensures
            r@ == "*"@,
    {
        "*"
    }
}

/// The `/` token.
#[derive(Debug, Clone, Copy, PartialEq, Eq, Structural)]
pub struct Divide;

impl Divide {
    /// The name of the operation the token performs.
    pub fn op_name() -> (r: &'static str)
        ensures
            r@ == "divide"@,
    {
        "divide"
    }

    /// How the token is written in the source text.
    pub fn as_str() -> (r: &'static str)
        ensures
            r@ == "/"@,
    {
        "/"
    }
}

/// The `^` token.
#[derive(Debug, Clone, Copy, PartialEq, Eq, Structural)]
pub struct Power;

impl Power {
    /// The name of the operation the token performs.
    pub fn op_name() -> (r: &'static str)
        ensures
            r@ == "power"@,
    {
        "power"
    }

    /// How the token is written in the source text.
    pub fn as_str() -> (r: &'static str)
        ensures
            r@ == "^"@,
    {
        "^"
    }
}

/// The `(` token.
#[derive(Debug, Clone, Copy, PartialEq, Eq, Structural)]
pub struct LeftParen;

impl LeftParen {
    /// How the token is written in the source text.
    pub fn as_str() -> (r: &'static str)
        ensures
            r@ == "("@,
    {
        "("
    }
}

/// The `)` token.
#[derive(Debug, Clone, Copy, PartialEq, Eq, Structural)]
pub struct RightParen;

impl RightParen {
    /// How the token is written in the source text.
    pub fn as_str() -> (r: &'static str)
        ensures
            r@ == ")"@,
    {
        ")"
    }
}

} // verus!
