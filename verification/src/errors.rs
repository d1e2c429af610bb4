//! The single error surface of the whole pipeline: the stage that failed,
//! with its own error inside.

use vstd::prelude::*;

use crate::ast::{ast_view, ASTNode};
use crate::lexer::{lex_from, tokenize, LexerError};
use crate::location::{col_at, line_at};
use crate::parser::{parse_expression_at, Parser, ParserError};

verus! {

/// An error of either stage, lexing or parsing.
#[derive(Debug, PartialEq, Eq)]
pub enum AppError {
    Lexer(LexerError),
    Parser(ParserError),
}

pub type AppResult<T> = Result<T, AppError>;

impl From<LexerError> for AppError {
    fn from(error: LexerError) -> (r: Self)
        ensures
            r == AppError::Lexer(error),
    {
        AppError::Lexer(error)
    }
}

impl vstd::std_specs::convert::FromSpecImpl<LexerError> for AppError {
    open spec fn obeys_from_spec() -> bool {
        true
    }

    open spec fn from_spec(error: LexerError) -> Self {
        AppError::Lexer(error)
    }
}

impl From<ParserError> for AppError {
    fn from(error: ParserError) -> (r: Self)
        ensures
            r == AppError::Parser(error),
    {
        AppError::Parser(error)
    }
}

impl vstd::std_specs::convert::FromSpecImpl<ParserError> for AppError {
    open spec fn obeys_from_spec() -> bool {
        true
    }

    open spec fn from_spec(error: ParserError) -> Self {
        AppError::Parser(error)
    }
}

impl AppError {
    /// The failing stage and its failure, described in words; a lexing
    /// failure carries its line and column.
    pub open spec fn spec_message(&self) -> Seq<char> {
        match *self {
            AppError::Lexer(e) => "Error(Lexer): "@ + e.spec_describe(),
            AppError::Parser(e) => "Error(Parser): "@ + e.spec_message(),
        }
    }

    pub fn message(&self) -> (m: String)
        ensures
            m@ == self.spec_message(),
    {
        match self {
            AppError::Lexer(e) => {
                let mut m = String::from_str("Error(Lexer): ");
                m.append(e.describe().as_str());
                m
            },
            AppError::Parser(e) => {
                let mut m = String::from_str("Error(Parser): ");
                m.append(e.message().as_str());
                m
            },
        }
    }
}

/// The whole pipeline on one input: lex everything, then parse one
/// expression, reporting the first failure of either stage.
pub fn parse_input(input: &str) -> (r: AppResult<ASTNode>)
    requires
        input@.len() < usize::MAX,
    ensures
        ({
            let s = input@;
            match lex_from(s, 0) {
                Err(f) => r matches Err(e) && e matches AppError::Lexer(le) && le.kind@ == f.0
                    && le.location.index == f.1 && le.location.line == line_at(s, f.1)
                    && le.location.col == col_at(s, f.1),
                Ok(ts) => match parse_expression_at(ts, 0) {
                    Ok(r2) => r matches Ok(node) && ast_view(node) == r2.0,
                    Err(k) => r matches Err(e) && e matches AppError::Parser(pe) && pe@ == k,
                },
            }
        }),
{
    let tokens = match tokenize(input) {
        Ok(v) => v,
        Err(e) => {
            return Err(AppError::from(e));
        },
    };
    let mut parser = Parser::new(tokens);
    match parser.parse() {
        Ok(node) => Ok(node),
        Err(e) => Err(AppError::from(e)),
    }
}

} // verus!
