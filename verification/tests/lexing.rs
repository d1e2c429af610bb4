use expr_parser::errors::{parse_input, AppError};
use expr_parser::lexer::{tokenize, Lexer, LexerError, LexerErrorKind};
use expr_parser::location::Location;
use expr_parser::tokens::{
    Divide, LeftParen, Minus, Multiply, Plus, Power, RightParen, Token,
};

#[test]
fn tokenize_splits_the_input() {
    let tokens = tokenize("3 + 4").unwrap();
    assert_eq!(
        tokens,
        vec![
            Token::Number(String::from("3")),
            Token::Plus,
            Token::Number(String::from("4")),
        ]
    );
}

#[test]
fn tokenize_handles_every_token_kind() {
    let tokens = tokenize("(1.5 - 2) * 3 / 4 ^ 5").unwrap();
    assert_eq!(
        tokens,
        vec![
            Token::LeftParen,
            Token::Number(String::from("1.5")),
            Token::Minus,
            Token::Number(String::from("2")),
            Token::RightParen,
            Token::Multiply,
            Token::Number(String::from("3")),
            Token::Divide,
            Token::Number(String::from("4")),
            Token::Power,
            Token::Number(String::from("5")),
        ]
    );
}

#[test]
fn tokenize_ignores_surrounding_whitespace() {
    let tokens = tokenize("  3\t+\n4  ").unwrap();
    assert_eq!(
        tokens,
        vec![
            Token::Number(String::from("3")),
            Token::Plus,
            Token::Number(String::from("4")),
        ]
    );
}

#[test]
fn pull_based_lexing_ends_cleanly() {
    let mut lexer = Lexer::new("7 + 8");
    assert_eq!(lexer.next_token().unwrap(), Some(Token::Number(String::from("7"))));
    assert_eq!(lexer.next_token().unwrap(), Some(Token::Plus));
    assert_eq!(lexer.next_token().unwrap(), Some(Token::Number(String::from("8"))));
    assert_eq!(lexer.next_token().unwrap(), None);
    assert_eq!(lexer.next_token().unwrap(), None);
}

#[test]
fn trailing_decimal_point_is_invalid() {
    let err: LexerError = tokenize("3..4").unwrap_err();
    match err.kind {
        LexerErrorKind::InvalidNumberFormat(lit) => assert_eq!(lit, "3."),
        _ => panic!("expected an invalid number format"),
    }
    assert_eq!(err.location.line(), 1);
    assert_eq!(err.location.col(), 1);
    assert_eq!(err.location.index(), 0);
}

#[test]
fn trailing_decimal_point_error_through_the_pipeline() {
    match parse_input("3..4").unwrap_err() {
        AppError::Lexer(e) => {
            assert!(matches!(e.kind, LexerErrorKind::InvalidNumberFormat(_)));
            assert_eq!(e.message(), "Invalid number format: 3.");
            assert_eq!(e.location.col(), 1);
        },
        AppError::Parser(_) => panic!("expected a lexer error"),
    }
}

#[test]
fn unexpected_character_is_located() {
    let err = tokenize("3 @ 4").unwrap_err();
    match err.kind {
        LexerErrorKind::UnexpectedCharacter(c) => assert_eq!(c, '@'),
        _ => panic!("expected an unexpected character"),
    }
    assert_eq!(err.location.line(), 1);
    assert_eq!(err.location.col(), 3);
    assert_eq!(err.location.index(), 2);
    assert_eq!(err.message(), "Unexpected character: @");
    assert_eq!(err.describe(), "Error:[Unexpected character: @] in line 1 at column 3");
}

#[test]
fn describe_renders_multi_digit_columns() {
    let err = tokenize("1 + 2 + 3 + @").unwrap_err();
    assert_eq!(err.location.col(), 13);
    assert_eq!(err.describe(), "Error:[Unexpected character: @] in line 1 at column 13");
}

#[test]
fn errors_track_lines_and_columns() {
    let err = tokenize("1 +\n@").unwrap_err();
    assert_eq!(err.location.line(), 2);
    assert_eq!(err.location.col(), 1);
    assert_eq!(err.location.index(), 4);
}

#[test]
fn malformed_number_error_points_at_its_start() {
    let err = tokenize("1 + 27.").unwrap_err();
    match err.kind {
        LexerErrorKind::InvalidNumberFormat(lit) => assert_eq!(lit, "27."),
        _ => panic!("expected an invalid number format"),
    }
    assert_eq!(err.location.col(), 5);
    assert_eq!(err.location.index(), 4);
}

#[test]
fn location_starts_at_line_one_column_one() {
    let loc = Location::new();
    assert_eq!(loc.line(), 1);
    assert_eq!(loc.col(), 1);
    assert_eq!(loc.index(), 0);
}

#[test]
fn location_advance_tracks_newlines() {
    let mut loc = Location::new();
    loc.advance('a');
    assert_eq!((loc.index(), loc.line(), loc.col()), (1, 1, 2));
    loc.advance('\n');
    assert_eq!((loc.index(), loc.line(), loc.col()), (2, 2, 1));
    loc.advance('b');
    assert_eq!((loc.index(), loc.line(), loc.col()), (3, 2, 2));
}

#[test]
fn location_backtrack_undoes_one_column() {
    let mut loc = Location::new();
    loc.advance('a');
    loc.advance('b');
    loc.backtrack();
    assert_eq!((loc.index(), loc.line(), loc.col()), (1, 1, 2));
}

#[test]
fn operator_names_and_spellings() {
    assert_eq!(Plus::op_name(), "plus");
    assert_eq!(Plus::as_str(), "+");
    assert_eq!(Minus::op_name(), "minus");
    assert_eq!(Minus::as_str(), "-");
    assert_eq!(Multiply::op_name(), "multiply");
    assert_eq!(Multiply::as_str(), "*");
    assert_eq!(Divide::op_name(), "divide");
    assert_eq!(Divide::as_str(), "/");
    assert_eq!(Power::op_name(), "power");
    assert_eq!(Power::as_str(), "^");
    assert_eq!(LeftParen::as_str(), "(");
    assert_eq!(RightParen::as_str(), ")");
}

#[test]
fn operator_tokens_name_their_operation() {
    assert_eq!(Token::Plus.get_operation(), Some("plus"));
    assert_eq!(Token::Minus.get_operation(), Some("minus"));
    assert_eq!(Token::Multiply.get_operation(), Some("multiply"));
    assert_eq!(Token::Divide.get_operation(), Some("divide"));
    assert_eq!(Token::Power.get_operation(), Some("power"));
    assert_eq!(Token::Number(String::from("3")).get_operation(), None);
    assert_eq!(Token::LeftParen.get_operation(), None);
    assert_eq!(Token::RightParen.get_operation(), None);
}
