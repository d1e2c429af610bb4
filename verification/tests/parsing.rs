use expr_parser::ast::{divide, minus, multiply, number, plus, power, ASTNode};
use expr_parser::errors::{parse_input, AppError};
use expr_parser::parser::{Parser, ParserError, ParserErrorKind};
use expr_parser::tokens::Token;

/// Number of leaves of a tree.
fn leaves(node: &ASTNode) -> usize {
    match node {
        ASTNode::Number(_) => 1,
        ASTNode::Add(l, r) => leaves(l) + leaves(r),
        ASTNode::Subtract(l, r) => leaves(l) + leaves(r),
        ASTNode::Multiply(l, r) => leaves(l) + leaves(r),
        ASTNode::Divide(l, r) => leaves(l) + leaves(r),
        ASTNode::Power(l, r) => leaves(l) + leaves(r),
    }
}

#[test]
fn it_works() {
    let input = "3 + 4 * (2 + 1)^2";
    let root = plus(
        number("3"),
        multiply(number("4"), power(plus(number("2"), number("1")), number("2"))),
    );
    println!("{}", input);
    println!("{}", root.render());
}

#[test]
fn precedence_example() {
    let ast = parse_input("3 + 4 * (2 + 1)^2").unwrap();
    let expected = plus(
        number("3"),
        multiply(number("4"), power(plus(number("2"), number("1")), number("2"))),
    );
    assert_eq!(ast, expected);
    assert_eq!(ast.render(), "(3 + (4 * ((2 + 1) ^ 2)))");
}

#[test]
fn power_is_right_associative() {
    let ast = parse_input("2^3^2").unwrap();
    let expected = power(number("2"), power(number("3"), number("2")));
    assert_eq!(ast, expected);
    let wrong = power(power(number("2"), number("3")), number("2"));
    assert_ne!(ast, wrong);
}

#[test]
fn addition_is_left_associative() {
    let ast = parse_input("1 - 2 - 3").unwrap();
    assert_eq!(ast, minus(minus(number("1"), number("2")), number("3")));
}

#[test]
fn division_is_left_associative() {
    let ast = parse_input("8 / 4 / 2").unwrap();
    assert_eq!(ast, divide(divide(number("8"), number("4")), number("2")));
}

#[test]
fn unterminated_parenthesis_is_rejected() {
    match parse_input("(3 + 4").unwrap_err() {
        AppError::Parser(e) => {
            assert!(matches!(e.0, ParserErrorKind::UnexpectedEndOfInput));
            assert_eq!(e.message(), "Unexpected end of input");
        },
        AppError::Lexer(_) => panic!("expected a parser error"),
    }
}

#[test]
fn stray_closing_parenthesis_is_rejected() {
    match parse_input("3 + )").unwrap_err() {
        AppError::Parser(e) => match e.0 {
            ParserErrorKind::UnexpectedToken(token) => {
                assert_eq!(token, Token::RightParen);
            },
            ParserErrorKind::UnexpectedEndOfInput => panic!("expected an unexpected token"),
        },
        AppError::Lexer(_) => panic!("expected a parser error"),
    }
}

#[test]
fn mismatched_closing_parenthesis_names_the_token() {
    match parse_input("(3 + 4 5").unwrap_err() {
        AppError::Parser(e) => match e.0 {
            ParserErrorKind::UnexpectedToken(token) => {
                assert_eq!(token, Token::Number(String::from("5")));
            },
            ParserErrorKind::UnexpectedEndOfInput => panic!("expected an unexpected token"),
        },
        AppError::Lexer(_) => panic!("expected a parser error"),
    }
}

#[test]
fn empty_input_is_rejected() {
    match parse_input("").unwrap_err() {
        AppError::Parser(e) => {
            assert!(matches!(e.0, ParserErrorKind::UnexpectedEndOfInput));
        },
        AppError::Lexer(_) => panic!("expected a parser error"),
    }
}

#[test]
fn tokens_after_the_expression_are_left_alone() {
    let ast = parse_input("3 4").unwrap();
    assert_eq!(ast, number("3"));
}

#[test]
fn render_reparse_rebuilds_the_tree() {
    let ast = parse_input("3 + 4 * (2 + 1)^2").unwrap();
    let again = parse_input(ast.render().as_str()).unwrap();
    assert_eq!(again, ast);
}

#[test]
fn render_reparse_with_decimals() {
    let ast = divide(
        power(number("2.5"), number("2")),
        minus(number("10"), number("0.5")),
    );
    assert_eq!(ast.render(), "((2.5 ^ 2) / (10 - 0.5))");
    let again = parse_input(ast.render().as_str()).unwrap();
    assert_eq!(again, ast);
}

#[test]
fn leaf_count_matches_number_literals() {
    let ast = parse_input("3 + 4 * (2 + 1)^2").unwrap();
    assert_eq!(leaves(&ast), 5);
    let ast = parse_input("1 - 2 - 3").unwrap();
    assert_eq!(leaves(&ast), 3);
    let ast = parse_input("42").unwrap();
    assert_eq!(leaves(&ast), 1);
}

#[test]
fn parser_reports_position_independent_errors() {
    let tokens = vec![Token::Number(String::from("1")), Token::Plus];
    let mut parser = Parser::new(tokens);
    let err: ParserError = parser.parse().unwrap_err();
    assert!(matches!(err.0, ParserErrorKind::UnexpectedEndOfInput));
}

#[test]
fn parser_over_prepared_tokens() {
    let tokens = vec![
        Token::Number(String::from("6")),
        Token::Multiply,
        Token::LeftParen,
        Token::Number(String::from("1")),
        Token::Plus,
        Token::Number(String::from("2")),
        Token::RightParen,
    ];
    let mut parser = Parser::new(tokens);
    let ast = parser.parse().unwrap();
    assert_eq!(ast, multiply(number("6"), plus(number("1"), number("2"))));
}

#[test]
fn app_error_messages_name_the_stage() {
    let err = parse_input("3 + )").unwrap_err();
    assert_eq!(err.message(), "Error(Parser): Unexpected token");
    let err = parse_input("3 @ 4").unwrap_err();
    assert_eq!(
        err.message(),
        "Error(Lexer): Error:[Unexpected character: @] in line 1 at column 3"
    );
}
