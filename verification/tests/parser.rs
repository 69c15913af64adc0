use minilang::lexer::cursor::Position;
use minilang::lexer::Lexer;
use minilang::parser::error::ParserError;
use minilang::parser::expression::{BinaryOperationKind, Expression, UnaryOperationKind};
use minilang::parser::{parse, AstNode};
use minilang::token::{LiteralKind, Token, TokenKind};
use minilang::token_stream::TokenStream;

/// Lex a source string and filter out whitespace, as the parser's caller
/// is expected to.
fn source_tokens(source: &str) -> Vec<Token> {
    let mut lexer = Lexer::new(source);
    let mut tokens = Vec::new();
    while let Some(item) = lexer.next() {
        tokens.push(item.unwrap());
    }
    tokens
        .into_iter()
        .filter(|t| !matches!(t.kind, TokenKind::Whitespace))
        .collect()
}

fn integer_token(chars: Vec<char>) -> Token {
    Token {
        kind: TokenKind::Literal { kind: LiteralKind::Integer, chars },
        position: Position::new(),
    }
}

fn integer_literal(chars: Vec<char>) -> Expression {
    Expression::Literal { kind: LiteralKind::Integer, chars }
}

#[test]
fn number_expressions() {
    assert_eq!(
        Expression::parse(&mut TokenStream::from(vec![integer_token(vec!['9', '0'])])).unwrap(),
        integer_literal(vec!['9', '0'])
    );

    assert_eq!(
        Expression::parse(&mut TokenStream::from(vec![integer_token(vec![
            '0', '0', '0', '0', '9', '0'
        ])]))
        .unwrap(),
        integer_literal(vec!['0', '0', '0', '0', '9', '0'])
    );
}

#[test]
fn unary_operation() {
    assert_eq!(
        Expression::parse(&mut TokenStream::from(vec![
            Token { kind: TokenKind::Minus, position: Position::new() },
            integer_token(vec!['9', '0']),
        ]))
        .unwrap(),
        Expression::UnaryOperation {
            operation: UnaryOperationKind::Negative,
            rhs: Box::new(integer_literal(vec!['9', '0'])),
        }
    );

    assert_eq!(
        Expression::parse(&mut TokenStream::from(vec![
            Token { kind: TokenKind::Minus, position: Position::new() },
            Token { kind: TokenKind::Minus, position: Position::new() },
            integer_token(vec!['9', '0']),
        ]))
        .unwrap(),
        Expression::UnaryOperation {
            operation: UnaryOperationKind::Negative,
            rhs: Box::new(Expression::UnaryOperation {
                operation: UnaryOperationKind::Negative,
                rhs: Box::new(integer_literal(vec!['9', '0'])),
            }),
        }
    );
}

#[test]
fn multiplication_binds_tighter_than_addition() {
    let mut stream = TokenStream::from(source_tokens("1 + 2 * 3"));
    assert_eq!(
        Expression::parse(&mut stream).unwrap(),
        Expression::BinaryOperation {
            operation: BinaryOperationKind::Add,
            lhs: Box::new(integer_literal(vec!['1'])),
            rhs: Box::new(Expression::BinaryOperation {
                operation: BinaryOperationKind::Mult,
                lhs: Box::new(integer_literal(vec!['2'])),
                rhs: Box::new(integer_literal(vec!['3'])),
            }),
        }
    );
}

#[test]
fn exponent_associates_to_the_right() {
    let mut stream = TokenStream::from(source_tokens("2 ^ 3 ^ 2"));
    assert_eq!(
        Expression::parse(&mut stream).unwrap(),
        Expression::BinaryOperation {
            operation: BinaryOperationKind::Exp,
            lhs: Box::new(integer_literal(vec!['2'])),
            rhs: Box::new(Expression::BinaryOperation {
                operation: BinaryOperationKind::Exp,
                lhs: Box::new(integer_literal(vec!['3'])),
                rhs: Box::new(integer_literal(vec!['2'])),
            }),
        }
    );
}

#[test]
fn unary_minus_parses_from_source() {
    let mut stream = TokenStream::from(source_tokens("- 90"));
    assert_eq!(
        Expression::parse(&mut stream).unwrap(),
        Expression::UnaryOperation {
            operation: UnaryOperationKind::Negative,
            rhs: Box::new(integer_literal(vec!['9', '0'])),
        }
    );

    let mut stream = TokenStream::from(source_tokens("- - 90"));
    assert_eq!(
        Expression::parse(&mut stream).unwrap(),
        Expression::UnaryOperation {
            operation: UnaryOperationKind::Negative,
            rhs: Box::new(Expression::UnaryOperation {
                operation: UnaryOperationKind::Negative,
                rhs: Box::new(integer_literal(vec!['9', '0'])),
            }),
        }
    );
}

#[test]
fn unary_minus_binds_looser_than_multiplication() {
    // `-a*b` parses as `-(a*b)`: the minus recurses into a whole term.
    let mut stream = TokenStream::from(source_tokens("-2*3"));
    assert_eq!(
        Expression::parse(&mut stream).unwrap(),
        Expression::UnaryOperation {
            operation: UnaryOperationKind::Negative,
            rhs: Box::new(Expression::BinaryOperation {
                operation: BinaryOperationKind::Mult,
                lhs: Box::new(integer_literal(vec!['2'])),
                rhs: Box::new(integer_literal(vec!['3'])),
            }),
        }
    );
}

#[test]
fn parentheses_group_subexpressions() {
    let mut stream = TokenStream::from(source_tokens("(1 + 2) * 3"));
    assert_eq!(
        Expression::parse(&mut stream).unwrap(),
        Expression::BinaryOperation {
            operation: BinaryOperationKind::Mult,
            lhs: Box::new(Expression::BinaryOperation {
                operation: BinaryOperationKind::Add,
                lhs: Box::new(integer_literal(vec!['1'])),
                rhs: Box::new(integer_literal(vec!['2'])),
            }),
            rhs: Box::new(integer_literal(vec!['3'])),
        }
    );
}

#[test]
fn missing_closing_parenthesis_is_reported() {
    let mut stream = TokenStream::from(source_tokens("(1 + 2"));
    assert!(matches!(
        Expression::parse(&mut stream),
        Err(ParserError::ExpectedTokenToFollow)
    ));
}

#[test]
fn let_statements_parse_in_order() {
    let ast = parse(source_tokens("let a = 1; let b = a;")).unwrap();
    assert_eq!(ast.len(), 2);
    assert!(matches!(ast[0], AstNode::Let(_)));
    assert!(matches!(ast[1], AstNode::Let(_)));
}

#[test]
fn comments_are_skipped_between_statements() {
    let ast = parse(source_tokens("// intro\nlet a = 1;")).unwrap();
    assert_eq!(ast.len(), 1);
}

#[test]
fn statement_must_start_with_let_or_comment() {
    assert!(matches!(
        parse(source_tokens("90;")),
        Err(ParserError::UnexpectedToken { .. })
    ));
}

#[test]
fn missing_equals_is_reported() {
    // The error names the required kind, at the position of the token
    // found in its place.
    assert_eq!(
        parse(source_tokens("let a 5;")).unwrap_err(),
        ParserError::ExpectedToken {
            token: TokenKind::Equals,
            position: Position { line: 0, character: 7 },
        }
    );
}

#[test]
fn missing_closing_parenthesis_names_the_required_kind() {
    let mut stream = TokenStream::from(source_tokens("(1 + 2;"));
    assert_eq!(
        Expression::parse(&mut stream).unwrap_err(),
        ParserError::ExpectedToken {
            token: TokenKind::RSmooth,
            position: Position { line: 0, character: 7 },
        }
    );
}

#[test]
fn missing_semicolon_names_the_required_kind() {
    assert_eq!(
        parse(source_tokens("let a = 5 x")).unwrap_err(),
        ParserError::ExpectedToken {
            token: TokenKind::Semi,
            position: Position { line: 0, character: 11 },
        }
    );
}

#[test]
fn missing_semicolon_is_reported() {
    assert!(matches!(
        parse(source_tokens("let a = 5")),
        Err(ParserError::ExpectedTokenToFollow)
    ));
}

#[test]
fn reparsing_identical_input_is_identical() {
    let source = "let a = 1 + 2 * 3; let b = -a ^ 2;";
    assert_eq!(
        parse(source_tokens(source)).unwrap(),
        parse(source_tokens(source)).unwrap()
    );
}

#[test]
fn expression_number_expressions() {
    assert_eq!(
        Expression::parse(&mut TokenStream::from(vec![integer_token(vec!['9', '0'])])).unwrap(),
        integer_literal(vec!['9', '0'])
    );

    assert_eq!(
        Expression::parse(&mut TokenStream::from(vec![integer_token(vec![
            '0', '0', '0', '0', '9', '0'
        ])]))
        .unwrap(),
        integer_literal(vec!['0', '0', '0', '0', '9', '0'])
    );
}

#[test]
fn expression_unary_operation() {
    assert_eq!(
        Expression::parse(&mut TokenStream::from(vec![
            Token { kind: TokenKind::Minus, position: Position::new() },
            integer_token(vec!['9', '0']),
        ]))
        .unwrap(),
        Expression::UnaryOperation {
            operation: UnaryOperationKind::Negative,
            rhs: Box::new(integer_literal(vec!['9', '0'])),
        }
    );

    assert_eq!(
        Expression::parse(&mut TokenStream::from(vec![
            Token { kind: TokenKind::Minus, position: Position::new() },
            Token { kind: TokenKind::Minus, position: Position::new() },
            integer_token(vec!['9', '0']),
        ]))
        .unwrap(),
        Expression::UnaryOperation {
            operation: UnaryOperationKind::Negative,
            rhs: Box::new(Expression::UnaryOperation {
                operation: UnaryOperationKind::Negative,
                rhs: Box::new(integer_literal(vec!['9', '0'])),
            }),
        }
    );
}
