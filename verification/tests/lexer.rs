use minilang::lexer::cursor::Position;
use minilang::lexer::{Lexer, LexerError};
use minilang::token::{LiteralKind, Token, TokenKind};

/// Pull every token out of a lexer, panicking on a lexical error.
fn lex_tokens(source: &str) -> Vec<Token> {
    let mut lexer = Lexer::new(source);
    let mut tokens = Vec::new();
    while let Some(item) = lexer.next() {
        tokens.push(item.unwrap());
    }
    tokens
}

#[test]
fn integer() {
    assert_eq!(
        lex_tokens("-90"),
        vec![
            Token { kind: TokenKind::Minus, position: Position::new() },
            Token {
                kind: TokenKind::Literal { kind: LiteralKind::Integer, chars: vec!['9', '0'] },
                position: Position::new(),
            },
        ]
    );
}

#[test]
fn string() {
    assert_eq!(
        lex_tokens(r#""this is a \\very\\ cool \"string\"\\""#),
        vec![Token {
            kind: TokenKind::Literal {
                kind: LiteralKind::String,
                chars: r#"this is a \very\ cool "string"\"#.chars().collect(),
            },
            position: Position::new(),
        }]
    );
}

#[test]
fn boolean() {
    assert_eq!(
        lex_tokens("true"),
        vec![Token {
            kind: TokenKind::Literal {
                kind: LiteralKind::Boolean,
                chars: vec!['t', 'r', 'u', 'e'],
            },
            position: Position::new(),
        }]
    );
}

#[test]
fn integer_literal_keeps_leading_zeros() {
    assert_eq!(
        lex_tokens("000090"),
        vec![Token {
            kind: TokenKind::Literal {
                kind: LiteralKind::Integer,
                chars: vec!['0', '0', '0', '0', '9', '0'],
            },
            position: Position::new(),
        }]
    );
}

#[test]
fn whitespace_run_is_one_token() {
    assert_eq!(
        lex_tokens("1 \t\n 2"),
        vec![
            Token {
                kind: TokenKind::Literal { kind: LiteralKind::Integer, chars: vec!['1'] },
                position: Position::new(),
            },
            Token { kind: TokenKind::Whitespace, position: Position::new() },
            Token {
                kind: TokenKind::Literal { kind: LiteralKind::Integer, chars: vec!['2'] },
                position: Position::new(),
            },
        ]
    );
}

#[test]
fn comment_runs_to_end_of_line() {
    assert_eq!(
        lex_tokens("// note\n;"),
        vec![
            Token { kind: TokenKind::Comment(" note".to_string()), position: Position::new() },
            Token { kind: TokenKind::Whitespace, position: Position::new() },
            Token { kind: TokenKind::Semi, position: Position::new() },
        ]
    );
}

#[test]
fn lone_slash_is_an_operator() {
    assert_eq!(
        lex_tokens("8/2"),
        vec![
            Token {
                kind: TokenKind::Literal { kind: LiteralKind::Integer, chars: vec!['8'] },
                position: Position::new(),
            },
            Token { kind: TokenKind::Slash, position: Position::new() },
            Token {
                kind: TokenKind::Literal { kind: LiteralKind::Integer, chars: vec!['2'] },
                position: Position::new(),
            },
        ]
    );
}

#[test]
fn unrecognized_character_is_unknown() {
    assert_eq!(
        lex_tokens("@"),
        vec![Token { kind: TokenKind::Unknown, position: Position::new() }]
    );
}

#[test]
fn oversized_integer_fails_the_stream() {
    let mut lexer = Lexer::new("99999999999999999999999999");
    let item = lexer.next().unwrap();
    assert!(matches!(item, Err(LexerError::ParseIntError { .. })));
}

#[test]
fn token_positions_are_reported() {
    let mut lexer = Lexer::new("a\nb");
    let first = lexer.next().unwrap().unwrap();
    let second = lexer.next().unwrap().unwrap();
    let third = lexer.next().unwrap().unwrap();
    assert_eq!((first.position.line, first.position.character), (0, 1));
    assert_eq!((second.position.line, second.position.character), (1, 0));
    assert_eq!((third.position.line, third.position.character), (1, 1));
}

#[test]
fn relexing_identical_input_is_identical() {
    let source = "let a = 10; // the binding\nlet b = \"x\\\\y\";";
    assert_eq!(lex_tokens(source), lex_tokens(source));
}
