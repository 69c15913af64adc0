use minilang::checks::typing::{Type, TypeEnvironment, TypeError};
use minilang::lexer::Lexer;
use minilang::parser::_let::Let;
use minilang::parser::expression::{BinaryOperationKind, Expression};
use minilang::parser::{parse, AstNode};
use minilang::token::{LiteralKind, Token, TokenKind};

/// Run the full pipeline: lex, filter whitespace, parse, type-check.
fn check_source(source: &str) -> Result<TypeEnvironment, TypeError> {
    let mut lexer = Lexer::new(source);
    let mut tokens: Vec<Token> = Vec::new();
    while let Some(item) = lexer.next() {
        tokens.push(item.unwrap());
    }
    let tokens: Vec<Token> = tokens
        .into_iter()
        .filter(|t| !matches!(t.kind, TokenKind::Whitespace))
        .collect();
    TypeEnvironment::from_ast(parse(tokens).unwrap())
}

fn integer_literal(chars: Vec<char>) -> Expression {
    Expression::Literal { kind: LiteralKind::Integer, chars }
}

#[test]
fn assignment() {
    let env = TypeEnvironment::from_ast(vec![AstNode::Let(Let {
        ident: "a".to_string(),
        rhs: integer_literal(vec!['1', '0']),
    })])
    .unwrap();
    assert_eq!(env.get(&"a".to_string()), Some(Type::Integer));
    assert_eq!(env.len(), 1);
}

#[test]
fn duplicated_assignment() {
    assert!(matches!(
        TypeEnvironment::from_ast(vec![
            AstNode::Let(Let {
                ident: "a".to_string(),
                rhs: integer_literal(vec!['1', '0']),
            }),
            AstNode::Let(Let {
                ident: "a".to_string(),
                rhs: integer_literal(vec!['1', '0']),
            }),
        ]),
        Err(TypeError::IdentRedeclared(_))
    ));
}

#[test]
fn nested_assignment() {
    let env = TypeEnvironment::from_ast(vec![
        AstNode::Let(Let { ident: "a".to_string(), rhs: integer_literal(vec!['1', '0']) }),
        AstNode::Let(Let { ident: "b".to_string(), rhs: integer_literal(vec!['1', '0']) }),
        AstNode::Let(Let {
            ident: "c".to_string(),
            rhs: Expression::BinaryOperation {
                operation: BinaryOperationKind::Add,
                lhs: Box::new(integer_literal(vec!['1', '0'])),
                rhs: Box::new(Expression::BinaryOperation {
                    operation: BinaryOperationKind::Mult,
                    lhs: Box::new(Expression::Ident("b".to_string())),
                    rhs: Box::new(integer_literal(vec!['1', '0'])),
                }),
            },
        }),
    ])
    .unwrap();
    assert_eq!(env.get(&"a".to_string()), Some(Type::Integer));
    assert_eq!(env.get(&"b".to_string()), Some(Type::Integer));
    assert_eq!(env.get(&"c".to_string()), Some(Type::Integer));
    assert_eq!(env.len(), 3);
}

#[test]
fn pipeline_types_integer_bindings() {
    let env = check_source("let a = 10; let b = 5; let c = a + b * 10;").unwrap();
    assert_eq!(env.get(&"a".to_string()), Some(Type::Integer));
    assert_eq!(env.get(&"b".to_string()), Some(Type::Integer));
    assert_eq!(env.get(&"c".to_string()), Some(Type::Integer));
    assert_eq!(env.len(), 3);
}

#[test]
fn pipeline_rejects_redeclaration() {
    let err = check_source("let a = 10; let a = 20;").unwrap_err();
    assert_eq!(err, TypeError::IdentRedeclared("a".to_string()));
}

#[test]
fn pipeline_rejects_mismatched_types() {
    let err = check_source("let a = 10; let b = \"x\"; let c = a + b;").unwrap_err();
    assert_eq!(
        err,
        TypeError::MismatchedTypes { lhs: Type::Integer, rhs: Type::String }
    );
}

#[test]
fn unknown_identifier_is_rejected() {
    let err = check_source("let a = b;").unwrap_err();
    assert_eq!(err, TypeError::UnknownIdent("b".to_string()));
}

#[test]
fn boolean_literal_gets_its_own_type() {
    let env = check_source("let flag = true;").unwrap();
    assert_eq!(env.get(&"flag".to_string()), Some(Type::Boolean));
}

#[test]
fn string_operands_of_one_type_are_accepted() {
    // The pass checks only that operands agree: string plus string
    // type-checks and yields the string type.
    let env = check_source("let a = \"x\"; let b = a + a;").unwrap();
    assert_eq!(env.get(&"b".to_string()), Some(Type::String));
}

#[test]
fn negating_any_type_is_accepted() {
    // A unary operation leaves its operand's type untouched, whatever it
    // is: negating a string currently type-checks.
    let env = check_source("let a = \"x\"; let b = -a;").unwrap();
    assert_eq!(env.get(&"b".to_string()), Some(Type::String));
}
