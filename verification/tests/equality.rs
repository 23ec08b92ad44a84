use reggae_lang::driver::Type;
use reggae_lang::lexer::{Keyword, Token};
use reggae_lang::parser::{Expression, ParserError, Statement};

fn call(name: &str, arguments: Vec<Expression>) -> Expression {
    Expression::FunctionCall {
        name: name.to_string(),
        arguments,
    }
}

fn number(value: i64) -> Expression {
    Expression::Literal(Token::NumberLiteral(value))
}

#[test]
fn tokens_are_equal_by_kind_and_content() {
    assert_eq!(Token::Identifier("a".to_string()), Token::Identifier("a".to_string()));
    assert_ne!(Token::Identifier("a".to_string()), Token::Identifier("b".to_string()));
    assert_ne!(Token::Identifier("a".to_string()), Token::StringLiteral("a".to_string()));
    assert_eq!(Token::NumberLiteral(1), Token::NumberLiteral(1));
    assert_ne!(Token::NumberLiteral(1), Token::NumberLiteral(2));
    assert_eq!(Token::Keyword(Keyword::Roots), Token::Keyword(Keyword::Roots));
    assert_ne!(Token::Keyword(Keyword::Roots), Token::Keyword(Keyword::If));
    assert_eq!(Token::Colon, Token::Colon);
    assert_ne!(Token::Colon, Token::SemiColon);
    assert_ne!(Token::OpenParen, Token::CloseParen);
    assert_ne!(Token::Equals, Token::NumberLiteral(0));
}

#[test]
fn expressions_are_equal_by_shape_and_content() {
    assert_eq!(number(1), number(1));
    assert_ne!(number(1), number(2));
    assert_ne!(number(1), Expression::Identifier("x".to_string()));
    assert_eq!(call("f", vec![]), call("f", vec![]));
    assert_ne!(call("f", vec![]), call("g", vec![]));
    assert_ne!(call("f", vec![number(1)]), call("f", vec![]));
    assert_ne!(call("f", vec![number(1)]), call("f", vec![number(2)]));
    assert_eq!(
        call("f", vec![call("g", vec![number(1)]), number(2)]),
        call("f", vec![call("g", vec![number(1)]), number(2)])
    );
    assert_ne!(
        call("f", vec![call("g", vec![number(1)]), number(2)]),
        call("f", vec![call("g", vec![number(3)]), number(2)])
    );
}

#[test]
fn statements_are_equal_by_shape_and_content() {
    let declaration = |name: &str, value: i64| Statement::VariableDeclaration {
        name: name.to_string(),
        expression: number(value),
    };
    assert_eq!(declaration("x", 1), declaration("x", 1));
    assert_ne!(declaration("x", 1), declaration("y", 1));
    assert_ne!(declaration("x", 1), declaration("x", 2));
    assert_ne!(declaration("x", 1), Statement::ExpressionStatement(number(1)));
    assert_eq!(
        Statement::ExpressionStatement(call("f", vec![])),
        Statement::ExpressionStatement(call("f", vec![]))
    );
}

#[test]
fn errors_and_values_are_equal_by_kind_and_content() {
    assert_eq!(ParserError::Eof, ParserError::Eof);
    assert_ne!(ParserError::Eof, ParserError::Unknown);
    assert_eq!(
        ParserError::ExpectedToken(Token::Equals),
        ParserError::ExpectedToken(Token::Equals)
    );
    assert_ne!(
        ParserError::ExpectedToken(Token::Equals),
        ParserError::ExpectedToken(Token::SemiColon)
    );
    assert_ne!(ParserError::InvalidFuncall, ParserError::ExpectedExpression);
    assert_eq!(Type::Int(1), Type::Int(1));
    assert_ne!(Type::Int(1), Type::Int(2));
    assert_eq!(Type::Str("a".to_string()), Type::Str("a".to_string()));
    assert_ne!(Type::Str("a".to_string()), Type::Str("b".to_string()));
    assert_ne!(Type::Str("1".to_string()), Type::Int(1));
}
