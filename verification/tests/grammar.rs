use reggae_lang::lexer::{Keyword, Lexer, Token};
use reggae_lang::parser::{Expression, Parser, ParserError, Statement};

fn tokens(text: &str) -> Vec<Token> {
    Lexer::new(text.to_string()).parse().unwrap()
}

fn parse(text: &str) -> Result<Vec<Statement>, ParserError> {
    Parser::new(tokens(text)).parse()
}

fn number(value: i64) -> Expression {
    Expression::Literal(Token::NumberLiteral(value))
}

fn string(content: &str) -> Expression {
    Expression::Literal(Token::StringLiteral(content.to_string()))
}

fn variable(name: &str) -> Expression {
    Expression::Identifier(name.to_string())
}

fn call(name: &str, arguments: Vec<Expression>) -> Expression {
    Expression::FunctionCall {
        name: name.to_string(),
        arguments,
    }
}

fn declaration(name: &str, expression: Expression) -> Statement {
    Statement::VariableDeclaration {
        name: name.to_string(),
        expression,
    }
}

#[test]
fn a_declaration_from_text() {
    assert_eq!(parse("roots x = 1;"), Ok(vec![declaration("x", number(1))]));
}

#[test]
fn a_declaration_binds_any_expression() {
    assert_eq!(parse("roots x = 'a';"), Ok(vec![declaration("x", string("a"))]));
    assert_eq!(parse("roots x = y;"), Ok(vec![declaration("x", variable("y"))]));
    assert_eq!(
        parse("roots x = f(1);"),
        Ok(vec![declaration("x", call("f", vec![number(1)]))])
    );
}

#[test]
fn a_declaration_without_semicolon_from_text() {
    assert_eq!(
        parse("roots x = 1"),
        Err(ParserError::ExpectedToken(Token::SemiColon))
    );
    assert_eq!(
        parse("roots x = 1 roots"),
        Err(ParserError::ExpectedToken(Token::SemiColon))
    );
}

#[test]
fn a_declaration_without_expression_from_text() {
    assert_eq!(parse("roots x =;"), Err(ParserError::ExpectedExpression));
    assert_eq!(parse("roots x ="), Err(ParserError::ExpectedExpression));
    assert_eq!(parse("roots x = = 1;"), Err(ParserError::ExpectedExpression));
    assert_eq!(parse("roots x = roots;"), Err(ParserError::ExpectedExpression));
}

#[test]
fn a_declaration_with_a_broken_call_lacks_its_expression() {
    assert_eq!(parse("roots x = f(1,);"), Err(ParserError::ExpectedExpression));
    assert_eq!(parse("roots x = f(1"), Err(ParserError::ExpectedExpression));
}

#[test]
fn a_declaration_without_name() {
    assert_eq!(parse("roots = 1;"), Err(ParserError::ExpectedIdentifier));
    assert_eq!(parse("roots 1 = 1;"), Err(ParserError::ExpectedIdentifier));
    assert_eq!(parse("roots roots = 1;"), Err(ParserError::ExpectedIdentifier));
    assert_eq!(parse("roots"), Err(ParserError::ExpectedIdentifier));
}

#[test]
fn a_declaration_without_equals() {
    assert_eq!(
        parse("roots x 1;"),
        Err(ParserError::ExpectedToken(Token::Equals))
    );
    assert_eq!(
        parse("roots x"),
        Err(ParserError::ExpectedToken(Token::Equals))
    );
}

#[test]
fn a_call_statement() {
    assert_eq!(
        parse("sound();"),
        Ok(vec![Statement::ExpressionStatement(call("sound", vec![]))])
    );
    assert_eq!(
        parse("sound(x);"),
        Ok(vec![Statement::ExpressionStatement(call(
            "sound",
            vec![variable("x")]
        ))])
    );
    assert_eq!(
        parse("sound(x, 1, 'a');"),
        Ok(vec![Statement::ExpressionStatement(call(
            "sound",
            vec![variable("x"), number(1), string("a")]
        ))])
    );
}

#[test]
fn nested_calls() {
    assert_eq!(
        parse("f(g(1), \"a\");"),
        Ok(vec![Statement::ExpressionStatement(call(
            "f",
            vec![call("g", vec![number(1)]), string("a")]
        ))])
    );
    assert_eq!(
        parse("f(g(h(), i(j(x), 2)), k());"),
        Ok(vec![Statement::ExpressionStatement(call(
            "f",
            vec![
                call(
                    "g",
                    vec![
                        call("h", vec![]),
                        call("i", vec![call("j", vec![variable("x")]), number(2)])
                    ]
                ),
                call("k", vec![])
            ]
        ))])
    );
}

#[test]
fn nested_call_from_tokens() {
    let mut parser = Parser::new(vec![
        Token::Identifier("f".to_string()),
        Token::OpenParen,
        Token::Identifier("g".to_string()),
        Token::OpenParen,
        Token::NumberLiteral(1),
        Token::CloseParen,
        Token::Colon,
        Token::StringLiteral("a".to_string()),
        Token::CloseParen,
        Token::SemiColon,
    ]);
    assert_eq!(
        parser.next(),
        Ok(Statement::ExpressionStatement(Expression::FunctionCall {
            name: "f".to_string(),
            arguments: vec![
                Expression::FunctionCall {
                    name: "g".to_string(),
                    arguments: vec![Expression::Literal(Token::NumberLiteral(1))],
                },
                Expression::Literal(Token::StringLiteral("a".to_string())),
            ],
        }))
    );
    assert_eq!(parser.next(), Err(ParserError::Eof));
}

#[test]
fn a_trailing_comma_is_invalid() {
    assert_eq!(parse("f(1,);"), Err(ParserError::InvalidFuncall));
    assert_eq!(parse("f(1, 2,);"), Err(ParserError::InvalidFuncall));
    assert_eq!(parse("f(g(1,), 2);"), Err(ParserError::InvalidFuncall));
}

#[test]
fn two_commas_in_a_row_are_invalid() {
    assert_eq!(parse("f(1,,2);"), Err(ParserError::InvalidFuncall));
    assert_eq!(parse("f(1,,);"), Err(ParserError::InvalidFuncall));
}

#[test]
fn a_comma_right_after_the_parenthesis_is_invalid() {
    assert_eq!(parse("f(,);"), Err(ParserError::InvalidFuncall));
    assert_eq!(parse("f(,1);"), Err(ParserError::InvalidFuncall));
    assert_eq!(parse("f(1, g(,2));"), Err(ParserError::InvalidFuncall));
}

#[test]
fn arguments_need_a_comma_between_them() {
    assert_eq!(parse("f(1 2);"), Err(ParserError::InvalidFuncall));
    assert_eq!(parse("f(x y);"), Err(ParserError::InvalidFuncall));
    assert_eq!(parse("f(g() h());"), Err(ParserError::InvalidFuncall));
}

#[test]
fn a_call_must_be_closed() {
    assert_eq!(parse("f("), Err(ParserError::InvalidFuncall));
    assert_eq!(parse("f(1"), Err(ParserError::InvalidFuncall));
    assert_eq!(parse("f(1,"), Err(ParserError::InvalidFuncall));
    assert_eq!(parse("f(g(1)"), Err(ParserError::InvalidFuncall));
}

#[test]
fn an_argument_that_is_no_expression_fails_on_its_own() {
    assert_eq!(parse("f(=);"), Err(ParserError::Unknown));
    assert_eq!(parse("f(1, ;);"), Err(ParserError::Unknown));
    assert_eq!(parse("f(roots);"), Err(ParserError::Unknown));
}

#[test]
fn a_call_statement_needs_its_semicolon() {
    assert_eq!(
        parse("f(1)"),
        Err(ParserError::ExpectedToken(Token::SemiColon))
    );
    assert_eq!(
        parse("f(1) g(2);"),
        Err(ParserError::ExpectedToken(Token::SemiColon))
    );
}

#[test]
fn what_begins_no_statement_is_unknown() {
    assert_eq!(parse(";"), Err(ParserError::Unknown));
    assert_eq!(parse("1;"), Err(ParserError::Unknown));
    assert_eq!(parse("'a';"), Err(ParserError::Unknown));
    assert_eq!(parse("(x);"), Err(ParserError::Unknown));
    assert_eq!(parse("= 1;"), Err(ParserError::Unknown));
}

#[test]
fn an_identifier_alone_is_unknown() {
    assert_eq!(parse("x;"), Err(ParserError::Unknown));
    assert_eq!(parse("x = 1;"), Err(ParserError::Unknown));
    assert_eq!(parse("x"), Err(ParserError::Unknown));
}

#[test]
fn the_other_keywords_are_unknown() {
    for keyword in [Keyword::If, Keyword::Else, Keyword::While] {
        let mut parser = Parser::new(vec![
            Token::Keyword(keyword),
            Token::Identifier("x".to_string()),
            Token::Equals,
            Token::NumberLiteral(1),
            Token::SemiColon,
        ]);
        assert_eq!(parser.next(), Err(ParserError::Unknown));
        assert_eq!(parser.parse(), Err(ParserError::Unknown));
    }
}

#[test]
fn no_tokens_no_statements() {
    assert_eq!(Parser::new(vec![]).parse(), Ok(vec![]));
    assert_eq!(Parser::new(vec![]).next(), Err(ParserError::Eof));
    assert_eq!(parse("   "), Ok(vec![]));
}

#[test]
fn statements_come_in_order() {
    assert_eq!(
        parse("roots x = 1; roots y = 'two'; sound(x, y);"),
        Ok(vec![
            declaration("x", number(1)),
            declaration("y", string("two")),
            Statement::ExpressionStatement(call("sound", vec![variable("x"), variable("y")])),
        ])
    );
}

#[test]
fn an_error_discards_the_statements_before_it() {
    assert_eq!(
        parse("roots x = 1; roots y = ;"),
        Err(ParserError::ExpectedExpression)
    );
    assert_eq!(
        parse("roots x = 1; sound(x,); roots y = 2;"),
        Err(ParserError::InvalidFuncall)
    );
}

#[test]
fn next_gives_one_statement_at_a_time() {
    let mut parser = Parser::new(tokens("roots x = 1; sound(x);"));
    assert_eq!(parser.next(), Ok(declaration("x", number(1))));
    assert_eq!(
        parser.next(),
        Ok(Statement::ExpressionStatement(call("sound", vec![variable("x")])))
    );
    assert_eq!(parser.next(), Err(ParserError::Eof));
    assert_eq!(parser.next(), Err(ParserError::Eof));
}

#[test]
fn after_an_error_the_cursor_has_moved() {
    let mut parser = Parser::new(tokens("roots x 1; sound(x);"));
    assert_eq!(
        parser.next(),
        Err(ParserError::ExpectedToken(Token::Equals))
    );
    assert_eq!(parser.next(), Err(ParserError::Unknown));
    assert_eq!(
        parser.next(),
        Ok(Statement::ExpressionStatement(call("sound", vec![variable("x")])))
    );
}

#[test]
fn an_identifier_before_a_parenthesis_is_a_call() {
    assert_eq!(
        parse("roots x = y();"),
        Ok(vec![declaration("x", call("y", vec![]))])
    );
    assert_eq!(
        parse("roots x = y ();"),
        Ok(vec![declaration("x", call("y", vec![]))])
    );
}
