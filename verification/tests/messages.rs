use reggae_lang::lexer::{Keyword, LexerError, Token};
use reggae_lang::parser::ParserError;

#[test]
fn the_keyword_roots_is_spelled_roots() {
    assert_eq!(Keyword::Roots.display(), "roots");
}

#[test]
fn lexer_errors_have_messages() {
    assert_eq!(
        LexerError::InvalidNumberLiteral.display(),
        "Invalid number literal"
    );
    assert_eq!(
        LexerError::StringLiteralNotClosed.display(),
        "String literal not closed"
    );
    assert_eq!(LexerError::UnexpectedChar('_').display(), "Unexpected _");
    assert_eq!(LexerError::UnexpectedChar('é').display(), "Unexpected é");
    assert_eq!(LexerError::Eof.display(), "End of file");
    assert_eq!(LexerError::Unknown.display(), "Unknown");
}

#[test]
fn tokens_have_names() {
    assert_eq!(Token::Identifier("x".to_string()).display(), "identifier");
    assert_eq!(Token::Keyword(Keyword::Roots).display(), "roots");
    assert_eq!(
        Token::StringLiteral("x".to_string()).display(),
        "string literal"
    );
    assert_eq!(Token::NumberLiteral(3).display(), "number literal");
    assert_eq!(Token::SemiColon.display(), ";");
    assert_eq!(Token::OpenParen.display(), "(");
    assert_eq!(Token::CloseParen.display(), ")");
    assert_eq!(Token::Equals.display(), "=");
    assert_eq!(Token::Colon.display(), ",");
}

#[test]
fn parser_errors_have_messages() {
    assert_eq!(ParserError::InvalidFuncall.display(), "Invalid funcall");
    assert_eq!(
        ParserError::ExpectedExpression.display(),
        "Expected expression"
    );
    assert_eq!(
        ParserError::ExpectedIdentifier.display(),
        "Expected identifier"
    );
    assert_eq!(
        ParserError::ExpectedToken(Token::SemiColon).display(),
        "Expected token: ;"
    );
    assert_eq!(
        ParserError::ExpectedToken(Token::Equals).display(),
        "Expected token: ="
    );
    assert_eq!(
        ParserError::ExpectedToken(Token::Identifier("x".to_string())).display(),
        "Expected token: identifier"
    );
    assert_eq!(ParserError::Eof.display(), "End of file");
    assert_eq!(ParserError::Unknown.display(), "Unknown");
}
