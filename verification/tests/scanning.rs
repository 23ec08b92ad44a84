use reggae_lang::lexer::{Keyword, Lexer, LexerError, Token};

fn scan(text: &str) -> Result<Vec<Token>, LexerError> {
    Lexer::new(text.to_string()).parse()
}

fn identifier(name: &str) -> Token {
    Token::Identifier(name.to_string())
}

fn string(content: &str) -> Token {
    Token::StringLiteral(content.to_string())
}

#[test]
fn whitespace_only_holds_no_token() {
    assert_eq!(scan(" "), Ok(vec![]));
    assert_eq!(scan(" \t\r\n  \n"), Ok(vec![]));
    assert_eq!(scan("\u{a0}\u{2003}\u{3000}"), Ok(vec![]));
}

#[test]
fn next_at_the_end_reports_eof_again_and_again() {
    let mut lexer = Lexer::new("  ".to_string());
    assert_eq!(lexer.next(), Err(LexerError::Eof));
    assert_eq!(lexer.next(), Err(LexerError::Eof));
    assert_eq!(lexer.parse(), Ok(vec![]));
}

#[test]
fn words_are_identifiers_unless_they_spell_a_keyword() {
    assert_eq!(scan("roots"), Ok(vec![Token::Keyword(Keyword::Roots)]));
    assert_eq!(scan("root"), Ok(vec![identifier("root")]));
    assert_eq!(scan("rootss"), Ok(vec![identifier("rootss")]));
    assert_eq!(scan("Roots"), Ok(vec![identifier("Roots")]));
    assert_eq!(scan("roots1"), Ok(vec![identifier("roots1")]));
    assert_eq!(scan("xroots"), Ok(vec![identifier("xroots")]));
}

#[test]
fn reserved_words_without_a_spelling_are_identifiers() {
    assert_eq!(
        scan("if else while"),
        Ok(vec![identifier("if"), identifier("else"), identifier("while")])
    );
}

#[test]
fn a_word_is_a_maximal_run() {
    assert_eq!(
        scan("ab1c d9;e"),
        Ok(vec![
            identifier("ab1c"),
            identifier("d9"),
            Token::SemiColon,
            identifier("e"),
        ])
    );
}

#[test]
fn letters_beyond_ascii_make_words() {
    assert_eq!(scan("été"), Ok(vec![identifier("été")]));
    assert_eq!(scan("京都 x"), Ok(vec![identifier("京都"), identifier("x")]));
}

#[test]
fn digits_are_read_in_base_ten() {
    assert_eq!(scan("0"), Ok(vec![Token::NumberLiteral(0)]));
    assert_eq!(scan("007"), Ok(vec![Token::NumberLiteral(7)]));
    assert_eq!(scan("42;"), Ok(vec![Token::NumberLiteral(42), Token::SemiColon]));
    assert_eq!(
        scan("12 34"),
        Ok(vec![Token::NumberLiteral(12), Token::NumberLiteral(34)])
    );
}

#[test]
fn the_largest_number_fits_and_the_next_does_not() {
    assert_eq!(
        scan("9223372036854775807"),
        Ok(vec![Token::NumberLiteral(i64::MAX)])
    );
    assert_eq!(
        scan("9223372036854775808"),
        Err(LexerError::InvalidNumberLiteral)
    );
    assert_eq!(
        scan("99999999999999999999999999"),
        Err(LexerError::InvalidNumberLiteral)
    );
}

#[test]
fn a_letter_right_after_digits_is_an_error() {
    assert_eq!(scan("1e"), Err(LexerError::InvalidNumberLiteral));
    assert_eq!(scan("1abc"), Err(LexerError::InvalidNumberLiteral));
    assert_eq!(scan("12x 3"), Err(LexerError::InvalidNumberLiteral));
}

#[test]
fn after_an_invalid_number_the_cursor_stands_at_the_letter() {
    let mut lexer = Lexer::new("12ab".to_string());
    assert_eq!(lexer.next(), Err(LexerError::InvalidNumberLiteral));
    assert_eq!(lexer.next(), Ok(identifier("ab")));
    assert_eq!(lexer.next(), Err(LexerError::Eof));
}

#[test]
fn numbers_that_are_no_ascii_digits_are_invalid() {
    assert_eq!(scan("٣"), Err(LexerError::InvalidNumberLiteral));
    assert_eq!(scan("1٣"), Err(LexerError::InvalidNumberLiteral));
    assert_eq!(scan("½"), Err(LexerError::InvalidNumberLiteral));
}

#[test]
fn a_minus_sign_begins_no_token() {
    assert_eq!(scan("-1"), Err(LexerError::UnexpectedChar('-')));
}

#[test]
fn strings_lose_their_quotes() {
    assert_eq!(scan("\"\""), Ok(vec![string("")]));
    assert_eq!(scan("''"), Ok(vec![string("")]));
    assert_eq!(scan("'a b'"), Ok(vec![string("a b")]));
    assert_eq!(scan("\"it's\""), Ok(vec![string("it's")]));
    assert_eq!(scan("'say \"hi\"'"), Ok(vec![string("say \"hi\"")]));
    assert_eq!(scan("'a''b'"), Ok(vec![string("a"), string("b")]));
}

#[test]
fn a_backslash_escapes_nothing() {
    assert_eq!(
        scan("'a\\' b"),
        Ok(vec![string("a\\"), identifier("b")])
    );
}

#[test]
fn strings_keep_what_is_between_the_quotes() {
    assert_eq!(
        scan("'  roots 12 ; \n'"),
        Ok(vec![string("  roots 12 ; \n")])
    );
}

#[test]
fn a_string_must_be_closed_by_its_own_quote() {
    assert_eq!(scan("'abc"), Err(LexerError::StringLiteralNotClosed));
    assert_eq!(scan("\"abc'"), Err(LexerError::StringLiteralNotClosed));
    assert_eq!(scan("'"), Err(LexerError::StringLiteralNotClosed));
}

#[test]
fn after_an_unclosed_string_nothing_is_left() {
    let mut lexer = Lexer::new("x 'abc def".to_string());
    assert_eq!(lexer.next(), Ok(identifier("x")));
    assert_eq!(lexer.next(), Err(LexerError::StringLiteralNotClosed));
    assert_eq!(lexer.next(), Err(LexerError::Eof));
}

#[test]
fn a_stray_character_is_reported_and_consumed() {
    let mut lexer = Lexer::new("a _ b".to_string());
    assert_eq!(lexer.next(), Ok(identifier("a")));
    assert_eq!(lexer.next(), Err(LexerError::UnexpectedChar('_')));
    assert_eq!(lexer.next(), Ok(identifier("b")));
}

#[test]
fn the_first_error_ends_the_scan() {
    assert_eq!(scan("a b $ c"), Err(LexerError::UnexpectedChar('$')));
    assert_eq!(scan("a 'b"), Err(LexerError::StringLiteralNotClosed));
    assert_eq!(scan("a 1b 'c"), Err(LexerError::InvalidNumberLiteral));
}

#[test]
fn a_scan_goes_on_from_the_cursor() {
    let mut lexer = Lexer::new("a b c".to_string());
    assert_eq!(lexer.next(), Ok(identifier("a")));
    assert_eq!(lexer.parse(), Ok(vec![identifier("b"), identifier("c")]));
    assert_eq!(lexer.parse(), Ok(vec![]));
}

#[test]
fn written_tokens_are_read_back() {
    let tokens = vec![
        Token::Keyword(Keyword::Roots),
        identifier("x"),
        Token::Equals,
        Token::NumberLiteral(1),
        Token::SemiColon,
        identifier("sound"),
        Token::OpenParen,
        identifier("x"),
        Token::Colon,
        string("a"),
        Token::CloseParen,
        Token::SemiColon,
    ];
    assert_eq!(
        scan("roots x = 1 ; sound ( x , 'a' ) ;"),
        Ok(tokens.clone())
    );
    assert_eq!(
        scan("\n\troots   x\n=\n1;\n\tsound(x,\"a\")  ;\n"),
        Ok(tokens.clone())
    );
    assert_eq!(scan("roots x=1;sound(x,'a');"), Ok(tokens));
}

#[test]
fn words_and_numbers_need_something_between_them() {
    assert_eq!(scan("roots x"), Ok(vec![Token::Keyword(Keyword::Roots), identifier("x")]));
    assert_eq!(scan("rootsx"), Ok(vec![identifier("rootsx")]));
    assert_eq!(scan("x 1"), Ok(vec![identifier("x"), Token::NumberLiteral(1)]));
    assert_eq!(scan("x1"), Ok(vec![identifier("x1")]));
}

#[test]
fn a_clone_of_a_token_equals_it() {
    let tokens = vec![
        identifier("x"),
        Token::Keyword(Keyword::Roots),
        string("a b"),
        Token::NumberLiteral(-5),
        Token::SemiColon,
        Token::OpenParen,
        Token::CloseParen,
        Token::Equals,
        Token::Colon,
    ];
    for token in &tokens {
        assert_eq!(&token.clone(), token);
    }
}
