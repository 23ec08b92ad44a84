//! The lexer: from source text to tokens.
//!
//! What the lexer does is fixed by a small mathematical model, [`scan_token`]
//! for one token and [`scan_all`] for the whole text. [`Lexer::next`] and
//! [`Lexer::parse`] are proved to compute exactly what the model says,
//! results, errors and cursor alike.

use crate::text::{
    collect_string, decimal_literal, parse_decimal, spells, to_chars, unicode_alphabetic,
    unicode_alphanumeric, unicode_numeric, unicode_whitespace,
};
use vstd::prelude::*;
use vstd::std_specs::cmp::PartialEqSpecImpl;

verus! {

/// The reserved words. Only `roots` has a spelling that the lexer recognises.
#[derive(Debug, Clone, Copy, PartialEq, Eq, Structural)]
pub enum Keyword {
    Roots,
    If,
    Else,
    While,
}

impl Keyword {
    /// How the keyword is spelled in a text. The keywords that the language
    /// reserves without using them have no spelling.
    pub open spec fn spelling(self) -> Option<Seq<char>> {
        match self {
            Keyword::Roots => Some("roots"@),
            _ => None,
        }
    }

    /// The spelling of the keyword.
    pub fn display(&self) -> (text: String)
        requires
            self.spelling() is Some,
        ensures
            Some(text@) == self.spelling(),
    {
        "roots".to_owned()
    }
}

/// Why the lexer produced no token.
#[derive(Debug, Clone, Copy, PartialEq, Eq, Structural)]
pub enum LexerError {
    /// A run of digits that a letter follows, or that denotes no `i64`.
    InvalidNumberLiteral,
    /// A quote without its closing counterpart.
    StringLiteralNotClosed,
    /// A character that begins no token.
    UnexpectedChar(char),
    /// Nothing but whitespace is left.
    Eof,
    Unknown,
}

impl LexerError {
    /// The message that tells a reader of the error.
    pub open spec fn message(self) -> Seq<char> {
        match self {
            LexerError::InvalidNumberLiteral => "Invalid number literal"@,
            LexerError::StringLiteralNotClosed => "String literal not closed"@,
            LexerError::UnexpectedChar(ch) => "Unexpected "@.push(ch),
            LexerError::Eof => "End of file"@,
            LexerError::Unknown => "Unknown"@,
        }
    }

    /// The message of the error, as a string.
    pub fn display(&self) -> (text: String)
        ensures
            text@ == self.message(),
    {
        match self {
            LexerError::InvalidNumberLiteral => "Invalid number literal".to_owned(),
            LexerError::StringLiteralNotClosed => "String literal not closed".to_owned(),
            LexerError::UnexpectedChar(ch) => {
                let mut text = "Unexpected ".to_owned();
                text.push(*ch);
                text
            },
            LexerError::Eof => "End of file".to_owned(),
            LexerError::Unknown => "Unknown".to_owned(),
        }
    }
}

/// A token. `Colon` is the separator `,` of an argument list.
///
/// Two tokens are equal where they are of one kind and hold the same name,
/// text or number.
#[derive(Debug)]
pub enum Token {
    Identifier(String),
    Keyword(Keyword),
    StringLiteral(String),
    NumberLiteral(i64),
    SemiColon,
    OpenParen,
    CloseParen,
    Equals,
    Colon,
}

/// The mathematical value of a [`Token`]: its strings as sequences of characters.
pub enum TokenView {
    Identifier(Seq<char>),
    Keyword(Keyword),
    StringLiteral(Seq<char>),
    NumberLiteral(i64),
    SemiColon,
    OpenParen,
    CloseParen,
    Equals,
    Colon,
}

impl View for Token {
    type V = TokenView;

    open spec fn view(&self) -> TokenView {
        match self {
            Token::Identifier(name) => TokenView::Identifier(name@),
            Token::Keyword(keyword) => TokenView::Keyword(*keyword),
            Token::StringLiteral(content) => TokenView::StringLiteral(content@),
            Token::NumberLiteral(value) => TokenView::NumberLiteral(*value),
            Token::SemiColon => TokenView::SemiColon,
            Token::OpenParen => TokenView::OpenParen,
            Token::CloseParen => TokenView::CloseParen,
            Token::Equals => TokenView::Equals,
            Token::Colon => TokenView::Colon,
        }
    }
}

impl PartialEq for Token {
    fn eq(&self, other: &Self) -> (same: bool) {
        match (self, other) {
            (Token::Identifier(name), Token::Identifier(other_name)) => *name == *other_name,
            (Token::Keyword(keyword), Token::Keyword(other_keyword)) => *keyword
                == *other_keyword,
            (Token::StringLiteral(content), Token::StringLiteral(other_content)) => *content
                == *other_content,
            (Token::NumberLiteral(value), Token::NumberLiteral(other_value)) => *value
                == *other_value,
            (Token::SemiColon, Token::SemiColon) => true,
            (Token::OpenParen, Token::OpenParen) => true,
            (Token::CloseParen, Token::CloseParen) => true,
            (Token::Equals, Token::Equals) => true,
            (Token::Colon, Token::Colon) => true,
            _ => false,
        }
    }
}

impl PartialEqSpecImpl for Token {
    open spec fn obeys_eq_spec() -> bool {
        true
    }

    open spec fn eq_spec(&self, other: &Self) -> bool {
        self@ == other@
    }
}

impl Clone for Token {
    fn clone(&self) -> (copy: Self)
        ensures
            copy@ == self@,
    {
        match self {
            Token::Identifier(name) => Token::Identifier(name.clone()),
            Token::Keyword(keyword) => Token::Keyword(*keyword),
            Token::StringLiteral(content) => Token::StringLiteral(content.clone()),
            Token::NumberLiteral(value) => Token::NumberLiteral(*value),
            Token::SemiColon => Token::SemiColon,
            Token::OpenParen => Token::OpenParen,
            Token::CloseParen => Token::CloseParen,
            Token::Equals => Token::Equals,
            Token::Colon => Token::Colon,
        }
    }
}

impl TokenView {
    /// What a message calls the token: the kind of an identifier or a
    /// literal, the spelling of a keyword or of punctuation. A keyword
    /// without a spelling has no such name.
    pub open spec fn description(self) -> Option<Seq<char>> {
        match self {
            TokenView::Identifier(_) => Some("identifier"@),
            TokenView::Keyword(keyword) => keyword.spelling(),
            TokenView::StringLiteral(_) => Some("string literal"@),
            TokenView::NumberLiteral(_) => Some("number literal"@),
            TokenView::SemiColon => Some(";"@),
            TokenView::OpenParen => Some("("@),
            TokenView::CloseParen => Some(")"@),
            TokenView::Equals => Some("="@),
            TokenView::Colon => Some(","@),
        }
    }
}

impl Token {
    /// What a message calls the token.
    pub fn display(&self) -> (text: String)
        requires
            self@.description() is Some,
        ensures
            Some(text@) == self@.description(),
    {
        match self {
            Token::Identifier(_) => "identifier".to_owned(),
            Token::Keyword(keyword) => keyword.display(),
            Token::StringLiteral(_) => "string literal".to_owned(),
            Token::NumberLiteral(_) => "number literal".to_owned(),
            Token::SemiColon => ";".to_owned(),
            Token::OpenParen => "(".to_owned(),
            Token::CloseParen => ")".to_owned(),
            Token::Equals => "=".to_owned(),
            Token::Colon => ",".to_owned(),
        }
    }
}

/// The views of a sequence of tokens.
pub open spec fn token_views(tokens: Seq<Token>) -> Seq<TokenView> {
    tokens.map_values(|token: Token| token@)
}

/// The token that a single punctuation character stands for.
pub open spec fn symbol_token(c: char) -> Option<TokenView> {
    if c == ';' {
        Some(TokenView::SemiColon)
    } else if c == '(' {
        Some(TokenView::OpenParen)
    } else if c == ')' {
        Some(TokenView::CloseParen)
    } else if c == '=' {
        Some(TokenView::Equals)
    } else if c == ',' {
        Some(TokenView::Colon)
    } else {
        None
    }
}

/// Whether `c` opens, and closes, a string literal.
pub open spec fn is_quote(c: char) -> bool {
    c == '\'' || c == '"'
}

/// The keyword that `word` spells, if any.
pub open spec fn keyword_spelled(word: Seq<char>) -> Option<Keyword> {
    if word == "roots"@ {
        Some(Keyword::Roots)
    } else {
        None
    }
}

/// The token that a word (a letter and the letters and numbers after it) is.
pub open spec fn word_token(word: Seq<char>) -> TokenView {
    match keyword_spelled(word) {
        Some(keyword) => TokenView::Keyword(keyword),
        None => TokenView::Identifier(word),
    }
}

/// Where the run of characters in `class` that starts at `from` ends: the
/// first position at or after `from` that holds no character of `class`, or
/// the end of `s`.
pub open spec fn run_end(s: Seq<char>, from: int, class: spec_fn(char) -> bool) -> int
    decreases s.len() - from,
{
    if 0 <= from < s.len() && class(s[from]) {
        run_end(s, from + 1, class)
    } else {
        from
    }
}

/// Where the whitespace that starts at `from` ends.
pub open spec fn whitespace_end(s: Seq<char>, from: int) -> int {
    run_end(s, from, |c: char| unicode_whitespace(c))
}

/// Where the numbers that start at `from` end.
pub open spec fn number_end(s: Seq<char>, from: int) -> int {
    run_end(s, from, |c: char| unicode_numeric(c))
}

/// Where the letters and numbers that start at `from` end.
pub open spec fn word_end(s: Seq<char>, from: int) -> int {
    run_end(s, from, |c: char| unicode_alphanumeric(c))
}

/// The first position at or after `from` that holds `delimiter`, or the end of `s`.
pub open spec fn delimiter_position(s: Seq<char>, from: int, delimiter: char) -> int {
    run_end(s, from, |c: char| c != delimiter)
}

/// What one step of the lexer yields: a token or an error, and where the
/// cursor stands afterwards.
pub struct Scan {
    pub outcome: Result<TokenView, LexerError>,
    pub end: int,
}

/// A string literal whose opening `delimiter` stands just before `from`: its
/// content runs up to the next `delimiter`, which is consumed. Without one the
/// literal is not closed and the rest of the text is consumed.
pub open spec fn scan_string(s: Seq<char>, from: int, delimiter: char) -> Scan {
    let close = delimiter_position(s, from, delimiter);
    if close < s.len() {
        Scan { outcome: Ok(TokenView::StringLiteral(s.subrange(from, close))), end: close + 1 }
    } else {
        Scan { outcome: Err(LexerError::StringLiteralNotClosed), end: close }
    }
}

/// A number literal whose first character stands at `start`: the run of
/// numbers from there on, read in base ten. A letter right after the run
/// makes it invalid, and so does a run that denotes no `i64`.
pub open spec fn scan_number(s: Seq<char>, start: int) -> Scan {
    let end = number_end(s, start + 1);
    if end < s.len() && unicode_alphabetic(s[end]) {
        Scan { outcome: Err(LexerError::InvalidNumberLiteral), end }
    } else {
        match decimal_literal(s.subrange(start, end)) {
            Some(value) => Scan { outcome: Ok(TokenView::NumberLiteral(value)), end },
            None => Scan { outcome: Err(LexerError::InvalidNumberLiteral), end },
        }
    }
}

/// A word whose first character stands at `start`: the run of letters and
/// numbers from there on, as a keyword where it spells one and as an
/// identifier otherwise.
pub open spec fn scan_word(s: Seq<char>, start: int) -> Scan {
    let end = word_end(s, start + 1);
    Scan { outcome: Ok(word_token(s.subrange(start, end))), end }
}

/// One step of the lexer on `s` with the cursor at `from`: whitespace is
/// skipped, and the character after it decides what is read.
pub open spec fn scan_token(s: Seq<char>, from: int) -> Scan {
    let start = whitespace_end(s, from);
    if !(0 <= start < s.len()) {
        Scan { outcome: Err(LexerError::Eof), end: start }
    } else {
        let c = s[start];
        if symbol_token(c) is Some {
            Scan { outcome: Ok(symbol_token(c)->0), end: start + 1 }
        } else if is_quote(c) {
            scan_string(s, start + 1, c)
        } else if unicode_numeric(c) {
            scan_number(s, start)
        } else if unicode_alphabetic(c) {
            scan_word(s, start)
        } else {
            Scan { outcome: Err(LexerError::UnexpectedChar(c)), end: start + 1 }
        }
    }
}

/// What scanning a whole text yields: all its tokens or the first error, and
/// where the cursor stands afterwards.
pub struct ScanAll {
    pub outcome: Result<Seq<TokenView>, LexerError>,
    pub end: int,
}

/// The lexer run to the end of `s` from `from`: the tokens of the successive
/// steps up to the step that reports the end of the text, or the first other
/// error.
pub open spec fn scan_all(s: Seq<char>, from: int) -> ScanAll
    decreases s.len() - from,
{
    let step = scan_token(s, from);
    match step.outcome {
        Ok(token) => {
            if from < step.end <= s.len() {
                let rest = scan_all(s, step.end);
                match rest.outcome {
                    Ok(tokens) => ScanAll { outcome: Ok(seq![token] + tokens), end: rest.end },
                    Err(error) => rest,
                }
            } else {
                ScanAll { outcome: Ok(seq![token]), end: step.end }
            }
        },
        Err(LexerError::Eof) => ScanAll { outcome: Ok(Seq::empty()), end: step.end },
        Err(error) => ScanAll { outcome: Err(error), end: step.end },
    }
}

/// A run ends between its start and the end of the text, holds only
/// characters of its class, and is followed by none of them.
pub proof fn lemma_run_end(s: Seq<char>, from: int, class: spec_fn(char) -> bool)
    requires
        0 <= from <= s.len(),
    ensures
        from <= run_end(s, from, class) <= s.len(),
        forall|i: int| from <= i < run_end(s, from, class) ==> class(#[trigger] s[i]),
        run_end(s, from, class) < s.len() ==> !class(s[run_end(s, from, class)]),
    decreases s.len() - from,
{
    if from < s.len() && class(s[from]) {
        lemma_run_end(s, from + 1, class);
    }
}

/// A position that has only characters of the class before it, back to
/// `from`, and none at it, is where the run from `from` ends.
pub proof fn lemma_run_end_unique(s: Seq<char>, from: int, class: spec_fn(char) -> bool, end: int)
    requires
        0 <= from <= end <= s.len(),
        forall|i: int| from <= i < end ==> class(#[trigger] s[i]),
        end < s.len() ==> !class(s[end]),
    ensures
        run_end(s, from, class) == end,
    decreases end - from,
{
    if from < end {
        lemma_run_end_unique(s, from + 1, class, end);
    }
}

/// A step that yields a token consumes at least one character and ends
/// within the text.
pub proof fn lemma_scan_token_advances(s: Seq<char>, from: int)
    requires
        0 <= from <= s.len(),
    ensures
        from <= scan_token(s, from).end <= s.len(),
        scan_token(s, from).outcome is Ok ==> from < scan_token(s, from).end,
{
    lemma_run_end(s, from, |c: char| unicode_whitespace(c));
    let start = whitespace_end(s, from);
    if start < s.len() {
        lemma_run_end(s, start + 1, |c: char| c != s[start]);
        lemma_run_end(s, start + 1, |c: char| unicode_numeric(c));
        lemma_run_end(s, start + 1, |c: char| unicode_alphanumeric(c));
    }
}

/// A lexer over a text: the text as characters, and a cursor into it that
/// only moves forward.
#[derive(Debug)]
pub struct Lexer {
    content: Vec<char>,
    cursor: usize,
}

impl Lexer {
    /// The cursor never passes the end of the text.
    #[verifier::type_invariant]
    spec fn within_text(self) -> bool {
        self.cursor <= self.content.len()
    }

    /// The text under the lexer.
    pub closed spec fn text(&self) -> Seq<char> {
        self.content@
    }

    /// The position of the cursor in the text.
    pub closed spec fn position(&self) -> int {
        self.cursor as int
    }

    /// A lexer at the start of `content`.
    pub fn new(content: String) -> (lexer: Self)
        ensures
            lexer.text() == content@,
            lexer.position() == 0,
    {
        Self { content: to_chars(content.as_str()), cursor: 0 }
    }

    /// Moves the cursor past the whitespace under it.
    fn chop(&mut self)
        ensures
            final(self).text() == old(self).text(),
            final(self).position() == whitespace_end(old(self).text(), old(self).position()),
    {
        while self.cursor < self.content.len() && self.content[self.cursor].is_whitespace()
            invariant
                self.content@ == old(self).content@,
                whitespace_end(self.content@, self.cursor as int) == whitespace_end(
                    old(self).content@,
                    old(self).cursor as int,
                ),
            decreases self.content.len() - self.cursor,
        {
            self.cursor += 1;
        }
    }

    /// The character under the cursor.
    fn peek(&self) -> (ch: Option<char>)
        ensures
            ch == if 0 <= self.position() < self.text().len() {
                Some(self.text()[self.position()])
            } else {
                None
            },
    {
        if self.cursor < self.content.len() {
            Some(self.content[self.cursor])
        } else {
            None
        }
    }

    /// The character under the cursor, which then moves past it. At the end
    /// of the text the cursor stays.
    fn consume(&mut self) -> (ch: Option<char>)
        ensures
            final(self).text() == old(self).text(),
            ch == old(self).peek_spec(),
            final(self).position() == if ch is Some {
                old(self).position() + 1
            } else {
                old(self).position()
            },
    {
        let ch = self.peek();
        if self.cursor < self.content.len() {
            self.cursor += 1;
        }
        ch
    }

    /// What `peek` returns.
    pub closed spec fn peek_spec(&self) -> Option<char> {
        if 0 <= self.position() < self.text().len() {
            Some(self.text()[self.position()])
        } else {
            None
        }
    }

    /// Reads the rest of a string literal whose opening `delimiter` was just
    /// consumed.
    fn try_parse_string_literal(&mut self, delimiter: char) -> (result: Result<Token, LexerError>)
        requires
            old(self).position() <= old(self).text().len(),
        ensures
            final(self).text() == old(self).text(),
            final(self).position() == scan_string(
                old(self).text(),
                old(self).position(),
                delimiter,
            ).end,
            match result {
                Ok(token) => scan_string(old(self).text(), old(self).position(), delimiter).outcome
                    == Ok::<TokenView, LexerError>(token@),
                Err(error) => scan_string(old(self).text(), old(self).position(), delimiter).outcome
                    == Err::<TokenView, LexerError>(error),
            },
    {
        let start = self.cursor;
        loop
            invariant
                self.content@ == old(self).content@,
                start == old(self).cursor,
                start <= self.cursor <= self.content.len(),
                delimiter_position(self.content@, self.cursor as int, delimiter)
                    == delimiter_position(self.content@, start as int, delimiter),
            decreases self.content.len() - self.cursor,
        {
            match self.consume() {
                Some(ch) => {
                    if ch == delimiter {
                        return Ok(
                            Token::StringLiteral(
                                collect_string(&self.content, start, self.cursor - 1),
                            ),
                        );
                    }
                },
                None => {
                    return Err(LexerError::StringLiteralNotClosed);
                },
            }
        }
    }

    /// Reads the rest of a word whose first character was just consumed.
    fn parse_identifier_and_keyword(&mut self) -> (token: Token)
        requires
            1 <= old(self).position() <= old(self).text().len(),
        ensures
            final(self).text() == old(self).text(),
            final(self).position() == scan_word(old(self).text(), old(self).position() - 1).end,
            scan_word(old(self).text(), old(self).position() - 1).outcome == Ok::<
                TokenView,
                LexerError,
            >(token@),
    {
        let start = self.cursor;
        while self.cursor < self.content.len() && self.content[self.cursor].is_alphanumeric()
            invariant
                self.content@ == old(self).content@,
                start == old(self).cursor,
                start <= self.cursor <= self.content.len(),
                word_end(self.content@, self.cursor as int) == word_end(
                    self.content@,
                    start as int,
                ),
            decreases self.content.len() - self.cursor,
        {
            self.cursor += 1;
        }

        if spells(&self.content, start - 1, self.cursor, "roots") {
            Token::Keyword(Keyword::Roots)
        } else {
            Token::Identifier(collect_string(&self.content, start - 1, self.cursor))
        }
    }

    /// Reads the rest of a number literal whose first character was just
    /// consumed.
    fn try_parse_number(&mut self) -> (result: Result<Token, LexerError>)
        requires
            1 <= old(self).position() <= old(self).text().len(),
        ensures
            final(self).text() == old(self).text(),
            final(self).position() == scan_number(old(self).text(), old(self).position() - 1).end,
            match result {
                Ok(token) => scan_number(old(self).text(), old(self).position() - 1).outcome
                    == Ok::<TokenView, LexerError>(token@),
                Err(error) => scan_number(old(self).text(), old(self).position() - 1).outcome
                    == Err::<TokenView, LexerError>(error),
            },
    {
        let start = self.cursor;
        while self.cursor < self.content.len() && self.content[self.cursor].is_numeric()
            invariant
                self.content@ == old(self).content@,
                start == old(self).cursor,
                start <= self.cursor <= self.content.len(),
                number_end(self.content@, self.cursor as int) == number_end(
                    self.content@,
                    start as int,
                ),
            decreases self.content.len() - self.cursor,
        {
            self.cursor += 1;
        }
        if self.cursor < self.content.len() && self.content[self.cursor].is_alphabetic() {
            return Err(LexerError::InvalidNumberLiteral);
        }
        match parse_decimal(&self.content, start - 1, self.cursor) {
            Some(number) => Ok(Token::NumberLiteral(number)),
            None => Err(LexerError::InvalidNumberLiteral),
        }
    }

    /// The next token of the text, or why there is none. The cursor moves as
    /// [`scan_token`] says, also where the step fails.
    pub fn next(&mut self) -> (result: Result<Token, LexerError>)
        ensures
            final(self).text() == old(self).text(),
            final(self).position() == scan_token(old(self).text(), old(self).position()).end,
            match result {
                Ok(token) => scan_token(old(self).text(), old(self).position()).outcome == Ok::<
                    TokenView,
                    LexerError,
                >(token@),
                Err(error) => scan_token(old(self).text(), old(self).position()).outcome == Err::<
                    TokenView,
                    LexerError,
                >(error),
            },
    {
        proof {
            use_type_invariant(&*self);
            lemma_run_end(self.content@, self.cursor as int, |c: char| unicode_whitespace(c));
        }
        self.chop();
        match self.consume() {
            Some(current) => {
                if current == ';' {
                    Ok(Token::SemiColon)
                } else if current == '(' {
                    Ok(Token::OpenParen)
                } else if current == ')' {
                    Ok(Token::CloseParen)
                } else if current == '=' {
                    Ok(Token::Equals)
                } else if current == ',' {
                    Ok(Token::Colon)
                } else if current == '\'' || current == '"' {
                    self.try_parse_string_literal(current)
                } else if current.is_numeric() {
                    self.try_parse_number()
                } else if current.is_alphabetic() {
                    Ok(self.parse_identifier_and_keyword())
                } else {
                    Err(LexerError::UnexpectedChar(current))
                }
            },
            None => Err(LexerError::Eof),
        }
    }

    /// All the tokens from the cursor to the end of the text, or the first
    /// error on the way. The end of the text is no error here.
    pub fn parse(&mut self) -> (result: Result<Vec<Token>, LexerError>)
        ensures
            final(self).text() == old(self).text(),
            final(self).position() == scan_all(old(self).text(), old(self).position()).end,
            match result {
                Ok(tokens) => scan_all(old(self).text(), old(self).position()).outcome == Ok::<
                    Seq<TokenView>,
                    LexerError,
                >(token_views(tokens@)),
                Err(error) => scan_all(old(self).text(), old(self).position()).outcome == Err::<
                    Seq<TokenView>,
                    LexerError,
                >(error),
            },
    {
        proof {
            use_type_invariant(&*self);
        }
        let mut tokens: Vec<Token> = Vec::new();
        loop
            invariant
                self.content@ == old(self).content@,
                self.cursor <= self.content.len(),
                scan_all(self.content@, old(self).cursor as int).end == scan_all(
                    self.content@,
                    self.cursor as int,
                ).end,
                match scan_all(self.content@, self.cursor as int).outcome {
                    Ok(rest) => scan_all(self.content@, old(self).cursor as int).outcome == Ok::<
                        Seq<TokenView>,
                        LexerError,
                    >(token_views(tokens@) + rest),
                    Err(error) => scan_all(self.content@, old(self).cursor as int).outcome == Err::<
                        Seq<TokenView>,
                        LexerError,
                    >(error),
                },
            decreases self.content.len() - self.cursor,
        {
            proof {
                lemma_scan_token_advances(self.content@, self.cursor as int);
            }
            let ghost before = tokens@;
            match self.next() {
                Ok(token) => {
                    tokens.push(token);
                    proof {
                        assert(token_views(tokens@) =~= token_views(before).push(token@));
                        assert forall|rest: Seq<TokenView>|
                            token_views(before) + (seq![token@] + rest) == token_views(tokens@)
                                + rest by {
                            assert(token_views(before) + (seq![token@] + rest) =~= token_views(
                                tokens@,
                            ) + rest);
                        }
                    }
                },
                Err(error) => {
                    match error {
                        LexerError::Eof => {
                            assert(token_views(tokens@) + Seq::<TokenView>::empty()
                                =~= token_views(tokens@));
                            return Ok(tokens);
                        },
                        _ => {
                            return Err(error);
                        },
                    }
                },
            }
        }
    }
}

} // verus!
