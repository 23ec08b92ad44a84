//! The parser: from tokens to statements, by recursive descent.
//!
//! ```text
//! statement      := variable_decl | funcall_stmt
//! variable_decl  := ROOTS IDENT EQUALS expression SEMI
//! funcall_stmt   := IDENT OPEN args? CLOSE SEMI
//! expression     := literal | IDENT | funcall_expr
//! funcall_expr   := IDENT OPEN args? CLOSE
//! args           := expression (COMMA expression)*
//! literal        := NUMBER | STRING
//! ```
//!
//! What the parser does on every sequence of tokens, well formed or not, is
//! fixed by a mathematical model: [`parse_statement`] for one statement and
//! [`parse_all`] for the whole sequence. [`Parser::next`] and
//! [`Parser::parse`] are proved to compute exactly what the model says,
//! results, errors and cursor alike.

use crate::lexer::{token_views, Keyword, Token, TokenView};
use vstd::prelude::*;
use vstd::std_specs::cmp::PartialEqSpecImpl;
use vstd::string::StringExecFns;

verus! {

/// Why the parser produced no statement. Two errors are equal where they
/// are of one kind and expect the same token.
#[derive(Debug)]
pub enum ParserError {
    /// An argument list with a misplaced comma, or without its closing parenthesis.
    InvalidFuncall,
    ExpectedExpression,
    ExpectedIdentifier,
    /// The token that should have come next.
    ExpectedToken(Token),
    /// No token is left where a statement would begin.
    Eof,
    /// A token that begins nothing the grammar knows.
    Unknown,
}

/// The mathematical value of a [`ParserError`].
pub enum ParserErrorView {
    InvalidFuncall,
    ExpectedExpression,
    ExpectedIdentifier,
    ExpectedToken(TokenView),
    Eof,
    Unknown,
}

impl View for ParserError {
    type V = ParserErrorView;

    open spec fn view(&self) -> ParserErrorView {
        match self {
            ParserError::InvalidFuncall => ParserErrorView::InvalidFuncall,
            ParserError::ExpectedExpression => ParserErrorView::ExpectedExpression,
            ParserError::ExpectedIdentifier => ParserErrorView::ExpectedIdentifier,
            ParserError::ExpectedToken(token) => ParserErrorView::ExpectedToken(token@),
            ParserError::Eof => ParserErrorView::Eof,
            ParserError::Unknown => ParserErrorView::Unknown,
        }
    }
}

impl PartialEq for ParserError {
    fn eq(&self, other: &Self) -> (same: bool) {
        match (self, other) {
            (ParserError::InvalidFuncall, ParserError::InvalidFuncall) => true,
            (ParserError::ExpectedExpression, ParserError::ExpectedExpression) => true,
            (ParserError::ExpectedIdentifier, ParserError::ExpectedIdentifier) => true,
            (ParserError::ExpectedToken(token), ParserError::ExpectedToken(other_token)) => *token
                == *other_token,
            (ParserError::Eof, ParserError::Eof) => true,
            (ParserError::Unknown, ParserError::Unknown) => true,
            _ => false,
        }
    }
}

impl PartialEqSpecImpl for ParserError {
    open spec fn obeys_eq_spec() -> bool {
        true
    }

    open spec fn eq_spec(&self, other: &Self) -> bool {
        self@ == other@
    }
}

impl ParserErrorView {
    /// The message that tells a reader of the error. An error that expects a
    /// token without a name has none.
    pub open spec fn message(self) -> Option<Seq<char>> {
        match self {
            ParserErrorView::InvalidFuncall => Some("Invalid funcall"@),
            ParserErrorView::ExpectedExpression => Some("Expected expression"@),
            ParserErrorView::ExpectedIdentifier => Some("Expected identifier"@),
            ParserErrorView::ExpectedToken(token) => match token.description() {
                Some(name) => Some("Expected token: "@ + name),
                None => None,
            },
            ParserErrorView::Eof => Some("End of file"@),
            ParserErrorView::Unknown => Some("Unknown"@),
        }
    }
}

impl ParserError {
    /// The message of the error, as a string.
    pub fn display(&self) -> (text: String)
        requires
            self@.message() is Some,
        ensures
            Some(text@) == self@.message(),
    {
        match self {
            ParserError::InvalidFuncall => "Invalid funcall".to_owned(),
            ParserError::ExpectedExpression => "Expected expression".to_owned(),
            ParserError::ExpectedIdentifier => "Expected identifier".to_owned(),
            ParserError::ExpectedToken(token) => {
                let name = token.display();
                "Expected token: ".to_owned().concat(name.as_str())
            },
            ParserError::Eof => "End of file".to_owned(),
            ParserError::Unknown => "Unknown".to_owned(),
        }
    }
}

/// An expression: a literal, a variable, or a call with its arguments. Two
/// expressions are equal where they are of one kind and hold the same token,
/// name and arguments.
#[derive(Debug)]
pub enum Expression {
    Literal(Token),
    Identifier(String),
    FunctionCall { name: String, arguments: Vec<Expression> },
}

/// The mathematical value of an [`Expression`].
pub enum ExpressionView {
    Literal(TokenView),
    Identifier(Seq<char>),
    FunctionCall { name: Seq<char>, arguments: Seq<ExpressionView> },
}

/// The view of an expression: its strings as sequences of characters, and
/// the same of its arguments.
pub open spec fn expression_view(expression: Expression) -> ExpressionView
    decreases expression,
{
    match expression {
        Expression::Literal(token) => ExpressionView::Literal(token@),
        Expression::Identifier(name) => ExpressionView::Identifier(name@),
        Expression::FunctionCall { name, arguments } => ExpressionView::FunctionCall {
            name: name@,
            arguments: Seq::new(
                arguments@.len(),
                |i: int|
                    if 0 <= i < arguments@.len() {
                        expression_view(arguments@[i])
                    } else {
                        arbitrary()
                    },
            ),
        },
    }
}

impl View for Expression {
    type V = ExpressionView;

    open spec fn view(&self) -> ExpressionView {
        expression_view(*self)
    }
}

impl Expression {
    /// Whether `self` and `other` are the same expression.
    fn same_as(&self, other: &Expression) -> (same: bool)
        ensures
            same == (self@ == other@),
        decreases self,
    {
        match (self, other) {
            (Expression::Literal(token), Expression::Literal(other_token)) => *token
                == *other_token,
            (Expression::Identifier(name), Expression::Identifier(other_name)) => *name
                == *other_name,
            (
                Expression::FunctionCall { name, arguments },
                Expression::FunctionCall { name: other_name, arguments: other_arguments },
            ) => {
                proof {
                    lemma_call_view(*name, *arguments);
                    lemma_call_view(*other_name, *other_arguments);
                }
                assert(self@->arguments.len() == arguments.len());
                assert(other@->arguments.len() == other_arguments.len());
                assert(self@->name == name@ && other@->name == other_name@);
                if !(*name == *other_name) || arguments.len() != other_arguments.len() {
                    return false;
                }
                let mut i: usize = 0;
                while i < arguments.len()
                    invariant
                        i <= arguments.len(),
                        arguments.len() == other_arguments.len(),
                        name@ == other_name@,
                        self@ == (ExpressionView::FunctionCall {
                            name: name@,
                            arguments: expression_views(arguments@),
                        }),
                        other@ == (ExpressionView::FunctionCall {
                            name: other_name@,
                            arguments: expression_views(other_arguments@),
                        }),
                        *self == (Expression::FunctionCall { name: *name, arguments: *arguments }),
                        forall|k: int|
                            0 <= k < i ==> expression_views(arguments@)[k] == expression_views(
                                other_arguments@,
                            )[k],
                    decreases arguments.len() - i,
                {
                    if !arguments[i].same_as(&other_arguments[i]) {
                        assert(expression_views(arguments@)[i as int] != expression_views(
                            other_arguments@,
                        )[i as int]);
                        return false;
                    }
                    i += 1;
                }
                assert(expression_views(arguments@) =~= expression_views(other_arguments@));
                true
            },
            _ => false,
        }
    }
}

impl PartialEq for Expression {
    fn eq(&self, other: &Self) -> (same: bool) {
        self.same_as(other)
    }
}

impl PartialEqSpecImpl for Expression {
    open spec fn obeys_eq_spec() -> bool {
        true
    }

    open spec fn eq_spec(&self, other: &Self) -> bool {
        self@ == other@
    }
}

/// The views of a sequence of expressions.
pub open spec fn expression_views(expressions: Seq<Expression>) -> Seq<ExpressionView> {
    expressions.map_values(|expression: Expression| expression@)
}

/// A statement: a declaration that binds a name, or an expression on its
/// own. Two statements are equal where they are of one kind and hold the same
/// name and expression.
#[derive(Debug)]
pub enum Statement {
    VariableDeclaration { name: String, expression: Expression },
    ExpressionStatement(Expression),
}

/// The mathematical value of a [`Statement`].
pub enum StatementView {
    VariableDeclaration { name: Seq<char>, expression: ExpressionView },
    ExpressionStatement(ExpressionView),
}

impl View for Statement {
    type V = StatementView;

    open spec fn view(&self) -> StatementView {
        match self {
            Statement::VariableDeclaration { name, expression } => {
                StatementView::VariableDeclaration { name: name@, expression: expression@ }
            },
            Statement::ExpressionStatement(expression) => StatementView::ExpressionStatement(
                expression@,
            ),
        }
    }
}

impl PartialEq for Statement {
    fn eq(&self, other: &Self) -> (same: bool) {
        match (self, other) {
            (
                Statement::VariableDeclaration { name, expression },
                Statement::VariableDeclaration { name: other_name, expression: other_expression },
            ) => *name == *other_name && *expression == *other_expression,
            (
                Statement::ExpressionStatement(expression),
                Statement::ExpressionStatement(other_expression),
            ) => *expression == *other_expression,
            _ => false,
        }
    }
}

impl PartialEqSpecImpl for Statement {
    open spec fn obeys_eq_spec() -> bool {
        true
    }

    open spec fn eq_spec(&self, other: &Self) -> bool {
        self@ == other@
    }
}

/// The views of a sequence of statements.
pub open spec fn statement_views(statements: Seq<Statement>) -> Seq<StatementView> {
    statements.map_values(|statement: Statement| statement@)
}

/// What one step of the parser yields: a value or an error, and where the
/// cursor stands afterwards.
pub struct Parsed<T> {
    pub outcome: Result<T, ParserErrorView>,
    pub end: int,
}

/// Where the cursor stands after one more token is consumed at `at`: one
/// further, but never past the end.
pub open spec fn after_token(tokens: Seq<TokenView>, at: int) -> int {
    if 0 <= at < tokens.len() {
        at + 1
    } else {
        at
    }
}

/// Whether the token at `at` exists and is `expected`.
pub open spec fn token_is(tokens: Seq<TokenView>, at: int, expected: TokenView) -> bool {
    0 <= at < tokens.len() && tokens[at] == expected
}

/// An expression that begins at `at`.
///
/// A literal token is a literal; an identifier with `(` right after it begins
/// a call; any other identifier is a variable; no other token begins an
/// expression.
pub open spec fn parse_expression(tokens: Seq<TokenView>, at: int) -> Parsed<ExpressionView>
    decreases tokens.len() - at, 0int,
{
    if !(0 <= at < tokens.len()) {
        Parsed { outcome: Err(ParserErrorView::Eof), end: at }
    } else {
        match tokens[at] {
            TokenView::NumberLiteral(_) | TokenView::StringLiteral(_) => Parsed {
                outcome: Ok(ExpressionView::Literal(tokens[at])),
                end: at + 1,
            },
            TokenView::Identifier(name) => {
                if token_is(tokens, at + 1, TokenView::OpenParen) {
                    parse_call(tokens, at + 2, name)
                } else {
                    Parsed { outcome: Ok(ExpressionView::Identifier(name)), end: at + 1 }
                }
            },
            _ => Parsed { outcome: Err(ParserErrorView::Unknown), end: at + 1 },
        }
    }
}

/// The call of `name` whose argument list begins at `at`, just after `(`.
pub open spec fn parse_call(tokens: Seq<TokenView>, at: int, name: Seq<char>) -> Parsed<
    ExpressionView,
>
    decreases tokens.len() - at, 2int,
{
    let list = parse_arguments(tokens, at, false, Seq::empty());
    match list.outcome {
        Ok(arguments) => Parsed {
            outcome: Ok(ExpressionView::FunctionCall { name, arguments }),
            end: list.end,
        },
        Err(error) => Parsed { outcome: Err(error), end: list.end },
    }
}

/// The rest of an argument list from `at` on, up to and with its `)`.
/// `arguments` are those read so far, and `after_comma` tells whether the
/// token before `at` was a comma.
///
/// A comma is in order only after an argument, an argument only at the start
/// of the list or after a comma, and `)` only at the start or after an
/// argument. Anything else, and the end of the tokens, makes the call
/// invalid; an argument that fails to parse fails the list with its own
/// error.
pub open spec fn parse_arguments(
    tokens: Seq<TokenView>,
    at: int,
    after_comma: bool,
    arguments: Seq<ExpressionView>,
) -> Parsed<Seq<ExpressionView>>
    decreases tokens.len() - at, 1int,
{
    if !(0 <= at < tokens.len()) {
        Parsed { outcome: Err(ParserErrorView::InvalidFuncall), end: at }
    } else {
        match tokens[at] {
            TokenView::CloseParen => {
                if after_comma {
                    Parsed { outcome: Err(ParserErrorView::InvalidFuncall), end: at }
                } else {
                    Parsed { outcome: Ok(arguments), end: at + 1 }
                }
            },
            TokenView::Colon => {
                if after_comma || arguments.len() == 0 {
                    Parsed { outcome: Err(ParserErrorView::InvalidFuncall), end: at }
                } else {
                    parse_arguments(tokens, at + 1, true, arguments)
                }
            },
            _ => {
                if arguments.len() > 0 && !after_comma {
                    Parsed { outcome: Err(ParserErrorView::InvalidFuncall), end: at }
                } else {
                    let argument = parse_expression(tokens, at);
                    match argument.outcome {
                        Ok(expression) => {
                            if at < argument.end <= tokens.len() {
                                parse_arguments(
                                    tokens,
                                    argument.end,
                                    false,
                                    arguments.push(expression),
                                )
                            } else {
                                Parsed {
                                    outcome: Err(ParserErrorView::InvalidFuncall),
                                    end: argument.end,
                                }
                            }
                        },
                        Err(error) => Parsed { outcome: Err(error), end: argument.end },
                    }
                }
            },
        }
    }
}

/// The rest of a declaration from `at` on, just after `roots`: a name, `=`,
/// an expression and `;`, each reported by name where it is missing.
pub open spec fn parse_declaration(tokens: Seq<TokenView>, at: int) -> Parsed<StatementView> {
    if !(0 <= at < tokens.len()) {
        Parsed { outcome: Err(ParserErrorView::ExpectedIdentifier), end: at }
    } else if !(tokens[at] is Identifier) {
        Parsed { outcome: Err(ParserErrorView::ExpectedIdentifier), end: at + 1 }
    } else if !token_is(tokens, at + 1, TokenView::Equals) {
        Parsed {
            outcome: Err(ParserErrorView::ExpectedToken(TokenView::Equals)),
            end: after_token(tokens, at + 1),
        }
    } else {
        let bound = parse_expression(tokens, at + 2);
        match bound.outcome {
            Err(_) => Parsed { outcome: Err(ParserErrorView::ExpectedExpression), end: bound.end },
            Ok(expression) => {
                if !token_is(tokens, bound.end, TokenView::SemiColon) {
                    Parsed {
                        outcome: Err(ParserErrorView::ExpectedToken(TokenView::SemiColon)),
                        end: after_token(tokens, bound.end),
                    }
                } else {
                    Parsed {
                        outcome: Ok(
                            StatementView::VariableDeclaration {
                                name: tokens[at]->Identifier_0,
                                expression,
                            },
                        ),
                        end: bound.end + 1,
                    }
                }
            },
        }
    }
}

/// The rest of a call statement from `at` on, just after the `(` that follows
/// `name`: the argument list and `;`.
pub open spec fn parse_call_statement(tokens: Seq<TokenView>, at: int, name: Seq<char>) -> Parsed<
    StatementView,
> {
    let call = parse_call(tokens, at, name);
    match call.outcome {
        Err(error) => Parsed { outcome: Err(error), end: call.end },
        Ok(expression) => {
            if !token_is(tokens, call.end, TokenView::SemiColon) {
                Parsed {
                    outcome: Err(ParserErrorView::ExpectedToken(TokenView::SemiColon)),
                    end: after_token(tokens, call.end),
                }
            } else {
                Parsed {
                    outcome: Ok(StatementView::ExpressionStatement(expression)),
                    end: call.end + 1,
                }
            }
        },
    }
}

/// The statement that begins at `at`.
///
/// `roots` begins a declaration, and an identifier with `(` right after it a
/// call statement. Every other first token is unknown to the grammar, the
/// other keywords among them, and so is an identifier without `(`. With no
/// token left the tokens are at their end.
pub open spec fn parse_statement(tokens: Seq<TokenView>, at: int) -> Parsed<StatementView> {
    if !(0 <= at < tokens.len()) {
        Parsed { outcome: Err(ParserErrorView::Eof), end: at }
    } else {
        match tokens[at] {
            TokenView::Keyword(Keyword::Roots) => parse_declaration(tokens, at + 1),
            TokenView::Identifier(name) => {
                if token_is(tokens, at + 1, TokenView::OpenParen) {
                    parse_call_statement(tokens, at + 2, name)
                } else {
                    Parsed {
                        outcome: Err(ParserErrorView::Unknown),
                        end: after_token(tokens, at + 1),
                    }
                }
            },
            _ => Parsed { outcome: Err(ParserErrorView::Unknown), end: at + 1 },
        }
    }
}

/// The parser run to the end of `tokens` from `at`: the statements of the
/// successive steps up to the step that finds no token left, or the first
/// error.
pub open spec fn parse_all(tokens: Seq<TokenView>, at: int) -> Parsed<Seq<StatementView>>
    decreases tokens.len() - at,
{
    let step = parse_statement(tokens, at);
    match step.outcome {
        Ok(statement) => {
            if at < step.end <= tokens.len() {
                let rest = parse_all(tokens, step.end);
                match rest.outcome {
                    Ok(statements) => Parsed {
                        outcome: Ok(seq![statement] + statements),
                        end: rest.end,
                    },
                    Err(error) => rest,
                }
            } else {
                Parsed { outcome: Ok(seq![statement]), end: step.end }
            }
        },
        Err(ParserErrorView::Eof) => Parsed { outcome: Ok(Seq::empty()), end: step.end },
        Err(error) => Parsed { outcome: Err(error), end: step.end },
    }
}

/// An expression ends within the tokens, and one that parses holds at least
/// one token.
pub proof fn lemma_parse_expression_advances(tokens: Seq<TokenView>, at: int)
    requires
        0 <= at <= tokens.len(),
    ensures
        at <= parse_expression(tokens, at).end <= tokens.len(),
        parse_expression(tokens, at).outcome is Ok ==> at < parse_expression(tokens, at).end,
    decreases tokens.len() - at, 0int,
{
    if at < tokens.len() {
        if tokens[at] is Identifier && token_is(tokens, at + 1, TokenView::OpenParen) {
            lemma_parse_arguments_advances(tokens, at + 2, false, Seq::empty());
        }
    }
}

/// An argument list ends within the tokens, and one that parses holds at
/// least its `)`.
pub proof fn lemma_parse_arguments_advances(
    tokens: Seq<TokenView>,
    at: int,
    after_comma: bool,
    arguments: Seq<ExpressionView>,
)
    requires
        0 <= at <= tokens.len(),
    ensures
        at <= parse_arguments(tokens, at, after_comma, arguments).end <= tokens.len(),
        parse_arguments(tokens, at, after_comma, arguments).outcome is Ok ==> at < parse_arguments(
            tokens,
            at,
            after_comma,
            arguments,
        ).end,
    decreases tokens.len() - at, 1int,
{
    if at < tokens.len() {
        match tokens[at] {
            TokenView::CloseParen => {},
            TokenView::Colon => {
                if !(after_comma || arguments.len() == 0) {
                    lemma_parse_arguments_advances(tokens, at + 1, true, arguments);
                }
            },
            _ => {
                if !(arguments.len() > 0 && !after_comma) {
                    lemma_parse_expression_advances(tokens, at);
                    let argument = parse_expression(tokens, at);
                    if argument.outcome is Ok {
                        lemma_parse_arguments_advances(
                            tokens,
                            argument.end,
                            false,
                            arguments.push(argument.outcome->Ok_0),
                        );
                    }
                }
            },
        }
    }
}

/// A statement ends within the tokens, and one that parses holds at least
/// one token.
pub proof fn lemma_parse_statement_advances(tokens: Seq<TokenView>, at: int)
    requires
        0 <= at <= tokens.len(),
    ensures
        at <= parse_statement(tokens, at).end <= tokens.len(),
        parse_statement(tokens, at).outcome is Ok ==> at < parse_statement(tokens, at).end,
{
    if at < tokens.len() {
        if at + 2 <= tokens.len() {
            lemma_parse_expression_advances(tokens, at + 2);
            lemma_parse_arguments_advances(tokens, at + 2, false, Seq::empty());
        }
        if at + 3 <= tokens.len() {
            lemma_parse_expression_advances(tokens, at + 3);
        }
    }
}

/// An expression that begins at a token does not fail for want of tokens:
/// the end of the tokens is reported only at the end.
pub proof fn lemma_expression_eof_only_at_end(tokens: Seq<TokenView>, at: int)
    requires
        0 <= at < tokens.len(),
    ensures
        parse_expression(tokens, at).outcome != Err::<ExpressionView, ParserErrorView>(
            ParserErrorView::Eof,
        ),
    decreases tokens.len() - at, 0int,
{
    if tokens[at] is Identifier && token_is(tokens, at + 1, TokenView::OpenParen) {
        lemma_arguments_never_eof(tokens, at + 2, false, Seq::empty());
    }
}

/// An argument list never reports the end of the tokens: where they end
/// before its `)`, the call is invalid.
pub proof fn lemma_arguments_never_eof(
    tokens: Seq<TokenView>,
    at: int,
    after_comma: bool,
    arguments: Seq<ExpressionView>,
)
    requires
        0 <= at <= tokens.len(),
    ensures
        parse_arguments(tokens, at, after_comma, arguments).outcome != Err::<
            Seq<ExpressionView>,
            ParserErrorView,
        >(ParserErrorView::Eof),
    decreases tokens.len() - at, 1int,
{
    if at < tokens.len() {
        match tokens[at] {
            TokenView::CloseParen => {},
            TokenView::Colon => {
                if !(after_comma || arguments.len() == 0) {
                    lemma_arguments_never_eof(tokens, at + 1, true, arguments);
                }
            },
            _ => {
                if !(arguments.len() > 0 && !after_comma) {
                    lemma_expression_eof_only_at_end(tokens, at);
                    lemma_parse_expression_advances(tokens, at);
                    let argument = parse_expression(tokens, at);
                    if argument.outcome is Ok {
                        lemma_arguments_never_eof(
                            tokens,
                            argument.end,
                            false,
                            arguments.push(argument.outcome->Ok_0),
                        );
                    }
                }
            },
        }
    }
}

/// A statement reports the end of the tokens only where no token is left:
/// a statement that breaks off fails with another error.
pub proof fn lemma_statement_eof_only_at_end(tokens: Seq<TokenView>, at: int)
    requires
        0 <= at <= tokens.len(),
    ensures
        parse_statement(tokens, at).outcome == Err::<StatementView, ParserErrorView>(
            ParserErrorView::Eof,
        ) <==> at == tokens.len(),
{
    if at + 2 <= tokens.len() {
        lemma_arguments_never_eof(tokens, at + 2, false, Seq::empty());
    }
}

/// The view of a call holds the views of the call's arguments.
pub proof fn lemma_call_view(name: String, arguments: Vec<Expression>)
    ensures
        (Expression::FunctionCall { name, arguments })@ == (ExpressionView::FunctionCall {
            name: name@,
            arguments: expression_views(arguments@),
        }),
{
    let call = Expression::FunctionCall { name, arguments };
    assert(call@->arguments =~= expression_views(arguments@));
}

/// A parser over a sequence of tokens, with a cursor into it that only moves
/// forward.
pub struct Parser {
    tokens: Vec<Token>,
    cursor: usize,
}

impl Parser {
    /// The cursor never passes the end of the tokens.
    #[verifier::type_invariant]
    spec fn within_tokens(self) -> bool {
        self.cursor <= self.tokens.len()
    }

    /// The tokens under the parser.
    pub closed spec fn tokens(&self) -> Seq<TokenView> {
        token_views(self.tokens@)
    }

    /// The position of the cursor in the tokens.
    pub closed spec fn position(&self) -> int {
        self.cursor as int
    }

    /// The token under the cursor, if there is one.
    pub open spec fn current(&self) -> Option<TokenView> {
        if 0 <= self.position() < self.tokens().len() {
            Some(self.tokens()[self.position()])
        } else {
            None
        }
    }

    /// A parser at the start of `tokens`.
    pub fn new(tokens: Vec<Token>) -> (parser: Self)
        ensures
            parser.tokens() == token_views(tokens@),
            parser.position() == 0,
    {
        Parser { tokens, cursor: 0 }
    }

    /// The token under the cursor.
    fn peek(&self) -> (token: Option<Token>)
        ensures
            match token {
                Some(token) => self.current() == Some(token@),
                None => self.current() is None,
            },
    {
        if self.cursor < self.tokens.len() {
            Some(self.tokens[self.cursor].clone())
        } else {
            None
        }
    }

    /// The token under the cursor, which then moves past it. At the end of
    /// the tokens the cursor stays.
    fn consume(&mut self) -> (token: Option<Token>)
        ensures
            final(self).tokens() == old(self).tokens(),
            final(self).position() == after_token(old(self).tokens(), old(self).position()),
            match token {
                Some(token) => old(self).current() == Some(token@),
                None => old(self).current() is None,
            },
    {
        let token = self.peek();
        self.skip();
        token
    }

    /// Moves the cursor past the token under it. At the end of the tokens the
    /// cursor stays.
    fn skip(&mut self)
        ensures
            final(self).tokens() == old(self).tokens(),
            final(self).position() == after_token(old(self).tokens(), old(self).position()),
    {
        if self.cursor < self.tokens.len() {
            self.cursor += 1;
        }
    }

    /// Consumes a token and returns its name where it is an identifier.
    fn consume_expect_indentifier(&mut self) -> (result: Result<String, ParserError>)
        ensures
            final(self).tokens() == old(self).tokens(),
            final(self).position() == after_token(old(self).tokens(), old(self).position()),
            match result {
                Ok(name) => old(self).current() == Some(TokenView::Identifier(name@)),
                Err(error) => error@ == ParserErrorView::ExpectedIdentifier && !(
                old(self).current() matches Some(TokenView::Identifier(_))),
            },
    {
        match self.consume() {
            Some(Token::Identifier(identifier)) => Ok(identifier),
            _ => Err(ParserError::ExpectedIdentifier),
        }
    }

    /// Parses an expression at the cursor.
    fn try_parse_expression(&mut self) -> (result: Result<Expression, ParserError>)
        ensures
            final(self).tokens() == old(self).tokens(),
            final(self).position() == parse_expression(old(self).tokens(), old(self).position()).end,
            match result {
                Ok(expression) => parse_expression(old(self).tokens(), old(self).position()).outcome
                    == Ok::<ExpressionView, ParserErrorView>(expression@),
                Err(error) => parse_expression(old(self).tokens(), old(self).position()).outcome
                    == Err::<ExpressionView, ParserErrorView>(error@),
            },
        decreases old(self).tokens().len() - old(self).position(), 0int,
    {
        proof {
            use_type_invariant(&*self);
        }
        match self.consume() {
            Some(token) => {
                match token {
                    Token::NumberLiteral(_) | Token::StringLiteral(_) => Ok(
                        Expression::Literal(token),
                    ),
                    Token::Identifier(identifier) => {
                        match self.peek() {
                            Some(Token::OpenParen) => {
                                self.skip();
                                self.try_parse_funcall(identifier)
                            },
                            _ => Ok(Expression::Identifier(identifier)),
                        }
                    },
                    _ => Err(ParserError::Unknown),
                }
            },
            None => Err(ParserError::Eof),
        }
    }

    /// Parses the rest of a declaration, just after `roots`.
    fn try_parse_variable_declaration(&mut self) -> (result: Result<Statement, ParserError>)
        ensures
            final(self).tokens() == old(self).tokens(),
            final(self).position() == parse_declaration(
                old(self).tokens(),
                old(self).position(),
            ).end,
            match result {
                Ok(statement) => parse_declaration(old(self).tokens(), old(self).position()).outcome
                    == Ok::<StatementView, ParserErrorView>(statement@),
                Err(error) => parse_declaration(old(self).tokens(), old(self).position()).outcome
                    == Err::<StatementView, ParserErrorView>(error@),
            },
    {
        proof {
            use_type_invariant(&*self);
        }
        let variable_name = match self.consume_expect_indentifier() {
            Ok(name) => name,
            Err(error) => {
                return Err(error);
            },
        };
        match self.consume() {
            Some(Token::Equals) => {},
            _ => {
                return Err(ParserError::ExpectedToken(Token::Equals));
            },
        }
        let expression = match self.try_parse_expression() {
            Ok(expression) => expression,
            Err(_) => {
                return Err(ParserError::ExpectedExpression);
            },
        };
        match self.consume() {
            Some(Token::SemiColon) => {},
            _ => {
                return Err(ParserError::ExpectedToken(Token::SemiColon));
            },
        }
        Ok(Statement::VariableDeclaration { name: variable_name, expression })
    }

    /// Parses the statement that the keyword `begin`, just consumed, begins.
    fn try_parse_keyword(&mut self, begin: Keyword) -> (result: Result<Statement, ParserError>)
        ensures
            final(self).tokens() == old(self).tokens(),
            begin == Keyword::Roots ==> final(self).position() == parse_declaration(
                old(self).tokens(),
                old(self).position(),
            ).end,
            begin != Keyword::Roots ==> final(self).position() == old(self).position(),
            match result {
                Ok(statement) => begin == Keyword::Roots && parse_declaration(
                    old(self).tokens(),
                    old(self).position(),
                ).outcome == Ok::<StatementView, ParserErrorView>(statement@),
                Err(error) => if begin == Keyword::Roots {
                    parse_declaration(old(self).tokens(), old(self).position()).outcome == Err::<
                        StatementView,
                        ParserErrorView,
                    >(error@)
                } else {
                    error@ == ParserErrorView::Unknown
                },
            },
    {
        match begin {
            Keyword::Roots => self.try_parse_variable_declaration(),
            _ => Err(ParserError::Unknown),
        }
    }

    /// Parses the argument list of a call of `name`, just after its `(`.
    fn try_parse_funcall(&mut self, name: String) -> (result: Result<Expression, ParserError>)
        ensures
            final(self).tokens() == old(self).tokens(),
            final(self).position() == parse_call(
                old(self).tokens(),
                old(self).position(),
                name@,
            ).end,
            match result {
                Ok(expression) => parse_call(old(self).tokens(), old(self).position(), name@).outcome
                    == Ok::<ExpressionView, ParserErrorView>(expression@),
                Err(error) => parse_call(old(self).tokens(), old(self).position(), name@).outcome
                    == Err::<ExpressionView, ParserErrorView>(error@),
            },
        decreases old(self).tokens().len() - old(self).position(), 2int,
    {
        proof {
            use_type_invariant(&*self);
        }
        let mut previous_colon = false;
        let mut arguments: Vec<Expression> = Vec::new();
        assert(expression_views(arguments@) =~= Seq::<ExpressionView>::empty());
        loop
            invariant
                self.tokens() == old(self).tokens(),
                old(self).position() <= self.position() <= self.tokens().len(),
                parse_arguments(
                    self.tokens(),
                    self.position(),
                    previous_colon,
                    expression_views(arguments@),
                ) == parse_arguments(
                    self.tokens(),
                    old(self).position(),
                    false,
                    Seq::<ExpressionView>::empty(),
                ),
            decreases self.tokens().len() - self.position(),
        {
            match self.peek() {
                Some(token) => {
                    match token {
                        Token::CloseParen => {
                            if previous_colon {
                                return Err(ParserError::InvalidFuncall);
                            }
                            self.skip();
                            proof {
                                lemma_call_view(name, arguments);
                            }
                            return Ok(Expression::FunctionCall { name, arguments });
                        },
                        Token::Colon => {
                            if previous_colon || arguments.len() == 0 {
                                return Err(ParserError::InvalidFuncall);
                            }
                            self.skip();
                            previous_colon = true;
                        },
                        _ => {
                            if arguments.len() > 0 && !previous_colon {
                                return Err(ParserError::InvalidFuncall);
                            }
                            proof {
                                lemma_parse_expression_advances(self.tokens(), self.position());
                            }
                            let ghost before = arguments@;
                            match self.try_parse_expression() {
                                Ok(argument) => {
                                    arguments.push(argument);
                                    assert(expression_views(arguments@) =~= expression_views(
                                        before,
                                    ).push(argument@));
                                },
                                Err(error) => {
                                    return Err(error);
                                },
                            }
                            previous_colon = false;
                        },
                    }
                },
                None => {
                    return Err(ParserError::InvalidFuncall);
                },
            }
        }
    }

    /// Parses the rest of a call statement of `name`, just after its `(`.
    fn try_parse_funcall_statment(&mut self, name: String) -> (result: Result<
        Statement,
        ParserError,
    >)
        ensures
            final(self).tokens() == old(self).tokens(),
            final(self).position() == parse_call_statement(
                old(self).tokens(),
                old(self).position(),
                name@,
            ).end,
            match result {
                Ok(statement) => parse_call_statement(
                    old(self).tokens(),
                    old(self).position(),
                    name@,
                ).outcome == Ok::<StatementView, ParserErrorView>(statement@),
                Err(error) => parse_call_statement(
                    old(self).tokens(),
                    old(self).position(),
                    name@,
                ).outcome == Err::<StatementView, ParserErrorView>(error@),
            },
    {
        let expression = match self.try_parse_funcall(name) {
            Ok(expression) => expression,
            Err(error) => {
                return Err(error);
            },
        };
        match self.consume() {
            Some(Token::SemiColon) => {},
            _ => {
                return Err(ParserError::ExpectedToken(Token::SemiColon));
            },
        }
        Ok(Statement::ExpressionStatement(expression))
    }

    /// Parses the statement that the identifier `name`, just consumed, begins.
    fn try_parse_identifier(&mut self, name: String) -> (result: Result<Statement, ParserError>)
        ensures
            final(self).tokens() == old(self).tokens(),
            final(self).position() == if old(self).current() == Some(TokenView::OpenParen) {
                parse_call_statement(old(self).tokens(), old(self).position() + 1, name@).end
            } else {
                after_token(old(self).tokens(), old(self).position())
            },
            match result {
                Ok(statement) => old(self).current() == Some(TokenView::OpenParen)
                    && parse_call_statement(
                    old(self).tokens(),
                    old(self).position() + 1,
                    name@,
                ).outcome == Ok::<StatementView, ParserErrorView>(statement@),
                Err(error) => if old(self).current() == Some(TokenView::OpenParen) {
                    parse_call_statement(
                        old(self).tokens(),
                        old(self).position() + 1,
                        name@,
                    ).outcome == Err::<StatementView, ParserErrorView>(error@)
                } else {
                    error@ == ParserErrorView::Unknown
                },
            },
    {
        match self.consume() {
            Some(Token::OpenParen) => self.try_parse_funcall_statment(name),
            _ => Err(ParserError::Unknown),
        }
    }

    /// The next statement, or why there is none. The cursor moves as
    /// [`parse_statement`] says, also where the step fails: after an error
    /// the parser is not where a statement begins.
    pub fn next(&mut self) -> (result: Result<Statement, ParserError>)
        ensures
            final(self).tokens() == old(self).tokens(),
            final(self).position() == parse_statement(old(self).tokens(), old(self).position()).end,
            match result {
                Ok(statement) => parse_statement(old(self).tokens(), old(self).position()).outcome
                    == Ok::<StatementView, ParserErrorView>(statement@),
                Err(error) => parse_statement(old(self).tokens(), old(self).position()).outcome
                    == Err::<StatementView, ParserErrorView>(error@),
            },
    {
        match self.consume() {
            Some(token) => {
                match token {
                    Token::Keyword(keyword) => self.try_parse_keyword(keyword),
                    Token::Identifier(name) => self.try_parse_identifier(name),
                    _ => Err(ParserError::Unknown),
                }
            },
            None => Err(ParserError::Eof),
        }
    }

    /// All the statements from the cursor to the end of the tokens, or the
    /// first error on the way. The end of the tokens is no error here.
    pub fn parse(&mut self) -> (result: Result<Vec<Statement>, ParserError>)
        ensures
            final(self).tokens() == old(self).tokens(),
            final(self).position() == parse_all(old(self).tokens(), old(self).position()).end,
            match result {
                Ok(statements) => parse_all(old(self).tokens(), old(self).position()).outcome
                    == Ok::<Seq<StatementView>, ParserErrorView>(statement_views(statements@)),
                Err(error) => parse_all(old(self).tokens(), old(self).position()).outcome == Err::<
                    Seq<StatementView>,
                    ParserErrorView,
                >(error@),
            },
    {
        proof {
            use_type_invariant(&*self);
        }
        let mut statments: Vec<Statement> = Vec::new();
        loop
            invariant
                self.tokens() == old(self).tokens(),
                0 <= self.position() <= self.tokens().len(),
                parse_all(self.tokens(), old(self).position()).end == parse_all(
                    self.tokens(),
                    self.position(),
                ).end,
                match parse_all(self.tokens(), self.position()).outcome {
                    Ok(rest) => parse_all(self.tokens(), old(self).position()).outcome == Ok::<
                        Seq<StatementView>,
                        ParserErrorView,
                    >(statement_views(statments@) + rest),
                    Err(error) => parse_all(self.tokens(), old(self).position()).outcome == Err::<
                        Seq<StatementView>,
                        ParserErrorView,
                    >(error),
                },
            decreases self.tokens().len() - self.position(),
        {
            proof {
                lemma_parse_statement_advances(self.tokens(), self.position());
            }
            let ghost before = statments@;
            match self.next() {
                Ok(statement) => {
                    statments.push(statement);
                    proof {
                        assert(statement_views(statments@) =~= statement_views(before).push(
                            statement@,
                        ));
                        assert forall|rest: Seq<StatementView>|
                            statement_views(before) + (seq![statement@] + rest) == statement_views(
                                statments@,
                            ) + rest by {
                            assert(statement_views(before) + (seq![statement@] + rest)
                                =~= statement_views(statments@) + rest);
                        }
                    }
                },
                Err(error) => {
                    match error {
                        ParserError::Eof => {
                            assert(statement_views(statments@) + Seq::<StatementView>::empty()
                                =~= statement_views(statments@));
                            return Ok(statments);
                        },
                        _ => {
                            return Err(error);
                        },
                    }
                },
            }
        }
    }
}

} // verus!
