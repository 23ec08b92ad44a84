//! The grammar, and the parser held against it.
//!
//! The model of the parser says what it does token by token. Here the
//! grammar is written down the other way round, as the tokens that write a
//! given statement, and the two are proved to agree: the parser accepts the
//! tokens that write a statement and returns that statement, and whatever it
//! returns is written by the tokens that it consumed.

use crate::lexer::{Keyword, TokenView};
use crate::parser::{
    lemma_parse_arguments_advances, lemma_parse_expression_advances,
    lemma_parse_statement_advances, lemma_statement_eof_only_at_end, parse_all, parse_arguments,
    parse_call, parse_expression, parse_statement, token_is, ExpressionView, Parsed,
    StatementView,
};
use vstd::prelude::*;

verus! {

/// Whether `expression` is one that the grammar knows: a literal holds a
/// number or a string, and the arguments of a call are such expressions too.
pub open spec fn is_expression(expression: ExpressionView) -> bool
    decreases expression,
{
    match expression {
        ExpressionView::Literal(token) => token is NumberLiteral || token is StringLiteral,
        ExpressionView::Identifier(_) => true,
        ExpressionView::FunctionCall { name, arguments } => forall|i: int|
            0 <= i < arguments.len() ==> is_expression(#[trigger] arguments[i]),
    }
}

/// Whether `statement` is one that the grammar knows: a declaration of such
/// an expression, or a call of such expressions.
pub open spec fn is_statement(statement: StatementView) -> bool {
    match statement {
        StatementView::VariableDeclaration { name, expression } => is_expression(expression),
        StatementView::ExpressionStatement(expression) => expression is FunctionCall
            && is_expression(expression),
    }
}

/// The rest of an argument list after the first `from` of `items`: each
/// further item after a comma, and `)` at the end.
pub open spec fn more_arguments_tokens(items: Seq<Seq<TokenView>>, from: int) -> Seq<TokenView>
    decreases items.len() - from,
{
    if 0 <= from < items.len() {
        seq![TokenView::Colon] + items[from] + more_arguments_tokens(items, from + 1)
    } else {
        seq![TokenView::CloseParen]
    }
}

/// An argument list, from after its `(` to its `)`: the items with a comma
/// between each two.
pub open spec fn arguments_tokens(items: Seq<Seq<TokenView>>) -> Seq<TokenView> {
    if items.len() == 0 {
        seq![TokenView::CloseParen]
    } else {
        items[0] + more_arguments_tokens(items, 1)
    }
}

/// The tokens that write `expression`.
pub open spec fn expression_tokens(expression: ExpressionView) -> Seq<TokenView>
    decreases expression, 1int,
{
    match expression {
        ExpressionView::Literal(token) => seq![token],
        ExpressionView::Identifier(name) => seq![TokenView::Identifier(name)],
        ExpressionView::FunctionCall { name, arguments } => seq![
            TokenView::Identifier(name),
            TokenView::OpenParen,
        ] + arguments_tokens(argument_items(expression)),
    }
}

/// The tokens that write each argument of a call.
pub open spec fn argument_items(expression: ExpressionView) -> Seq<Seq<TokenView>>
    decreases expression, 0int,
{
    match expression {
        ExpressionView::FunctionCall { name, arguments } => Seq::new(
            arguments.len(),
            |i: int|
                if 0 <= i < arguments.len() {
                    expression_tokens(arguments[i])
                } else {
                    Seq::empty()
                },
        ),
        _ => Seq::empty(),
    }
}

/// The tokens that write each of `arguments`.
pub open spec fn each_expression_tokens(arguments: Seq<ExpressionView>) -> Seq<Seq<TokenView>> {
    arguments.map_values(|argument: ExpressionView| expression_tokens(argument))
}

/// The tokens that write `statement`.
pub open spec fn statement_tokens(statement: StatementView) -> Seq<TokenView> {
    match statement {
        StatementView::VariableDeclaration { name, expression } => seq![
            TokenView::Keyword(Keyword::Roots),
            TokenView::Identifier(name),
            TokenView::Equals,
        ] + expression_tokens(expression) + seq![TokenView::SemiColon],
        StatementView::ExpressionStatement(expression) => expression_tokens(expression) + seq![
            TokenView::SemiColon,
        ],
    }
}

/// The tokens that write `statements`, one after the other.
pub open spec fn program_tokens(statements: Seq<StatementView>) -> Seq<TokenView>
    decreases statements.len(),
{
    if statements.len() == 0 {
        Seq::empty()
    } else {
        statement_tokens(statements[0]) + program_tokens(statements.drop_first())
    }
}

/// A call is written as its name, `(`, and its argument list.
pub proof fn lemma_call_tokens(name: Seq<char>, arguments: Seq<ExpressionView>)
    ensures
        expression_tokens(ExpressionView::FunctionCall { name, arguments }) == seq![
            TokenView::Identifier(name),
            TokenView::OpenParen,
        ] + arguments_tokens(each_expression_tokens(arguments)),
{
    let call = ExpressionView::FunctionCall { name, arguments };
    assert(argument_items(call) =~= each_expression_tokens(arguments));
}

/// What is left of an argument list after `read` of the `items`: after a
/// comma, or right after `(`, the next item comes first, if there is one;
/// after an item, the comma before the next or the `)`.
pub open spec fn pending_arguments_tokens(
    items: Seq<Seq<TokenView>>,
    read: int,
    after_comma: bool,
) -> Seq<TokenView> {
    if after_comma || read == 0 {
        if 0 <= read < items.len() {
            items[read] + more_arguments_tokens(items, read + 1)
        } else {
            seq![TokenView::CloseParen]
        }
    } else {
        more_arguments_tokens(items, read)
    }
}

/// Tokens that hold `first + second` from `at` on hold `first` at `at` and
/// `second` right after it.
proof fn lemma_split(
    tokens: Seq<TokenView>,
    at: int,
    first: Seq<TokenView>,
    second: Seq<TokenView>,
)
    requires
        0 <= at,
        at + first.len() + second.len() <= tokens.len(),
        tokens.subrange(at, at + first.len() + second.len()) == first + second,
    ensures
        tokens.subrange(at, at + first.len()) == first,
        tokens.subrange(at + first.len(), at + first.len() + second.len()) == second,
{
    let whole = tokens.subrange(at, at + first.len() + second.len());
    assert forall|i: int| 0 <= i < first.len() implies tokens[at + i] == first[i] by {
        assert(whole[i] == tokens[at + i]);
    }
    assert forall|i: int| 0 <= i < second.len() implies tokens[at + first.len() + i]
        == second[i] by {
        assert(whole[first.len() + i] == tokens[at + first.len() + i]);
    }
    assert(tokens.subrange(at, at + first.len()) =~= first);
    assert(tokens.subrange(at + first.len(), at + first.len() + second.len()) =~= second);
}

/// An expression of the grammar is written with at least one token, and
/// begins with a literal or an identifier. A call holds a `(` next.
pub proof fn lemma_expression_tokens_begin(expression: ExpressionView)
    requires
        is_expression(expression),
    ensures
        expression_tokens(expression).len() >= 1,
        expression_tokens(expression)[0] is NumberLiteral || expression_tokens(expression)[0]
            is StringLiteral || expression_tokens(expression)[0] is Identifier,
        expression is FunctionCall <==> expression_tokens(expression).len() >= 2,
        expression is FunctionCall ==> expression_tokens(expression)[1] == TokenView::OpenParen,
        expression is FunctionCall ==> expression_tokens(expression)[0] == TokenView::Identifier(
            expression->name,
        ),
{
    match expression {
        ExpressionView::FunctionCall { name, arguments } => {
            lemma_call_tokens(name, arguments);
            let items = each_expression_tokens(arguments);
            assert(arguments_tokens(items).len() >= 1) by {
                if items.len() > 0 {
                    assert(more_arguments_tokens(items, 1).len() >= 1);
                }
            }
        },
        _ => {},
    }
}

/// The tokens that write an expression of the grammar are parsed as that
/// expression, and no token more is consumed. After a lone identifier no
/// `(` may follow: the two would begin a call.
pub proof fn lemma_expression_is_parsed(
    tokens: Seq<TokenView>,
    at: int,
    expression: ExpressionView,
)
    requires
        0 <= at,
        is_expression(expression),
        at + expression_tokens(expression).len() <= tokens.len(),
        tokens.subrange(at, at + expression_tokens(expression).len()) == expression_tokens(
            expression,
        ),
        expression is Identifier ==> !token_is(tokens, at + 1, TokenView::OpenParen),
    ensures
        parse_expression(tokens, at) == (Parsed {
            outcome: Ok(expression),
            end: at + expression_tokens(expression).len(),
        }),
    decreases tokens.len() - at, 0int,
{
    let written = expression_tokens(expression);
    lemma_expression_tokens_begin(expression);
    assert(tokens[at] == written[0]) by {
        assert(tokens.subrange(at, at + written.len())[0] == tokens[at]);
    }
    match expression {
        ExpressionView::FunctionCall { name, arguments } => {
            lemma_call_tokens(name, arguments);
            let items = each_expression_tokens(arguments);
            let head = seq![TokenView::Identifier(name), TokenView::OpenParen];
            assert(tokens[at + 1] == written[1]) by {
                assert(tokens.subrange(at, at + written.len())[1] == tokens[at + 1]);
            }
            lemma_split(tokens, at, head, arguments_tokens(items));
            assert(arguments.take(0) =~= Seq::<ExpressionView>::empty());
            lemma_arguments_are_parsed(tokens, at + 2, arguments, 0, false);
        },
        _ => {},
    }
}

/// The tokens that are left of an argument list are parsed as the arguments
/// that are left.
proof fn lemma_arguments_are_parsed(
    tokens: Seq<TokenView>,
    at: int,
    arguments: Seq<ExpressionView>,
    read: int,
    after_comma: bool,
)
    requires
        0 <= at,
        0 <= read <= arguments.len(),
        after_comma ==> read < arguments.len(),
        forall|i: int| 0 <= i < arguments.len() ==> is_expression(#[trigger] arguments[i]),
        at + pending_arguments_tokens(each_expression_tokens(arguments), read, after_comma).len()
            <= tokens.len(),
        tokens.subrange(
            at,
            at + pending_arguments_tokens(
                each_expression_tokens(arguments),
                read,
                after_comma,
            ).len(),
        ) == pending_arguments_tokens(each_expression_tokens(arguments), read, after_comma),
    ensures
        parse_arguments(tokens, at, after_comma, arguments.take(read)) == (Parsed {
            outcome: Ok(arguments),
            end: at + pending_arguments_tokens(
                each_expression_tokens(arguments),
                read,
                after_comma,
            ).len(),
        }),
    decreases tokens.len() - at, 1int,
{
    let items = each_expression_tokens(arguments);
    let pending = pending_arguments_tokens(items, read, after_comma);
    let done = arguments.take(read);
    assert(pending.len() >= 1 && tokens[at] == pending[0]) by {
        if read < arguments.len() {
            lemma_expression_tokens_begin(arguments[read]);
        }
        assert(tokens.subrange(at, at + pending.len())[0] == tokens[at]);
    }
    if after_comma || read == 0 {
        if read < arguments.len() {
            let argument = arguments[read];
            let more = more_arguments_tokens(items, read + 1);
            lemma_expression_tokens_begin(argument);
            assert(items[read] == expression_tokens(argument));
            lemma_split(tokens, at, items[read], more);
            let next = at + items[read].len();
            assert(more.len() >= 1);
            assert(tokens[next] == more[0]) by {
                assert(tokens.subrange(next, next + more.len())[0] == tokens[next]);
            }
            lemma_expression_is_parsed(tokens, at, argument);
            assert(done.push(argument) =~= arguments.take(read + 1));
            lemma_arguments_are_parsed(tokens, next, arguments, read + 1, false);
        } else {
            assert(done =~= arguments);
        }
    } else {
        if read < arguments.len() {
            let rest = items[read] + more_arguments_tokens(items, read + 1);
            assert(pending =~= seq![TokenView::Colon] + rest);
            lemma_split(tokens, at, seq![TokenView::Colon], rest);
            lemma_arguments_are_parsed(tokens, at + 1, arguments, read, true);
        } else {
            assert(done =~= arguments);
        }
    }
}

/// What parses as an expression is an expression of the grammar, and the
/// tokens consumed are those that write it.
pub proof fn lemma_parsed_expression_is_written(tokens: Seq<TokenView>, at: int)
    requires
        0 <= at <= tokens.len(),
        parse_expression(tokens, at).outcome is Ok,
    ensures
        is_expression(parse_expression(tokens, at).outcome->Ok_0),
        at <= parse_expression(tokens, at).end <= tokens.len(),
        tokens.subrange(at, parse_expression(tokens, at).end) == expression_tokens(
            parse_expression(tokens, at).outcome->Ok_0,
        ),
    decreases tokens.len() - at, 0int,
{
    let parsed = parse_expression(tokens, at);
    let expression = parsed.outcome->Ok_0;
    lemma_parse_expression_advances(tokens, at);
    match tokens[at] {
        TokenView::Identifier(name) => {
            if token_is(tokens, at + 1, TokenView::OpenParen) {
                let list = parse_arguments(tokens, at + 2, false, Seq::empty());
                lemma_parsed_arguments_are_written(tokens, at + 2, false, Seq::empty());
                let arguments = list.outcome->Ok_0;
                lemma_call_tokens(name, arguments);
                let items = each_expression_tokens(arguments);
                assert(pending_arguments_tokens(items, 0, false) == arguments_tokens(items));
                assert(tokens.subrange(at, parsed.end) =~= seq![
                    TokenView::Identifier(name),
                    TokenView::OpenParen,
                ] + tokens.subrange(at + 2, list.end));
            } else {
                assert(tokens.subrange(at, at + 1) =~= seq![tokens[at]]);
            }
        },
        _ => {
            assert(tokens.subrange(at, at + 1) =~= seq![tokens[at]]);
        },
    }
}

/// What parses as the rest of an argument list is written by the tokens
/// consumed, and holds the arguments read before.
proof fn lemma_parsed_arguments_are_written(
    tokens: Seq<TokenView>,
    at: int,
    after_comma: bool,
    done: Seq<ExpressionView>,
)
    requires
        0 <= at <= tokens.len(),
        forall|i: int| 0 <= i < done.len() ==> is_expression(#[trigger] done[i]),
        parse_arguments(tokens, at, after_comma, done).outcome is Ok,
    ensures
        ({
            let parsed = parse_arguments(tokens, at, after_comma, done);
            let arguments = parsed.outcome->Ok_0;
            &&& at <= parsed.end <= tokens.len()
            &&& done.len() <= arguments.len()
            &&& after_comma ==> done.len() < arguments.len()
            &&& arguments.take(done.len() as int) == done
            &&& forall|i: int| 0 <= i < arguments.len() ==> is_expression(#[trigger] arguments[i])
            &&& tokens.subrange(at, parsed.end) == pending_arguments_tokens(
                each_expression_tokens(arguments),
                done.len() as int,
                after_comma,
            )
        }),
    decreases tokens.len() - at, 1int,
{
    let parsed = parse_arguments(tokens, at, after_comma, done);
    let arguments = parsed.outcome->Ok_0;
    let items = each_expression_tokens(arguments);
    let read = done.len() as int;
    lemma_parse_arguments_advances(tokens, at, after_comma, done);
    match tokens[at] {
        TokenView::CloseParen => {
            assert(arguments.take(read) =~= done);
            assert(tokens.subrange(at, at + 1) =~= seq![TokenView::CloseParen]);
        },
        TokenView::Colon => {
            lemma_parsed_arguments_are_written(tokens, at + 1, true, done);
            assert(tokens.subrange(at, parsed.end) =~= seq![TokenView::Colon] + tokens.subrange(
                at + 1,
                parsed.end,
            ));
        },
        _ => {
            let argument = parse_expression(tokens, at);
            let expression = argument.outcome->Ok_0;
            lemma_parse_expression_advances(tokens, at);
            lemma_parsed_expression_is_written(tokens, at);
            let longer = done.push(expression);
            assert forall|i: int| 0 <= i < longer.len() implies is_expression(
                #[trigger] longer[i],
            ) by {
                if i < done.len() {
                    assert(longer[i] == done[i]);
                }
            }
            lemma_parsed_arguments_are_written(tokens, argument.end, false, longer);
            assert(arguments.take(read) =~= done) by {
                assert forall|i: int| 0 <= i < read implies arguments[i] == done[i] by {
                    assert(arguments.take(read + 1)[i] == longer[i]);
                }
            }
            assert(arguments[read] == expression) by {
                assert(arguments.take(read + 1)[read] == longer[read]);
            }
            assert(items[read] == expression_tokens(expression));
            assert(tokens.subrange(at, parsed.end) =~= tokens.subrange(at, argument.end)
                + tokens.subrange(argument.end, parsed.end));
        },
    }
}

/// The tokens that write a statement of the grammar are parsed as that
/// statement, and no token more is consumed.
pub proof fn lemma_statement_is_parsed(
    tokens: Seq<TokenView>,
    at: int,
    statement: StatementView,
)
    requires
        0 <= at,
        is_statement(statement),
        at + statement_tokens(statement).len() <= tokens.len(),
        tokens.subrange(at, at + statement_tokens(statement).len()) == statement_tokens(
            statement,
        ),
    ensures
        parse_statement(tokens, at) == (Parsed {
            outcome: Ok(statement),
            end: at + statement_tokens(statement).len(),
        }),
{
    let written = statement_tokens(statement);
    let semicolon = seq![TokenView::SemiColon];
    match statement {
        StatementView::VariableDeclaration { name, expression } => {
            let head = seq![
                TokenView::Keyword(Keyword::Roots),
                TokenView::Identifier(name),
                TokenView::Equals,
            ];
            let bound = expression_tokens(expression);
            assert(written =~= head + (bound + semicolon));
            lemma_split(tokens, at, head, bound + semicolon);
            lemma_split(tokens, at + 3, bound, semicolon);
            assert(tokens[at] == head[0] && tokens[at + 1] == head[1] && tokens[at + 2]
                == head[2]) by {
                assert(tokens.subrange(at, at + 3)[0] == tokens[at]);
                assert(tokens.subrange(at, at + 3)[1] == tokens[at + 1]);
                assert(tokens.subrange(at, at + 3)[2] == tokens[at + 2]);
            }
            let end = at + 3 + bound.len();
            assert(tokens[end] == TokenView::SemiColon) by {
                assert(tokens.subrange(end, end + 1)[0] == tokens[end]);
            }
            lemma_expression_tokens_begin(expression);
            lemma_expression_is_parsed(tokens, at + 3, expression);
        },
        StatementView::ExpressionStatement(expression) => {
            let call = expression_tokens(expression);
            lemma_expression_tokens_begin(expression);
            lemma_split(tokens, at, call, semicolon);
            let end = at + call.len();
            assert(tokens[end] == TokenView::SemiColon) by {
                assert(tokens.subrange(end, end + 1)[0] == tokens[end]);
            }
            assert(tokens[at] == call[0] && tokens[at + 1] == call[1]) by {
                assert(tokens.subrange(at, at + call.len())[0] == tokens[at]);
                assert(tokens.subrange(at, at + call.len())[1] == tokens[at + 1]);
            }
            lemma_expression_is_parsed(tokens, at, expression);
        },
    }
}

/// What parses as a statement is a statement of the grammar, and the tokens
/// consumed are those that write it.
pub proof fn lemma_parsed_statement_is_written(tokens: Seq<TokenView>, at: int)
    requires
        0 <= at <= tokens.len(),
        parse_statement(tokens, at).outcome is Ok,
    ensures
        is_statement(parse_statement(tokens, at).outcome->Ok_0),
        at < parse_statement(tokens, at).end <= tokens.len(),
        tokens.subrange(at, parse_statement(tokens, at).end) == statement_tokens(
            parse_statement(tokens, at).outcome->Ok_0,
        ),
{
    let parsed = parse_statement(tokens, at);
    lemma_parse_statement_advances(tokens, at);
    match tokens[at] {
        TokenView::Keyword(Keyword::Roots) => {
            let bound = parse_expression(tokens, at + 3);
            lemma_parsed_expression_is_written(tokens, at + 3);
            assert(tokens.subrange(at, parsed.end) =~= seq![
                TokenView::Keyword(Keyword::Roots),
                tokens[at + 1],
                TokenView::Equals,
            ] + tokens.subrange(at + 3, bound.end) + seq![TokenView::SemiColon]);
        },
        TokenView::Identifier(name) => {
            let call = parse_call(tokens, at + 2, name);
            lemma_parsed_expression_is_written(tokens, at);
            assert(parse_expression(tokens, at) == call);
            assert(tokens.subrange(at, parsed.end) =~= tokens.subrange(at, call.end) + seq![
                TokenView::SemiColon,
            ]);
        },
        _ => {},
    }
}

/// The tokens that write statements of the grammar from `at` to the end are
/// parsed as those statements.
pub proof fn lemma_statements_are_parsed(
    tokens: Seq<TokenView>,
    at: int,
    statements: Seq<StatementView>,
)
    requires
        0 <= at <= tokens.len(),
        forall|i: int| 0 <= i < statements.len() ==> is_statement(#[trigger] statements[i]),
        tokens.subrange(at, tokens.len() as int) == program_tokens(statements),
    ensures
        parse_all(tokens, at) == (Parsed { outcome: Ok(statements), end: tokens.len() as int }),
    decreases statements.len(),
{
    if statements.len() == 0 {
        assert(tokens.subrange(at, tokens.len() as int).len() == 0);
        assert(statements =~= Seq::<StatementView>::empty());
    } else {
        let first = statement_tokens(statements[0]);
        let rest = program_tokens(statements.drop_first());
        assert(tokens.subrange(at, tokens.len() as int).len() == first.len() + rest.len());
        lemma_split(tokens, at, first, rest);
        lemma_statement_is_parsed(tokens, at, statements[0]);
        lemma_parse_statement_advances(tokens, at);
        lemma_statements_are_parsed(tokens, at + first.len(), statements.drop_first());
        assert(statements =~= seq![statements[0]] + statements.drop_first());
    }
}

/// A program of the grammar, written down and parsed, is that program again.
pub proof fn lemma_program_is_parsed_back(statements: Seq<StatementView>)
    requires
        forall|i: int| 0 <= i < statements.len() ==> is_statement(#[trigger] statements[i]),
    ensures
        parse_all(program_tokens(statements), 0) == (Parsed {
            outcome: Ok(statements),
            end: program_tokens(statements).len() as int,
        }),
{
    let tokens = program_tokens(statements);
    assert(tokens.subrange(0, tokens.len() as int) =~= tokens);
    lemma_statements_are_parsed(tokens, 0, statements);
}

/// What parses to the end of the tokens is a program of the grammar, and the
/// tokens from `at` on are those that write it.
pub proof fn lemma_parsed_program_is_written(tokens: Seq<TokenView>, at: int)
    requires
        0 <= at <= tokens.len(),
        parse_all(tokens, at).outcome is Ok,
    ensures
        parse_all(tokens, at).end == tokens.len(),
        forall|i: int|
            0 <= i < parse_all(tokens, at).outcome->Ok_0.len() ==> is_statement(
                #[trigger] parse_all(tokens, at).outcome->Ok_0[i],
            ),
        tokens.subrange(at, tokens.len() as int) == program_tokens(
            parse_all(tokens, at).outcome->Ok_0,
        ),
    decreases tokens.len() - at,
{
    let step = parse_statement(tokens, at);
    let statements = parse_all(tokens, at).outcome->Ok_0;
    lemma_parse_statement_advances(tokens, at);
    match step.outcome {
        Ok(statement) => {
            lemma_parsed_statement_is_written(tokens, at);
            lemma_parsed_program_is_written(tokens, step.end);
            let rest = parse_all(tokens, step.end).outcome->Ok_0;
            assert(statements == seq![statement] + rest);
            assert(statements.drop_first() =~= rest);
            assert forall|i: int| 0 <= i < statements.len() implies is_statement(
                #[trigger] statements[i],
            ) by {
                if i > 0 {
                    assert(statements[i] == rest[i - 1]);
                }
            }
            assert(tokens.subrange(at, tokens.len() as int) =~= tokens.subrange(at, step.end)
                + tokens.subrange(step.end, tokens.len() as int));
        },
        Err(_) => {
            lemma_statement_eof_only_at_end(tokens, at);
            assert(at == tokens.len());
            assert(tokens.subrange(at, tokens.len() as int) =~= Seq::<TokenView>::empty());
        },
    }
}

} // verus!
