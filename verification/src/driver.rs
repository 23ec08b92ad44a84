//! What running a statement does: which variable it binds and which values
//! it prints.
//!
//! The language has one builtin, `sound`, which prints its arguments one by
//! one. A declaration binds its name to the value of a literal. Nothing else
//! is implemented: [`is_implemented`] tells what is.

use crate::lexer::{Token, TokenView};
use crate::parser::{Expression, ExpressionView, Statement, StatementView};
use vstd::prelude::*;
use vstd::std_specs::cmp::PartialEqSpecImpl;

verus! {

/// A value at run time: an integer or a string. Two values are equal where
/// they are of one kind and hold the same number or text.
#[derive(Debug)]
pub enum Type {
    Int(i64),
    Str(String),
}

/// The mathematical value of a [`Type`].
pub enum TypeView {
    Int(i64),
    Str(Seq<char>),
}

impl View for Type {
    type V = TypeView;

    open spec fn view(&self) -> TypeView {
        match self {
            Type::Int(value) => TypeView::Int(*value),
            Type::Str(value) => TypeView::Str(value@),
        }
    }
}

impl PartialEq for Type {
    fn eq(&self, other: &Self) -> (same: bool) {
        match (self, other) {
            (Type::Int(value), Type::Int(other_value)) => *value == *other_value,
            (Type::Str(value), Type::Str(other_value)) => *value == *other_value,
            _ => false,
        }
    }
}

impl PartialEqSpecImpl for Type {
    open spec fn obeys_eq_spec() -> bool {
        true
    }

    open spec fn eq_spec(&self, other: &Self) -> bool {
        self@ == other@
    }
}

impl Clone for Type {
    fn clone(&self) -> (copy: Self)
        ensures
            copy@ == self@,
    {
        match self {
            Type::Int(value) => Type::Int(*value),
            Type::Str(value) => Type::Str(value.clone()),
        }
    }
}

/// The views of a sequence of values.
pub open spec fn type_views(values: Seq<Type>) -> Seq<TypeView> {
    values.map_values(|value: Type| value@)
}

/// The value of an expression that is a string or number literal.
pub open spec fn literal_value(expression: ExpressionView) -> Option<TypeView> {
    match expression {
        ExpressionView::Literal(TokenView::StringLiteral(value)) => Some(TypeView::Str(value)),
        ExpressionView::Literal(TokenView::NumberLiteral(value)) => Some(TypeView::Int(value)),
        _ => None,
    }
}

/// The value of a literal.
pub fn expression_to_type(expression: Expression) -> (value: Type)
    requires
        literal_value(expression@) is Some,
    ensures
        Some(value@) == literal_value(expression@),
{
    match expression {
        Expression::Literal(Token::StringLiteral(value)) => Type::Str(value),
        Expression::Literal(Token::NumberLiteral(value)) => Type::Int(value),
        _ => {
            proof {
                assert(false);
            }
            Type::Int(0)
        },
    }
}

/// The map that a sequence of bindings stands for: each binding in turn,
/// a later one of a name in place of an earlier one.
pub open spec fn bindings_map(entries: Seq<(String, Type)>) -> Map<Seq<char>, TypeView>
    decreases entries.len(),
{
    if entries.len() == 0 {
        Map::empty()
    } else {
        bindings_map(entries.drop_last()).insert(entries.last().0@, entries.last().1@)
    }
}

/// The variables of a program, by name.
pub struct Variables {
    entries: Vec<(String, Type)>,
}

impl View for Variables {
    type V = Map<Seq<char>, TypeView>;

    closed spec fn view(&self) -> Map<Seq<char>, TypeView> {
        bindings_map(self.entries@)
    }
}

impl Variables {
    /// No variables.
    pub fn new() -> (variables: Self)
        ensures
            variables@ == Map::<Seq<char>, TypeView>::empty(),
    {
        Variables { entries: Vec::new() }
    }

    /// Binds `name` to `value`, in place of what it was bound to.
    pub fn insert(&mut self, name: String, value: Type)
        ensures
            final(self)@ == old(self)@.insert(name@, value@),
    {
        let ghost before = self.entries@;
        self.entries.push((name, value));
        assert(self.entries@.drop_last() =~= before);
    }

    /// The value that `name` is bound to.
    pub fn get(&self, name: &String) -> (value: Option<&Type>)
        ensures
            match value {
                Some(value) => self@.contains_key(name@) && self@[name@] == value@,
                None => !self@.contains_key(name@),
            },
    {
        let mut i: usize = self.entries.len();
        assert(self.entries@.take(i as int) =~= self.entries@);
        while i > 0
            invariant
                i <= self.entries.len(),
                bindings_map(self.entries@).contains_key(name@) <==> bindings_map(
                    self.entries@.take(i as int),
                ).contains_key(name@),
                bindings_map(self.entries@).contains_key(name@) ==> bindings_map(self.entries@)[name@]
                    == bindings_map(self.entries@.take(i as int))[name@],
            decreases i,
        {
            let ghost upto = self.entries@.take(i as int);
            assert(upto.drop_last() =~= self.entries@.take(i - 1));
            i -= 1;
            if self.entries[i].0 == *name {
                return Some(&self.entries[i].1);
            }
        }
        assert(self.entries@.take(0).len() == 0);
        None
    }
}

/// Whether `argument` is one that `sound` can print: a variable or a
/// literal.
pub open spec fn is_printable(argument: ExpressionView) -> bool {
    argument is Identifier || literal_value(argument) is Some
}

/// Whether running `statement` is implemented: a declaration that binds a
/// literal, or a call of `sound` on variables and literals.
pub open spec fn is_implemented(statement: StatementView) -> bool {
    match statement {
        StatementView::VariableDeclaration { name, expression } => literal_value(expression)
            is Some,
        StatementView::ExpressionStatement(ExpressionView::FunctionCall { name, arguments }) => {
            &&& name == "sound"@
            &&& forall|i: int| 0 <= i < arguments.len() ==> is_printable(#[trigger] arguments[i])
        },
        _ => false,
    }
}

/// The variables after `statement` has run: a declaration binds its name,
/// and nothing else changes them.
pub open spec fn bound_after(
    variables: Map<Seq<char>, TypeView>,
    statement: StatementView,
) -> Map<Seq<char>, TypeView> {
    match statement {
        StatementView::VariableDeclaration { name, expression } => match literal_value(
            expression,
        ) {
            Some(value) => variables.insert(name, value),
            None => variables,
        },
        _ => variables,
    }
}

/// What `sound` prints for one argument: the value of a literal, the value
/// of a variable that is bound, and nothing for a variable that is not.
pub open spec fn printed_for(
    variables: Map<Seq<char>, TypeView>,
    argument: ExpressionView,
) -> Seq<TypeView> {
    match argument {
        ExpressionView::Identifier(name) => {
            if variables.contains_key(name) {
                seq![variables[name]]
            } else {
                Seq::empty()
            }
        },
        _ => match literal_value(argument) {
            Some(value) => seq![value],
            None => Seq::empty(),
        },
    }
}

/// What `sound` prints for the first `count` of `arguments`, in order.
pub open spec fn printed_for_all(
    variables: Map<Seq<char>, TypeView>,
    arguments: Seq<ExpressionView>,
    count: int,
) -> Seq<TypeView>
    decreases count,
{
    if count <= 0 {
        Seq::empty()
    } else {
        printed_for_all(variables, arguments, count - 1) + printed_for(
            variables,
            arguments[count - 1],
        )
    }
}

/// What `statement` prints when it runs: the arguments of a call, one by
/// one; a declaration prints nothing.
pub open spec fn printed_by(
    variables: Map<Seq<char>, TypeView>,
    statement: StatementView,
) -> Seq<TypeView> {
    match statement {
        StatementView::ExpressionStatement(ExpressionView::FunctionCall { name, arguments }) => {
            printed_for_all(variables, arguments, arguments.len() as int)
        },
        _ => Seq::empty(),
    }
}

/// Whether `argument` is one that `sound` can print.
fn prints(argument: &Expression) -> (printable: bool)
    ensures
        printable == is_printable(argument@),
{
    match argument {
        Expression::Identifier(_) => true,
        Expression::Literal(Token::StringLiteral(_)) => true,
        Expression::Literal(Token::NumberLiteral(_)) => true,
        _ => false,
    }
}

/// Whether running `statement` is implemented.
pub fn implements(statement: &Statement) -> (implemented: bool)
    ensures
        implemented == is_implemented(statement@),
{
    match statement {
        Statement::VariableDeclaration { name, expression } => {
            match expression {
                Expression::Literal(Token::StringLiteral(_)) => true,
                Expression::Literal(Token::NumberLiteral(_)) => true,
                _ => false,
            }
        },
        Statement::ExpressionStatement(Expression::FunctionCall { name, arguments }) => {
            proof {
                crate::parser::lemma_call_view(*name, *arguments);
                reveal_strlit("sound");
            }
            if !is_sound(name) {
                return false;
            }
            let mut i: usize = 0;
            while i < arguments.len()
                invariant
                    i <= arguments.len(),
                    statement@ == StatementView::ExpressionStatement(
                        ExpressionView::FunctionCall {
                            name: "sound"@,
                            arguments: crate::parser::expression_views(arguments@),
                        },
                    ),
                    forall|k: int|
                        0 <= k < i ==> is_printable(
                            #[trigger] crate::parser::expression_views(arguments@)[k],
                        ),
                decreases arguments.len() - i,
            {
                if !prints(&arguments[i]) {
                    assert(!is_printable(
                        crate::parser::expression_views(arguments@)[i as int],
                    ));
                    assert(!is_printable(
                        statement@->ExpressionStatement_0->arguments[i as int],
                    ));
                    return false;
                }
                i += 1;
            }
            true
        },
        _ => false,
    }
}

/// Whether `name` is the name of the builtin that prints.
fn is_sound(name: &String) -> (sound: bool)
    ensures
        sound == (name@ == "sound"@),
{
    *name == "sound".to_owned()
}

/// Runs `statement`: binds what it declares in `variables`, and returns what
/// it prints, in order.
pub fn run(statement: Statement, variables: &mut Variables) -> (printed: Vec<Type>)
    requires
        is_implemented(statement@),
    ensures
        final(variables)@ == bound_after(old(variables)@, statement@),
        type_views(printed@) == printed_by(old(variables)@, statement@),
{
    let mut printed: Vec<Type> = Vec::new();
    assert(type_views(printed@) =~= Seq::<TypeView>::empty());
    match statement {
        Statement::VariableDeclaration { name, expression } => {
            let value = expression_to_type(expression);
            variables.insert(name, value);
        },
        Statement::ExpressionStatement(Expression::FunctionCall { name, arguments }) => {
            proof {
                crate::parser::lemma_call_view(name, arguments);
            }
            let ghost views = crate::parser::expression_views(arguments@);
            assert(views == statement@->ExpressionStatement_0->arguments);
            let mut i: usize = 0;
            while i < arguments.len()
                invariant
                    i <= arguments.len(),
                    variables@ == old(variables)@,
                    views == crate::parser::expression_views(arguments@),
                    forall|k: int| 0 <= k < views.len() ==> is_printable(#[trigger] views[k]),
                    type_views(printed@) == printed_for_all(variables@, views, i as int),
                decreases arguments.len() - i,
            {
                let ghost before = printed@;
                assert(is_printable(views[i as int]));
                match &arguments[i] {
                    Expression::Identifier(identifier) => {
                        match variables.get(identifier) {
                            Some(value) => {
                                printed.push(value.clone());
                                assert(type_views(printed@) =~= type_views(before) + seq![
                                    variables@[identifier@],
                                ]);
                            },
                            None => {
                                assert(type_views(printed@) =~= type_views(before) + Seq::<
                                    TypeView,
                                >::empty());
                            },
                        }
                    },
                    Expression::Literal(Token::StringLiteral(value)) => {
                        printed.push(Type::Str(value.clone()));
                        assert(type_views(printed@) =~= type_views(before) + seq![
                            TypeView::Str(value@),
                        ]);
                    },
                    Expression::Literal(Token::NumberLiteral(value)) => {
                        printed.push(Type::Int(*value));
                        assert(type_views(printed@) =~= type_views(before) + seq![
                            TypeView::Int(*value),
                        ]);
                    },
                    _ => {
                        assert(false);
                    },
                }
                i += 1;
            }
        },
        _ => {
            assert(false);
        },
    }
    printed
}

} // verus!
