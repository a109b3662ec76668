//! The syntax tree of a query document.

use crate::span::Spanned;
use crate::text::push_str;
use crate::value::Value;
use vstd::prelude::*;

verus! {

/// A type reference as written in a query document.
#[derive(Debug)]
pub enum Type {
    Named(Spanned<String>),
    List(Box<Spanned<Type>>),
    NonNull(Box<Spanned<Type>>),
}

/// The text of a type reference: `Name`, `[T]` or `T!`.
pub open spec fn type_text(t: Type) -> Seq<char>
    decreases t,
{
    match t {
        Type::Named(name) => name.node@,
        Type::List(inner) => seq!['['] + type_text(inner.node) + seq![']'],
        Type::NonNull(inner) => type_text(inner.node) + seq!['!'],
    }
}

/// The name a type reference is built on, under its list and non-null wrappers.
pub open spec fn base_type_name(t: Type) -> Seq<char>
    decreases t,
{
    match t {
        Type::Named(name) => name.node@,
        Type::List(inner) => base_type_name(inner.node),
        Type::NonNull(inner) => base_type_name(inner.node),
    }
}

/// A non-null wrapper never directly wraps another non-null wrapper.
pub open spec fn type_wf(t: Type) -> bool
    decreases t,
{
    match t {
        Type::Named(_) => true,
        Type::List(inner) => type_wf(inner.node),
        Type::NonNull(inner) => !(inner.node is NonNull) && type_wf(inner.node),
    }
}


impl Type {
    /// Renders the type reference as GraphQL text.
    pub fn type_string(&self) -> (r: String)
        ensures
            r@ == type_text(*self),
        decreases self,
    {
        match self {
            Type::Named(name) => name.node.clone(),
            Type::List(inner) => {
                let mut s = String::from_str("[");
                let body = inner.node.type_string();
                push_str(&mut s, body.as_str());
                push_str(&mut s, "]");
                proof {
                    reveal_strlit("[");
                    reveal_strlit("]");
                    assert(s@ =~= seq!['['] + type_text(inner.node) + seq![']']);
                }
                s
            },
            Type::NonNull(inner) => {
                let mut s = inner.node.type_string();
                push_str(&mut s, "!");
                proof {
                    reveal_strlit("!");
                    assert(s@ =~= type_text(inner.node) + seq!['!']);
                }
                s
            },
        }
    }

    /// The name under the list and non-null wrappers.
    pub fn base_name(&self) -> (r: &String)
        ensures
            r@ == base_type_name(*self),
        decreases self,
    {
        match self {
            Type::Named(name) => &name.node,
            Type::List(inner) => inner.node.base_name(),
            Type::NonNull(inner) => inner.node.base_name(),
        }
    }
}

#[derive(Debug)]
pub struct Directive {
    pub name: Spanned<String>,
    pub arguments: Vec<(Spanned<String>, Spanned<Value>)>,
}

#[derive(Debug)]
pub struct Document {
    pub definitions: Vec<Spanned<Definition>>,
}

#[derive(Debug)]
pub enum Definition {
    Operation(Spanned<OperationDefinition>),
    Fragment(Spanned<FragmentDefinition>),
}

#[derive(Debug)]
pub enum TypeCondition {
    On(Spanned<String>),
}

#[derive(Debug)]
pub struct FragmentDefinition {
    pub name: Spanned<String>,
    pub type_condition: Spanned<TypeCondition>,
    pub directives: Vec<Spanned<Directive>>,
    pub selection_set: Spanned<SelectionSet>,
}

#[derive(Debug)]
pub enum OperationDefinition {
    SelectionSet(Spanned<SelectionSet>),
    Query(Spanned<Query>),
    Mutation(Spanned<Mutation>),
    Subscription(Spanned<Subscription>),
}

#[derive(Debug)]
pub struct Query {
    pub name: Option<Spanned<String>>,
    pub variable_definitions: Vec<Spanned<VariableDefinition>>,
    pub directives: Vec<Spanned<Directive>>,
    pub selection_set: Spanned<SelectionSet>,
}

#[derive(Debug)]
pub struct Mutation {
    pub name: Option<Spanned<String>>,
    pub variable_definitions: Vec<Spanned<VariableDefinition>>,
    pub directives: Vec<Spanned<Directive>>,
    pub selection_set: Spanned<SelectionSet>,
}

#[derive(Debug)]
pub struct Subscription {
    pub name: Option<Spanned<String>>,
    pub variable_definitions: Vec<Spanned<VariableDefinition>>,
    pub directives: Vec<Spanned<Directive>>,
    pub selection_set: Spanned<SelectionSet>,
}

#[derive(Debug)]
pub struct SelectionSet {
    pub items: Vec<Spanned<Selection>>,
}

#[derive(Debug)]
pub struct VariableDefinition {
    pub name: Spanned<String>,
    pub var_type: Spanned<Type>,
    pub default_value: Option<Spanned<Value>>,
}

#[derive(Debug)]
pub enum Selection {
    Field(Spanned<Field>),
    FragmentSpread(Spanned<FragmentSpread>),
    InlineFragment(Spanned<InlineFragment>),
}

#[derive(Debug)]
pub struct Field {
    pub alias: Option<Spanned<String>>,
    pub name: Spanned<String>,
    pub arguments: Vec<(Spanned<String>, Spanned<Value>)>,
    pub directives: Vec<Spanned<Directive>>,
    pub selection_set: Spanned<SelectionSet>,
}

/// The key under which a field's result appears: its alias if it has one, else its name.
pub open spec fn response_key(f: Field) -> Seq<char> {
    match f.alias {
        Some(a) => a.node@,
        None => f.name.node@,
    }
}

impl Field {
    /// The response key of the field.
    pub fn result_name(&self) -> (r: &String)
        ensures
            r@ == response_key(*self),
    {
        match &self.alias {
            Some(a) => &a.node,
            None => &self.name.node,
        }
    }
}

#[derive(Debug)]
pub struct FragmentSpread {
    pub fragment_name: Spanned<String>,
    pub directives: Vec<Spanned<Directive>>,
}

#[derive(Debug)]
pub struct InlineFragment {
    pub type_condition: Option<Spanned<TypeCondition>>,
    pub directives: Vec<Spanned<Directive>>,
    pub selection_set: Spanned<SelectionSet>,
}

} // verus!
