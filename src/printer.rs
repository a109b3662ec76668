//! Writes a document back as query text.

use crate::ast::{
    Definition, Directive, Document, Field, FragmentDefinition, OperationDefinition, Selection, SelectionSet, Type,
    TypeCondition, VariableDefinition,
};
use crate::grammar::{
    args_toks, definition_toks, directive_toks, directives_toks, document_toks, pairs_toks, selection_set_toks,
    selection_toks, selections_toks, type_toks, value_toks, values_toks, Tok,
};
use crate::span::Spanned;
use crate::text::{i64_to_string, int_text, push_str};
use crate::value::Value;
use vstd::prelude::*;

verus! {

/// The text of a token.
pub open spec fn tok_text(t: Tok) -> Seq<char> {
    match t {
        Tok::Punct(c) => seq![c],
        Tok::Spread => seq!['.', '.', '.'],
        Tok::Name(s) => s,
        Tok::Int(n) => int_text(n),
        Tok::Float(s) => s,
        Tok::Str(s) => seq!['"'] + s + seq!['"'],
    }
}

pub open spec fn texts(ts: Seq<Tok>) -> Seq<Seq<char>> {
    ts.map_values(|t: Tok| tok_text(t))
}

pub open spec fn views(out: Seq<String>) -> Seq<Seq<char>> {
    out.map_values(|s: String| s@)
}

proof fn lemma_texts_add(a: Seq<Tok>, b: Seq<Tok>)
    ensures
        texts(a + b) == texts(a) + texts(b),
{
    assert(texts(a + b) =~= texts(a) + texts(b));
}

proof fn lemma_views_push(out: Seq<String>, s: String)
    ensures
        views(out.push(s)) == views(out).push(s@),
{
    assert(views(out.push(s)) =~= views(out).push(s@));
}

/// Appends one token's text.
fn emit(out: &mut Vec<String>, text: String, t: Ghost<Tok>)
    requires
        text@ == tok_text(t@),
    ensures
        views(final(out)@) == views(old(out)@) + texts(seq![t@]),
{
    let ghost o = out@;
    out.push(text);
    proof {
        lemma_views_push(o, text);
        assert(texts(seq![t@]) =~= seq![tok_text(t@)]);
        assert(views(out@) =~= views(o) + texts(seq![t@]));
    }
}

proof fn lemma_chain(v0: Seq<Seq<char>>, v1: Seq<Seq<char>>, v2: Seq<Seq<char>>, a: Seq<Tok>, b: Seq<Tok>)
    requires
        v1 == v0 + texts(a),
        v2 == v1 + texts(b),
    ensures
        v2 == v0 + texts(a + b),
{
    lemma_texts_add(a, b);
    assert(v2 =~= v0 + texts(a + b));
}

pub open spec fn printable_punct(c: char) -> bool {
    c == '[' || c == ']' || c == '{' || c == '}' || c == '(' || c == ')' || c == ':' || c == '$' || c == '@'
        || c == '=' || c == '!'
}

fn emit_punct(out: &mut Vec<String>, c: char)
    requires
        printable_punct(c),
    ensures
        views(final(out)@) == views(old(out)@) + texts(seq![Tok::Punct(c)]),
{
    proof {
        reveal_strlit("[");
        reveal_strlit("]");
        reveal_strlit("{");
        reveal_strlit("}");
        reveal_strlit("(");
        reveal_strlit(")");
        reveal_strlit(":");
        reveal_strlit("$");
        reveal_strlit("@");
        reveal_strlit("=");
        reveal_strlit("!");
    }
    let s = if c == '[' {
        String::from_str("[")
    } else if c == ']' {
        String::from_str("]")
    } else if c == '{' {
        String::from_str("{")
    } else if c == '}' {
        String::from_str("}")
    } else if c == '(' {
        String::from_str("(")
    } else if c == ')' {
        String::from_str(")")
    } else if c == ':' {
        String::from_str(":")
    } else if c == '$' {
        String::from_str("$")
    } else if c == '@' {
        String::from_str("@")
    } else if c == '=' {
        String::from_str("=")
    } else {
        String::from_str("!")
    };
    assert(s@ =~= seq![c]);
    emit(out, s, Ghost(Tok::Punct(c)));
}

fn emit_spread(out: &mut Vec<String>)
    ensures
        views(final(out)@) == views(old(out)@) + texts(seq![Tok::Spread]),
{
    let s = String::from_str("...");
    proof {
        reveal_strlit("...");
        assert(s@ =~= seq!['.', '.', '.']);
    }
    emit(out, s, Ghost(Tok::Spread));
}

fn emit_name(out: &mut Vec<String>, name: &String)
    ensures
        views(final(out)@) == views(old(out)@) + texts(seq![Tok::Name(name@)]),
{
    emit(out, name.clone(), Ghost(Tok::Name(name@)));
}

fn emit_word(out: &mut Vec<String>, word: &str)
    ensures
        views(final(out)@) == views(old(out)@) + texts(seq![Tok::Name(word@)]),
{
    emit(out, String::from_str(word), Ghost(Tok::Name(word@)));
}

/// Writes the tokens of a value.
pub fn print_value(v: &Value, out: &mut Vec<String>)
    ensures
        views(final(out)@) == views(old(out)@) + texts(value_toks(*v)),
    decreases v,
{
    proof {
        reveal_strlit("null");
        reveal_strlit("true");
        reveal_strlit("false");
        reveal_strlit("\"");
    }
    let ghost v0 = views(out@);
    match v {
        Value::Null => emit_word(out, "null"),
        Value::Variable(n) => {
            emit_punct(out, '$');
            let ghost v1 = views(out@);
            emit_name(out, n);
            proof { lemma_chain(v0, v1, views(out@), seq![Tok::Punct('$')], seq![Tok::Name(n@)]); assert(seq![Tok::Punct('$')] + seq![Tok::Name(n@)] =~= value_toks(*v)); }
        },
        Value::Int(n) => emit(out, i64_to_string(*n), Ghost(Tok::Int(*n as int))),
        Value::Float(s) => emit(out, s.clone(), Ghost(Tok::Float(s@))),
        Value::String(s) => {
            let mut t = String::from_str("\"");
            push_str(&mut t, s.as_str());
            push_str(&mut t, "\"");
            assert(t@ =~= seq!['"'] + s@ + seq!['"']);
            emit(out, t, Ghost(Tok::Str(s@)));
        },
        Value::Boolean(b) => {
            if *b {
                emit_word(out, "true");
            } else {
                emit_word(out, "false");
            }
        },
        Value::Enum(s) => emit_name(out, s),
        Value::List(x) => {
            emit_punct(out, '[');
            let ghost acc0 = seq![Tok::Punct('[')];
            let mut i: usize = 0;
            proof { assert(x@.subrange(0, 0) =~= Seq::<Spanned<Value>>::empty()); assert(acc0 + values_toks(x@.subrange(0, 0)) =~= acc0); }
            while i < x.len()
                invariant
                    *v == Value::List(*x),
                    0 <= i <= x@.len(),
                    views(out@) == v0 + texts(acc0 + values_toks(x@.subrange(0, i as int))),
                decreases x@.len() - i,
            {
                proof { crate::value::lemma_list_elem_decreases(*v, i as int); }
                let ghost v1 = views(out@);
                print_value(&x[i].node, out);
                proof {
                    let pre = x@.subrange(0, i as int + 1);
                    assert(pre.subrange(0, pre.len() - 1) =~= x@.subrange(0, i as int));
                    assert(pre[pre.len() - 1] == x@[i as int]);
                    lemma_chain(v0, v1, views(out@), acc0 + values_toks(x@.subrange(0, i as int)), value_toks(x@[i as int].node));
                    assert(acc0 + values_toks(x@.subrange(0, i as int)) + value_toks(x@[i as int].node) =~= acc0 + values_toks(pre));
                }
                i = i + 1;
            }
            let ghost v2 = views(out@);
            emit_punct(out, ']');
            proof {
                assert(x@.subrange(0, x@.len() as int) =~= x@);
                lemma_chain(v0, v2, views(out@), acc0 + values_toks(x@), seq![Tok::Punct(']')]);
                assert(acc0 + values_toks(x@) + seq![Tok::Punct(']')] =~= value_toks(*v));
            }
        },
        Value::Object(x) => {
            emit_punct(out, '{');
            let ghost v1 = views(out@);
            let mut i: usize = 0;
            proof {
                assert(x@.subrange(0, 0) =~= Seq::<(Spanned<String>, Spanned<Value>)>::empty());
                assert(views(out@) =~= v1 + texts(pairs_toks(x@.subrange(0, 0))));
            }
            while i < x.len()
                invariant
                    *v == Value::Object(*x),
                    0 <= i <= x@.len(),
                    v1 == v0 + texts(seq![Tok::Punct('{')]),
                    views(out@) == v1 + texts(pairs_toks(x@.subrange(0, i as int))),
                decreases x@.len() - i,
            {
                proof { crate::value::lemma_field_decreases(*v, i as int); }
                let ghost w1 = views(out@);
                emit_name(out, &x[i].0.node);
                let ghost w2 = views(out@);
                emit_punct(out, ':');
                let ghost w3 = views(out@);
                print_value(&x[i].1.node, out);
                proof {
                    let pre = x@.subrange(0, i as int + 1);
                    assert(pre.subrange(0, pre.len() - 1) =~= x@.subrange(0, i as int));
                    assert(pre[pre.len() - 1] == x@[i as int]);
                    let a = pairs_toks(x@.subrange(0, i as int));
                    lemma_chain(v1, w1, w2, a, seq![Tok::Name(x@[i as int].0.node@)]);
                    lemma_chain(v1, w2, w3, a + seq![Tok::Name(x@[i as int].0.node@)], seq![Tok::Punct(':')]);
                    lemma_chain(v1, w3, views(out@), a + seq![Tok::Name(x@[i as int].0.node@)] + seq![Tok::Punct(':')], value_toks(x@[i as int].1.node));
                    assert(a + seq![Tok::Name(x@[i as int].0.node@)] + seq![Tok::Punct(':')] + value_toks(x@[i as int].1.node) =~= pairs_toks(pre));
                }
                i = i + 1;
            }
            let ghost v2 = views(out@);
            emit_punct(out, '}');
            proof {
                assert(x@.subrange(0, x@.len() as int) =~= x@);
                lemma_chain(v0, v1, v2, seq![Tok::Punct('{')], pairs_toks(x@));
                lemma_chain(v0, v2, views(out@), seq![Tok::Punct('{')] + pairs_toks(x@), seq![Tok::Punct('}')]);
                assert(seq![Tok::Punct('{')] + pairs_toks(x@) + seq![Tok::Punct('}')] =~= value_toks(*v));
            }
        },
    }
    proof {
        if v is Null || v is Int || v is Float || v is String || v is Boolean || v is Enum {
            assert(views(out@) == v0 + texts(value_toks(*v)));
        }
    }
}

/// Writes `name: value` pairs.
fn print_pairs(x: &Vec<(Spanned<String>, Spanned<Value>)>, out: &mut Vec<String>)
    ensures
        views(final(out)@) == views(old(out)@) + texts(pairs_toks(x@)),
{
    let ghost v0 = views(out@);
    let mut i: usize = 0;
    proof { assert(x@.subrange(0, 0) =~= Seq::<(Spanned<String>, Spanned<Value>)>::empty()); assert(texts(pairs_toks(x@.subrange(0, 0))) =~= Seq::<Seq<char>>::empty()); assert(views(out@) =~= v0 + texts(pairs_toks(x@.subrange(0, 0)))); }
    while i < x.len()
        invariant
            0 <= i <= x@.len(),
            views(out@) == v0 + texts(pairs_toks(x@.subrange(0, i as int))),
        decreases x@.len() - i,
    {
        let ghost v1 = views(out@);
        emit_name(out, &x[i].0.node);
        let ghost v2 = views(out@);
        emit_punct(out, ':');
        let ghost v3 = views(out@);
        print_value(&x[i].1.node, out);
        proof {
            let pre = x@.subrange(0, i as int + 1);
            assert(pre.subrange(0, pre.len() - 1) =~= x@.subrange(0, i as int));
            assert(pre[pre.len() - 1] == x@[i as int]);
            let a = pairs_toks(x@.subrange(0, i as int));
            lemma_chain(v0, v1, v2, a, seq![Tok::Name(x@[i as int].0.node@)]);
            lemma_chain(v0, v2, v3, a + seq![Tok::Name(x@[i as int].0.node@)], seq![Tok::Punct(':')]);
            lemma_chain(v0, v3, views(out@), a + seq![Tok::Name(x@[i as int].0.node@)] + seq![Tok::Punct(':')], value_toks(x@[i as int].1.node));
            assert(a + seq![Tok::Name(x@[i as int].0.node@)] + seq![Tok::Punct(':')] + value_toks(x@[i as int].1.node) =~= pairs_toks(pre));
        }
        i = i + 1;
    }
    proof { assert(x@.subrange(0, x@.len() as int) =~= x@); }
}

spec fn condition_name(c: Option<Spanned<TypeCondition>>) -> Seq<char> {
    match c {
        Some(c) => match c.node {
            TypeCondition::On(n) => n.node@,
        },
        None => Seq::empty(),
    }
}

fn print_args(x: &Vec<(Spanned<String>, Spanned<Value>)>, out: &mut Vec<String>)
    ensures
        views(final(out)@) == views(old(out)@) + texts(args_toks(x@)),
{
    let ghost v0 = views(out@);
    if x.len() == 0 {
        proof { assert(views(out@) =~= v0 + texts(args_toks(x@))); }
        return;
    }
    emit_punct(out, '(');
    let ghost v1 = views(out@);
    print_pairs(x, out);
    let ghost v2 = views(out@);
    emit_punct(out, ')');
    proof {
        lemma_chain(v0, v1, v2, seq![Tok::Punct('(')], pairs_toks(x@));
        lemma_chain(v0, v2, views(out@), seq![Tok::Punct('(')] + pairs_toks(x@), seq![Tok::Punct(')')]);
    }
}

fn print_type(t: &Type, out: &mut Vec<String>)
    ensures
        views(final(out)@) == views(old(out)@) + texts(type_toks(*t)),
    decreases t,
{
    let ghost v0 = views(out@);
    match t {
        Type::Named(n) => emit_name(out, &n.node),
        Type::List(inner) => {
            emit_punct(out, '[');
            let ghost v1 = views(out@);
            print_type(&inner.node, out);
            let ghost v2 = views(out@);
            emit_punct(out, ']');
            proof {
                lemma_chain(v0, v1, v2, seq![Tok::Punct('[')], type_toks(inner.node));
                lemma_chain(v0, v2, views(out@), seq![Tok::Punct('[')] + type_toks(inner.node), seq![Tok::Punct(']')]);
            }
        },
        Type::NonNull(inner) => {
            print_type(&inner.node, out);
            let ghost v1 = views(out@);
            emit_punct(out, '!');
            proof { lemma_chain(v0, v1, views(out@), type_toks(inner.node), seq![Tok::Punct('!')]); }
        },
    }
}

fn print_directives(ds: &Vec<Spanned<Directive>>, out: &mut Vec<String>)
    ensures
        views(final(out)@) == views(old(out)@) + texts(directives_toks(ds@)),
{
    let ghost v0 = views(out@);
    let mut i: usize = 0;
    proof {
        assert(ds@.subrange(0, 0) =~= Seq::<Spanned<Directive>>::empty());
        assert(views(out@) =~= v0 + texts(directives_toks(ds@.subrange(0, 0))));
    }
    while i < ds.len()
        invariant
            0 <= i <= ds@.len(),
            views(out@) == v0 + texts(directives_toks(ds@.subrange(0, i as int))),
        decreases ds@.len() - i,
    {
        let d = &ds[i].node;
        let ghost w1 = views(out@);
        emit_punct(out, '@');
        let ghost w2 = views(out@);
        emit_name(out, &d.name.node);
        let ghost w3 = views(out@);
        print_args(&d.arguments, out);
        proof {
            let pre = ds@.subrange(0, i as int + 1);
            assert(pre.drop_last() =~= ds@.subrange(0, i as int));
            assert(pre.last() == ds@[i as int]);
            let a = directives_toks(ds@.subrange(0, i as int));
            lemma_chain(v0, w1, w2, a, seq![Tok::Punct('@')]);
            lemma_chain(v0, w2, w3, a + seq![Tok::Punct('@')], seq![Tok::Name(d.name.node@)]);
            lemma_chain(v0, w3, views(out@), a + seq![Tok::Punct('@')] + seq![Tok::Name(d.name.node@)], args_toks(d.arguments@));
            assert(a + seq![Tok::Punct('@')] + seq![Tok::Name(d.name.node@)] + args_toks(d.arguments@) =~= directives_toks(pre));
        }
        i = i + 1;
    }
    proof { assert(ds@.subrange(0, ds@.len() as int) =~= ds@); }
}

fn print_var_defs(vs: &Vec<Spanned<VariableDefinition>>, out: &mut Vec<String>)
    ensures
        views(final(out)@) == views(old(out)@) + texts(crate::grammar::var_defs_toks(vs@)),
{
    let ghost v0 = views(out@);
    if vs.len() == 0 {
        proof { assert(views(out@) =~= v0 + texts(crate::grammar::var_defs_toks(vs@))); }
        return;
    }
    emit_punct(out, '(');
    let ghost v1 = views(out@);
    let mut i: usize = 0;
    proof {
        assert(vs@.subrange(0, 0) =~= Seq::<Spanned<VariableDefinition>>::empty());
        assert(views(out@) =~= v1 + texts(crate::grammar::var_defs_seq_toks(vs@.subrange(0, 0))));
    }
    while i < vs.len()
        invariant
            0 <= i <= vs@.len(),
            v1 == v0 + texts(seq![Tok::Punct('(')]),
            views(out@) == v1 + texts(crate::grammar::var_defs_seq_toks(vs@.subrange(0, i as int))),
        decreases vs@.len() - i,
    {
        let d = &vs[i].node;
        let ghost w0 = views(out@);
        emit_punct(out, '$');
        emit_name(out, &d.name.node);
        emit_punct(out, ':');
        let ghost w1 = views(out@);
        print_type(&d.var_type.node, out);
        let ghost w2 = views(out@);
        match &d.default_value {
            Some(dv) => {
                emit_punct(out, '=');
                let ghost w3 = views(out@);
                print_value(&dv.node, out);
                proof { lemma_chain(w2, w3, views(out@), seq![Tok::Punct('=')], value_toks(dv.node)); }
            },
            None => {
                proof { assert(views(out@) =~= w2 + texts(Seq::<Tok>::empty())); }
            },
        }
        proof {
            let pre = vs@.subrange(0, i as int + 1);
            assert(pre.drop_last() =~= vs@.subrange(0, i as int));
            assert(pre.last() == vs@[i as int]);
            let head = seq![Tok::Punct('$'), Tok::Name(d.name.node@), Tok::Punct(':')];
            lemma_texts_add(seq![Tok::Punct('$')], seq![Tok::Name(d.name.node@)]);
            lemma_texts_add(seq![Tok::Punct('$')] + seq![Tok::Name(d.name.node@)], seq![Tok::Punct(':')]);
            assert(seq![Tok::Punct('$')] + seq![Tok::Name(d.name.node@)] + seq![Tok::Punct(':')] =~= head);
            assert(w1 == w0 + texts(head));
            lemma_chain(w0, w1, w2, head, type_toks(d.var_type.node));
            lemma_chain(w0, w2, views(out@), head + type_toks(d.var_type.node), crate::grammar::default_toks(d.default_value));
            assert(head + type_toks(d.var_type.node) + crate::grammar::default_toks(d.default_value) =~= crate::grammar::var_def_toks(*d));
            lemma_chain(v1, w0, views(out@), crate::grammar::var_defs_seq_toks(vs@.subrange(0, i as int)), crate::grammar::var_def_toks(*d));
        }
        i = i + 1;
    }
    let ghost v2 = views(out@);
    emit_punct(out, ')');
    proof {
        assert(vs@.subrange(0, vs@.len() as int) =~= vs@);
        lemma_chain(v0, v1, v2, seq![Tok::Punct('(')], crate::grammar::var_defs_seq_toks(vs@));
        lemma_chain(v0, v2, views(out@), seq![Tok::Punct('(')] + crate::grammar::var_defs_seq_toks(vs@), seq![Tok::Punct(')')]);
    }
}

fn print_selection_set(set: &SelectionSet, out: &mut Vec<String>)
    ensures
        views(final(out)@) == views(old(out)@) + texts(selection_set_toks(*set)),
    decreases set,
{
    let ghost v0 = views(out@);
    emit_punct(out, '{');
    let ghost v1 = views(out@);
    let items = &set.items;
    let mut i: usize = 0;
    proof {
        assert(items@.subrange(0, 0) =~= Seq::<Spanned<Selection>>::empty());
        assert(views(out@) =~= v1 + texts(selections_toks(items@.subrange(0, 0))));
    }
    while i < items.len()
        invariant
            items == &set.items,
            0 <= i <= items@.len(),
            v1 == v0 + texts(seq![Tok::Punct('{')]),
            views(out@) == v1 + texts(selections_toks(items@.subrange(0, i as int))),
        decreases items@.len() - i,
    {
        let ghost w0 = views(out@);
        proof {
            assert(decreases_to!(*set => set.items));
            assert(decreases_to!(set.items => items@));
            assert(decreases_to!(items@ => items@[i as int]));
            assert(decreases_to!(items@[i as int] => items@[i as int].node));
        }
        print_selection(&items[i].node, out);
        proof {
            let pre = items@.subrange(0, i as int + 1);
            assert(pre.subrange(0, pre.len() - 1) =~= items@.subrange(0, i as int));
            assert(pre[pre.len() - 1] == items@[i as int]);
            lemma_chain(v1, w0, views(out@), selections_toks(items@.subrange(0, i as int)), selection_toks(items@[i as int].node));
        }
        i = i + 1;
    }
    let ghost v2 = views(out@);
    emit_punct(out, '}');
    proof {
        assert(items@.subrange(0, items@.len() as int) =~= items@);
        lemma_chain(v0, v1, v2, seq![Tok::Punct('{')], selections_toks(items@));
        lemma_chain(v0, v2, views(out@), seq![Tok::Punct('{')] + selections_toks(items@), seq![Tok::Punct('}')]);
    }
}

fn print_selection(sel: &Selection, out: &mut Vec<String>)
    ensures
        views(final(out)@) == views(old(out)@) + texts(selection_toks(*sel)),
    decreases sel,
{
    let ghost v0 = views(out@);
    match sel {
        Selection::Field(f) => {
            let x = &f.node;
            match &x.alias {
                Some(a) => {
                    emit_name(out, &a.node);
                    emit_punct(out, ':');
                },
                None => {},
            }
            let ghost v1 = views(out@);
            proof {
                lemma_texts_add(seq![Tok::Name(x.alias->0.node@)], seq![Tok::Punct(':')]);
                assert(v1 == v0 + texts(crate::grammar::alias_toks(x.alias)));
            }
            emit_name(out, &x.name.node);
            let ghost v2 = views(out@);
            print_args(&x.arguments, out);
            let ghost v3 = views(out@);
            print_directives(&x.directives, out);
            let ghost v4 = views(out@);
            if x.selection_set.node.items.len() > 0 {
                proof {
                    assert(decreases_to!(*sel => *f));
                    assert(decreases_to!(*f => f.node));
                    assert(decreases_to!(f.node => f.node.selection_set));
                    assert(decreases_to!(f.node.selection_set => f.node.selection_set.node));
                }
                print_selection_set(&x.selection_set.node, out);
            } else {
                proof { assert(views(out@) =~= v4 + texts(Seq::<Tok>::empty())); }
            }
            proof {
                let p0 = crate::grammar::alias_toks(x.alias);
                let p1 = seq![Tok::Name(x.name.node@)];
                let p2 = args_toks(x.arguments@);
                let p3 = directives_toks(x.directives@);
                let p4 = if x.selection_set.node.items@.len() == 0 { Seq::<Tok>::empty() } else { selection_set_toks(x.selection_set.node) };
                lemma_chain(v0, v1, v2, p0, p1);
                lemma_chain(v0, v2, v3, p0 + p1, p2);
                lemma_chain(v0, v3, v4, p0 + p1 + p2, p3);
                lemma_chain(v0, v4, views(out@), p0 + p1 + p2 + p3, p4);
            }
        },
        Selection::FragmentSpread(sp) => {
            emit_spread(out);
            let ghost v1 = views(out@);
            emit_name(out, &sp.node.fragment_name.node);
            let ghost v2 = views(out@);
            print_directives(&sp.node.directives, out);
            proof {
                reveal_strlit("...");
                lemma_chain(v0, v1, v2, seq![Tok::Spread], seq![Tok::Name(sp.node.fragment_name.node@)]);
                lemma_chain(v0, v2, views(out@), seq![Tok::Spread] + seq![Tok::Name(sp.node.fragment_name.node@)], directives_toks(sp.node.directives@));
            }
        },
        Selection::InlineFragment(fr) => {
            proof { reveal_strlit("..."); reveal_strlit("on"); }
            emit_spread(out);
            let ghost v1 = views(out@);
            match &fr.node.type_condition {
                Some(c) => {
                    match &c.node {
                        TypeCondition::On(n) => {
                            emit_word(out, "on");
                            emit_name(out, &n.node);
                        },
                    }
                },
                None => {},
            }
            let ghost v2 = views(out@);
            proof {
                let ct = crate::grammar::condition_toks(fr.node.type_condition);
                if fr.node.type_condition is Some {
                    lemma_texts_add(seq![Tok::Name("on"@)], seq![Tok::Name(condition_name(fr.node.type_condition))]);
                }
                assert(v2 =~= v1 + texts(ct));
            }
            print_directives(&fr.node.directives, out);
            let ghost v3 = views(out@);
            proof {
                assert(decreases_to!(*sel => *fr));
                assert(decreases_to!(*fr => fr.node));
                assert(decreases_to!(fr.node => fr.node.selection_set));
                assert(decreases_to!(fr.node.selection_set => fr.node.selection_set.node));
            }
            print_selection_set(&fr.node.selection_set.node, out);
            proof {
                let p1 = crate::grammar::condition_toks(fr.node.type_condition);
                let p2 = directives_toks(fr.node.directives@);
                let p3 = selection_set_toks(fr.node.selection_set.node);
                lemma_chain(v0, v1, v2, seq![Tok::Spread], p1);
                lemma_chain(v0, v2, v3, seq![Tok::Spread] + p1, p2);
                lemma_chain(v0, v3, views(out@), seq![Tok::Spread] + p1 + p2, p3);
            }
        },
    }
}

fn print_op_body(
    keyword: &str,
    name: &Option<Spanned<String>>,
    vars: &Vec<Spanned<VariableDefinition>>,
    dirs: &Vec<Spanned<Directive>>,
    set: &SelectionSet,
    out: &mut Vec<String>,
)
    ensures
        views(final(out)@) == views(old(out)@) + texts(
            crate::grammar::op_body_toks(keyword@, *name, vars@, dirs@, *set),
        ),
{
    let ghost v0 = views(out@);
    emit_word(out, keyword);
    let ghost v1 = views(out@);
    match name {
        Some(n) => emit_name(out, &n.node),
        None => {
            proof { assert(views(out@) =~= v1 + texts(Seq::<Tok>::empty())); }
        },
    }
    let ghost v2 = views(out@);
    print_var_defs(vars, out);
    let ghost v3 = views(out@);
    print_directives(dirs, out);
    let ghost v4 = views(out@);
    print_selection_set(set, out);
    proof {
        let p0 = seq![Tok::Name(keyword@)];
        let p1 = crate::grammar::opt_name_toks(*name);
        let p2 = crate::grammar::var_defs_toks(vars@);
        let p3 = directives_toks(dirs@);
        let p4 = selection_set_toks(*set);
        lemma_chain(v0, v1, v2, p0, p1);
        lemma_chain(v0, v2, v3, p0 + p1, p2);
        lemma_chain(v0, v3, v4, p0 + p1 + p2, p3);
        lemma_chain(v0, v4, views(out@), p0 + p1 + p2 + p3, p4);
    }
}

fn print_definition(d: &Definition, out: &mut Vec<String>)
    ensures
        views(final(out)@) == views(old(out)@) + texts(definition_toks(*d)),
{
    proof {
        reveal_strlit("query");
        reveal_strlit("mutation");
        reveal_strlit("subscription");
        reveal_strlit("fragment");
        reveal_strlit("on");
    }
    match d {
        Definition::Operation(o) => match &o.node {
            OperationDefinition::SelectionSet(set) => print_selection_set(&set.node, out),
            OperationDefinition::Query(q) => print_op_body(
                "query",
                &q.node.name,
                &q.node.variable_definitions,
                &q.node.directives,
                &q.node.selection_set.node,
                out,
            ),
            OperationDefinition::Mutation(q) => print_op_body(
                "mutation",
                &q.node.name,
                &q.node.variable_definitions,
                &q.node.directives,
                &q.node.selection_set.node,
                out,
            ),
            OperationDefinition::Subscription(q) => print_op_body(
                "subscription",
                &q.node.name,
                &q.node.variable_definitions,
                &q.node.directives,
                &q.node.selection_set.node,
                out,
            ),
        },
        Definition::Fragment(f) => {
            let x = &f.node;
            let ghost v0 = views(out@);
            emit_word(out, "fragment");
            emit_name(out, &x.name.node);
            emit_word(out, "on");
            match &x.type_condition.node {
                TypeCondition::On(n) => emit_name(out, &n.node),
            }
            let ghost v1 = views(out@);
            print_directives(&x.directives, out);
            let ghost v2 = views(out@);
            print_selection_set(&x.selection_set.node, out);
            proof {
                let c = condition_name(Some(x.type_condition));
                let head = seq![Tok::Name("fragment"@), Tok::Name(x.name.node@), Tok::Name("on"@), Tok::Name(c)];
                lemma_texts_add(seq![Tok::Name("fragment"@)], seq![Tok::Name(x.name.node@)]);
                lemma_texts_add(seq![Tok::Name("fragment"@)] + seq![Tok::Name(x.name.node@)], seq![Tok::Name("on"@)]);
                lemma_texts_add(seq![Tok::Name("fragment"@)] + seq![Tok::Name(x.name.node@)] + seq![Tok::Name("on"@)], seq![Tok::Name(c)]);
                assert(seq![Tok::Name("fragment"@)] + seq![Tok::Name(x.name.node@)] + seq![Tok::Name("on"@)] + seq![Tok::Name(c)] =~= head);
                assert(v1 == v0 + texts(head));
                lemma_chain(v0, v1, v2, head, directives_toks(x.directives@));
                lemma_chain(v0, v2, views(out@), head + directives_toks(x.directives@), selection_set_toks(x.selection_set.node));
                assert(head + directives_toks(x.directives@) + selection_set_toks(x.selection_set.node) =~= crate::grammar::fragment_toks(*x));
            }
        },
    }
}

/// The text of each token of a document, in order.
pub fn print_document(doc: &Document) -> (r: Vec<String>)
    ensures
        views(r@) == texts(document_toks(doc.definitions@)),
{
    let mut out: Vec<String> = Vec::new();
    let defs = &doc.definitions;
    let mut i: usize = 0;
    proof {
        assert(defs@.subrange(0, 0) =~= Seq::<Spanned<Definition>>::empty());
        assert(views(out@) =~= texts(document_toks(defs@.subrange(0, 0))));
    }
    while i < defs.len()
        invariant
            defs == &doc.definitions,
            0 <= i <= defs@.len(),
            views(out@) == texts(document_toks(defs@.subrange(0, i as int))),
        decreases defs@.len() - i,
    {
        let ghost w0 = views(out@);
        print_definition(&defs[i].node, &mut out);
        proof {
            let pre = defs@.subrange(0, i as int + 1);
            assert(pre.drop_last() =~= defs@.subrange(0, i as int));
            assert(pre.last() == defs@[i as int]);
            lemma_chain(Seq::empty(), w0, views(out@), document_toks(defs@.subrange(0, i as int)), definition_toks(defs@[i as int].node));
            assert(Seq::<Seq<char>>::empty() + texts(document_toks(pre)) =~= texts(document_toks(pre)));
            assert(Seq::<Seq<char>>::empty() + texts(document_toks(defs@.subrange(0, i as int))) =~= w0);
        }
        i = i + 1;
    }
    proof { assert(defs@.subrange(0, defs@.len() as int) =~= defs@); }
    out
}

/// Words joined by single spaces.
pub open spec fn join_spaces(ws: Seq<Seq<char>>) -> Seq<char>
    decreases ws.len(),
{
    if ws.len() == 0 {
        Seq::empty()
    } else if ws.len() == 1 {
        ws[0]
    } else {
        join_spaces(ws.drop_last()) + seq![' '] + ws.last()
    }
}

/// Writes a document as query text: its tokens separated by single spaces.
pub fn document_to_string(doc: &Document) -> (r: String)
    ensures
        r@ == join_spaces(texts(document_toks(doc.definitions@))),
{
    let words = print_document(doc);
    let mut s = String::new();
    let mut i: usize = 0;
    proof { assert(views(words@).subrange(0, 0) =~= Seq::<Seq<char>>::empty()); }
    while i < words.len()
        invariant
            0 <= i <= words@.len(),
            s@ == join_spaces(views(words@).subrange(0, i as int)),
        decreases words@.len() - i,
    {
        if i > 0 {
            push_str(&mut s, " ");
        }
        push_str(&mut s, words[i].as_str());
        proof {
            reveal_strlit(" ");
            let pre = views(words@).subrange(0, i as int + 1);
            assert(pre.drop_last() =~= views(words@).subrange(0, i as int));
            assert(pre.last() == words@[i as int]@);
            assert(s@ =~= join_spaces(pre));
        }
        i = i + 1;
    }
    proof { assert(views(words@).subrange(0, words@.len() as int) =~= views(words@)); }
    s
}

} // verus!
