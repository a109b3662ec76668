//! The grammar of query documents, stated as the tokens each node is written with.

use crate::ast::{Definition, Directive, FragmentDefinition, OperationDefinition, Selection, SelectionSet, Type, TypeCondition, VariableDefinition};
use crate::lexer::{Token, TokenKind};
use crate::span::Spanned;
use crate::value::Value;
use vstd::prelude::*;

verus! {

/// A token as the grammar sees it.
pub enum Tok {
    Punct(char),
    Spread,
    Name(Seq<char>),
    Int(int),
    Float(Seq<char>),
    Str(Seq<char>),
}

pub open spec fn tok_of(t: Token) -> Tok {
    match t.kind {
        TokenKind::Punct => Tok::Punct(t.text@[0]),
        TokenKind::Spread => Tok::Spread,
        TokenKind::Name => Tok::Name(t.text@),
        TokenKind::Int => Tok::Int(t.int_value as int),
        TokenKind::Float => Tok::Float(t.text@),
        TokenKind::Str => Tok::Str(t.text@),
    }
}

pub open spec fn toks_of(ts: Seq<Token>) -> Seq<Tok> {
    ts.map_values(|t: Token| tok_of(t))
}

/// The tokens that write a value.
pub open spec fn value_toks(v: Value) -> Seq<Tok>
    decreases v,
{
    match v {
        Value::Null => seq![Tok::Name("null"@)],
        Value::Variable(n) => seq![Tok::Punct('$'), Tok::Name(n@)],
        Value::Int(n) => seq![Tok::Int(n as int)],
        Value::Float(s) => seq![Tok::Float(s@)],
        Value::String(s) => seq![Tok::Str(s@)],
        Value::Boolean(b) => seq![Tok::Name(if b { "true"@ } else { "false"@ })],
        Value::Enum(s) => seq![Tok::Name(s@)],
        Value::List(x) => seq![Tok::Punct('[')] + values_toks(x@) + seq![Tok::Punct(']')],
        Value::Object(x) => seq![Tok::Punct('{')] + pairs_toks(x@) + seq![Tok::Punct('}')],
    }
}

/// The tokens that write values one after another.
pub open spec fn values_toks(xs: Seq<Spanned<Value>>) -> Seq<Tok>
    decreases xs,
{
    if xs.len() == 0 {
        Seq::empty()
    } else {
        values_toks(xs.subrange(0, xs.len() - 1)) + value_toks(xs[xs.len() - 1].node)
    }
}

/// The tokens that write `name: value` pairs one after another.
pub open spec fn pairs_toks(xs: Seq<(Spanned<String>, Spanned<Value>)>) -> Seq<Tok>
    decreases xs,
{
    if xs.len() == 0 {
        Seq::empty()
    } else {
        pairs_toks(xs.subrange(0, xs.len() - 1)) + seq![Tok::Name(xs[xs.len() - 1].0.node@), Tok::Punct(':')]
            + value_toks(xs[xs.len() - 1].1.node)
    }
}

/// The tokens of an argument list: none when there are no arguments.
pub open spec fn args_toks(xs: Seq<(Spanned<String>, Spanned<Value>)>) -> Seq<Tok> {
    if xs.len() == 0 {
        Seq::empty()
    } else {
        seq![Tok::Punct('(')] + pairs_toks(xs) + seq![Tok::Punct(')')]
    }
}

pub open spec fn type_toks(t: Type) -> Seq<Tok>
    decreases t,
{
    match t {
        Type::Named(n) => seq![Tok::Name(n.node@)],
        Type::List(inner) => seq![Tok::Punct('[')] + type_toks(inner.node) + seq![Tok::Punct(']')],
        Type::NonNull(inner) => type_toks(inner.node) + seq![Tok::Punct('!')],
    }
}

pub open spec fn directive_toks(d: Directive) -> Seq<Tok> {
    seq![Tok::Punct('@'), Tok::Name(d.name.node@)] + args_toks(d.arguments@)
}

pub open spec fn directives_toks(ds: Seq<Spanned<Directive>>) -> Seq<Tok>
    decreases ds.len(),
{
    if ds.len() == 0 {
        Seq::empty()
    } else {
        directives_toks(ds.drop_last()) + directive_toks(ds.last().node)
    }
}

pub open spec fn default_toks(d: Option<Spanned<Value>>) -> Seq<Tok> {
    match d {
        Some(v) => seq![Tok::Punct('=')] + value_toks(v.node),
        None => Seq::empty(),
    }
}

pub open spec fn var_def_toks(v: VariableDefinition) -> Seq<Tok> {
    seq![Tok::Punct('$'), Tok::Name(v.name.node@), Tok::Punct(':')] + type_toks(v.var_type.node) + default_toks(
        v.default_value,
    )
}

pub open spec fn var_defs_seq_toks(vs: Seq<Spanned<VariableDefinition>>) -> Seq<Tok>
    decreases vs.len(),
{
    if vs.len() == 0 {
        Seq::empty()
    } else {
        var_defs_seq_toks(vs.drop_last()) + var_def_toks(vs.last().node)
    }
}

/// The tokens of a variable-definition list: none when there are no definitions.
pub open spec fn var_defs_toks(vs: Seq<Spanned<VariableDefinition>>) -> Seq<Tok> {
    if vs.len() == 0 {
        Seq::empty()
    } else {
        seq![Tok::Punct('(')] + var_defs_seq_toks(vs) + seq![Tok::Punct(')')]
    }
}

pub open spec fn selection_set_toks(s: SelectionSet) -> Seq<Tok>
    decreases s,
{
    seq![Tok::Punct('{')] + selections_toks(s.items@) + seq![Tok::Punct('}')]
}

pub open spec fn selections_toks(items: Seq<Spanned<Selection>>) -> Seq<Tok>
    decreases items,
{
    if items.len() == 0 {
        Seq::empty()
    } else {
        selections_toks(items.subrange(0, items.len() - 1)) + selection_toks(items[items.len() - 1].node)
    }
}

pub open spec fn alias_toks(a: Option<Spanned<String>>) -> Seq<Tok> {
    match a {
        Some(a) => seq![Tok::Name(a.node@), Tok::Punct(':')],
        None => Seq::empty(),
    }
}

pub open spec fn condition_toks(c: Option<Spanned<TypeCondition>>) -> Seq<Tok> {
    match c {
        Some(c) => match c.node {
            TypeCondition::On(n) => seq![Tok::Name("on"@), Tok::Name(n.node@)],
        },
        None => Seq::empty(),
    }
}

pub open spec fn selection_toks(sel: Selection) -> Seq<Tok>
    decreases sel,
{
    match sel {
        Selection::Field(f) => alias_toks(f.node.alias) + seq![Tok::Name(f.node.name.node@)] + args_toks(
            f.node.arguments@,
        ) + directives_toks(f.node.directives@) + if f.node.selection_set.node.items@.len() == 0 {
            Seq::empty()
        } else {
            selection_set_toks(f.node.selection_set.node)
        },
        Selection::FragmentSpread(s) => seq![Tok::Spread, Tok::Name(s.node.fragment_name.node@)]
            + directives_toks(s.node.directives@),
        Selection::InlineFragment(fr) => seq![Tok::Spread] + condition_toks(fr.node.type_condition)
            + directives_toks(fr.node.directives@) + selection_set_toks(fr.node.selection_set.node),
    }
}

pub open spec fn opt_name_toks(n: Option<Spanned<String>>) -> Seq<Tok> {
    match n {
        Some(n) => seq![Tok::Name(n.node@)],
        None => Seq::empty(),
    }
}

pub open spec fn op_body_toks(
    keyword: Seq<char>,
    name: Option<Spanned<String>>,
    vars: Seq<Spanned<VariableDefinition>>,
    directives: Seq<Spanned<Directive>>,
    selection_set: SelectionSet,
) -> Seq<Tok> {
    seq![Tok::Name(keyword)] + opt_name_toks(name) + var_defs_toks(vars) + directives_toks(directives)
        + selection_set_toks(selection_set)
}

pub open spec fn operation_toks(op: OperationDefinition) -> Seq<Tok> {
    match op {
        OperationDefinition::SelectionSet(s) => selection_set_toks(s.node),
        OperationDefinition::Query(q) => op_body_toks(
            "query"@,
            q.node.name,
            q.node.variable_definitions@,
            q.node.directives@,
            q.node.selection_set.node,
        ),
        OperationDefinition::Mutation(q) => op_body_toks(
            "mutation"@,
            q.node.name,
            q.node.variable_definitions@,
            q.node.directives@,
            q.node.selection_set.node,
        ),
        OperationDefinition::Subscription(q) => op_body_toks(
            "subscription"@,
            q.node.name,
            q.node.variable_definitions@,
            q.node.directives@,
            q.node.selection_set.node,
        ),
    }
}

pub open spec fn fragment_toks(f: FragmentDefinition) -> Seq<Tok> {
    seq![Tok::Name("fragment"@), Tok::Name(f.name.node@)] + condition_toks(Some(f.type_condition))
        + directives_toks(f.directives@) + selection_set_toks(f.selection_set.node)
}

pub open spec fn definition_toks(d: Definition) -> Seq<Tok> {
    match d {
        Definition::Operation(o) => operation_toks(o.node),
        Definition::Fragment(f) => fragment_toks(f.node),
    }
}

/// The tokens that write a document's definitions one after another.
pub open spec fn document_toks(defs: Seq<Spanned<Definition>>) -> Seq<Tok>
    decreases defs.len(),
{
    if defs.len() == 0 {
        Seq::empty()
    } else {
        document_toks(defs.drop_last()) + definition_toks(defs.last().node)
    }
}

/// A well-formed value: no enum value is spelt `true`, `false` or `null`,
/// and no object names a field twice.
pub open spec fn value_wf(v: Value) -> bool
    decreases v,
{
    match v {
        Value::Enum(s) => s@ != "true"@ && s@ != "false"@ && s@ != "null"@,
        Value::List(x) => forall|i: int| #![trigger x@[i]] 0 <= i < x@.len() ==> value_wf(x@[i].node),
        Value::Object(x) => crate::value::keys_unique(x@) && forall|i: int|
            #![trigger x@[i]]
            0 <= i < x@.len() ==> value_wf(x@[i].1.node),
        _ => true,
    }
}

pub(crate) proof fn lemma_values_toks_front(xs: Seq<Spanned<Value>>)
    requires
        xs.len() > 0,
    ensures
        values_toks(xs) == value_toks(xs[0].node) + values_toks(xs.drop_first()),
    decreases xs.len(),
{
    let n = xs.len();
    let init = xs.subrange(0, n - 1);
    if n == 1 {
        assert(init =~= Seq::<Spanned<Value>>::empty());
        assert(xs.drop_first() =~= Seq::<Spanned<Value>>::empty());
        assert(values_toks(xs) =~= value_toks(xs[0].node) + values_toks(xs.drop_first()));
    } else {
        lemma_values_toks_front(init);
        let tail = xs.drop_first();
        assert(tail.subrange(0, tail.len() - 1) =~= init.drop_first());
        assert(tail[tail.len() - 1] == xs[n - 1]);
        assert(init[0] == xs[0]);
        assert(values_toks(xs) =~= value_toks(xs[0].node) + values_toks(xs.drop_first()));
    }
}

pub(crate) proof fn lemma_pairs_toks_front(xs: Seq<(Spanned<String>, Spanned<Value>)>)
    requires
        xs.len() > 0,
    ensures
        pairs_toks(xs) == seq![Tok::Name(xs[0].0.node@), Tok::Punct(':')] + value_toks(xs[0].1.node) + pairs_toks(
            xs.drop_first(),
        ),
    decreases xs.len(),
{
    let n = xs.len();
    let init = xs.subrange(0, n - 1);
    if n == 1 {
        assert(init =~= Seq::<(Spanned<String>, Spanned<Value>)>::empty());
        assert(xs.drop_first() =~= Seq::<(Spanned<String>, Spanned<Value>)>::empty());
        assert(pairs_toks(xs) =~= seq![Tok::Name(xs[0].0.node@), Tok::Punct(':')] + value_toks(xs[0].1.node)
            + pairs_toks(xs.drop_first()));
    } else {
        lemma_pairs_toks_front(init);
        let tail = xs.drop_first();
        assert(tail.subrange(0, tail.len() - 1) =~= init.drop_first());
        assert(tail[tail.len() - 1] == xs[n - 1]);
        assert(init[0] == xs[0]);
        assert(pairs_toks(xs) =~= seq![Tok::Name(xs[0].0.node@), Tok::Punct(':')] + value_toks(xs[0].1.node)
            + pairs_toks(xs.drop_first()));
    }
}

pub(crate) proof fn lemma_value_first_tok(v: Value)
    ensures
        value_toks(v).len() > 0,
        value_toks(v)[0] != Tok::Punct(']'),
        value_toks(v)[0] != Tok::Punct('}'),
        value_toks(v)[0] != Tok::Punct(')'),
        value_toks(v)[0] != Tok::Spread,
        !(value_toks(v)[0] is Name) || v is Null || v is Boolean || v is Enum,
        value_toks(v)[0] is Punct ==> value_toks(v)[0] == Tok::Punct('$') || value_toks(v)[0] == Tok::Punct('[')
            || value_toks(v)[0] == Tok::Punct('{'),
        (value_toks(v)[0] == Tok::Punct('$')) == (v is Variable),
        (value_toks(v)[0] == Tok::Punct('[')) == (v is List),
        (value_toks(v)[0] == Tok::Punct('{')) == (v is Object),
{
}

/// Two values written with the same tokens, followed by the same kind of
/// text, are the same value.
pub(crate) proof fn lemma_value_toks_prefix(a: Value, b: Value, r1: Seq<Tok>, r2: Seq<Tok>)
    requires
        value_wf(a),
        value_wf(b),
        value_toks(a) + r1 == value_toks(b) + r2,
    ensures
        crate::value::same_value(a, b),
        value_toks(a) == value_toks(b),
        r1 == r2,
    decreases a, width(a),
{
    let ta = value_toks(a);
    let tb = value_toks(b);
    lemma_value_first_tok(a);
    lemma_value_first_tok(b);
    assert((ta + r1)[0] == ta[0]);
    assert((tb + r2)[0] == tb[0]);
    reveal_strlit("true");
    reveal_strlit("false");
    reveal_strlit("null");
    assert("true"@ != "false"@) by { assert("true"@[0] != "false"@[0]); }
    assert("true"@ != "null"@) by { assert("true"@[0] != "null"@[0]); }
    assert("false"@ != "null"@) by { assert("false"@[0] != "null"@[0]); }
    match (a, b) {
        (Value::Variable(x), Value::Variable(y)) => {
            assert((ta + r1)[1] == ta[1]);
            assert((tb + r2)[1] == tb[1]);
            assert(r1 =~= (ta + r1).subrange(2, (ta + r1).len() as int));
            assert(r2 =~= (tb + r2).subrange(2, (tb + r2).len() as int));
        },
        (Value::List(x), Value::List(y)) => {
            let s1 = values_toks(x@) + seq![Tok::Punct(']')] + r1;
            let s2 = values_toks(y@) + seq![Tok::Punct(']')] + r2;
            assert(ta + r1 =~= seq![Tok::Punct('[')] + s1);
            assert(tb + r2 =~= seq![Tok::Punct('[')] + s2);
            assert(s1 =~= (ta + r1).drop_first());
            assert(s2 =~= (tb + r2).drop_first());
            assert(x@.subrange(0, x@.len() as int) =~= x@);
            lemma_values_toks_prefix(a, 0, y@, r1, r2);
        },
        (Value::Object(x), Value::Object(y)) => {
            let s1 = pairs_toks(x@) + seq![Tok::Punct('}')] + r1;
            let s2 = pairs_toks(y@) + seq![Tok::Punct('}')] + r2;
            assert(ta + r1 =~= seq![Tok::Punct('{')] + s1);
            assert(tb + r2 =~= seq![Tok::Punct('{')] + s2);
            assert(s1 =~= (ta + r1).drop_first());
            assert(s2 =~= (tb + r2).drop_first());
            assert(x@.subrange(0, x@.len() as int) =~= x@);
            lemma_pairs_toks_prefix(a, 0, y@, r1, r2);
        },
        _ => {
            assert(ta.len() == 1 && tb.len() == 1);
            assert(r1 =~= (ta + r1).drop_first());
            assert(r2 =~= (tb + r2).drop_first());
        },
    }
}

/// How many parts a list or object holds, plus one; 0 for other values.
pub open spec fn width(v: Value) -> nat {
    match v {
        Value::List(x) => x@.len() + 1,
        Value::Object(x) => x@.len() + 1,
        _ => 0,
    }
}

proof fn lemma_values_toks_prefix(whole: Value, k: int, xb: Seq<Spanned<Value>>, r1: Seq<Tok>, r2: Seq<Tok>)
    requires
        whole is List,
        0 <= k <= whole->List_0@.len(),
        value_wf(whole),
        forall|i: int| #![trigger xb[i]] 0 <= i < xb.len() ==> value_wf(xb[i].node),
        values_toks(whole->List_0@.subrange(k, whole->List_0@.len() as int)) + seq![Tok::Punct(']')] + r1
            == values_toks(xb) + seq![Tok::Punct(']')] + r2,
    ensures
        ({
            let xa = whole->List_0@.subrange(k, whole->List_0@.len() as int);
            &&& xa.len() == xb.len()
            &&& forall|i: int| #![trigger xa[i]] 0 <= i < xa.len() ==> crate::value::same_value(xa[i].node, xb[i].node)
            &&& values_toks(xa) == values_toks(xb)
            &&& r1 == r2
        }),
    decreases whole, whole->List_0@.len() - k,
{
    let x = whole->List_0@;
    let xa = x.subrange(k, x.len() as int);
    let lhs = values_toks(xa) + seq![Tok::Punct(']')] + r1;
    let rhs = values_toks(xb) + seq![Tok::Punct(']')] + r2;
    if xa.len() == 0 {
        assert(values_toks(xa) == Seq::<Tok>::empty());
        assert(lhs[0] == Tok::Punct(']'));
        if xb.len() > 0 {
            lemma_values_toks_front(xb);
            lemma_value_first_tok(xb[0].node);
            assert(rhs[0] == value_toks(xb[0].node)[0]);
            assert(false);
        }
        assert(values_toks(xb) == Seq::<Tok>::empty());
        assert(r1 =~= lhs.drop_first());
        assert(r2 =~= rhs.drop_first());
    } else {
        lemma_values_toks_front(xa);
        lemma_value_first_tok(xa[0].node);
        assert(lhs[0] == value_toks(xa[0].node)[0]);
        if xb.len() == 0 {
            assert(values_toks(xb) == Seq::<Tok>::empty());
            assert(rhs[0] == Tok::Punct(']'));
            assert(false);
        }
        lemma_values_toks_front(xb);
        let rest1 = values_toks(xa.drop_first()) + seq![Tok::Punct(']')] + r1;
        let rest2 = values_toks(xb.drop_first()) + seq![Tok::Punct(']')] + r2;
        assert(lhs =~= value_toks(xa[0].node) + rest1);
        assert(rhs =~= value_toks(xb[0].node) + rest2);
        assert(xa[0] == x[k]);
        crate::value::lemma_list_elem_decreases(whole, k);
        assert(value_wf(x[k].node));
        assert(value_wf(xb[0].node));
        lemma_value_toks_prefix(x[k].node, xb[0].node, rest1, rest2);
        assert(xa.drop_first() =~= x.subrange(k + 1, x.len() as int));
        let xb2 = xb.drop_first();
        assert forall|i: int| #![trigger xb2[i]] 0 <= i < xb2.len() implies value_wf(xb2[i].node) by {
            assert(xb2[i] == xb[i + 1]);
        }
        assert(values_toks(xa.drop_first()) + seq![Tok::Punct(']')] + r1 == values_toks(xb2) + seq![Tok::Punct(']')] + r2) by {
            let v1 = values_toks(xa.drop_first());
            let v2 = values_toks(xb2);
            assert(rest1 == rest2);
        }
        lemma_values_toks_prefix(whole, k + 1, xb2, r1, r2);
        assert forall|i: int| #![trigger xa[i]] 0 <= i < xa.len() implies crate::value::same_value(xa[i].node, xb[i].node) by {
            if i > 0 {
                assert(xa[i] == x.subrange(k + 1, x.len() as int)[i - 1]);
                assert(xb[i] == xb2[i - 1]);
            }
        }
    }
}

proof fn lemma_pairs_toks_prefix(
    whole: Value,
    k: int,
    xb: Seq<(Spanned<String>, Spanned<Value>)>,
    r1: Seq<Tok>,
    r2: Seq<Tok>,
)
    requires
        whole is Object,
        0 <= k <= whole->Object_0@.len(),
        value_wf(whole),
        forall|i: int| #![trigger xb[i]] 0 <= i < xb.len() ==> value_wf(xb[i].1.node),
        pairs_toks(whole->Object_0@.subrange(k, whole->Object_0@.len() as int)) + seq![Tok::Punct('}')] + r1
            == pairs_toks(xb) + seq![Tok::Punct('}')] + r2,
    ensures
        ({
            let xa = whole->Object_0@.subrange(k, whole->Object_0@.len() as int);
            &&& xa.len() == xb.len()
            &&& forall|i: int|
                #![trigger xa[i]]
                0 <= i < xa.len() ==> xa[i].0.node@ == xb[i].0.node@ && crate::value::same_value(
                    xa[i].1.node,
                    xb[i].1.node,
                )
            &&& pairs_toks(xa) == pairs_toks(xb)
            &&& r1 == r2
        }),
    decreases whole, whole->Object_0@.len() - k,
{
    let x = whole->Object_0@;
    let xa = x.subrange(k, x.len() as int);
    let lhs = pairs_toks(xa) + seq![Tok::Punct('}')] + r1;
    let rhs = pairs_toks(xb) + seq![Tok::Punct('}')] + r2;
    if xa.len() == 0 {
        assert(pairs_toks(xa) == Seq::<Tok>::empty());
        assert(lhs[0] == Tok::Punct('}'));
        if xb.len() > 0 {
            lemma_pairs_toks_front(xb);
            assert(rhs[0] == Tok::Name(xb[0].0.node@));
            assert(false);
        }
        assert(pairs_toks(xb) == Seq::<Tok>::empty());
        assert(r1 =~= lhs.drop_first());
        assert(r2 =~= rhs.drop_first());
    } else {
        lemma_pairs_toks_front(xa);
        assert(lhs[0] == Tok::Name(xa[0].0.node@));
        if xb.len() == 0 {
            assert(pairs_toks(xb) == Seq::<Tok>::empty());
            assert(rhs[0] == Tok::Punct('}'));
            assert(false);
        }
        lemma_pairs_toks_front(xb);
        assert(rhs[0] == Tok::Name(xb[0].0.node@));
        let rest1 = pairs_toks(xa.drop_first()) + seq![Tok::Punct('}')] + r1;
        let rest2 = pairs_toks(xb.drop_first()) + seq![Tok::Punct('}')] + r2;
        let head1 = seq![Tok::Name(xa[0].0.node@), Tok::Punct(':')];
        let head2 = seq![Tok::Name(xb[0].0.node@), Tok::Punct(':')];
        assert(lhs =~= head1 + (value_toks(xa[0].1.node) + rest1));
        assert(rhs =~= head2 + (value_toks(xb[0].1.node) + rest2));
        assert((value_toks(xa[0].1.node) + rest1) =~= lhs.subrange(2, lhs.len() as int));
        assert((value_toks(xb[0].1.node) + rest2) =~= rhs.subrange(2, rhs.len() as int));
        assert(xa[0] == x[k]);
        crate::value::lemma_field_decreases(whole, k);
        assert(value_wf(x[k].1.node));
        assert(value_wf(xb[0].1.node));
        lemma_value_toks_prefix(x[k].1.node, xb[0].1.node, rest1, rest2);
        assert(xa.drop_first() =~= x.subrange(k + 1, x.len() as int));
        let xb2 = xb.drop_first();
        assert forall|i: int| #![trigger xb2[i]] 0 <= i < xb2.len() implies value_wf(xb2[i].1.node) by {
            assert(xb2[i] == xb[i + 1]);
        }
        lemma_pairs_toks_prefix(whole, k + 1, xb2, r1, r2);
        assert forall|i: int|
            #![trigger xa[i]]
            0 <= i < xa.len() implies xa[i].0.node@ == xb[i].0.node@ && crate::value::same_value(
                xa[i].1.node,
                xb[i].1.node,
            ) by {
            if i > 0 {
                assert(xa[i] == x.subrange(k + 1, x.len() as int)[i - 1]);
                assert(xb[i] == xb2[i - 1]);
            }
        }
    }
}

/// Reading back the tokens a value is written with gives the same value: two
/// values whose tokens are equal are equal in every part but their spans.
pub proof fn lemma_value_round_trip(printed: Value, read: Value)
    requires
        value_wf(printed),
        value_wf(read),
        value_toks(read) == value_toks(printed),
    ensures
        crate::value::same_value(printed, read),
{
    assert(value_toks(printed) + Seq::<Tok>::empty() == value_toks(read) + Seq::<Tok>::empty());
    lemma_value_toks_prefix(printed, read, Seq::empty(), Seq::empty());
}

} // verus!
