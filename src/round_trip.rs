//! Unique readability: two well-formed nodes written with the same tokens are
//! the same node, spans aside.

use crate::ast::{
    Definition, Directive, Field, FragmentDefinition, OperationDefinition, Selection, SelectionSet, Type,
    TypeCondition, VariableDefinition,
};
use crate::grammar::{
    alias_toks, args_toks, condition_toks, default_toks, definition_toks, directive_toks, directives_toks,
    document_toks, fragment_toks, lemma_value_toks_prefix, op_body_toks, operation_toks, opt_name_toks, pairs_toks,
    selection_set_toks, selection_toks, selections_toks, type_toks, value_toks, value_wf, var_def_toks,
    var_defs_seq_toks, var_defs_toks, Tok,
};
use crate::span::Spanned;
use crate::value::{same_value, Value};
use vstd::prelude::*;

verus! {

// ---- structural equality, spans aside ----

pub open spec fn same_pairs(a: Seq<(Spanned<String>, Spanned<Value>)>, b: Seq<(Spanned<String>, Spanned<Value>)>) -> bool {
    &&& a.len() == b.len()
    &&& forall|i: int| #![trigger a[i]] 0 <= i < a.len() ==> a[i].0.node@ == b[i].0.node@ && same_value(a[i].1.node, b[i].1.node)
}

pub open spec fn same_opt_name(a: Option<Spanned<String>>, b: Option<Spanned<String>>) -> bool {
    match (a, b) {
        (None, None) => true,
        (Some(x), Some(y)) => x.node@ == y.node@,
        _ => false,
    }
}

pub open spec fn same_type(a: Type, b: Type) -> bool
    decreases a,
{
    match (a, b) {
        (Type::Named(x), Type::Named(y)) => x.node@ == y.node@,
        (Type::List(x), Type::List(y)) => same_type(x.node, y.node),
        (Type::NonNull(x), Type::NonNull(y)) => same_type(x.node, y.node),
        _ => false,
    }
}

pub open spec fn same_directives(a: Seq<Spanned<Directive>>, b: Seq<Spanned<Directive>>) -> bool {
    &&& a.len() == b.len()
    &&& forall|i: int|
        #![trigger a[i]]
        0 <= i < a.len() ==> a[i].node.name.node@ == b[i].node.name.node@ && same_pairs(
            a[i].node.arguments@,
            b[i].node.arguments@,
        )
}

pub open spec fn same_condition(a: Option<Spanned<TypeCondition>>, b: Option<Spanned<TypeCondition>>) -> bool {
    match (a, b) {
        (None, None) => true,
        (Some(x), Some(y)) => match (x.node, y.node) {
            (TypeCondition::On(m), TypeCondition::On(n)) => m.node@ == n.node@,
        },
        _ => false,
    }
}

pub open spec fn same_selection_set(a: SelectionSet, b: SelectionSet) -> bool
    decreases a,
{
    &&& a.items@.len() == b.items@.len()
    &&& forall|i: int| #![trigger a.items@[i]] 0 <= i < a.items@.len() ==> same_selection(a.items@[i].node, b.items@[i].node)
}

pub open spec fn same_selection(a: Selection, b: Selection) -> bool
    decreases a,
{
    match (a, b) {
        (Selection::Field(x), Selection::Field(y)) => {
            &&& same_opt_name(x.node.alias, y.node.alias)
            &&& x.node.name.node@ == y.node.name.node@
            &&& same_pairs(x.node.arguments@, y.node.arguments@)
            &&& same_directives(x.node.directives@, y.node.directives@)
            &&& same_selection_set(x.node.selection_set.node, y.node.selection_set.node)
        },
        (Selection::FragmentSpread(x), Selection::FragmentSpread(y)) => {
            &&& x.node.fragment_name.node@ == y.node.fragment_name.node@
            &&& same_directives(x.node.directives@, y.node.directives@)
        },
        (Selection::InlineFragment(x), Selection::InlineFragment(y)) => {
            &&& same_condition(x.node.type_condition, y.node.type_condition)
            &&& same_directives(x.node.directives@, y.node.directives@)
            &&& same_selection_set(x.node.selection_set.node, y.node.selection_set.node)
        },
        _ => false,
    }
}

// ---- what reads back as itself ----

pub open spec fn pairs_wf(a: Seq<(Spanned<String>, Spanned<Value>)>) -> bool {
    forall|i: int| #![trigger a[i]] 0 <= i < a.len() ==> value_wf(a[i].1.node)
}

pub open spec fn directives_wf(a: Seq<Spanned<Directive>>) -> bool {
    forall|i: int| #![trigger a[i]] 0 <= i < a.len() ==> pairs_wf(a[i].node.arguments@)
}

/// A selection set that reads back as itself: its values do, and no fragment
/// spread names a fragment `on`.
pub open spec fn selection_set_wf(a: SelectionSet) -> bool
    decreases a,
{
    forall|i: int| #![trigger a.items@[i]] 0 <= i < a.items@.len() ==> selection_wf(a.items@[i].node)
}

pub open spec fn selection_wf(a: Selection) -> bool
    decreases a,
{
    match a {
        Selection::Field(x) => pairs_wf(x.node.arguments@) && crate::value::keys_unique(x.node.arguments@) && directives_wf(x.node.directives@) && selection_set_wf(
            x.node.selection_set.node,
        ),
        Selection::FragmentSpread(x) => x.node.fragment_name.node@ != "on"@ && directives_wf(x.node.directives@),
        Selection::InlineFragment(x) => directives_wf(x.node.directives@) && selection_set_wf(x.node.selection_set.node),
    }
}

// ---- helpers on token sequences ----

proof fn lemma_cancel(p1: Seq<Tok>, p2: Seq<Tok>, r1: Seq<Tok>, r2: Seq<Tok>)
    requires
        p1 == p2,
        p1 + r1 == p2 + r2,
    ensures
        r1 == r2,
{
    assert(r1 =~= (p1 + r1).subrange(p1.len() as int, (p1 + r1).len() as int));
    assert(r2 =~= (p2 + r2).subrange(p2.len() as int, (p2 + r2).len() as int));
}

// ---- arguments ----

pub(crate) proof fn lemma_pairs_prefix(xa: Seq<(Spanned<String>, Spanned<Value>)>, xb: Seq<(Spanned<String>, Spanned<Value>)>, r1: Seq<Tok>, r2: Seq<Tok>)
    requires
        pairs_wf(xa),
        pairs_wf(xb),
        pairs_toks(xa) + seq![Tok::Punct(')')] + r1 == pairs_toks(xb) + seq![Tok::Punct(')')] + r2,
    ensures
        same_pairs(xa, xb),
        pairs_toks(xa) == pairs_toks(xb),
        r1 == r2,
    decreases xa.len(),
{
    let lhs = pairs_toks(xa) + seq![Tok::Punct(')')] + r1;
    let rhs = pairs_toks(xb) + seq![Tok::Punct(')')] + r2;
    if xa.len() == 0 {
        assert(pairs_toks(xa) == Seq::<Tok>::empty());
        assert(lhs[0] == Tok::Punct(')'));
        if xb.len() > 0 {
            crate::grammar::lemma_pairs_toks_front(xb);
            assert(rhs[0] == Tok::Name(xb[0].0.node@));
            assert(false);
        }
        assert(pairs_toks(xb) == Seq::<Tok>::empty());
        assert(r1 =~= lhs.drop_first());
        assert(r2 =~= rhs.drop_first());
    } else {
        crate::grammar::lemma_pairs_toks_front(xa);
        assert(lhs[0] == Tok::Name(xa[0].0.node@));
        if xb.len() == 0 {
            assert(pairs_toks(xb) == Seq::<Tok>::empty());
            assert(rhs[0] == Tok::Punct(')'));
            assert(false);
        }
        crate::grammar::lemma_pairs_toks_front(xb);
        assert(rhs[0] == Tok::Name(xb[0].0.node@));
        let rest1 = pairs_toks(xa.drop_first()) + seq![Tok::Punct(')')] + r1;
        let rest2 = pairs_toks(xb.drop_first()) + seq![Tok::Punct(')')] + r2;
        assert(lhs =~= seq![Tok::Name(xa[0].0.node@), Tok::Punct(':')] + (value_toks(xa[0].1.node) + rest1));
        assert(rhs =~= seq![Tok::Name(xb[0].0.node@), Tok::Punct(':')] + (value_toks(xb[0].1.node) + rest2));
        lemma_cancel(seq![Tok::Name(xa[0].0.node@), Tok::Punct(':')], seq![Tok::Name(xb[0].0.node@), Tok::Punct(':')], value_toks(xa[0].1.node) + rest1, value_toks(xb[0].1.node) + rest2);
        assert(value_wf(xa[0].1.node));
        assert(value_wf(xb[0].1.node));
        lemma_value_toks_prefix(xa[0].1.node, xb[0].1.node, rest1, rest2);
        let ta = xa.drop_first();
        let tb = xb.drop_first();
        assert(pairs_wf(ta)) by {
            assert forall|i: int| #![trigger ta[i]] 0 <= i < ta.len() implies value_wf(ta[i].1.node) by {
                assert(ta[i] == xa[i + 1]);
            }
        }
        assert(pairs_wf(tb)) by {
            assert forall|i: int| #![trigger tb[i]] 0 <= i < tb.len() implies value_wf(tb[i].1.node) by {
                assert(tb[i] == xb[i + 1]);
            }
        }
        lemma_pairs_prefix(ta, tb, r1, r2);
        assert forall|i: int| #![trigger xa[i]] 0 <= i < xa.len() implies xa[i].0.node@ == xb[i].0.node@ && same_value(xa[i].1.node, xb[i].1.node) by {
            if i > 0 {
                assert(xa[i] == ta[i - 1]);
                assert(xb[i] == tb[i - 1]);
            }
        }
    }
}

pub(crate) proof fn lemma_args_prefix(xa: Seq<(Spanned<String>, Spanned<Value>)>, xb: Seq<(Spanned<String>, Spanned<Value>)>, r1: Seq<Tok>, r2: Seq<Tok>)
    requires
        pairs_wf(xa),
        pairs_wf(xb),
        args_toks(xa) + r1 == args_toks(xb) + r2,
        !(r1.len() > 0 && r1[0] == Tok::Punct('(')),
        !(r2.len() > 0 && r2[0] == Tok::Punct('(')),
    ensures
        same_pairs(xa, xb),
        args_toks(xa) == args_toks(xb),
        r1 == r2,
{
    let lhs = args_toks(xa) + r1;
    let rhs = args_toks(xb) + r2;
    if xa.len() == 0 && xb.len() == 0 {
        assert(r1 =~= lhs);
        assert(r2 =~= rhs);
    } else if xa.len() == 0 {
        assert(rhs[0] == Tok::Punct('('));
        assert(r1 =~= lhs);
        assert(false);
    } else if xb.len() == 0 {
        assert(lhs[0] == Tok::Punct('('));
        assert(r2 =~= rhs);
        assert(false);
    } else {
        assert(lhs =~= seq![Tok::Punct('(')] + (pairs_toks(xa) + seq![Tok::Punct(')')] + r1));
        assert(rhs =~= seq![Tok::Punct('(')] + (pairs_toks(xb) + seq![Tok::Punct(')')] + r2));
        lemma_cancel(seq![Tok::Punct('(')], seq![Tok::Punct('(')], pairs_toks(xa) + seq![Tok::Punct(')')] + r1, pairs_toks(xb) + seq![Tok::Punct(')')] + r2);
        lemma_pairs_prefix(xa, xb, r1, r2);
    }
}

// ---- directives ----

pub(crate) proof fn lemma_directives_front(ds: Seq<Spanned<Directive>>)
    requires
        ds.len() > 0,
    ensures
        directives_toks(ds) == directive_toks(ds[0].node) + directives_toks(ds.drop_first()),
    decreases ds.len(),
{
    let n = ds.len();
    let init = ds.drop_last();
    if n == 1 {
        assert(init =~= Seq::<Spanned<Directive>>::empty());
        assert(ds.drop_first() =~= Seq::<Spanned<Directive>>::empty());
        assert(directives_toks(ds) =~= directive_toks(ds[0].node) + directives_toks(ds.drop_first()));
    } else {
        lemma_directives_front(init);
        let tail = ds.drop_first();
        assert(tail.drop_last() =~= init.drop_first());
        assert(tail.last() == ds.last());
        assert(init[0] == ds[0]);
        assert(directives_toks(ds) =~= directive_toks(ds[0].node) + directives_toks(ds.drop_first()));
    }
}

/// Directives written with the same tokens, before text that starts with
/// neither `@` nor `(`, are the same directives.
#[verifier::spinoff_prover]
#[verifier::rlimit(60)]
pub(crate) proof fn lemma_directives_prefix(da: Seq<Spanned<Directive>>, db: Seq<Spanned<Directive>>, r1: Seq<Tok>, r2: Seq<Tok>)
    requires
        directives_wf(da),
        directives_wf(db),
        directives_toks(da) + r1 == directives_toks(db) + r2,
        !(r1.len() > 0 && (r1[0] == Tok::Punct('@') || r1[0] == Tok::Punct('('))),
        !(r2.len() > 0 && (r2[0] == Tok::Punct('@') || r2[0] == Tok::Punct('('))),
    ensures
        same_directives(da, db),
        directives_toks(da) == directives_toks(db),
        r1 == r2,
    decreases da.len(),
{
    let lhs = directives_toks(da) + r1;
    let rhs = directives_toks(db) + r2;
    if da.len() == 0 {
        assert(directives_toks(da) == Seq::<Tok>::empty());
        if db.len() > 0 {
            lemma_directives_front(db);
            assert(rhs[0] == Tok::Punct('@'));
            assert(r1 =~= lhs);
            assert(false);
        }
        assert(directives_toks(db) == Seq::<Tok>::empty());
        assert(r1 =~= lhs);
        assert(r2 =~= rhs);
    } else {
        lemma_directives_front(da);
        assert(lhs[0] == Tok::Punct('@'));
        if db.len() == 0 {
            assert(directives_toks(db) == Seq::<Tok>::empty());
            assert(r2 =~= rhs);
            assert(false);
        }
        lemma_directives_front(db);
        let a0 = da[0].node;
        let b0 = db[0].node;
        let rest1 = directives_toks(da.drop_first()) + r1;
        let rest2 = directives_toks(db.drop_first()) + r2;
        let h1 = seq![Tok::Punct('@'), Tok::Name(a0.name.node@)];
        let h2 = seq![Tok::Punct('@'), Tok::Name(b0.name.node@)];
        assert(lhs =~= h1 + (args_toks(a0.arguments@) + rest1));
        assert(rhs =~= h2 + (args_toks(b0.arguments@) + rest2));
        assert(lhs[1] == Tok::Name(a0.name.node@));
        assert(rhs[1] == Tok::Name(b0.name.node@));
        assert(h1 =~= h2);
        lemma_cancel(h1, h2, args_toks(a0.arguments@) + rest1, args_toks(b0.arguments@) + rest2);
        let ta = da.drop_first();
        let tb = db.drop_first();
        assert(directives_wf(ta)) by {
            assert forall|i: int| #![trigger ta[i]] 0 <= i < ta.len() implies pairs_wf(ta[i].node.arguments@) by {
                assert(ta[i] == da[i + 1]);
            }
        }
        assert(directives_wf(tb)) by {
            assert forall|i: int| #![trigger tb[i]] 0 <= i < tb.len() implies pairs_wf(tb[i].node.arguments@) by {
                assert(tb[i] == db[i + 1]);
            }
        }
        if ta.len() > 0 {
            lemma_directives_front(ta);
        }
        if tb.len() > 0 {
            lemma_directives_front(tb);
        }
        assert(!(rest1.len() > 0 && rest1[0] == Tok::Punct('('))) by {
            if ta.len() > 0 {
                assert(rest1[0] == Tok::Punct('@'));
            } else {
                assert(rest1 =~= r1);
            }
        }
        assert(!(rest2.len() > 0 && rest2[0] == Tok::Punct('('))) by {
            if tb.len() > 0 {
                assert(rest2[0] == Tok::Punct('@'));
            } else {
                assert(rest2 =~= r2);
            }
        }
        assert(pairs_wf(a0.arguments@));
        assert(pairs_wf(b0.arguments@));
        lemma_args_prefix(a0.arguments@, b0.arguments@, rest1, rest2);
        lemma_directives_prefix(ta, tb, r1, r2);
        assert forall|i: int|
            #![trigger da[i]]
            0 <= i < da.len() implies da[i].node.name.node@ == db[i].node.name.node@ && same_pairs(
                da[i].node.arguments@,
                db[i].node.arguments@,
            ) by {
            if i > 0 {
                assert(da[i] == ta[i - 1]);
                assert(db[i] == tb[i - 1]);
            }
        }
    }
}

// ---- selection sets ----

/// What may follow a selection: another selection, or the closing brace.
pub open spec fn sel_follow(r: Seq<Tok>) -> bool {
    r.len() == 0 || r[0] is Name || r[0] == Tok::Spread || r[0] == Tok::Punct('}')
}

/// The tokens a field writes after its name.
pub open spec fn field_tail(x: Field) -> Seq<Tok> {
    args_toks(x.arguments@) + directives_toks(x.directives@) + if x.selection_set.node.items@.len() == 0 {
        Seq::empty()
    } else {
        selection_set_toks(x.selection_set.node)
    }
}

pub open spec fn sel_part(x: Field) -> Seq<Tok> {
    if x.selection_set.node.items@.len() == 0 {
        Seq::empty()
    } else {
        selection_set_toks(x.selection_set.node)
    }
}

pub(crate) proof fn lemma_selections_front(items: Seq<Spanned<Selection>>)
    requires
        items.len() > 0,
    ensures
        selections_toks(items) == selection_toks(items[0].node) + selections_toks(items.drop_first()),
    decreases items.len(),
{
    let n = items.len();
    let init = items.subrange(0, n - 1);
    if n == 1 {
        assert(init =~= Seq::<Spanned<Selection>>::empty());
        assert(items.drop_first() =~= Seq::<Spanned<Selection>>::empty());
        assert(selections_toks(items) =~= selection_toks(items[0].node) + selections_toks(items.drop_first()));
    } else {
        lemma_selections_front(init);
        let tail = items.drop_first();
        assert(tail.subrange(0, tail.len() - 1) =~= init.drop_first());
        assert(tail[tail.len() - 1] == items[n - 1]);
        assert(init[0] == items[0]);
        assert(selections_toks(items) =~= selection_toks(items[0].node) + selections_toks(items.drop_first()));
    }
}

pub(crate) proof fn lemma_selection_first(a: Selection)
    ensures
        selection_toks(a).len() > 0,
        selection_toks(a)[0] is Name || selection_toks(a)[0] == Tok::Spread,
        a is Field <==> selection_toks(a)[0] is Name,
{
    match a {
        Selection::Field(x) => {
            match x.node.alias {
                Some(al) => {},
                None => {},
            }
        },
        _ => {},
    }
}

/// What follows a field's name, before a selection's follower, never starts with `:`.
pub(crate) proof fn lemma_field_tail_head(x: Field, r: Seq<Tok>)
    requires
        sel_follow(r),
    ensures
        (field_tail(x) + r).len() > 0 ==> (field_tail(x) + r)[0] != Tok::Punct(':'),
        (args_toks(x.arguments@) + directives_toks(x.directives@) + sel_part(x)) == field_tail(x),
{
    let t = field_tail(x) + r;
    if x.arguments@.len() > 0 {
        assert(t[0] == Tok::Punct('('));
    } else if x.directives@.len() > 0 {
        lemma_directives_front(x.directives@);
        assert(t[0] == Tok::Punct('@'));
    } else if x.selection_set.node.items@.len() > 0 {
        assert(t[0] == Tok::Punct('{'));
    } else {
        assert(t =~= r);
    }
}

pub(crate) proof fn lemma_selection_set_prefix(a: SelectionSet, b: SelectionSet, r1: Seq<Tok>, r2: Seq<Tok>)
    requires
        selection_set_wf(a),
        selection_set_wf(b),
        selection_set_toks(a) + r1 == selection_set_toks(b) + r2,
    ensures
        same_selection_set(a, b),
        selection_set_toks(a) == selection_set_toks(b),
        r1 == r2,
    decreases a, a.items@.len() + 2,
{
    let s1 = selections_toks(a.items@) + seq![Tok::Punct('}')] + r1;
    let s2 = selections_toks(b.items@) + seq![Tok::Punct('}')] + r2;
    assert(selection_set_toks(a) + r1 =~= seq![Tok::Punct('{')] + s1);
    assert(selection_set_toks(b) + r2 =~= seq![Tok::Punct('{')] + s2);
    lemma_cancel(seq![Tok::Punct('{')], seq![Tok::Punct('{')], s1, s2);
    assert(a.items@.subrange(0, a.items@.len() as int) =~= a.items@);
    lemma_selections_prefix(a, 0, b.items@, r1, r2);
}

proof fn lemma_selections_prefix(whole: SelectionSet, k: int, xb: Seq<Spanned<Selection>>, r1: Seq<Tok>, r2: Seq<Tok>)
    requires
        0 <= k <= whole.items@.len(),
        selection_set_wf(whole),
        forall|i: int| #![trigger xb[i]] 0 <= i < xb.len() ==> selection_wf(xb[i].node),
        selections_toks(whole.items@.subrange(k, whole.items@.len() as int)) + seq![Tok::Punct('}')] + r1
            == selections_toks(xb) + seq![Tok::Punct('}')] + r2,
    ensures
        ({
            let xa = whole.items@.subrange(k, whole.items@.len() as int);
            &&& xa.len() == xb.len()
            &&& forall|i: int| #![trigger xa[i]] 0 <= i < xa.len() ==> same_selection(xa[i].node, xb[i].node)
            &&& selections_toks(xa) == selections_toks(xb)
            &&& r1 == r2
        }),
    decreases whole, whole.items@.len() - k,
{
    let x = whole.items@;
    let xa = x.subrange(k, x.len() as int);
    let lhs = selections_toks(xa) + seq![Tok::Punct('}')] + r1;
    let rhs = selections_toks(xb) + seq![Tok::Punct('}')] + r2;
    if xa.len() == 0 {
        assert(selections_toks(xa) == Seq::<Tok>::empty());
        assert(lhs[0] == Tok::Punct('}'));
        if xb.len() > 0 {
            lemma_selections_front(xb);
            lemma_selection_first(xb[0].node);
            assert(rhs[0] == selection_toks(xb[0].node)[0]);
            assert(false);
        }
        assert(selections_toks(xb) == Seq::<Tok>::empty());
        assert(r1 =~= lhs.drop_first());
        assert(r2 =~= rhs.drop_first());
    } else {
        lemma_selections_front(xa);
        lemma_selection_first(xa[0].node);
        assert(lhs[0] == selection_toks(xa[0].node)[0]);
        if xb.len() == 0 {
            assert(selections_toks(xb) == Seq::<Tok>::empty());
            assert(rhs[0] == Tok::Punct('}'));
            assert(false);
        }
        lemma_selections_front(xb);
        let ta = xa.drop_first();
        let tb = xb.drop_first();
        let rest1 = selections_toks(ta) + seq![Tok::Punct('}')] + r1;
        let rest2 = selections_toks(tb) + seq![Tok::Punct('}')] + r2;
        assert(lhs =~= selection_toks(xa[0].node) + rest1);
        assert(rhs =~= selection_toks(xb[0].node) + rest2);
        assert(sel_follow(rest1)) by {
            if ta.len() > 0 {
                lemma_selections_front(ta);
                lemma_selection_first(ta[0].node);
                assert(rest1[0] == selection_toks(ta[0].node)[0]);
            } else {
                assert(selections_toks(ta) == Seq::<Tok>::empty());
                assert(rest1[0] == Tok::Punct('}'));
            }
        }
        assert(sel_follow(rest2)) by {
            if tb.len() > 0 {
                lemma_selections_front(tb);
                lemma_selection_first(tb[0].node);
                assert(rest2[0] == selection_toks(tb[0].node)[0]);
            } else {
                assert(selections_toks(tb) == Seq::<Tok>::empty());
                assert(rest2[0] == Tok::Punct('}'));
            }
        }
        assert(xa[0] == x[k]);
        assert(decreases_to!(whole => whole.items));
        assert(decreases_to!(whole.items => x));
        assert(decreases_to!(x => x[k]));
        assert(decreases_to!(x[k] => x[k].node));
        assert(selection_wf(x[k].node));
        assert(selection_wf(xb[0].node));
        lemma_selection_prefix(x[k].node, xb[0].node, rest1, rest2);
        assert(ta =~= x.subrange(k + 1, x.len() as int));
        assert forall|i: int| #![trigger tb[i]] 0 <= i < tb.len() implies selection_wf(tb[i].node) by {
            assert(tb[i] == xb[i + 1]);
        }
        lemma_selections_prefix(whole, k + 1, tb, r1, r2);
        assert forall|i: int| #![trigger xa[i]] 0 <= i < xa.len() implies same_selection(xa[i].node, xb[i].node) by {
            if i > 0 {
                assert(xa[i] == ta[i - 1]);
                assert(xb[i] == tb[i - 1]);
            }
        }
    }
}

#[verifier::spinoff_prover]
#[verifier::rlimit(60)]
pub(crate) proof fn lemma_selection_prefix(a: Selection, b: Selection, r1: Seq<Tok>, r2: Seq<Tok>)
    requires
        selection_wf(a),
        selection_wf(b),
        selection_toks(a) + r1 == selection_toks(b) + r2,
        sel_follow(r1),
        sel_follow(r2),
    ensures
        same_selection(a, b),
        selection_toks(a) == selection_toks(b),
        r1 == r2,
    decreases a, 1nat,
{
    let lhs = selection_toks(a) + r1;
    let rhs = selection_toks(b) + r2;
    lemma_selection_first(a);
    lemma_selection_first(b);
    assert(lhs[0] == selection_toks(a)[0]);
    assert(rhs[0] == selection_toks(b)[0]);
    reveal_strlit("on");
    match (a, b) {
        (Selection::Field(_), Selection::Field(_)) => {
            lemma_field_prefix(a, b, r1, r2);
        },
        (Selection::FragmentSpread(x), Selection::FragmentSpread(y)) => {
            let h1 = seq![Tok::Spread, Tok::Name(x.node.fragment_name.node@)];
            let h2 = seq![Tok::Spread, Tok::Name(y.node.fragment_name.node@)];
            assert(lhs =~= h1 + (directives_toks(x.node.directives@) + r1));
            assert(rhs =~= h2 + (directives_toks(y.node.directives@) + r2));
            assert(lhs[1] == h1[1]);
            assert(rhs[1] == h2[1]);
            assert(h1 =~= h2);
            lemma_cancel(h1, h2, directives_toks(x.node.directives@) + r1, directives_toks(y.node.directives@) + r2);
            lemma_directives_prefix(x.node.directives@, y.node.directives@, r1, r2);
        },
        (Selection::InlineFragment(x), Selection::InlineFragment(y)) => {
            let c1 = condition_toks(x.node.type_condition);
            let c2 = condition_toks(y.node.type_condition);
            let t1 = directives_toks(x.node.directives@) + selection_set_toks(x.node.selection_set.node) + r1;
            let t2 = directives_toks(y.node.directives@) + selection_set_toks(y.node.selection_set.node) + r2;
            assert(lhs =~= seq![Tok::Spread] + (c1 + t1));
            assert(rhs =~= seq![Tok::Spread] + (c2 + t2));
            lemma_cancel(seq![Tok::Spread], seq![Tok::Spread], c1 + t1, c2 + t2);
            assert(t1[0] != Tok::Name("on"@)) by {
                if x.node.directives@.len() > 0 {
                    lemma_directives_front(x.node.directives@);
                    assert(t1[0] == Tok::Punct('@'));
                } else {
                    assert(t1[0] == Tok::Punct('{'));
                }
            }
            assert(t2[0] != Tok::Name("on"@)) by {
                if y.node.directives@.len() > 0 {
                    lemma_directives_front(y.node.directives@);
                    assert(t2[0] == Tok::Punct('@'));
                } else {
                    assert(t2[0] == Tok::Punct('{'));
                }
            }
            match (x.node.type_condition, y.node.type_condition) {
                (Some(cx), Some(cy)) => {
                    assert((c1 + t1)[1] == c1[1]);
                    assert((c2 + t2)[1] == c2[1]);
                    assert(c1 =~= c2);
                    lemma_cancel(c1, c2, t1, t2);
                },
                (None, None) => {
                    assert(c1 + t1 =~= t1);
                    assert(c2 + t2 =~= t2);
                },
                (Some(cx), None) => {
                    assert((c1 + t1)[0] == Tok::Name("on"@));
                    assert(c2 + t2 =~= t2);
                    assert(false);
                },
                (None, Some(cy)) => {
                    assert((c2 + t2)[0] == Tok::Name("on"@));
                    assert(c1 + t1 =~= t1);
                    assert(false);
                },
            }
            let s1 = selection_set_toks(x.node.selection_set.node) + r1;
            let s2 = selection_set_toks(y.node.selection_set.node) + r2;
            assert(t1 =~= directives_toks(x.node.directives@) + s1);
            assert(t2 =~= directives_toks(y.node.directives@) + s2);
            assert(s1[0] == Tok::Punct('{'));
            assert(s2[0] == Tok::Punct('{'));
            lemma_directives_prefix(x.node.directives@, y.node.directives@, s1, s2);
            lemma_selection_set_prefix(x.node.selection_set.node, y.node.selection_set.node, r1, r2);
        },
        (Selection::FragmentSpread(x), Selection::InlineFragment(y)) => {
            lemma_spread_inline_differ(a, b, r1, r2);
        },
        (Selection::InlineFragment(x), Selection::FragmentSpread(y)) => {
            lemma_spread_inline_differ(b, a, r2, r1);
        },
        _ => {
            assert(false);
        },
    }
}

proof fn lemma_spread_inline_differ(a: Selection, b: Selection, r1: Seq<Tok>, r2: Seq<Tok>)
    requires
        a is FragmentSpread,
        b is InlineFragment,
        selection_wf(a),
    ensures
        selection_toks(a) + r1 != selection_toks(b) + r2,
{
    reveal_strlit("on");
    let x = a->FragmentSpread_0;
    let y = b->InlineFragment_0;
    let lhs = selection_toks(a) + r1;
    let rhs = selection_toks(b) + r2;
    assert(lhs[1] == Tok::Name(x.node.fragment_name.node@));
    assert(rhs.len() >= 2);
    match y.node.type_condition {
        Some(c) => {
            assert(rhs[1] == Tok::Name("on"@));
        },
        None => {
            if y.node.directives@.len() > 0 {
                lemma_directives_front(y.node.directives@);
                assert(rhs[1] == Tok::Punct('@'));
            } else {
                assert(rhs[1] == Tok::Punct('{'));
            }
        },
    }
}

#[verifier::spinoff_prover]
#[verifier::rlimit(60)]
proof fn lemma_field_prefix(a: Selection, b: Selection, r1: Seq<Tok>, r2: Seq<Tok>)
    requires
        a is Field,
        b is Field,
        selection_wf(a),
        selection_wf(b),
        selection_toks(a) + r1 == selection_toks(b) + r2,
        sel_follow(r1),
        sel_follow(r2),
    ensures
        same_selection(a, b),
        selection_toks(a) == selection_toks(b),
        r1 == r2,
    decreases a, 0nat,
{
    let x = a->Field_0.node;
    let y = b->Field_0.node;
    let lhs = selection_toks(a) + r1;
    let rhs = selection_toks(b) + r2;
    lemma_field_tail_head(x, r1);
    lemma_field_tail_head(y, r2);
    let t1 = field_tail(x) + r1;
    let t2 = field_tail(y) + r2;
    assert(selection_toks(a) =~= alias_toks(x.alias) + seq![Tok::Name(x.name.node@)] + field_tail(x));
    assert(selection_toks(b) =~= alias_toks(y.alias) + seq![Tok::Name(y.name.node@)] + field_tail(y));
    let h1 = alias_toks(x.alias) + seq![Tok::Name(x.name.node@)];
    let h2 = alias_toks(y.alias) + seq![Tok::Name(y.name.node@)];
    assert(lhs =~= h1 + t1);
    assert(rhs =~= h2 + t2);
    match (x.alias, y.alias) {
        (Some(p), Some(q)) => {
            assert(lhs[0] == Tok::Name(p.node@));
            assert(rhs[0] == Tok::Name(q.node@));
            assert(lhs[2] == Tok::Name(x.name.node@));
            assert(rhs[2] == Tok::Name(y.name.node@));
            assert(h1 =~= h2);
        },
        (None, None) => {
            assert(lhs[0] == Tok::Name(x.name.node@));
            assert(rhs[0] == Tok::Name(y.name.node@));
            assert(h1 =~= h2);
        },
        (Some(p), None) => {
            assert(lhs[1] == Tok::Punct(':'));
            assert(rhs.len() == lhs.len());
            assert(rhs[1] == t2[0]);
            assert(false);
        },
        (None, Some(q)) => {
            assert(rhs[1] == Tok::Punct(':'));
            assert(rhs.len() == lhs.len());
            assert(lhs[1] == t1[0]);
            assert(false);
        },
    }
    lemma_cancel(h1, h2, t1, t2);
    let d1 = directives_toks(x.directives@) + sel_part(x) + r1;
    let d2 = directives_toks(y.directives@) + sel_part(y) + r2;
    assert(t1 =~= args_toks(x.arguments@) + d1);
    assert(t2 =~= args_toks(y.arguments@) + d2);
    assert(!(d1.len() > 0 && d1[0] == Tok::Punct('('))) by {
        if x.directives@.len() > 0 {
            lemma_directives_front(x.directives@);
            assert(d1[0] == Tok::Punct('@'));
        } else if x.selection_set.node.items@.len() > 0 {
            assert(d1[0] == Tok::Punct('{'));
        } else {
            assert(d1 =~= r1);
        }
    }
    assert(!(d2.len() > 0 && d2[0] == Tok::Punct('('))) by {
        if y.directives@.len() > 0 {
            lemma_directives_front(y.directives@);
            assert(d2[0] == Tok::Punct('@'));
        } else if y.selection_set.node.items@.len() > 0 {
            assert(d2[0] == Tok::Punct('{'));
        } else {
            assert(d2 =~= r2);
        }
    }
    lemma_args_prefix(x.arguments@, y.arguments@, d1, d2);
    let e1 = sel_part(x) + r1;
    let e2 = sel_part(y) + r2;
    assert(d1 =~= directives_toks(x.directives@) + e1);
    assert(d2 =~= directives_toks(y.directives@) + e2);
    assert(!(e1.len() > 0 && (e1[0] == Tok::Punct('@') || e1[0] == Tok::Punct('(')))) by {
        if x.selection_set.node.items@.len() > 0 {
            assert(e1[0] == Tok::Punct('{'));
        } else {
            assert(e1 =~= r1);
        }
    }
    assert(!(e2.len() > 0 && (e2[0] == Tok::Punct('@') || e2[0] == Tok::Punct('(')))) by {
        if y.selection_set.node.items@.len() > 0 {
            assert(e2[0] == Tok::Punct('{'));
        } else {
            assert(e2 =~= r2);
        }
    }
    lemma_directives_prefix(x.directives@, y.directives@, e1, e2);
    let xs = x.selection_set.node;
    let ys = y.selection_set.node;
    if xs.items@.len() > 0 && ys.items@.len() > 0 {
        assert(e1 =~= selection_set_toks(xs) + r1);
        assert(e2 =~= selection_set_toks(ys) + r2);
        lemma_selection_set_prefix(xs, ys, r1, r2);
    } else if xs.items@.len() > 0 {
        assert(e1[0] == Tok::Punct('{'));
        assert(e2 =~= r2);
        assert(false);
    } else if ys.items@.len() > 0 {
        assert(e2[0] == Tok::Punct('{'));
        assert(e1 =~= r1);
        assert(false);
    } else {
        assert(e1 =~= r1);
        assert(e2 =~= r2);
    }
}

// ---- types ----

pub(crate) proof fn lemma_type_prefix(a: Type, b: Type, r1: Seq<Tok>, r2: Seq<Tok>)
    requires
        crate::ast::type_wf(a),
        crate::ast::type_wf(b),
        type_toks(a) + r1 == type_toks(b) + r2,
        !(r1.len() > 0 && r1[0] == Tok::Punct('!')),
        !(r2.len() > 0 && r2[0] == Tok::Punct('!')),
    ensures
        same_type(a, b),
        type_toks(a) == type_toks(b),
        r1 == r2,
    decreases a, 1nat,
{
    let ba = match a { Type::NonNull(x) => x.node, _ => a };
    let bb = match b { Type::NonNull(x) => x.node, _ => b };
    let bang1: Seq<Tok> = if a is NonNull { seq![Tok::Punct('!')] } else { Seq::empty() };
    let bang2: Seq<Tok> = if b is NonNull { seq![Tok::Punct('!')] } else { Seq::empty() };
    assert(type_toks(a) =~= type_toks(ba) + bang1);
    assert(type_toks(b) =~= type_toks(bb) + bang2);
    assert(type_toks(a) + r1 =~= type_toks(ba) + (bang1 + r1));
    assert(type_toks(b) + r2 =~= type_toks(bb) + (bang2 + r2));
    lemma_base_prefix(a, ba, bb, bang1 + r1, bang2 + r2);
    lemma_cancel(type_toks(ba), type_toks(bb), bang1 + r1, bang2 + r2);
    if a is NonNull && !(b is NonNull) {
        assert((bang2 + r2) =~= r2);
        assert((bang1 + r1)[0] == Tok::Punct('!'));
        assert(false);
    } else if !(a is NonNull) && b is NonNull {
        assert((bang1 + r1) =~= r1);
        assert((bang2 + r2)[0] == Tok::Punct('!'));
        assert(false);
    } else if a is NonNull {
        lemma_cancel(bang1, bang2, r1, r2);
    } else {
        assert((bang1 + r1) =~= r1);
        assert((bang2 + r2) =~= r2);
    }
}

/// Types without an outer non-null wrapper, written with the same tokens, are the same type.
proof fn lemma_base_prefix(outer: Type, ba: Type, bb: Type, r1: Seq<Tok>, r2: Seq<Tok>)
    requires
        crate::ast::type_wf(ba),
        crate::ast::type_wf(bb),
        !(ba is NonNull),
        !(bb is NonNull),
        ba == outer || (outer matches Type::NonNull(x) && x.node == ba),
        type_toks(ba) + r1 == type_toks(bb) + r2,
    ensures
        same_type(ba, bb),
        type_toks(ba) == type_toks(bb),
        r1 == r2,
    decreases outer, 0nat,
{
    let lhs = type_toks(ba) + r1;
    let rhs = type_toks(bb) + r2;
    match (ba, bb) {
        (Type::Named(x), Type::Named(y)) => {
            assert(lhs[0] == Tok::Name(x.node@));
            assert(rhs[0] == Tok::Name(y.node@));
            assert(r1 =~= lhs.drop_first());
            assert(r2 =~= rhs.drop_first());
        },
        (Type::List(x), Type::List(y)) => {
            let s1 = type_toks(x.node) + (seq![Tok::Punct(']')] + r1);
            let s2 = type_toks(y.node) + (seq![Tok::Punct(']')] + r2);
            assert(lhs =~= seq![Tok::Punct('[')] + s1);
            assert(rhs =~= seq![Tok::Punct('[')] + s2);
            lemma_cancel(seq![Tok::Punct('[')], seq![Tok::Punct('[')], s1, s2);
            assert(decreases_to!(outer => x.node)) by {
                if ba == outer {
                    assert(decreases_to!(outer => x));
                } else {
                    let o = outer->NonNull_0;
                    assert(decreases_to!(outer => o));
                    assert(decreases_to!(o => o.node));
                    assert(decreases_to!(o.node => x));
                }
            }
            lemma_type_prefix(x.node, y.node, seq![Tok::Punct(']')] + r1, seq![Tok::Punct(']')] + r2);
            lemma_cancel(seq![Tok::Punct(']')], seq![Tok::Punct(']')], r1, r2);
        },
        (Type::Named(x), Type::List(y)) => {
            assert(lhs[0] == Tok::Name(x.node@));
            assert(rhs[0] == Tok::Punct('['));
        },
        (Type::List(x), Type::Named(y)) => {
            assert(rhs[0] == Tok::Name(y.node@));
            assert(lhs[0] == Tok::Punct('['));
        },
        _ => {},
    }
}

// ---- variable definitions ----

pub open spec fn same_default(a: Option<Spanned<Value>>, b: Option<Spanned<Value>>) -> bool {
    match (a, b) {
        (None, None) => true,
        (Some(x), Some(y)) => same_value(x.node, y.node),
        _ => false,
    }
}

pub open spec fn same_var_defs(a: Seq<Spanned<VariableDefinition>>, b: Seq<Spanned<VariableDefinition>>) -> bool {
    &&& a.len() == b.len()
    &&& forall|i: int|
        #![trigger a[i]]
        0 <= i < a.len() ==> {
            &&& a[i].node.name.node@ == b[i].node.name.node@
            &&& same_type(a[i].node.var_type.node, b[i].node.var_type.node)
            &&& same_default(a[i].node.default_value, b[i].node.default_value)
        }
}

pub open spec fn var_def_wf(v: VariableDefinition) -> bool {
    &&& crate::ast::type_wf(v.var_type.node)
    &&& match v.default_value {
        Some(d) => value_wf(d.node),
        None => true,
    }
}

pub open spec fn var_defs_wf(a: Seq<Spanned<VariableDefinition>>) -> bool {
    forall|i: int| #![trigger a[i]] 0 <= i < a.len() ==> var_def_wf(a[i].node)
}

pub(crate) proof fn lemma_var_defs_front(vs: Seq<Spanned<VariableDefinition>>)
    requires
        vs.len() > 0,
    ensures
        var_defs_seq_toks(vs) == var_def_toks(vs[0].node) + var_defs_seq_toks(vs.drop_first()),
    decreases vs.len(),
{
    let n = vs.len();
    let init = vs.drop_last();
    if n == 1 {
        assert(init =~= Seq::<Spanned<VariableDefinition>>::empty());
        assert(vs.drop_first() =~= Seq::<Spanned<VariableDefinition>>::empty());
        assert(var_defs_seq_toks(vs) =~= var_def_toks(vs[0].node) + var_defs_seq_toks(vs.drop_first()));
    } else {
        lemma_var_defs_front(init);
        let tail = vs.drop_first();
        assert(tail.drop_last() =~= init.drop_first());
        assert(tail.last() == vs.last());
        assert(init[0] == vs[0]);
        assert(var_defs_seq_toks(vs) =~= var_def_toks(vs[0].node) + var_defs_seq_toks(vs.drop_first()));
    }
}

/// What may follow a variable definition: another one, or the closing parenthesis.
pub open spec fn var_follow(r: Seq<Tok>) -> bool {
    r.len() > 0 && (r[0] == Tok::Punct('$') || r[0] == Tok::Punct(')'))
}

#[verifier::spinoff_prover]
#[verifier::rlimit(60)]
proof fn lemma_var_def_prefix(va: VariableDefinition, vb: VariableDefinition, r1: Seq<Tok>, r2: Seq<Tok>)
    requires
        var_def_wf(va),
        var_def_wf(vb),
        var_def_toks(va) + r1 == var_def_toks(vb) + r2,
        var_follow(r1),
        var_follow(r2),
    ensures
        va.name.node@ == vb.name.node@,
        same_type(va.var_type.node, vb.var_type.node),
        same_default(va.default_value, vb.default_value),
        var_def_toks(va) == var_def_toks(vb),
        r1 == r2,
{
    let h1 = seq![Tok::Punct('$'), Tok::Name(va.name.node@), Tok::Punct(':')];
    let h2 = seq![Tok::Punct('$'), Tok::Name(vb.name.node@), Tok::Punct(':')];
    let t1 = type_toks(va.var_type.node) + (default_toks(va.default_value) + r1);
    let t2 = type_toks(vb.var_type.node) + (default_toks(vb.default_value) + r2);
    assert(var_def_toks(va) + r1 =~= h1 + t1);
    assert(var_def_toks(vb) + r2 =~= h2 + t2);
    assert((h1 + t1)[1] == h1[1]);
    assert((h2 + t2)[1] == h2[1]);
    assert(h1 =~= h2);
    lemma_cancel(h1, h2, t1, t2);
    let d1 = default_toks(va.default_value) + r1;
    let d2 = default_toks(vb.default_value) + r2;
    assert(!(d1.len() > 0 && d1[0] == Tok::Punct('!'))) by {
        if va.default_value is Some {
            assert(d1[0] == Tok::Punct('='));
        } else {
            assert(d1 =~= r1);
        }
    }
    assert(!(d2.len() > 0 && d2[0] == Tok::Punct('!'))) by {
        if vb.default_value is Some {
            assert(d2[0] == Tok::Punct('='));
        } else {
            assert(d2 =~= r2);
        }
    }
    lemma_type_prefix(va.var_type.node, vb.var_type.node, d1, d2);
    match (va.default_value, vb.default_value) {
        (Some(x), Some(y)) => {
            assert(d1 =~= seq![Tok::Punct('=')] + (value_toks(x.node) + r1));
            assert(d2 =~= seq![Tok::Punct('=')] + (value_toks(y.node) + r2));
            lemma_cancel(seq![Tok::Punct('=')], seq![Tok::Punct('=')], value_toks(x.node) + r1, value_toks(y.node) + r2);
            lemma_value_toks_prefix(x.node, y.node, r1, r2);
        },
        (None, None) => {
            assert(d1 =~= r1);
            assert(d2 =~= r2);
        },
        (Some(x), None) => {
            assert(d1[0] == Tok::Punct('='));
            assert(d2 =~= r2);
            assert(false);
        },
        (None, Some(y)) => {
            assert(d2[0] == Tok::Punct('='));
            assert(d1 =~= r1);
            assert(false);
        },
    }
}

pub(crate) proof fn lemma_var_defs_seq_prefix(xa: Seq<Spanned<VariableDefinition>>, xb: Seq<Spanned<VariableDefinition>>, r1: Seq<Tok>, r2: Seq<Tok>)
    requires
        var_defs_wf(xa),
        var_defs_wf(xb),
        var_defs_seq_toks(xa) + seq![Tok::Punct(')')] + r1 == var_defs_seq_toks(xb) + seq![Tok::Punct(')')] + r2,
    ensures
        same_var_defs(xa, xb),
        var_defs_seq_toks(xa) == var_defs_seq_toks(xb),
        r1 == r2,
    decreases xa.len(),
{
    let lhs = var_defs_seq_toks(xa) + seq![Tok::Punct(')')] + r1;
    let rhs = var_defs_seq_toks(xb) + seq![Tok::Punct(')')] + r2;
    if xa.len() == 0 {
        assert(var_defs_seq_toks(xa) == Seq::<Tok>::empty());
        assert(lhs[0] == Tok::Punct(')'));
        if xb.len() > 0 {
            lemma_var_defs_front(xb);
            assert(rhs[0] == Tok::Punct('$'));
            assert(false);
        }
        assert(var_defs_seq_toks(xb) == Seq::<Tok>::empty());
        assert(r1 =~= lhs.drop_first());
        assert(r2 =~= rhs.drop_first());
    } else {
        lemma_var_defs_front(xa);
        assert(lhs[0] == Tok::Punct('$'));
        if xb.len() == 0 {
            assert(var_defs_seq_toks(xb) == Seq::<Tok>::empty());
            assert(rhs[0] == Tok::Punct(')'));
            assert(false);
        }
        lemma_var_defs_front(xb);
        let ta = xa.drop_first();
        let tb = xb.drop_first();
        let rest1 = var_defs_seq_toks(ta) + seq![Tok::Punct(')')] + r1;
        let rest2 = var_defs_seq_toks(tb) + seq![Tok::Punct(')')] + r2;
        assert(lhs =~= var_def_toks(xa[0].node) + rest1);
        assert(rhs =~= var_def_toks(xb[0].node) + rest2);
        assert(var_follow(rest1)) by {
            if ta.len() > 0 {
                lemma_var_defs_front(ta);
                assert(rest1[0] == Tok::Punct('$'));
            } else {
                assert(rest1[0] == Tok::Punct(')'));
            }
        }
        assert(var_follow(rest2)) by {
            if tb.len() > 0 {
                lemma_var_defs_front(tb);
                assert(rest2[0] == Tok::Punct('$'));
            } else {
                assert(rest2[0] == Tok::Punct(')'));
            }
        }
        assert(var_def_wf(xa[0].node));
        assert(var_def_wf(xb[0].node));
        lemma_var_def_prefix(xa[0].node, xb[0].node, rest1, rest2);
        assert(var_defs_wf(ta)) by {
            assert forall|i: int| #![trigger ta[i]] 0 <= i < ta.len() implies var_def_wf(ta[i].node) by {
                assert(ta[i] == xa[i + 1]);
            }
        }
        assert(var_defs_wf(tb)) by {
            assert forall|i: int| #![trigger tb[i]] 0 <= i < tb.len() implies var_def_wf(tb[i].node) by {
                assert(tb[i] == xb[i + 1]);
            }
        }
        lemma_var_defs_seq_prefix(ta, tb, r1, r2);
        assert forall|i: int|
            #![trigger xa[i]]
            0 <= i < xa.len() implies {
                &&& xa[i].node.name.node@ == xb[i].node.name.node@
                &&& same_type(xa[i].node.var_type.node, xb[i].node.var_type.node)
                &&& same_default(xa[i].node.default_value, xb[i].node.default_value)
            } by {
            if i > 0 {
                assert(xa[i] == ta[i - 1]);
                assert(xb[i] == tb[i - 1]);
            }
        }
    }
}

pub(crate) proof fn lemma_var_defs_prefix(xa: Seq<Spanned<VariableDefinition>>, xb: Seq<Spanned<VariableDefinition>>, r1: Seq<Tok>, r2: Seq<Tok>)
    requires
        var_defs_wf(xa),
        var_defs_wf(xb),
        var_defs_toks(xa) + r1 == var_defs_toks(xb) + r2,
        !(r1.len() > 0 && r1[0] == Tok::Punct('(')),
        !(r2.len() > 0 && r2[0] == Tok::Punct('(')),
    ensures
        same_var_defs(xa, xb),
        var_defs_toks(xa) == var_defs_toks(xb),
        r1 == r2,
{
    let lhs = var_defs_toks(xa) + r1;
    let rhs = var_defs_toks(xb) + r2;
    if xa.len() == 0 && xb.len() == 0 {
        assert(r1 =~= lhs);
        assert(r2 =~= rhs);
    } else if xa.len() == 0 {
        assert(rhs[0] == Tok::Punct('('));
        assert(r1 =~= lhs);
        assert(false);
    } else if xb.len() == 0 {
        assert(lhs[0] == Tok::Punct('('));
        assert(r2 =~= rhs);
        assert(false);
    } else {
        assert(lhs =~= seq![Tok::Punct('(')] + (var_defs_seq_toks(xa) + seq![Tok::Punct(')')] + r1));
        assert(rhs =~= seq![Tok::Punct('(')] + (var_defs_seq_toks(xb) + seq![Tok::Punct(')')] + r2));
        lemma_cancel(seq![Tok::Punct('(')], seq![Tok::Punct('(')], var_defs_seq_toks(xa) + seq![Tok::Punct(')')] + r1, var_defs_seq_toks(xb) + seq![Tok::Punct(')')] + r2);
        lemma_var_defs_seq_prefix(xa, xb, r1, r2);
    }
}

// ---- operations, fragments and documents ----

pub open spec fn same_op_parts(
    n1: Option<Spanned<String>>,
    v1: Seq<Spanned<VariableDefinition>>,
    d1: Seq<Spanned<Directive>>,
    s1: SelectionSet,
    n2: Option<Spanned<String>>,
    v2: Seq<Spanned<VariableDefinition>>,
    d2: Seq<Spanned<Directive>>,
    s2: SelectionSet,
) -> bool {
    same_opt_name(n1, n2) && same_var_defs(v1, v2) && same_directives(d1, d2) && same_selection_set(s1, s2)
}

pub open spec fn same_operation(a: OperationDefinition, b: OperationDefinition) -> bool {
    match (a, b) {
        (OperationDefinition::SelectionSet(x), OperationDefinition::SelectionSet(y)) => same_selection_set(x.node, y.node),
        (OperationDefinition::Query(x), OperationDefinition::Query(y)) => same_op_parts(
            x.node.name, x.node.variable_definitions@, x.node.directives@, x.node.selection_set.node,
            y.node.name, y.node.variable_definitions@, y.node.directives@, y.node.selection_set.node,
        ),
        (OperationDefinition::Mutation(x), OperationDefinition::Mutation(y)) => same_op_parts(
            x.node.name, x.node.variable_definitions@, x.node.directives@, x.node.selection_set.node,
            y.node.name, y.node.variable_definitions@, y.node.directives@, y.node.selection_set.node,
        ),
        (OperationDefinition::Subscription(x), OperationDefinition::Subscription(y)) => same_op_parts(
            x.node.name, x.node.variable_definitions@, x.node.directives@, x.node.selection_set.node,
            y.node.name, y.node.variable_definitions@, y.node.directives@, y.node.selection_set.node,
        ),
        _ => false,
    }
}

pub open spec fn same_fragment(a: FragmentDefinition, b: FragmentDefinition) -> bool {
    &&& a.name.node@ == b.name.node@
    &&& same_condition(Some(a.type_condition), Some(b.type_condition))
    &&& same_directives(a.directives@, b.directives@)
    &&& same_selection_set(a.selection_set.node, b.selection_set.node)
}

pub open spec fn same_definition(a: Definition, b: Definition) -> bool {
    match (a, b) {
        (Definition::Operation(x), Definition::Operation(y)) => same_operation(x.node, y.node),
        (Definition::Fragment(x), Definition::Fragment(y)) => same_fragment(x.node, y.node),
        _ => false,
    }
}

/// Two documents with the same definitions, in order, spans aside.
pub open spec fn same_document(a: Seq<Spanned<Definition>>, b: Seq<Spanned<Definition>>) -> bool {
    &&& a.len() == b.len()
    &&& forall|i: int| #![trigger a[i]] 0 <= i < a.len() ==> same_definition(a[i].node, b[i].node)
}

pub open spec fn op_parts_wf(v: Seq<Spanned<VariableDefinition>>, d: Seq<Spanned<Directive>>, s: SelectionSet) -> bool {
    var_defs_wf(v) && directives_wf(d) && selection_set_wf(s)
}

pub open spec fn definition_wf(a: Definition) -> bool {
    match a {
        Definition::Operation(o) => match o.node {
            OperationDefinition::SelectionSet(x) => selection_set_wf(x.node),
            OperationDefinition::Query(x) => op_parts_wf(x.node.variable_definitions@, x.node.directives@, x.node.selection_set.node),
            OperationDefinition::Mutation(x) => op_parts_wf(x.node.variable_definitions@, x.node.directives@, x.node.selection_set.node),
            OperationDefinition::Subscription(x) => op_parts_wf(x.node.variable_definitions@, x.node.directives@, x.node.selection_set.node),
        },
        Definition::Fragment(f) => directives_wf(f.node.directives@) && selection_set_wf(f.node.selection_set.node),
    }
}

/// A document that reads back as itself: every value, type and selection in it does.
pub open spec fn document_wf(a: Seq<Spanned<Definition>>) -> bool {
    forall|i: int| #![trigger a[i]] 0 <= i < a.len() ==> definition_wf(a[i].node)
}

#[verifier::spinoff_prover]
#[verifier::rlimit(60)]
pub(crate) proof fn lemma_op_body_prefix(
    k1: Seq<char>,
    n1: Option<Spanned<String>>,
    v1: Seq<Spanned<VariableDefinition>>,
    d1: Seq<Spanned<Directive>>,
    s1: SelectionSet,
    k2: Seq<char>,
    n2: Option<Spanned<String>>,
    v2: Seq<Spanned<VariableDefinition>>,
    d2: Seq<Spanned<Directive>>,
    s2: SelectionSet,
    r1: Seq<Tok>,
    r2: Seq<Tok>,
)
    requires
        op_parts_wf(v1, d1, s1),
        op_parts_wf(v2, d2, s2),
        op_body_toks(k1, n1, v1, d1, s1) + r1 == op_body_toks(k2, n2, v2, d2, s2) + r2,
    ensures
        k1 == k2,
        same_op_parts(n1, v1, d1, s1, n2, v2, d2, s2),
        op_body_toks(k1, n1, v1, d1, s1) == op_body_toks(k2, n2, v2, d2, s2),
        r1 == r2,
{
    let lhs = op_body_toks(k1, n1, v1, d1, s1) + r1;
    let rhs = op_body_toks(k2, n2, v2, d2, s2) + r2;
    let e1 = selection_set_toks(s1) + r1;
    let e2 = selection_set_toks(s2) + r2;
    let c1 = directives_toks(d1) + e1;
    let c2 = directives_toks(d2) + e2;
    let b1 = var_defs_toks(v1) + c1;
    let b2 = var_defs_toks(v2) + c2;
    let a1 = opt_name_toks(n1) + b1;
    let a2 = opt_name_toks(n2) + b2;
    assert(lhs =~= seq![Tok::Name(k1)] + a1);
    assert(rhs =~= seq![Tok::Name(k2)] + a2);
    assert(lhs[0] == Tok::Name(k1));
    assert(rhs[0] == Tok::Name(k2));
    lemma_cancel(seq![Tok::Name(k1)], seq![Tok::Name(k2)], a1, a2);
    assert(!(b1[0] is Name)) by {
        if v1.len() > 0 {
            assert(b1[0] == Tok::Punct('('));
        } else if d1.len() > 0 {
            lemma_directives_front(d1);
            assert(b1[0] == Tok::Punct('@'));
        } else {
            assert(b1[0] == Tok::Punct('{'));
        }
    }
    assert(!(b2[0] is Name)) by {
        if v2.len() > 0 {
            assert(b2[0] == Tok::Punct('('));
        } else if d2.len() > 0 {
            lemma_directives_front(d2);
            assert(b2[0] == Tok::Punct('@'));
        } else {
            assert(b2[0] == Tok::Punct('{'));
        }
    }
    match (n1, n2) {
        (Some(x), Some(y)) => {
            assert(a1[0] == Tok::Name(x.node@));
            assert(a2[0] == Tok::Name(y.node@));
            lemma_cancel(opt_name_toks(n1), opt_name_toks(n2), b1, b2);
        },
        (None, None) => {
            assert(a1 =~= b1);
            assert(a2 =~= b2);
        },
        (Some(x), None) => {
            assert(a1[0] == Tok::Name(x.node@));
            assert(a2 =~= b2);
            assert(false);
        },
        (None, Some(y)) => {
            assert(a2[0] == Tok::Name(y.node@));
            assert(a1 =~= b1);
            assert(false);
        },
    }
    assert(!(c1.len() > 0 && c1[0] == Tok::Punct('('))) by {
        if d1.len() > 0 {
            lemma_directives_front(d1);
            assert(c1[0] == Tok::Punct('@'));
        } else {
            assert(c1[0] == Tok::Punct('{'));
        }
    }
    assert(!(c2.len() > 0 && c2[0] == Tok::Punct('('))) by {
        if d2.len() > 0 {
            lemma_directives_front(d2);
            assert(c2[0] == Tok::Punct('@'));
        } else {
            assert(c2[0] == Tok::Punct('{'));
        }
    }
    lemma_var_defs_prefix(v1, v2, c1, c2);
    assert(e1[0] == Tok::Punct('{'));
    assert(e2[0] == Tok::Punct('{'));
    lemma_directives_prefix(d1, d2, e1, e2);
    lemma_selection_set_prefix(s1, s2, r1, r2);
}

pub(crate) proof fn lemma_keywords_differ()
    ensures
        "query"@ != "mutation"@,
        "query"@ != "subscription"@,
        "query"@ != "fragment"@,
        "mutation"@ != "subscription"@,
        "mutation"@ != "fragment"@,
        "subscription"@ != "fragment"@,
{
    reveal_strlit("query");
    reveal_strlit("mutation");
    reveal_strlit("subscription");
    reveal_strlit("fragment");
    assert("query"@[0] != "mutation"@[0]);
    assert("query"@[0] != "subscription"@[0]);
    assert("query"@[0] != "fragment"@[0]);
    assert("mutation"@[0] != "subscription"@[0]);
    assert("mutation"@[0] != "fragment"@[0]);
    assert("subscription"@[0] != "fragment"@[0]);
}

/// The first token of a definition, and that it tells the kinds of definition apart.
pub(crate) open spec fn definition_head(a: Definition) -> Tok {
    match a {
        Definition::Operation(o) => match o.node {
            OperationDefinition::SelectionSet(_) => Tok::Punct('{'),
            OperationDefinition::Query(_) => Tok::Name("query"@),
            OperationDefinition::Mutation(_) => Tok::Name("mutation"@),
            OperationDefinition::Subscription(_) => Tok::Name("subscription"@),
        },
        Definition::Fragment(_) => Tok::Name("fragment"@),
    }
}

pub(crate) proof fn lemma_definition_head(a: Definition)
    ensures
        definition_toks(a).len() > 0,
        definition_toks(a)[0] == definition_head(a),
{
}

#[verifier::spinoff_prover]
#[verifier::rlimit(60)]
pub(crate) proof fn lemma_definition_prefix(a: Definition, b: Definition, r1: Seq<Tok>, r2: Seq<Tok>)
    requires
        definition_wf(a),
        definition_wf(b),
        definition_toks(a) + r1 == definition_toks(b) + r2,
    ensures
        same_definition(a, b),
        definition_toks(a) == definition_toks(b),
        r1 == r2,
{
    let lhs = definition_toks(a) + r1;
    let rhs = definition_toks(b) + r2;
    lemma_definition_head(a);
    lemma_definition_head(b);
    lemma_keywords_differ();
    assert(lhs[0] == definition_head(a));
    assert(rhs[0] == definition_head(b));
    match (a, b) {
        (Definition::Operation(x), Definition::Operation(y)) => {
            match (x.node, y.node) {
                (OperationDefinition::SelectionSet(p), OperationDefinition::SelectionSet(q)) => {
                    lemma_selection_set_prefix(p.node, q.node, r1, r2);
                },
                (OperationDefinition::Query(p), OperationDefinition::Query(q)) => {
                    lemma_op_body_prefix("query"@, p.node.name, p.node.variable_definitions@, p.node.directives@, p.node.selection_set.node,
                        "query"@, q.node.name, q.node.variable_definitions@, q.node.directives@, q.node.selection_set.node, r1, r2);
                },
                (OperationDefinition::Mutation(p), OperationDefinition::Mutation(q)) => {
                    lemma_op_body_prefix("mutation"@, p.node.name, p.node.variable_definitions@, p.node.directives@, p.node.selection_set.node,
                        "mutation"@, q.node.name, q.node.variable_definitions@, q.node.directives@, q.node.selection_set.node, r1, r2);
                },
                (OperationDefinition::Subscription(p), OperationDefinition::Subscription(q)) => {
                    lemma_op_body_prefix("subscription"@, p.node.name, p.node.variable_definitions@, p.node.directives@, p.node.selection_set.node,
                        "subscription"@, q.node.name, q.node.variable_definitions@, q.node.directives@, q.node.selection_set.node, r1, r2);
                },
                _ => {
                    assert(false);
                },
            }
        },
        (Definition::Fragment(x), Definition::Fragment(y)) => {
            let f = x.node;
            let g = y.node;
            let cf = match f.type_condition.node { TypeCondition::On(n) => n.node@ };
            let cg = match g.type_condition.node { TypeCondition::On(n) => n.node@ };
            let h1 = seq![Tok::Name("fragment"@), Tok::Name(f.name.node@), Tok::Name("on"@), Tok::Name(cf)];
            let h2 = seq![Tok::Name("fragment"@), Tok::Name(g.name.node@), Tok::Name("on"@), Tok::Name(cg)];
            let e1 = selection_set_toks(f.selection_set.node) + r1;
            let e2 = selection_set_toks(g.selection_set.node) + r2;
            let t1 = directives_toks(f.directives@) + e1;
            let t2 = directives_toks(g.directives@) + e2;
            assert(lhs =~= h1 + t1);
            assert(rhs =~= h2 + t2);
            assert(lhs[1] == h1[1]);
            assert(rhs[1] == h2[1]);
            assert(lhs[3] == h1[3]);
            assert(rhs[3] == h2[3]);
            assert(h1 =~= h2);
            lemma_cancel(h1, h2, t1, t2);
            assert(e1[0] == Tok::Punct('{'));
            assert(e2[0] == Tok::Punct('{'));
            lemma_directives_prefix(f.directives@, g.directives@, e1, e2);
            lemma_selection_set_prefix(f.selection_set.node, g.selection_set.node, r1, r2);
        },
        _ => {
            assert(false);
        },
    }
}

pub(crate) proof fn lemma_document_front(defs: Seq<Spanned<Definition>>)
    requires
        defs.len() > 0,
    ensures
        document_toks(defs) == definition_toks(defs[0].node) + document_toks(defs.drop_first()),
    decreases defs.len(),
{
    let n = defs.len();
    let init = defs.drop_last();
    if n == 1 {
        assert(init =~= Seq::<Spanned<Definition>>::empty());
        assert(defs.drop_first() =~= Seq::<Spanned<Definition>>::empty());
        assert(document_toks(defs) =~= definition_toks(defs[0].node) + document_toks(defs.drop_first()));
    } else {
        lemma_document_front(init);
        let tail = defs.drop_first();
        assert(tail.drop_last() =~= init.drop_first());
        assert(tail.last() == defs.last());
        assert(init[0] == defs[0]);
        assert(document_toks(defs) =~= definition_toks(defs[0].node) + document_toks(defs.drop_first()));
    }
}

/// Printing a document and reading it back gives the same document: two
/// well-formed documents written with the same tokens have the same
/// definitions, spans aside. With the parser's own contract (the tokens it
/// reads are those its result is written with) this is the round trip.
pub proof fn lemma_document_round_trip(printed: Seq<Spanned<Definition>>, read: Seq<Spanned<Definition>>)
    requires
        document_wf(printed),
        document_wf(read),
        document_toks(read) == document_toks(printed),
    ensures
        same_document(printed, read),
    decreases printed.len(),
{
    if printed.len() == 0 {
        if read.len() > 0 {
            lemma_document_front(read);
            lemma_definition_head(read[0].node);
            assert(document_toks(printed) == Seq::<Tok>::empty());
            assert(false);
        }
    } else {
        lemma_document_front(printed);
        lemma_definition_head(printed[0].node);
        if read.len() == 0 {
            assert(document_toks(read) == Seq::<Tok>::empty());
            assert(false);
        }
        lemma_document_front(read);
        let tp = printed.drop_first();
        let tr = read.drop_first();
        assert(definition_wf(printed[0].node));
        assert(definition_wf(read[0].node));
        lemma_definition_prefix(printed[0].node, read[0].node, document_toks(tp), document_toks(tr));
        assert(document_wf(tp)) by {
            assert forall|i: int| #![trigger tp[i]] 0 <= i < tp.len() implies definition_wf(tp[i].node) by {
                assert(tp[i] == printed[i + 1]);
            }
        }
        assert(document_wf(tr)) by {
            assert forall|i: int| #![trigger tr[i]] 0 <= i < tr.len() implies definition_wf(tr[i].node) by {
                assert(tr[i] == read[i + 1]);
            }
        }
        lemma_document_round_trip(tp, tr);
        assert forall|i: int| #![trigger printed[i]] 0 <= i < printed.len() implies same_definition(printed[i].node, read[i].node) by {
            if i > 0 {
                assert(printed[i] == tp[i - 1]);
                assert(read[i] == tr[i - 1]);
            }
        }
    }
}

} // verus!
