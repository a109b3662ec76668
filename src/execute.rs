//! The parts of resolver dispatch that decide: which fields a selection asks
//! of an object, grouped by response key, and where a failing field's null lands.

use crate::ast::{response_key, Field, FragmentDefinition, Selection, SelectionSet, TypeCondition, VariableDefinition};
use crate::context::{skip_from, ContextBase, Error, QueryPathSegment, Variables};
use crate::registry::{type_applies, MetaType, Registry};
use crate::span::Spanned;
use crate::text::{eq_str, str_eq};
use crate::value::{key_pos, key_pos_from, Value};
use crate::validation::{contains_name, first_key_pos, fragment_by_name, fragment_pos};
use vstd::prelude::*;

verus! {

/// An object of type `object` satisfies an optional type condition.
pub open spec fn condition_applies(types: Seq<MetaType>, cond: Option<Spanned<TypeCondition>>, object: Seq<char>) -> bool {
    match cond {
        None => true,
        Some(c) => match c.node {
            TypeCondition::On(n) => type_applies(types, n.node@, object),
        },
    }
}

/// The fields a selection asks of an object of type `object`, in document
/// order: fields left out by their directives are dropped, inline fragments
/// and fragment spreads whose type condition the object meets are expanded in
/// place. `None` when a directive cannot be read.
pub open spec fn collect_applied(
    items: Seq<Spanned<Selection>>,
    frags: Seq<Spanned<FragmentDefinition>>,
    stack: Seq<Seq<char>>,
    vars: Variables,
    defs: Seq<Spanned<VariableDefinition>>,
    types: Seq<MetaType>,
    object: Seq<char>,
) -> Option<Seq<Spanned<Field>>>
    decreases frags.len() - stack.len(), items,
{
    if items.len() == 0 {
        Some(Seq::empty())
    } else {
        match collect_applied(items.drop_last(), frags, stack, vars, defs, types, object) {
            None => None,
            Some(init) => match items.last().node {
                Selection::Field(f) => match skip_from(f.node.directives@, 0, vars, defs) {
                    Err(_) => None,
                    Ok(true) => Some(init),
                    Ok(false) => Some(init.push(f)),
                },
                Selection::InlineFragment(fr) => match skip_from(fr.node.directives@, 0, vars, defs) {
                    Err(_) => None,
                    Ok(true) => Some(init),
                    Ok(false) => if condition_applies(types, fr.node.type_condition, object) {
                        match collect_applied(fr.node.selection_set.node.items@, frags, stack, vars, defs, types, object) {
                            None => None,
                            Some(inner) => Some(init + inner),
                        }
                    } else {
                        Some(init)
                    },
                },
                Selection::FragmentSpread(sp) => match skip_from(sp.node.directives@, 0, vars, defs) {
                    Err(_) => None,
                    Ok(true) => Some(init),
                    Ok(false) => {
                        let name = sp.node.fragment_name.node@;
                        let p = fragment_pos(frags, name);
                        if p >= 0 && !stack.contains(name) && stack.len() < frags.len() && condition_applies(
                            types,
                            Some(frags[p].node.type_condition),
                            object,
                        ) {
                            match collect_applied(
                                frags[p].node.selection_set.node.items@,
                                frags,
                                stack.push(name),
                                vars,
                                defs,
                                types,
                                object,
                            ) {
                                None => None,
                                Some(inner) => Some(init + inner),
                            }
                        } else {
                            Some(init)
                        }
                    },
                },
            },
        }
    }
}

pub open spec fn deref_fields<'a>(fs: Seq<&'a Spanned<Field>>) -> Seq<Spanned<Field>> {
    fs.map_values(|f: &'a Spanned<Field>| *f)
}

pub open spec fn names_view(stack: Seq<String>) -> Seq<Seq<char>> {
    stack.map_values(|s: String| s@)
}

fn condition_holds(registry: &Registry, cond: &Option<Spanned<TypeCondition>>, object: &String) -> (r: bool)
    ensures
        r == condition_applies(registry.types@, *cond, object@),
{
    match cond {
        None => true,
        Some(c) => match &c.node {
            TypeCondition::On(n) => registry.is_possible_type(&n.node, object),
        },
    }
}

/// Appends to `out` the fields that `items` asks of an object of type `object`.
pub fn collect_fields<'a, T>(
    ctx: &ContextBase<'a, T>,
    registry: &Registry,
    fragments: &'a [Spanned<FragmentDefinition>],
    object: &String,
    items: &'a Vec<Spanned<Selection>>,
    stack: &mut Vec<String>,
    out: &mut Vec<&'a Spanned<Field>>,
) -> (r: Result<(), Error>)
    ensures
        names_view(final(stack)@) == names_view(old(stack)@),
        match collect_applied(
            items@,
            fragments@,
            names_view(old(stack)@),
            *ctx.variables,
            ctx.variable_definitions@,
            registry.types@,
            object@,
        ) {
            Some(s) => r is Ok && deref_fields(final(out)@) == deref_fields(old(out)@) + s,
            None => r is Err,
        },
    decreases fragments@.len() - old(stack)@.len(), items@,
{
    let ghost st = names_view(stack@);
    let ghost out0 = deref_fields(out@);
    let ghost vars = *ctx.variables;
    let ghost defs = ctx.variable_definitions@;
    let ghost types = registry.types@;
    let mut i: usize = 0;
    proof {
        assert(items@.subrange(0, 0) =~= Seq::<Spanned<Selection>>::empty());
        assert(deref_fields(out@) =~= out0 + Seq::empty());
    }
    while i < items.len()
        invariant
            0 <= i <= items@.len(),
            names_view(stack@) == st,
            st == names_view(old(stack)@),
            stack@.len() == old(stack)@.len(),
            vars == *ctx.variables,
            defs == ctx.variable_definitions@,
            types == registry.types@,
            collect_applied(items@.subrange(0, i as int), fragments@, st, vars, defs, types, object@) matches Some(s)
                && deref_fields(out@) == out0 + s,
        decreases items@.len() - i,
    {
        let ghost pre = items@.subrange(0, i as int + 1);
        let ghost init = collect_applied(items@.subrange(0, i as int), fragments@, st, vars, defs, types, object@)->0;
        proof {
            assert(pre.drop_last() =~= items@.subrange(0, i as int));
            assert(pre.last() == items@[i as int]);
            assert(decreases_to!(items@ => items@[i as int]));
        }
        match &items[i].node {
            Selection::Field(field) => {
                match ctx.is_skip(&field.node.directives) {
                    Err(e) => {
                        proof { lemma_none_extends(items@, i as int + 1, fragments@, st, vars, defs, types, object@); }
                        return Err(e);
                    },
                    Ok(true) => {},
                    Ok(false) => {
                        let ghost prev = out@;
                        out.push(field);
                        proof {
                            assert(deref_fields(out@) =~= deref_fields(prev).push(*field));
                            assert(deref_fields(out@) =~= out0 + init.push(*field));
                        }
                    },
                }
            },
            Selection::InlineFragment(fr) => {
                match ctx.is_skip(&fr.node.directives) {
                    Err(e) => {
                        proof { lemma_none_extends(items@, i as int + 1, fragments@, st, vars, defs, types, object@); }
                        return Err(e);
                    },
                    Ok(true) => {},
                    Ok(false) => {
                        if condition_holds(registry, &fr.node.type_condition, object) {
                            let ghost mid = deref_fields(out@);
                            match collect_fields(ctx, registry, fragments, object, &fr.node.selection_set.node.items, stack, out) {
                                Err(e) => {
                                    proof { lemma_none_extends(items@, i as int + 1, fragments@, st, vars, defs, types, object@); }
                                    return Err(e);
                                },
                                Ok(()) => {},
                            }
                            proof {
                                let inner = collect_applied(fr.node.selection_set.node.items@, fragments@, st, vars, defs, types, object@)->0;
                                assert(deref_fields(out@) =~= out0 + (init + inner));
                            }
                        }
                    },
                }
            },
            Selection::FragmentSpread(sp) => {
                match ctx.is_skip(&sp.node.directives) {
                    Err(e) => {
                        proof { lemma_none_extends(items@, i as int + 1, fragments@, st, vars, defs, types, object@); }
                        return Err(e);
                    },
                    Ok(true) => {},
                    Ok(false) => {
                        let name = &sp.node.fragment_name.node;
                        if !contains_name(stack, name) && stack.len() < fragments.len() {
                            match fragment_by_name(fragments, name) {
                                Some(fragment) => {
                                    let cond = Some(Spanned { span: fragment.type_condition.span, node: clone_condition(&fragment.type_condition.node) });
                                    if condition_holds(registry, &cond, object) {
                                        proof {
                                            assert(condition_applies(types, Some(fragment.type_condition), object@));
                                        }
                                        stack.push(name.clone());
                                        proof { assert(names_view(stack@) =~= st.push(name@)); }
                                        let res = collect_fields(ctx, registry, fragments, object, &fragment.selection_set.node.items, stack, out);
                                        let ghost s1 = stack@;
                                        stack.pop();
                                        proof {
                                            assert forall|k: int| 0 <= k < stack@.len() implies stack@[k]@ == st[k] by {
                                                assert(stack@[k] == s1[k]);
                                                assert(names_view(s1)[k] == s1[k]@);
                                            }
                                            assert(names_view(stack@) =~= st);
                                        }
                                        match res {
                                            Err(e) => {
                                                proof { lemma_none_extends(items@, i as int + 1, fragments@, st, vars, defs, types, object@); }
                                                return Err(e);
                                            },
                                            Ok(()) => {},
                                        }
                                        proof {
                                            assert forall|k: int| 0 <= k < stack@.len() implies stack@[k]@ == st[k] by {
                                                assert(stack@[k] == s1[k]);
                                                assert(names_view(s1)[k] == s1[k]@);
                                            }
                                            assert(names_view(stack@) =~= st);
                                            let p = fragment_pos(fragments@, name@);
                                            let inner = collect_applied(fragments@[p].node.selection_set.node.items@, fragments@, st.push(name@), vars, defs, types, object@)->0;
                                            assert(deref_fields(out@) =~= out0 + (init + inner));
                                        }
                                    } else {
                                        proof {
                                            assert(!condition_applies(types, Some(fragment.type_condition), object@));
                                        }
                                    }
                                },
                                None => {},
                            }
                        }
                    },
                }
            },
        }
        i = i + 1;
    }
    proof { assert(items@.subrange(0, items@.len() as int) =~= items@); }
    Ok(())
}

proof fn lemma_none_extends(
    items: Seq<Spanned<Selection>>,
    n: int,
    frags: Seq<Spanned<FragmentDefinition>>,
    stack: Seq<Seq<char>>,
    vars: Variables,
    defs: Seq<Spanned<VariableDefinition>>,
    types: Seq<MetaType>,
    object: Seq<char>,
)
    requires
        0 <= n <= items.len(),
        collect_applied(items.subrange(0, n), frags, stack, vars, defs, types, object) is None,
    ensures
        collect_applied(items, frags, stack, vars, defs, types, object) is None,
    decreases items.len() - n,
{
    if n < items.len() {
        let pre = items.subrange(0, n + 1);
        assert(pre.drop_last() =~= items.subrange(0, n));
        lemma_none_extends(items, n + 1, frags, stack, vars, defs, types, object);
    } else {
        assert(items.subrange(0, n) =~= items);
    }
}

/// The response keys of `fields`, each once, in order of first appearance:
/// the keys of the result object, in order.
pub open spec fn group_keys(fields: Seq<Spanned<Field>>) -> Seq<Seq<char>>
    decreases fields.len(),
{
    if fields.len() == 0 {
        Seq::empty()
    } else {
        let init = group_keys(fields.drop_last());
        let k = response_key(fields.last().node);
        if init.contains(k) {
            init
        } else {
            init.push(k)
        }
    }
}

/// The fields whose response key is `key`, in order.
pub open spec fn fields_with_key(fields: Seq<Spanned<Field>>, key: Seq<char>) -> Seq<Spanned<Field>>
    decreases fields.len(),
{
    if fields.len() == 0 {
        Seq::empty()
    } else {
        fields_with_key(fields.drop_last(), key) + if response_key(fields.last().node) == key {
            seq![fields.last()]
        } else {
            Seq::empty()
        }
    }
}

/// The fields that share one response key: resolved together, their
/// selection sets merged.
pub struct FieldGroup<'a> {
    pub key: String,
    pub fields: Vec<&'a Spanned<Field>>,
}

/// Groups fields by response key, the groups in order of first appearance.
pub fn group_fields<'a>(fields: &Vec<&'a Spanned<Field>>) -> (r: Vec<FieldGroup<'a>>)
    ensures
        r@.len() == group_keys(deref_fields(fields@)).len(),
        forall|g: int|
            0 <= g < r@.len() ==> (#[trigger] r@[g]).key@ == group_keys(deref_fields(fields@))[g] && deref_fields(
                r@[g].fields@,
            ) == fields_with_key(deref_fields(fields@), r@[g].key@),
{
    let ghost d = deref_fields(fields@);
    let mut keys: Vec<String> = Vec::new();
    let mut i: usize = 0;
    proof { assert(names_view(keys@) =~= group_keys(d.subrange(0, 0))); }
    while i < fields.len()
        invariant
            d == deref_fields(fields@),
            0 <= i <= fields@.len(),
            names_view(keys@) == group_keys(d.subrange(0, i as int)),
        decreases fields@.len() - i,
    {
        let key = fields[i].node.result_name();
        proof {
            let pre = d.subrange(0, i as int + 1);
            assert(pre.drop_last() =~= d.subrange(0, i as int));
            assert(pre.last() == *fields@[i as int]);
        }
        if !contains_name(&keys, key) {
            let ghost prev = keys@;
            keys.push(key.clone());
            proof { assert(names_view(keys@) =~= names_view(prev).push(key@)); }
        }
        i = i + 1;
    }
    proof { assert(d.subrange(0, fields@.len() as int) =~= d); }
    let mut groups: Vec<FieldGroup<'a>> = Vec::new();
    let mut g: usize = 0;
    while g < keys.len()
        invariant
            d == deref_fields(fields@),
            names_view(keys@) == group_keys(d),
            0 <= g <= keys@.len(),
            groups@.len() == g,
            forall|h: int|
                0 <= h < g ==> (#[trigger] groups@[h]).key@ == group_keys(d)[h] && deref_fields(groups@[h].fields@)
                    == fields_with_key(d, groups@[h].key@),
        decreases keys@.len() - g,
    {
        assert(names_view(keys@)[g as int] == keys@[g as int]@);
        let key = &keys[g];
        let mut members: Vec<&'a Spanned<Field>> = Vec::new();
        let mut j: usize = 0;
        proof { assert(deref_fields(members@) =~= fields_with_key(d.subrange(0, 0), key@)); }
        while j < fields.len()
            invariant
                d == deref_fields(fields@),
                0 <= j <= fields@.len(),
                deref_fields(members@) == fields_with_key(d.subrange(0, j as int), key@),
            decreases fields@.len() - j,
        {
            let f = fields[j];
            proof {
                let pre = d.subrange(0, j as int + 1);
                assert(pre.drop_last() =~= d.subrange(0, j as int));
                assert(pre.last() == *f);
            }
            if str_eq(f.node.result_name(), key) {
                let ghost prev = members@;
                members.push(f);
                proof { assert(deref_fields(members@) =~= deref_fields(prev).push(*f)); }
            }
            proof {
                assert(deref_fields(members@) =~= fields_with_key(d.subrange(0, j as int + 1), key@));
            }
            j = j + 1;
        }
        proof { assert(d.subrange(0, fields@.len() as int) =~= d); }
        groups.push(FieldGroup { key: key.clone(), fields: members });
        g = g + 1;
    }
    groups
}

proof fn lemma_first_key_pos_found(fields: Seq<Spanned<Field>>, key: Seq<char>)
    ensures
        first_key_pos(fields, key) < fields.len(),
        first_key_pos(fields, key) >= 0 ==> response_key(fields[first_key_pos(fields, key)].node) == key,
        first_key_pos(fields, key) < 0 ==> forall|k: int| 0 <= k < fields.len() ==> response_key(#[trigger] fields[k].node) != key,
    decreases fields.len(),
{
    if fields.len() > 0 {
        lemma_first_key_pos_found(fields.drop_last(), key);
        assert forall|k: int| 0 <= k < fields.len() - 1 implies fields.drop_last()[k] == fields[k] by {}
    }
}

/// The keys of a result object come in the order in which their fields first
/// appear in the merged selection set: each key once, every field's key
/// among them.
pub proof fn lemma_response_key_order(fields: Seq<Spanned<Field>>)
    ensures
        forall|i: int|
            0 <= i < group_keys(fields).len() ==> first_key_pos(fields, #[trigger] group_keys(fields)[i]) >= 0,
        forall|i: int, j: int|
            0 <= i < j < group_keys(fields).len() ==> first_key_pos(fields, #[trigger] group_keys(fields)[i])
                < first_key_pos(fields, #[trigger] group_keys(fields)[j]),
        forall|k: int| 0 <= k < fields.len() ==> group_keys(fields).contains(response_key(#[trigger] fields[k].node)),
    decreases fields.len(),
{
    if fields.len() > 0 {
        let init = fields.drop_last();
        lemma_response_key_order(init);
        let gk = group_keys(init);
        let k = response_key(fields.last().node);
        assert forall|i: int| 0 <= i < gk.len() implies first_key_pos(fields, #[trigger] gk[i]) == first_key_pos(init, gk[i]) by {}
        assert forall|m: int| 0 <= m < fields.len() - 1 implies init[m] == fields[m] by {}
        if !gk.contains(k) {
            lemma_first_key_pos_found(init, k);
            assert(first_key_pos(fields, k) == fields.len() - 1);
            assert forall|i: int| 0 <= i < gk.len() implies first_key_pos(init, #[trigger] gk[i]) < fields.len() - 1 by {
                lemma_first_key_pos_found(init, gk[i]);
            }
            assert(group_keys(fields) == gk.push(k));
            assert forall|m: int| 0 <= m < fields.len() implies group_keys(fields).contains(response_key(#[trigger] fields[m].node)) by {
                if m < fields.len() - 1 {
                    assert(init[m] == fields[m]);
                    let w = choose|w: int| 0 <= w < gk.len() && gk[w] == response_key(init[m].node);
                    assert(group_keys(fields)[w] == response_key(fields[m].node));
                } else {
                    assert(group_keys(fields)[gk.len() as int] == k);
                }
            }
        } else {
            assert forall|m: int| 0 <= m < fields.len() implies group_keys(fields).contains(response_key(#[trigger] fields[m].node)) by {
                if m < fields.len() - 1 {
                    assert(init[m] == fields[m]);
                }
            }
        }
    }
}

/// `new` is the response `old` with the value that `segs` leads to replaced by
/// null, and nothing else changed; where the path cannot be followed, `new` is `old`.
pub open spec fn nulled_at(old: Value, new: Value, segs: Seq<QueryPathSegment>) -> bool
    decreases segs.len(),
{
    if segs.len() == 0 {
        new is Null
    } else {
        match (segs[0], old) {
            (QueryPathSegment::Index(i), Value::List(x)) => if i < x@.len() {
                &&& new is List
                &&& new->List_0@.len() == x@.len()
                &&& forall|j: int| 0 <= j < x@.len() && j != i ==> new->List_0@[j] == x@[j]
                &&& new->List_0@[i as int].span == x@[i as int].span
                &&& nulled_at(x@[i as int].node, new->List_0@[i as int].node, segs.drop_first())
            } else {
                new == old
            },
            (QueryPathSegment::Name(n), Value::Object(x)) => {
                let p = key_pos(x@, n@);
                if p >= 0 {
                    &&& new is Object
                    &&& new->Object_0@.len() == x@.len()
                    &&& forall|j: int| 0 <= j < x@.len() && j != p ==> new->Object_0@[j] == x@[j]
                    &&& new->Object_0@[p].0 == x@[p].0
                    &&& new->Object_0@[p].1.span == x@[p].1.span
                    &&& nulled_at(x@[p].1.node, new->Object_0@[p].1.node, segs.drop_first())
                } else {
                    new == old
                }
            },
            _ => new == old,
        }
    }
}

fn find_key_str(pairs: &Vec<(Spanned<String>, Spanned<Value>)>, name: &str) -> (r: Option<usize>)
    ensures
        match r {
            Some(p) => p == key_pos(pairs@, name@) && 0 <= p < pairs@.len(),
            None => key_pos(pairs@, name@) == -1,
        },
{
    let mut j: usize = 0;
    while j < pairs.len()
        invariant
            0 <= j <= pairs@.len(),
            key_pos(pairs@, name@) == key_pos_from(pairs@, name@, j as int),
        decreases pairs@.len() - j,
    {
        if eq_str(&pairs[j].0.node, name) {
            return Some(j);
        }
        j = j + 1;
    }
    None
}

/// Replaces by null the value of `v` that `segs[k..end]` leads to.
pub fn null_at(v: Value, segs: &Vec<QueryPathSegment>, k: usize, end: usize) -> (r: Value)
    requires
        k <= end <= segs@.len(),
    ensures
        nulled_at(v, r, segs@.subrange(k as int, end as int)),
    decreases end - k,
{
    let ghost rest = segs@.subrange(k as int, end as int);
    if k == end {
        return Value::Null;
    }
    proof {
        assert(rest[0] == segs@[k as int]);
        assert(rest.drop_first() =~= segs@.subrange(k as int + 1, end as int));
    }
    match (segs[k], v) {
        (QueryPathSegment::Index(i), Value::List(mut x)) => {
            if i >= x.len() {
                return Value::List(x);
            }
            let ghost x0 = x@;
            let item = x.remove(i);
            let node = null_at(item.node, segs, k + 1, end);
            let elem = Spanned { span: item.span, node };
            let ghost ge = elem;
            x.insert(i, elem);
            proof { assert(x@ =~= x0.update(i as int, ge)); }
            Value::List(x)
        },
        (QueryPathSegment::Name(n), Value::Object(mut x)) => {
            match find_key_str(&x, n) {
                Some(p) => {
                    let ghost x0 = x@;
                    let (name, item) = x.remove(p);
                    let node = null_at(item.node, segs, k + 1, end);
                    let elem = (name, Spanned { span: item.span, node });
                    let ghost ge = elem;
                    x.insert(p, elem);
                    proof { assert(x@ =~= x0.update(p as int, ge)); }
                    Value::Object(x)
                },
                None => Value::Object(x),
            }
        },
        (_, other) => other,
    }
}

/// Where the null of a failing non-null field lands: the deepest position on
/// its path, the field itself included, whose type allows null; `None` when
/// none does and the whole `data` becomes null.
pub fn bubble_target(nullable: &Vec<bool>) -> (r: Option<usize>)
    ensures
        match r {
            Some(i) => i < nullable@.len() && nullable@[i as int] && forall|j: int|
                i < j < nullable@.len() ==> !nullable@[j],
            None => forall|j: int| 0 <= j < nullable@.len() ==> !nullable@[j],
        },
{
    let mut i: usize = nullable.len();
    while i > 0
        invariant
            0 <= i <= nullable@.len(),
            forall|j: int| i <= j < nullable@.len() ==> !nullable@[j],
        decreases i,
    {
        if nullable[i - 1] {
            return Some(i - 1);
        }
        i = i - 1;
    }
    None
}

/// The response after the field at `path` failed: the value at the deepest
/// nullable position on the path is null and the rest of the response is
/// unchanged; `None` when no position on the path allows null, so that `data`
/// itself is null. `nullable[k]` says whether the type at `path[..=k]` allows null.
pub fn bubble_error(data: Value, path: &Vec<QueryPathSegment>, nullable: &Vec<bool>) -> (r: Option<Value>)
    requires
        path@.len() == nullable@.len(),
    ensures
        match r {
            Some(v) => exists|i: int|
                0 <= i < nullable@.len() && nullable@[i] && (forall|j: int| i < j < nullable@.len() ==> !nullable@[j])
                    && #[trigger] nulled_at(data, v, path@.subrange(0, i + 1)),
            None => forall|j: int| 0 <= j < nullable@.len() ==> !nullable@[j],
        },
{
    let n = nullable.len();
    match bubble_target(nullable) {
        Some(i) => {
            assert(i < n);
            let ghost d = data;
            let v = null_at(data, path, 0, i + 1);
            assert(nulled_at(d, v, path@.subrange(0, i as int + 1)));
            Some(v)
        },
        None => None,
    }
}

/// The merged selection set that `selection_set` asks of an object of type
/// `object`: its fields, grouped by response key in order of first appearance.
pub fn collect_field_groups<'a, T>(
    ctx: &ContextBase<'a, T>,
    registry: &Registry,
    fragments: &'a [Spanned<FragmentDefinition>],
    object: &String,
    selection_set: &'a SelectionSet,
) -> (r: Result<Vec<FieldGroup<'a>>, Error>)
    ensures
        match collect_applied(
            selection_set.items@,
            fragments@,
            Seq::empty(),
            *ctx.variables,
            ctx.variable_definitions@,
            registry.types@,
            object@,
        ) {
            Some(s) => r matches Ok(gs) && gs@.len() == group_keys(s).len() && forall|g: int|
                0 <= g < gs@.len() ==> (#[trigger] gs@[g]).key@ == group_keys(s)[g] && deref_fields(gs@[g].fields@)
                    == fields_with_key(s, gs@[g].key@),
            None => r is Err,
        },
{
    let mut stack: Vec<String> = Vec::new();
    let mut fields: Vec<&'a Spanned<Field>> = Vec::new();
    proof {
        assert(names_view(stack@) =~= Seq::<Seq<char>>::empty());
    }
    match collect_fields(ctx, registry, fragments, object, &selection_set.items, &mut stack, &mut fields) {
        Err(e) => Err(e),
        Ok(()) => {
            proof { assert(deref_fields(fields@) =~= Seq::<Spanned<Field>>::empty() + deref_fields(fields@)); }
            Ok(group_fields(&fields))
        },
    }
}

fn clone_condition(c: &TypeCondition) -> (r: TypeCondition)
    ensures
        r == *c,
{
    match c {
        TypeCondition::On(n) => TypeCondition::On(Spanned { span: n.span, node: n.node.clone() }),
    }
}

} // verus!
