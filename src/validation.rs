//! Validation rules over a parsed document.

use crate::ast::{base_type_name, response_key, Field, FragmentDefinition, OperationDefinition, Selection, SelectionSet, VariableDefinition};
use crate::context::find_key;
use crate::value::{key_pos, value_eq, Value};
use crate::registry::{lookup_type, Registry};
use crate::span::{Pos, Spanned};
use crate::text::{eq_str, push_str, str_eq};
use vstd::prelude::*;

verus! {

/// A validation error: the positions it is about and what is wrong.
#[derive(Debug)]
pub struct RuleError {
    pub locations: Vec<Pos>,
    pub message: String,
}

/// What an error says, as plain values.
pub open spec fn error_view(e: RuleError) -> (Seq<Pos>, Seq<char>) {
    (e.locations@, e.message@)
}

pub open spec fn errors_view(es: Seq<RuleError>) -> Seq<(Seq<Pos>, Seq<char>)> {
    es.map_values(|e: RuleError| error_view(e))
}

/// The first index at or after `start` of a fragment called `name`, or -1.
pub open spec fn fragment_pos_from(frags: Seq<Spanned<FragmentDefinition>>, name: Seq<char>, start: int) -> int
    decreases frags.len() - start,
{
    if start < 0 || start >= frags.len() {
        -1
    } else if frags[start].node.name.node@ == name {
        start
    } else {
        fragment_pos_from(frags, name, start + 1)
    }
}

pub open spec fn fragment_pos(frags: Seq<Spanned<FragmentDefinition>>, name: Seq<char>) -> int {
    fragment_pos_from(frags, name, 0)
}

/// What the rules share during one pass: the schema, the document's
/// fragments, and the errors found so far.
pub struct VisitorContext<'a> {
    pub registry: &'a Registry,
    pub fragments: &'a [Spanned<FragmentDefinition>],
    pub errors: Vec<RuleError>,
}

impl<'a> VisitorContext<'a> {
    pub fn new(registry: &'a Registry, fragments: &'a [Spanned<FragmentDefinition>]) -> (r: VisitorContext<'a>)
        ensures
            r.registry == registry,
            r.fragments == fragments,
            r.errors@.len() == 0,
    {
        VisitorContext { registry, fragments, errors: Vec::new() }
    }

    /// Records an error.
    pub fn report_error(&mut self, locations: Vec<Pos>, message: String)
        ensures
            final(self).registry == old(self).registry,
            final(self).fragments == old(self).fragments,
            errors_view(final(self).errors@) == errors_view(old(self).errors@).push((locations@, message@)),
    {
        let ghost l = locations@;
        let ghost m = message@;
        self.errors.push(RuleError { locations, message });
        proof {
            assert(errors_view(self.errors@) =~= errors_view(old(self).errors@).push((l, m)));
        }
    }

    /// The fragment called `name`.
    pub fn fragment(&self, name: &String) -> (r: Option<&'a FragmentDefinition>)
        ensures
            fragment_pos(self.fragments@, name@) >= 0 ==> r == Some(&self.fragments@[fragment_pos(self.fragments@, name@)].node),
            fragment_pos(self.fragments@, name@) < 0 ==> r is None,
    {
        fragment_by_name(self.fragments, name)
    }
}

/// The first fragment called `name`.
pub fn fragment_by_name<'a>(frags: &'a [Spanned<FragmentDefinition>], name: &String) -> (r: Option<&'a FragmentDefinition>)
    ensures
        fragment_pos(frags@, name@) >= 0 ==> r == Some(&frags@[fragment_pos(frags@, name@)].node),
        fragment_pos(frags@, name@) < 0 ==> r is None,
{
    let mut j: usize = 0;
    while j < frags.len()
        invariant
            0 <= j <= frags@.len(),
            fragment_pos(frags@, name@) == fragment_pos_from(frags@, name@, j as int),
        decreases frags@.len() - j,
    {
        if str_eq(&frags[j].node.name.node, name) {
            return Some(&frags[j].node);
        }
        j = j + 1;
    }
    None
}

/// The message of an upload variable outside a mutation.
pub open spec fn upload_message() -> Seq<char> {
    "The Upload type is only allowed to be defined on a mutation"@
}

/// A variable definition whose type is built on the declared `Upload` type.
pub open spec fn is_upload_var(registry: Registry, v: VariableDefinition) -> bool {
    match lookup_type(registry.types@, base_type_name(v.var_type.node)) {
        Some(t) => t.name@ == "Upload"@,
        None => false,
    }
}

/// The errors for the upload variables among `defs`, in order.
pub open spec fn upload_errors(registry: Registry, defs: Seq<Spanned<VariableDefinition>>) -> Seq<(Seq<Pos>, Seq<char>)>
    decreases defs.len(),
{
    if defs.len() == 0 {
        Seq::empty()
    } else {
        upload_errors(registry, defs.drop_last()) + if is_upload_var(registry, defs.last().node) {
            seq![(seq![defs.last().span.start], upload_message())]
        } else {
            Seq::empty()
        }
    }
}

/// The variable definitions of an operation that may not hold uploads:
/// those of queries and subscriptions.
pub open spec fn upload_checked_defs(op: OperationDefinition) -> Seq<Spanned<VariableDefinition>> {
    match op {
        OperationDefinition::Query(q) => q.node.variable_definitions@,
        OperationDefinition::Subscription(s) => s.node.variable_definitions@,
        _ => Seq::empty(),
    }
}

/// The `Upload` type may stand only in the variables of a mutation.
pub struct UploadFile;

impl UploadFile {
    fn check_defs(ctx: &mut VisitorContext, defs: &Vec<Spanned<VariableDefinition>>)
        ensures
            final(ctx).registry == old(ctx).registry,
            final(ctx).fragments == old(ctx).fragments,
            errors_view(final(ctx).errors@) == errors_view(old(ctx).errors@) + upload_errors(*old(ctx).registry, defs@),
    {
        proof { reveal_strlit("Upload"); }
        let mut i: usize = 0;
        while i < defs.len()
            invariant
                0 <= i <= defs@.len(),
                ctx.registry == old(ctx).registry,
                ctx.fragments == old(ctx).fragments,
                errors_view(ctx.errors@) == errors_view(old(ctx).errors@) + upload_errors(
                    *old(ctx).registry,
                    defs@.subrange(0, i as int),
                ),
            decreases defs@.len() - i,
        {
            let var = &defs[i];
            let is_upload = match ctx.registry.concrete_type_by_parsed_type(&var.node.var_type.node) {
                Some(ty) => eq_str(&ty.name, "Upload"),
                None => false,
            };
            let ghost before = errors_view(ctx.errors@);
            if is_upload {
                let mut locations = Vec::new();
                locations.push(var.position());
                ctx.report_error(locations, String::from_str("The Upload type is only allowed to be defined on a mutation"));
            }
            proof {
                reveal_strlit("The Upload type is only allowed to be defined on a mutation");
                let pre = defs@.subrange(0, i as int + 1);
                assert(pre.drop_last() =~= defs@.subrange(0, i as int));
                assert(errors_view(ctx.errors@) =~= errors_view(old(ctx).errors@) + upload_errors(*old(ctx).registry, pre));
            }
            i = i + 1;
        }
        proof { assert(defs@.subrange(0, defs@.len() as int) =~= defs@); }
    }

    /// Reports each variable of a query or subscription whose type is built on `Upload`.
    pub fn enter_operation_definition(&mut self, ctx: &mut VisitorContext, operation_definition: &OperationDefinition)
        ensures
            final(ctx).registry == old(ctx).registry,
            final(ctx).fragments == old(ctx).fragments,
            errors_view(final(ctx).errors@) == errors_view(old(ctx).errors@) + upload_errors(
                *old(ctx).registry,
                upload_checked_defs(*operation_definition),
            ),
    {
        match operation_definition {
            OperationDefinition::Query(query) => Self::check_defs(ctx, &query.node.variable_definitions),
            OperationDefinition::Subscription(subscription) => Self::check_defs(ctx, &subscription.node.variable_definitions),
            _ => {
                proof { assert(errors_view(ctx.errors@) =~= errors_view(old(ctx).errors@) + Seq::empty()); }
            },
        }
    }
}

/// The number of fields written in a selection set, at any depth, counting
/// those inside inline fragments.
pub open spec fn field_count(items: Seq<Spanned<Selection>>) -> nat
    decreases items,
{
    if items.len() == 0 {
        0
    } else {
        field_count(items.drop_last()) + match items.last().node {
            Selection::Field(f) => 1 + field_count(f.node.selection_set.node.items@),
            Selection::InlineFragment(fr) => field_count(fr.node.selection_set.node.items@),
            Selection::FragmentSpread(_) => 0,
        }
    }
}

/// Counts the fields a document asks for.
pub struct ComplexityCalculate {
    pub complexity: usize,
}

impl ComplexityCalculate {
    pub fn new() -> (r: ComplexityCalculate)
        ensures
            r.complexity == 0,
    {
        ComplexityCalculate { complexity: 0 }
    }

    /// Counts one more field.
    pub fn enter_field(&mut self)
        requires
            old(self).complexity < usize::MAX,
        ensures
            final(self).complexity == old(self).complexity + 1,
    {
        self.complexity = self.complexity + 1;
    }

    /// Counts the fields of a selection set, at any depth.
    pub fn visit_selection_set(&mut self, selection_set: &SelectionSet)
        requires
            old(self).complexity + field_count(selection_set.items@) <= usize::MAX,
        ensures
            final(self).complexity == old(self).complexity + field_count(selection_set.items@),
        decreases selection_set.items@,
    {
        let items = &selection_set.items;
        let mut i: usize = 0;
        while i < items.len()
            invariant
                0 <= i <= items@.len(),
                items@ == selection_set.items@,
                self.complexity == old(self).complexity + field_count(items@.subrange(0, i as int)),
                old(self).complexity + field_count(items@) <= usize::MAX,
            decreases items@.len() - i,
        {
            proof {
                lemma_field_count_prefix(items@, i as int + 1);
                let pre = items@.subrange(0, i as int + 1);
                assert(pre.drop_last() =~= items@.subrange(0, i as int));
                assert(pre.last() == items@[i as int]);
                assert(decreases_to!(items@ => items@[i as int]));
            }
            match &items[i].node {
                Selection::Field(f) => {
                    self.enter_field();
                    self.visit_selection_set(&f.node.selection_set.node);
                },
                Selection::InlineFragment(fr) => {
                    self.visit_selection_set(&fr.node.selection_set.node);
                },
                Selection::FragmentSpread(_) => {},
            }
            i = i + 1;
        }
        proof { assert(items@.subrange(0, items@.len() as int) =~= items@); }
    }
}

proof fn lemma_field_count_prefix(items: Seq<Spanned<Selection>>, n: int)
    requires
        0 <= n <= items.len(),
    ensures
        field_count(items.subrange(0, n)) <= field_count(items),
    decreases items.len() - n,
{
    if n < items.len() {
        lemma_field_count_prefix(items, n + 1);
        let pre = items.subrange(0, n + 1);
        assert(pre.drop_last() =~= items.subrange(0, n));
    } else {
        assert(items.subrange(0, n) =~= items);
    }
}

/// The fields of a selection, in document order, with inline fragments and
/// fragment spreads expanded in place. A spread of a fragment that is unknown,
/// or already being expanded, adds nothing.
pub open spec fn collect_fields(items: Seq<Spanned<Selection>>, frags: Seq<Spanned<FragmentDefinition>>, stack: Seq<Seq<char>>) -> Seq<Spanned<Field>>
    decreases frags.len() - stack.len(), items,
{
    if items.len() == 0 {
        Seq::empty()
    } else {
        collect_fields(items.drop_last(), frags, stack) + match items.last().node {
            Selection::Field(f) => seq![f],
            Selection::InlineFragment(fr) => collect_fields(fr.node.selection_set.node.items@, frags, stack),
            Selection::FragmentSpread(sp) => {
                let name = sp.node.fragment_name.node@;
                let p = fragment_pos(frags, name);
                if p >= 0 && !stack.contains(name) && stack.len() < frags.len() {
                    collect_fields(frags[p].node.selection_set.node.items@, frags, stack.push(name))
                } else {
                    Seq::empty()
                }
            },
        }
    }
}

/// The first index of a field with response key `key`, or -1.
pub open spec fn first_key_pos(fields: Seq<Spanned<Field>>, key: Seq<char>) -> int
    decreases fields.len(),
{
    if fields.len() == 0 {
        -1
    } else {
        let p = first_key_pos(fields.drop_last(), key);
        if p >= 0 {
            p
        } else if response_key(fields.last().node) == key {
            fields.len() - 1
        } else {
            -1
        }
    }
}

pub open spec fn fields_message(key: Seq<char>, a: Seq<char>, b: Seq<char>) -> Seq<char> {
    "Fields \""@ + key + "\" conflict because \""@ + a + "\" and \""@ + b
        + "\" are different fields. Use different aliases on the fields to fetch both if this was intentional."@
}

pub open spec fn arguments_message(key: Seq<char>) -> Seq<char> {
    "Fields \""@ + key
        + "\" conflict because they have differing arguments. Use different aliases on the fields to fetch both if this was intentional."@
}

/// The argument `arg` of one field is given, with an equal value, to the other.
pub open spec fn arg_matched(arg: (Spanned<String>, Spanned<Value>), others: Seq<(Spanned<String>, Spanned<Value>)>) -> bool {
    let q = key_pos(others, arg.0.node@);
    q >= 0 && value_eq(arg.1.node, others[q].1.node)
}

/// One error for each argument among `args` that `others` lacks or gives another value.
pub open spec fn argument_errors(
    locs: Seq<Pos>,
    key: Seq<char>,
    args: Seq<(Spanned<String>, Spanned<Value>)>,
    others: Seq<(Spanned<String>, Spanned<Value>)>,
) -> Seq<(Seq<Pos>, Seq<char>)>
    decreases args.len(),
{
    if args.len() == 0 {
        Seq::empty()
    } else {
        argument_errors(locs, key, args.drop_last(), others) + if arg_matched(args.last(), others) {
            Seq::empty()
        } else {
            seq![(locs, arguments_message(key))]
        }
    }
}

/// One error for each argument among `args` whose name `others` does not give.
pub open spec fn missing_errors(
    locs: Seq<Pos>,
    key: Seq<char>,
    args: Seq<(Spanned<String>, Spanned<Value>)>,
    others: Seq<(Spanned<String>, Spanned<Value>)>,
) -> Seq<(Seq<Pos>, Seq<char>)>
    decreases args.len(),
{
    if args.len() == 0 {
        Seq::empty()
    } else {
        missing_errors(locs, key, args.drop_last(), others) + if key_pos(others, args.last().0.node@) >= 0 {
            Seq::empty()
        } else {
            seq![(locs, arguments_message(key))]
        }
    }
}

/// The errors for a field `cur` that shares its response key with the earlier field `prev`.
pub open spec fn pair_errors(prev: Spanned<Field>, cur: Spanned<Field>) -> Seq<(Seq<Pos>, Seq<char>)> {
    let key = response_key(cur.node);
    let locs = seq![prev.span.start, cur.span.start];
    (if prev.node.name.node@ != cur.node.name.node@ {
        seq![(locs, fields_message(key, prev.node.name.node@, cur.node.name.node@))]
    } else {
        Seq::empty()
    }) + (if prev.node.arguments@.len() != cur.node.arguments@.len() {
        seq![(locs, arguments_message(key))]
    } else {
        Seq::empty()
    }) + argument_errors(locs, key, prev.node.arguments@, cur.node.arguments@) + missing_errors(
        locs,
        key,
        cur.node.arguments@,
        prev.node.arguments@,
    )
}

/// The errors for a sequence of fields: each field is held against the first
/// earlier field with the same response key.
pub open spec fn merge_errors(fields: Seq<Spanned<Field>>) -> Seq<(Seq<Pos>, Seq<char>)>
    decreases fields.len(),
{
    if fields.len() == 0 {
        Seq::empty()
    } else {
        let init = fields.drop_last();
        let p = first_key_pos(init, response_key(fields.last().node));
        merge_errors(init) + if p >= 0 {
            pair_errors(init[p], fields.last())
        } else {
            Seq::empty()
        }
    }
}

/// Fields that share a response key must be the same field with the same
/// arguments: the same names, with equal values.
pub struct OverlappingFieldsCanBeMerged;

impl OverlappingFieldsCanBeMerged {
    /// Reports each conflict among the fields of a selection set.
    pub fn enter_selection_set<'a>(&mut self, ctx: &mut VisitorContext<'a>, selection_set: &'a SelectionSet)
        ensures
            final(ctx).registry == old(ctx).registry,
            final(ctx).fragments == old(ctx).fragments,
            errors_view(final(ctx).errors@) == errors_view(old(ctx).errors@) + merge_errors(
                collect_fields(selection_set.items@, old(ctx).fragments@, Seq::empty()),
            ),
    {
        let mut find_conflicts = FindConflicts {
            outputs: Vec::new(),
            base: Ghost(errors_view(ctx.errors@)),
        };
        let mut stack: Vec<String> = Vec::new();
        proof {
            assert(errors_view(ctx.errors@) =~= find_conflicts.base@ + merge_errors(Seq::empty()));
            assert(stack@.map_values(|s: String| s@) =~= Seq::<Seq<char>>::empty());
        }
        find_conflicts.find(ctx, &selection_set.items, &mut stack);
        proof {
            assert(find_conflicts.seen() =~= collect_fields(selection_set.items@, old(ctx).fragments@, Seq::empty()));
        }
    }
}

/// The fields met so far in one selection set, and the errors found before it.
struct FindConflicts<'a> {
    outputs: Vec<&'a Spanned<Field>>,
    base: Ghost<Seq<(Seq<Pos>, Seq<char>)>>,
}

impl<'a> FindConflicts<'a> {
    spec fn seen(self) -> Seq<Spanned<Field>> {
        self.outputs@.map_values(|f: &'a Spanned<Field>| *f)
    }

    spec fn holds(self, ctx: VisitorContext<'a>) -> bool {
        errors_view(ctx.errors@) == self.base@ + merge_errors(self.seen())
    }

    /// Goes through the selections in order, expanding fragments.
    fn find(&mut self, ctx: &mut VisitorContext<'a>, items: &'a Vec<Spanned<Selection>>, stack: &mut Vec<String>)
        requires
            old(self).holds(*old(ctx)),
        ensures
            final(self).holds(*final(ctx)),
            final(self).base == old(self).base,
            final(ctx).registry == old(ctx).registry,
            final(ctx).fragments == old(ctx).fragments,
            final(stack)@.map_values(|s: String| s@) == old(stack)@.map_values(|s: String| s@),
            final(self).seen() == old(self).seen() + collect_fields(
                items@,
                old(ctx).fragments@,
                old(stack)@.map_values(|s: String| s@),
            ),
        decreases old(ctx).fragments@.len() - old(stack)@.len(), items@,
    {
        let ghost st = stack@.map_values(|s: String| s@);
        let ghost frags = ctx.fragments@;
        let ghost seen0 = self.seen();
        let mut i: usize = 0;
        while i < items.len()
            invariant
                0 <= i <= items@.len(),
                self.holds(*ctx),
                self.base == old(self).base,
                ctx.registry == old(ctx).registry,
                ctx.fragments == old(ctx).fragments,
                frags == ctx.fragments@,
                stack@.map_values(|s: String| s@) == st,
                stack@.len() == old(stack)@.len(),
                self.seen() == seen0 + collect_fields(items@.subrange(0, i as int), frags, st),
            decreases items@.len() - i,
        {
            let ghost pre = items@.subrange(0, i as int + 1);
            proof {
                assert(pre.drop_last() =~= items@.subrange(0, i as int));
                assert(pre.last() == items@[i as int]);
                assert(decreases_to!(items@ => items@[i as int]));
            }
            match &items[i].node {
                Selection::Field(field) => {
                    self.add_output(ctx, field);
                    proof {
                        assert(self.seen() =~= seen0 + collect_fields(pre, frags, st));
                    }
                },
                Selection::InlineFragment(inline_fragment) => {
                    self.find(ctx, &inline_fragment.node.selection_set.node.items, stack);
                    proof {
                        assert(self.seen() =~= seen0 + collect_fields(pre, frags, st));
                    }
                },
                Selection::FragmentSpread(fragment_spread) => {
                    let name = &fragment_spread.node.fragment_name.node;
                    let on_stack = contains_name(stack, name);
                    if !on_stack && stack.len() < ctx.fragments.len() {
                        match ctx.fragment(name) {
                            Some(fragment) => {
                                stack.push(name.clone());
                                proof {
                                    assert(stack@.map_values(|s: String| s@) =~= st.push(name@));
                                }
                                self.find(ctx, &fragment.selection_set.node.items, stack);
                                let ghost s1 = stack@;
                                stack.pop();
                                proof {
                                    assert forall|k: int| 0 <= k < stack@.len() implies stack@[k]@ == st[k] by {
                                        assert(stack@[k] == s1[k]);
                                        assert(s1.map_values(|s: String| s@)[k] == s1[k]@);
                                    }
                                    assert(stack@.map_values(|s: String| s@) =~= st);
                                    assert(self.seen() =~= seen0 + collect_fields(pre, frags, st));
                                }
                            },
                            None => {
                                proof {
                                    assert(self.seen() =~= seen0 + collect_fields(pre, frags, st));
                                }
                            },
                        }
                    } else {
                        proof {
                            assert(self.seen() =~= seen0 + collect_fields(pre, frags, st));
                        }
                    }
                },
            }
            i = i + 1;
        }
        proof { assert(items@.subrange(0, items@.len() as int) =~= items@); }
    }

    /// Holds a field against the first earlier field with its response key, then records it.
    fn add_output(&mut self, ctx: &mut VisitorContext<'a>, field: &'a Spanned<Field>)
        requires
            old(self).holds(*old(ctx)),
        ensures
            final(self).holds(*final(ctx)),
            final(self).base == old(self).base,
            final(ctx).registry == old(ctx).registry,
            final(ctx).fragments == old(ctx).fragments,
            final(self).seen() == old(self).seen().push(*field),
    {
        let name = field.node.result_name();
        let ghost seen0 = self.seen();
        let ghost e0 = errors_view(ctx.errors@);
        match self.first_output(name) {
            Some(p) => {
                let prev: &'a Spanned<Field> = self.outputs[p];
                let ghost locs = seq![prev.span.start, field.span.start];
                let ghost key = name@;
                if !str_eq(&prev.node.name.node, &field.node.name.node) {
                    ctx.report_error(
                        two_positions(prev.position(), field.position()),
                        fields_message_string(name, &prev.node.name.node, &field.node.name.node),
                    );
                }
                let ghost e1 = errors_view(ctx.errors@);
                if prev.node.arguments.len() != field.node.arguments.len() {
                    ctx.report_error(two_positions(prev.position(), field.position()), arguments_message_string(name));
                }
                let ghost e2 = errors_view(ctx.errors@);
                let args = &prev.node.arguments;
                let others = &field.node.arguments;
                let mut k: usize = 0;
                while k < args.len()
                    invariant
                        0 <= k <= args@.len(),
                        ctx.registry == old(ctx).registry,
                        ctx.fragments == old(ctx).fragments,
                        errors_view(ctx.errors@) == e2 + argument_errors(locs, key, args@.subrange(0, k as int), others@),
                        locs == seq![prev.span.start, field.span.start],
                        key == name@,
                    decreases args@.len() - k,
                {
                    let ghost pre = args@.subrange(0, k as int + 1);
                    proof {
                        assert(pre.drop_last() =~= args@.subrange(0, k as int));
                        assert(pre.last() == args@[k as int]);
                    }
                    let matched = match find_key(others, &args[k].0.node) {
                        Some(q) => args[k].1.node.value_eq(&others[q].1.node),
                        None => false,
                    };
                    assert(arg_matched(pre.last(), others@) == matched);
                    let ghost e3 = errors_view(ctx.errors@);
                    if !matched {
                        ctx.report_error(two_positions(prev.position(), field.position()), arguments_message_string(name));
                        assert(errors_view(ctx.errors@) == e3.push((locs, arguments_message(key))));
                    }
                    proof {
                        assert(errors_view(ctx.errors@) =~= e2 + argument_errors(locs, key, pre, others@));
                    }
                    k = k + 1;
                }
                proof { assert(args@.subrange(0, args@.len() as int) =~= args@); }
                let ghost e3 = errors_view(ctx.errors@);
                let mut k: usize = 0;
                while k < others.len()
                    invariant
                        0 <= k <= others@.len(),
                        ctx.registry == old(ctx).registry,
                        ctx.fragments == old(ctx).fragments,
                        errors_view(ctx.errors@) == e3 + missing_errors(locs, key, others@.subrange(0, k as int), args@),
                        locs == seq![prev.span.start, field.span.start],
                        key == name@,
                    decreases others@.len() - k,
                {
                    let ghost pre = others@.subrange(0, k as int + 1);
                    proof {
                        assert(pre.drop_last() =~= others@.subrange(0, k as int));
                        assert(pre.last() == others@[k as int]);
                    }
                    let present = match find_key(args, &others[k].0.node) {
                        Some(_) => true,
                        None => false,
                    };
                    if !present {
                        ctx.report_error(two_positions(prev.position(), field.position()), arguments_message_string(name));
                    }
                    proof {
                        assert(errors_view(ctx.errors@) =~= e3 + missing_errors(locs, key, pre, args@));
                    }
                    k = k + 1;
                }
                proof {
                    assert(others@.subrange(0, others@.len() as int) =~= others@);
                    assert(seen0[p as int] == *prev);
                    assert(errors_view(ctx.errors@) =~= e0 + pair_errors(seen0[p as int], *field));
                }
            },
            None => {},
        }
        self.outputs.push(field);
        proof {
            assert(self.seen() =~= seen0.push(*field));
            assert(self.seen().drop_last() =~= seen0);
            assert(errors_view(ctx.errors@) =~= self.base@ + merge_errors(self.seen()));
        }
    }

    /// The first field met so far with response key `name`.
    fn first_output(&self, name: &String) -> (r: Option<usize>)
        ensures
            match r {
                Some(p) => p == first_key_pos(self.seen(), name@) && 0 <= p < self.outputs@.len(),
                None => first_key_pos(self.seen(), name@) == -1,
            },
    {
        let mut j: usize = 0;
        while j < self.outputs.len()
            invariant
                0 <= j <= self.outputs@.len(),
                first_key_pos(self.seen().subrange(0, j as int), name@) == -1,
            decreases self.outputs@.len() - j,
        {
            let ghost pre = self.seen().subrange(0, j as int + 1);
            proof { assert(pre.drop_last() =~= self.seen().subrange(0, j as int)); }
            if str_eq(self.outputs[j].node.result_name(), name) {
                proof { lemma_first_key_pos_prefix(self.seen(), name@, j as int + 1); }
                return Some(j);
            }
            j = j + 1;
        }
        proof { assert(self.seen().subrange(0, j as int) =~= self.seen()); }
        None
    }
}

proof fn lemma_first_key_pos_prefix(fields: Seq<Spanned<Field>>, key: Seq<char>, n: int)
    requires
        0 <= n <= fields.len(),
        first_key_pos(fields.subrange(0, n), key) >= 0,
    ensures
        first_key_pos(fields, key) == first_key_pos(fields.subrange(0, n), key),
    decreases fields.len() - n,
{
    if n < fields.len() {
        let pre = fields.subrange(0, n + 1);
        assert(pre.drop_last() =~= fields.subrange(0, n));
        lemma_first_key_pos_prefix(fields, key, n + 1);
    } else {
        assert(fields.subrange(0, n) =~= fields);
    }
}

fn two_positions(a: Pos, b: Pos) -> (r: Vec<Pos>)
    ensures
        r@ == seq![a, b],
{
    let mut v = Vec::new();
    v.push(a);
    v.push(b);
    proof { assert(v@ =~= seq![a, b]); }
    v
}

fn fields_message_string(key: &String, a: &String, b: &String) -> (r: String)
    ensures
        r@ == fields_message(key@, a@, b@),
{
    let mut s = String::from_str("Fields \"");
    push_str(&mut s, key.as_str());
    push_str(&mut s, "\" conflict because \"");
    push_str(&mut s, a.as_str());
    push_str(&mut s, "\" and \"");
    push_str(&mut s, b.as_str());
    push_str(&mut s, "\" are different fields. Use different aliases on the fields to fetch both if this was intentional.");
    proof {
        reveal_strlit("Fields \"");
        reveal_strlit("\" conflict because \"");
        reveal_strlit("\" and \"");
        reveal_strlit("\" are different fields. Use different aliases on the fields to fetch both if this was intentional.");
        assert(s@ =~= fields_message(key@, a@, b@));
    }
    s
}

fn arguments_message_string(key: &String) -> (r: String)
    ensures
        r@ == arguments_message(key@),
{
    let mut s = String::from_str("Fields \"");
    push_str(&mut s, key.as_str());
    push_str(&mut s, "\" conflict because they have differing arguments. Use different aliases on the fields to fetch both if this was intentional.");
    proof {
        reveal_strlit("Fields \"");
        reveal_strlit("\" conflict because they have differing arguments. Use different aliases on the fields to fetch both if this was intentional.");
        assert(s@ =~= arguments_message(key@));
    }
    s
}

pub(crate) fn contains_name(stack: &Vec<String>, name: &String) -> (r: bool)
    ensures
        r == stack@.map_values(|s: String| s@).contains(name@),
{
    let mut i: usize = 0;
    while i < stack.len()
        invariant
            0 <= i <= stack@.len(),
            forall|k: int| 0 <= k < i ==> stack@[k]@ != name@,
        decreases stack@.len() - i,
    {
        if str_eq(&stack[i], name) {
            assert(stack@.map_values(|s: String| s@)[i as int] == name@);
            return true;
        }
        i = i + 1;
    }
    proof {
        let views = stack@.map_values(|s: String| s@);
        assert forall|k: int| 0 <= k < views.len() implies #[trigger] views[k] != name@ by {
            assert(stack@[k]@ != name@);
        }
    }
    false
}

} // verus!
