use async_graphql::ast::{Definition, Document, FragmentDefinition, OperationDefinition, SelectionSet, VariableDefinition};
use async_graphql::execute::{bubble_error, bubble_target, collect_field_groups, null_at};
use async_graphql::registry::{Registry, TypeKind};
use async_graphql::{parse_query, Environment, Pos, QueryPathSegment, Span, Spanned, Value, Variables};

struct Parts {
    defs: Vec<Spanned<VariableDefinition>>,
    set: Spanned<SelectionSet>,
    frags: Vec<Spanned<FragmentDefinition>>,
}

fn split(doc: Document) -> Parts {
    let mut defs = Vec::new();
    let mut set = None;
    let mut frags = Vec::new();
    for d in doc.definitions {
        match d.node {
            Definition::Operation(op) => match op.node {
                OperationDefinition::SelectionSet(s) => set = Some(s),
                OperationDefinition::Query(q) => {
                    defs = q.node.variable_definitions;
                    set = Some(q.node.selection_set);
                }
                OperationDefinition::Mutation(q) => {
                    defs = q.node.variable_definitions;
                    set = Some(q.node.selection_set);
                }
                OperationDefinition::Subscription(q) => {
                    defs = q.node.variable_definitions;
                    set = Some(q.node.selection_set);
                }
            },
            Definition::Fragment(f) => frags.push(f),
        }
    }
    Parts { defs, set: set.unwrap(), frags }
}

fn registry() -> Registry {
    let mut r = Registry::new();
    r.add_type("Dog".to_string(), TypeKind::Object);
    r.add_type("Cat".to_string(), TypeKind::Object);
    r.add_abstract_type("Pet".to_string(), TypeKind::Interface, vec!["Dog".to_string(), "Cat".to_string()]);
    r
}

fn keys(text: &str, object: &str) -> Vec<(String, usize)> {
    let parts = split(parse_query(text).unwrap());
    let creg = async_graphql::registry::Registry::new();
    let env = Environment { variables: Variables::new(), variable_definitions: parts.defs, fragments: Vec::new() };
    let ctx = env.create_context(&creg, None, &parts.set);
    let reg = registry();
    let groups = collect_field_groups(&ctx, &reg, &parts.frags, &object.to_string(), &parts.set.node).unwrap();
    groups.iter().map(|g| (g.key.clone(), g.fields.len())).collect()
}

#[test]
fn keys_follow_the_merged_selection_order() {
    assert_eq!(keys("{ b a b c: a }", "Dog"), vec![("b".to_string(), 2), ("a".to_string(), 1), ("c".to_string(), 1)]);
}

#[test]
fn fragments_apply_by_type() {
    let text = "{ name ... on Dog { bark } ... on Cat { meow } ...P } fragment P on Pet { owner name }";
    assert_eq!(keys(text, "Dog"), vec![
        ("name".to_string(), 2),
        ("bark".to_string(), 1),
        ("owner".to_string(), 1)
    ]);
    assert_eq!(keys(text, "Cat"), vec![
        ("name".to_string(), 2),
        ("meow".to_string(), 1),
        ("owner".to_string(), 1)
    ]);
}

#[test]
fn skipped_fields_are_dropped() {
    assert_eq!(keys("{ a @skip(if: true) b @include(if: false) c }", "Dog"), vec![("c".to_string(), 1)]);
}

#[test]
fn unreadable_directive_fails_collection() {
    let parts = split(parse_query("{ a @skip }").unwrap());
    let creg = async_graphql::registry::Registry::new();
    let env = Environment { variables: Variables::new(), variable_definitions: parts.defs, fragments: Vec::new() };
    let ctx = env.create_context(&creg, None, &parts.set);
    let reg = registry();
    assert!(collect_field_groups(&ctx, &reg, &parts.frags, &"Dog".to_string(), &parts.set.node).is_err());
}

fn sp<T>(node: T) -> Spanned<T> {
    Spanned { span: Span { start: Pos { line: 0, column: 0 }, end: Pos { line: 0, column: 0 } }, node }
}

fn obj(pairs: Vec<(&str, Value)>) -> Value {
    Value::Object(pairs.into_iter().map(|(k, v)| (sp(k.to_string()), sp(v))).collect())
}

#[test]
fn nearest_nullable_position_is_chosen() {
    assert_eq!(bubble_target(&vec![true, false, true, false]), Some(2));
    assert_eq!(bubble_target(&vec![false, false]), None);
    assert_eq!(bubble_target(&vec![]), None);
}

#[test]
fn error_nulls_the_nearest_nullable_ancestor() {
    let data = obj(vec![
        ("obj", obj(vec![("id", Value::Int(1)), ("name", Value::String("n".to_string()))])),
        ("other", Value::Int(2)),
    ]);
    let path = vec![QueryPathSegment::Name("obj"), QueryPathSegment::Name("id")];
    let out = bubble_error(data, &path, &vec![true, false]).unwrap();
    match out {
        Value::Object(xs) => {
            assert!(matches!(xs[0].1.node, Value::Null));
            assert!(matches!(xs[1].1.node, Value::Int(2)));
        }
        _ => panic!("expected an object"),
    }
}

#[test]
fn non_null_root_makes_data_null() {
    let data = obj(vec![("obj", obj(vec![("id", Value::Int(1))]))]);
    let path = vec![QueryPathSegment::Name("obj"), QueryPathSegment::Name("id")];
    assert!(bubble_error(data, &path, &vec![false, false]).is_none());
}

#[test]
fn null_at_leaves_siblings() {
    let data = Value::List(vec![sp(Value::Int(1)), sp(Value::Int(2)), sp(Value::Int(3))]);
    let path = vec![QueryPathSegment::Index(1)];
    match null_at(data, &path, 0, 1) {
        Value::List(xs) => {
            assert!(matches!(xs[0].node, Value::Int(1)));
            assert!(matches!(xs[1].node, Value::Null));
            assert!(matches!(xs[2].node, Value::Int(3)));
        }
        _ => panic!("expected a list"),
    }
}
