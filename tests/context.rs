use async_graphql::ast::{Definition, Document, Field, OperationDefinition, Selection, SelectionSet};
use async_graphql::context::file_string;
use async_graphql::scalars::parse_uuid;
use async_graphql::ErrorKind;
use async_graphql::{
    parse_query, Environment, Pos, QueryError, QueryPathNode, QueryPathSegment, ResolveId, ResolveIdCounter, Span,
    Spanned, Value, Variables, ID,
};

fn no_span() -> Span {
    Span { start: Pos { line: 0, column: 0 }, end: Pos { line: 0, column: 0 } }
}

fn spanned<T>(node: T) -> Spanned<T> {
    Spanned { span: no_span(), node }
}

fn object(pairs: Vec<(&str, Value)>) -> Value {
    Value::Object(pairs.into_iter().map(|(k, v)| (spanned(k.to_string()), spanned(v))).collect())
}

fn operation_parts(doc: Document) -> (Vec<Spanned<async_graphql::ast::VariableDefinition>>, Spanned<SelectionSet>) {
    match doc.definitions.into_iter().next().unwrap().node {
        Definition::Operation(op) => match op.node {
            OperationDefinition::Query(q) => (q.node.variable_definitions, q.node.selection_set),
            OperationDefinition::Mutation(q) => (q.node.variable_definitions, q.node.selection_set),
            OperationDefinition::Subscription(q) => (q.node.variable_definitions, q.node.selection_set),
            OperationDefinition::SelectionSet(s) => (Vec::new(), s),
        },
        Definition::Fragment(_) => panic!("expected an operation"),
    }
}

fn field_at(set: &Spanned<SelectionSet>, i: usize) -> &Spanned<Field> {
    match &set.node.items[i].node {
        Selection::Field(f) => f,
        _ => panic!("expected a field"),
    }
}

fn inc_argument(variables: Variables) -> i32 {
    let doc = parse_query("query($n: Int = 5) { inc(x: $n) }").unwrap();
    let (defs, set) = operation_parts(doc);
    let creg = async_graphql::registry::Registry::new();
    let env = Environment { variables, variable_definitions: defs, fragments: Vec::new() };
    let root = env.create_context(&creg, None, &set);
    let mut ids = ResolveIdCounter::new();
    let ctx = root.with_field(field_at(&set, 0), &mut ids);
    ctx.param_value::<i32, _>("x", || Value::Null).unwrap()
}

#[test]
fn default_used_when_variable_absent() {
    assert_eq!(inc_argument(Variables::new()) + 1, 6);
}

#[test]
fn received_variable_overrides_default() {
    let vars = Variables::from_value(object(vec![("n", Value::Int(10))]));
    assert_eq!(inc_argument(vars) + 1, 11);
}

#[test]
fn undefined_variable_is_an_error() {
    let doc = parse_query("query($n: Int) { inc(x: $n, y: $m) }").unwrap();
    let (defs, set) = operation_parts(doc);
    let creg = async_graphql::registry::Registry::new();
    let env = Environment { variables: Variables::new(), variable_definitions: defs, fragments: Vec::new() };
    let root = env.create_context(&creg, None, &set);
    let mut ids = ResolveIdCounter::new();
    let ctx = root.with_field(field_at(&set, 0), &mut ids);
    let err = ctx.param_value::<i32, _>("x", || Value::Null).unwrap_err();
    assert!(matches!(err.err, QueryError::VarNotDefined { ref var_name } if var_name == "n"));
    let err = ctx.param_value::<i32, _>("y", || Value::Null).unwrap_err();
    assert!(matches!(err.err, QueryError::VarNotDefined { ref var_name } if var_name == "m"));
    assert_eq!(err.pos.column, 32);
}

#[test]
fn missing_argument_reads_the_default() {
    let doc = parse_query("{ f }").unwrap();
    let (defs, set) = operation_parts(doc);
    let creg = async_graphql::registry::Registry::new();
    let env = Environment { variables: Variables::new(), variable_definitions: defs, fragments: Vec::new() };
    let root = env.create_context(&creg, None, &set);
    let mut ids = ResolveIdCounter::new();
    let ctx = root.with_field(field_at(&set, 0), &mut ids);
    assert_eq!(ctx.param_value::<i32, _>("x", || Value::Int(7)).unwrap(), 7);
    let err = ctx.param_value::<i32, _>("x", || Value::Boolean(true)).unwrap_err();
    assert!(matches!(err.err, QueryError::ExpectedType { .. }));
}

#[test]
fn out_of_range_int_is_a_type_error() {
    let doc = parse_query("{ f(x: 3000000000) }").unwrap();
    let (defs, set) = operation_parts(doc);
    let creg = async_graphql::registry::Registry::new();
    let env = Environment { variables: Variables::new(), variable_definitions: defs, fragments: Vec::new() };
    let root = env.create_context(&creg, None, &set);
    let mut ids = ResolveIdCounter::new();
    let ctx = root.with_field(field_at(&set, 0), &mut ids);
    let err = ctx.param_value::<i32, _>("x", || Value::Null).unwrap_err();
    assert!(matches!(err.err, QueryError::ExpectedType { ref expect, .. } if expect == "Int!"));
}

fn skip_flags(text: &str, variables: Variables) -> Vec<Result<bool, ErrorKind>> {
    let doc = parse_query(text).unwrap();
    let (defs, set) = operation_parts(doc);
    let creg = async_graphql::registry::Registry::new();
    let env = Environment { variables, variable_definitions: defs, fragments: Vec::new() };
    let root = env.create_context(&creg, None, &set);
    let mut out = Vec::new();
    for item in &set.node.items {
        if let Selection::Field(f) = &item.node {
            out.push(root.is_skip(&f.node.directives).map_err(|e| match e.err {
                QueryError::VarNotDefined { .. } => ErrorKind::VarNotDefined,
                QueryError::ExpectedType { .. } => ErrorKind::ExpectedType,
                QueryError::RequiredDirectiveArgs { .. } => ErrorKind::RequiredDirectiveArgs,
                QueryError::UnknownDirective { .. } => ErrorKind::UnknownDirective,
            }));
        }
    }
    out
}

#[test]
fn skip_true_omits_the_field() {
    assert_eq!(skip_flags("query { a @skip(if: true) b }", Variables::new()), vec![Ok(true), Ok(false)]);
}

#[test]
fn skip_and_include_are_dual() {
    for x in [true, false] {
        let text = format!("{{ a @skip(if: {}) b @include(if: {}) }}", x, !x);
        let flags = skip_flags(&text, Variables::new());
        assert_eq!(flags[0], flags[1]);
        assert_eq!(flags[0], Ok(x));
    }
}

#[test]
fn skip_reads_variables() {
    let vars = Variables::from_value(object(vec![("s", Value::Boolean(true))]));
    assert_eq!(skip_flags("query($s: Boolean!) { a @include(if: $s) b @skip(if: $s) }", vars), vec![
        Ok(false),
        Ok(true)
    ]);
}

#[test]
fn malformed_directives_are_errors() {
    let flags = skip_flags("{ a @skip b @include(if: 1) c @deprecated d @skip(if: $x) }", Variables::new());
    assert_eq!(flags, vec![
        Err(ErrorKind::RequiredDirectiveArgs),
        Err(ErrorKind::ExpectedType),
        Err(ErrorKind::UnknownDirective),
        Err(ErrorKind::VarNotDefined),
    ]);
}

#[test]
fn resolve_ids_are_fresh_and_linked() {
    let doc = parse_query("{ a b }").unwrap();
    let (defs, set) = operation_parts(doc);
    let creg = async_graphql::registry::Registry::new();
    let env = Environment { variables: Variables::new(), variable_definitions: defs, fragments: Vec::new() };
    let root = env.create_context(&creg, None, &set);
    assert_eq!(root.resolve_id, ResolveId::root());
    let mut ids = ResolveIdCounter::new();
    let a = root.with_field(field_at(&set, 0), &mut ids);
    let b = root.with_field(field_at(&set, 1), &mut ids);
    assert_eq!(a.resolve_id, ResolveId { parent: Some(0), current: 1 });
    assert_eq!(b.resolve_id, ResolveId { parent: Some(0), current: 2 });
    let a_set = a.with_selection_set(&set);
    assert_eq!(a_set.resolve_id, a.resolve_id);
    let elem = a_set.with_index(3, &mut ids);
    assert_eq!(elem.resolve_id, ResolveId { parent: Some(1), current: 3 });
    assert_eq!(ids.count(), 3);
    assert_eq!(elem.resolve_id.id_string(), "1:3");
    assert_eq!(root.resolve_id.id_string(), "0");
}

#[test]
fn paths_follow_fields_and_indices() {
    let doc = parse_query("{ a: user { name } }").unwrap();
    let (defs, set) = operation_parts(doc);
    let creg = async_graphql::registry::Registry::new();
    let env = Environment { variables: Variables::new(), variable_definitions: defs, fragments: Vec::new() };
    let root = env.create_context(&creg, None, &set);
    let mut ids = ResolveIdCounter::new();
    let user = root.with_field(field_at(&set, 0), &mut ids);
    assert_eq!(user.result_name(), "a");
    let user_set = user.with_selection_set(&field_at(&set, 0).node.selection_set);
    let elem = user_set.with_index(12, &mut ids);
    let node = elem.path_node.as_ref().unwrap();
    assert_eq!(node.path_string(), "a.12");
    assert_eq!(node.field_name(), "a");
    assert_eq!(node.segments(), vec![QueryPathSegment::Name("a"), QueryPathSegment::Index(12)]);
    let root_node = QueryPathNode { parent: None, segment: QueryPathSegment::Name("x") };
    assert_eq!(root_node.path_string(), "x");
}

#[test]
fn upload_replaces_the_addressed_value() {
    let mut vars = Variables::from_value(object(vec![
        ("file", Value::Null),
        ("files", Value::List(vec![spanned(Value::Null), spanned(Value::Null)])),
        ("input", object(vec![("doc", Value::Null)])),
    ]));
    vars.set_upload("variables.file", "a.txt", Some("text/plain"), "/tmp/1");
    vars.set_upload("variables.files.1", "b.png", None, "/tmp/2");
    vars.set_upload("variables.input.doc", "c", None, "/tmp/3");
    vars.set_upload("variables.files.7", "d", None, "/tmp/4");
    vars.set_upload("other.file", "e", None, "/tmp/5");
    let get = |k: &str| vars.get(&k.to_string()).unwrap();
    assert!(matches!(get("file"), Value::String(s) if s == "file:a.txt:text/plain|/tmp/1"));
    match get("files") {
        Value::List(xs) => {
            assert!(matches!(xs[0].node, Value::Null));
            assert!(matches!(&xs[1].node, Value::String(s) if s == "file:b.png|/tmp/2"));
            assert_eq!(xs.len(), 2);
        }
        _ => panic!("expected a list"),
    }
    match get("input") {
        Value::Object(xs) => assert!(matches!(&xs[0].1.node, Value::String(s) if s == "file:c|/tmp/3")),
        _ => panic!("expected an object"),
    }
}

#[test]
fn file_string_formats() {
    assert_eq!(file_string("a.txt", Some("text/plain"), "/p"), "file:a.txt:text/plain|/p");
    assert_eq!(file_string("a.txt", None, "/p"), "file:a.txt|/p");
}

#[test]
fn id_reads_strings_and_integers() {
    assert_eq!(ID::parse(&Value::Int(-42)).unwrap().as_str(), "-42");
    assert_eq!(ID::parse(&Value::String("abc".to_string())).unwrap().as_str(), "abc");
    assert!(ID::parse(&Value::Boolean(true)).is_none());
    assert_eq!(ID::from_usize(1234).as_str(), "1234");
    assert_eq!(ID::from("x".to_string()), ID::new("x"));
    assert!(matches!(ID::new("q").to_value(), Value::String(s) if s == "q"));
}

#[test]
fn value_equality_ignores_field_order() {
    let a = object(vec![("x", Value::Int(1)), ("y", Value::List(vec![spanned(Value::Null)]))]);
    let b = object(vec![("y", Value::List(vec![spanned(Value::Null)])), ("x", Value::Int(1))]);
    let c = object(vec![("y", Value::List(vec![])), ("x", Value::Int(1))]);
    assert!(a == b);
    assert!(a != c);
    assert!(a.clone() == a);
    assert!(Value::Int(1) != Value::String("1".to_string()));
}

#[test]
fn uuid_scalar_reads_strings() {
    assert!(parse_uuid(&Value::String("67e55044-10b1-426f-9247-bb680e5fe0c8".to_string())).is_some());
    assert!(parse_uuid(&Value::String("not a uuid".to_string())).is_none());
    assert!(parse_uuid(&Value::Int(1)).is_none());
}

#[test]
fn object_equality_is_map_equality() {
    let a = object(vec![("a", Value::Int(1)), ("a", Value::Int(1))]);
    let b = object(vec![("a", Value::Int(1)), ("b", Value::Int(2))]);
    assert!(a != b);
    assert!(b != a);
}

#[test]
fn directive_errors_carry_their_details() {
    let doc = parse_query("{ a @skip b @deprecated c @skip(if: 1) }").unwrap();
    let (defs, set) = operation_parts(doc);
    let creg = async_graphql::registry::Registry::new();
    let env = Environment { variables: Variables::new(), variable_definitions: defs, fragments: Vec::new() };
    let root = env.create_context(&creg, None, &set);
    let dirs = |i: usize| &field_at(&set, i).node.directives;
    let e = root.is_skip(dirs(0)).unwrap_err();
    match e.err {
        QueryError::RequiredDirectiveArgs { directive, arg_name, arg_type } => {
            assert_eq!((directive.as_str(), arg_name.as_str(), arg_type.as_str()), ("@skip", "if", "Boolean!"));
        }
        _ => panic!("expected a missing argument"),
    }
    assert_eq!(e.pos.column, 5);
    let e = root.is_skip(dirs(1)).unwrap_err();
    assert!(matches!(e.err, QueryError::UnknownDirective { ref name } if name == "deprecated"));
    let e = root.is_skip(dirs(2)).unwrap_err();
    assert!(matches!(e.err, QueryError::ExpectedType { ref expect, actual: Value::Int(1) } if expect == "Boolean!"));
}

#[test]
fn uuid_forms() {
    for t in [
        "67e5504410b1426f9247bb680e5fe0c8",
        "{67e55044-10b1-426f-9247-bb680e5fe0c8}",
        "URN:uuid:67e55044-10b1-426f-9247-bb680e5fe0c8",
    ] {
        assert!(parse_uuid(&Value::String(t.to_string())).is_some());
    }
    assert!(parse_uuid(&Value::String("67e55044-10b1-426f-9247-bb680e5fe0cg".to_string())).is_none());
}
