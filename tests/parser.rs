use async_graphql::ast::{Definition, Document, OperationDefinition, Selection, SelectionSet, Type};
use async_graphql::{parse_query, Pos, Span, Spanned, Value};

fn first_selection_set(doc: &Document) -> &SelectionSet {
    match &doc.definitions[0].node {
        Definition::Operation(op) => match &op.node {
            OperationDefinition::SelectionSet(s) => &s.node,
            OperationDefinition::Query(q) => &q.node.selection_set.node,
            OperationDefinition::Mutation(m) => &m.node.selection_set.node,
            OperationDefinition::Subscription(s) => &s.node.selection_set.node,
        },
        Definition::Fragment(f) => &f.node.selection_set.node,
    }
}

fn field_names(set: &SelectionSet) -> Vec<String> {
    set.items
        .iter()
        .map(|s| match &s.node {
            Selection::Field(f) => f.node.result_name().clone(),
            Selection::FragmentSpread(s) => format!("...{}", s.node.fragment_name.node),
            Selection::InlineFragment(_) => "...".to_string(),
        })
        .collect()
}

#[test]
fn parses_anonymous_selection_set() {
    let doc = parse_query("{ hello }").unwrap();
    assert_eq!(doc.definitions.len(), 1);
    assert_eq!(field_names(first_selection_set(&doc)), vec!["hello".to_string()]);
}

#[test]
fn alias_is_the_response_key() {
    let doc = parse_query("{ a: hello b: hello }").unwrap();
    let set = first_selection_set(&doc);
    assert_eq!(field_names(set), vec!["a".to_string(), "b".to_string()]);
    match &set.items[0].node {
        Selection::Field(f) => {
            assert_eq!(f.node.name.node, "hello");
            assert_eq!(f.node.alias.as_ref().unwrap().node, "a");
        }
        _ => panic!("expected a field"),
    }
}

#[test]
fn field_without_alias_keys_by_name() {
    let doc = parse_query("{ hello }").unwrap();
    match &first_selection_set(&doc).items[0].node {
        Selection::Field(f) => {
            assert!(f.node.alias.is_none());
            assert_eq!(f.node.result_name(), "hello");
        }
        _ => panic!("expected a field"),
    }
}

#[test]
fn parses_variables_with_defaults() {
    let doc = parse_query("query Inc($n: Int = 5, $xs: [String!]!) { inc(x: $n) }").unwrap();
    match &doc.definitions[0].node {
        Definition::Operation(op) => match &op.node {
            OperationDefinition::Query(q) => {
                assert_eq!(q.node.name.as_ref().unwrap().node, "Inc");
                let defs = &q.node.variable_definitions;
                assert_eq!(defs.len(), 2);
                assert_eq!(defs[0].node.name.node, "n");
                assert_eq!(defs[0].node.var_type.node.type_string(), "Int");
                assert!(matches!(defs[0].node.default_value.as_ref().unwrap().node, Value::Int(5)));
                assert_eq!(defs[1].node.var_type.node.type_string(), "[String!]!");
                assert!(matches!(defs[1].node.var_type.node, Type::NonNull(_)));
            }
            _ => panic!("expected a query"),
        },
        _ => panic!("expected an operation"),
    }
}

#[test]
fn parses_values_of_every_kind() {
    let doc = parse_query(r#"{ f(a: null, b: true, c: -12, d: 1.5e3, e: "s t", g: RED, h: [1, 2], i: {x: 1, y: $v}) }"#)
        .unwrap();
    match &first_selection_set(&doc).items[0].node {
        Selection::Field(f) => {
            let args = &f.node.arguments;
            assert_eq!(args.len(), 8);
            assert!(matches!(args[0].1.node, Value::Null));
            assert!(matches!(args[1].1.node, Value::Boolean(true)));
            assert!(matches!(args[2].1.node, Value::Int(-12)));
            match &args[3].1.node {
                Value::Float(s) => assert_eq!(s, "1.5e3"),
                _ => panic!("expected a float"),
            }
            match &args[4].1.node {
                Value::String(s) => assert_eq!(s, "s t"),
                _ => panic!("expected a string"),
            }
            match &args[5].1.node {
                Value::Enum(s) => assert_eq!(s, "RED"),
                _ => panic!("expected an enum"),
            }
            match &args[6].1.node {
                Value::List(xs) => assert_eq!(xs.len(), 2),
                _ => panic!("expected a list"),
            }
            match &args[7].1.node {
                Value::Object(xs) => {
                    assert_eq!(xs.len(), 2);
                    assert!(matches!(&xs[1].1.node, Value::Variable(v) if v == "v"));
                }
                _ => panic!("expected an object"),
            }
        }
        _ => panic!("expected a field"),
    }
}

#[test]
fn parses_fragments_and_directives() {
    let text = "query { node { ...F ... on Node @skip(if: false) { id } } } fragment F on Node { name }";
    let doc = parse_query(text).unwrap();
    assert_eq!(doc.definitions.len(), 2);
    match &first_selection_set(&doc).items[0].node {
        Selection::Field(f) => {
            let inner = &f.node.selection_set.node;
            assert_eq!(field_names(inner), vec!["...F".to_string(), "...".to_string()]);
            match &inner.items[1].node {
                Selection::InlineFragment(fr) => {
                    assert_eq!(fr.node.directives.len(), 1);
                    assert_eq!(fr.node.directives[0].node.name.node, "skip");
                }
                _ => panic!("expected an inline fragment"),
            }
        }
        _ => panic!("expected a field"),
    }
    match &doc.definitions[1].node {
        Definition::Fragment(f) => assert_eq!(f.node.name.node, "F"),
        _ => panic!("expected a fragment"),
    }
}

#[test]
fn positions_are_one_based() {
    let doc = parse_query("{\n  hello\n}").unwrap();
    let item = &first_selection_set(&doc).items[0];
    assert_eq!(item.span.start.line, 2);
    assert_eq!(item.span.start.column, 3);
}

#[test]
fn comments_and_commas_are_ignored() {
    let doc = parse_query("# leading comment\n{ a, b # trailing\n }").unwrap();
    assert_eq!(field_names(first_selection_set(&doc)), vec!["a".to_string(), "b".to_string()]);
}

#[test]
fn integer_overflow_is_a_parse_error() {
    assert!(parse_query("{ f(a: 9223372036854775808) }").is_err());
    let doc = parse_query("{ f(a: -9223372036854775808) }").unwrap();
    match &first_selection_set(&doc).items[0].node {
        Selection::Field(f) => assert!(matches!(f.node.arguments[0].1.node, Value::Int(i64::MIN))),
        _ => panic!("expected a field"),
    }
}

#[test]
fn rejects_malformed_documents() {
    assert!(parse_query("").is_err());
    assert!(parse_query("{ }").is_err());
    assert!(parse_query("{ a(x: 01) }").is_err());
    assert!(parse_query("{ a(x: \"open) }").is_err());
    assert!(parse_query("{ a ").is_err());
    assert!(parse_query("query { a } extra").is_err());
    let err = parse_query("{ a(x: ?) }").unwrap_err();
    assert_eq!(err.pos.line, 1);
    assert_eq!(err.pos.column, 8);
}

#[test]
fn spanned_helpers_keep_the_span() {
    let span = Span { start: Pos { line: 2, column: 3 }, end: Pos { line: 2, column: 9 } };
    let s = Spanned::new(5, span);
    assert_eq!(s.position().pos_string(), "2:3");
    let m = s.map(|n| n * 2);
    assert_eq!(m.node, 10);
    assert_eq!(m.span().end.column, 9);
    let p = m.pack(|sp| sp.node + sp.span.start.line);
    assert_eq!(p.node, 12);
    assert_eq!(p.span, span);
    let other = Spanned::new(12, Span { start: Pos { line: 1, column: 1 }, end: Pos { line: 1, column: 1 } });
    assert!(p == other);
    assert_eq!(async_graphql::ID::scalar_name(), "ID");
}

#[test]
fn printing_and_reparsing_gives_the_same_document() {
    let texts = [
        "{ hello }",
        "query Q($n: Int = 5, $xs: [String!]!) @dir(a: 1) { a: f(x: $n, y: [1, -2, 3.5], z: {k: \"v\", e: RED}) @skip(if: false) { ...F ... on T { id } ... @include(if: true) { name } } }",
        "mutation { upload(f: $f) } subscription S { events { id } } fragment F on T { x y(z: null) }",
    ];
    for text in texts {
        let doc = parse_query(text).unwrap();
        let printed = async_graphql::printer::document_to_string(&doc);
        let reparsed = parse_query(&printed).unwrap();
        assert_eq!(reparsed.definitions.len(), doc.definitions.len());
        assert_eq!(async_graphql::printer::document_to_string(&reparsed), printed);
    }
}

#[test]
fn printed_text_separates_tokens_by_spaces() {
    let doc = parse_query("{a:b(c:1)}").unwrap();
    assert_eq!(async_graphql::printer::document_to_string(&doc), "{ a : b ( c : 1 ) }");
}

#[test]
fn repeated_names_are_rejected() {
    assert!(parse_query("{ f(a: 1, a: 2) }").is_err());
    assert!(parse_query("{ f(a: {x: 1, x: 1}) }").is_err());
    assert!(parse_query("query($v: Int!!) { a }").is_err());
    let err = parse_query("{ f(a: 1, a: 2) }").unwrap_err();
    assert_eq!((err.pos.line, err.pos.column), (1, 11));
}

#[test]
fn scenario_queries_parse() {
    let doc = parse_query("query($n:Int=5){ inc(x:$n) }").unwrap();
    assert_eq!(doc.definitions.len(), 1);
    let doc = parse_query("query{ a @skip(if:true) b }").unwrap();
    assert_eq!(field_names(first_selection_set(&doc)), vec!["a".to_string(), "b".to_string()]);
    match &first_selection_set(&doc).items[0].node {
        Selection::Field(f) => assert_eq!(f.node.directives.len(), 1),
        _ => panic!("expected a field"),
    }
    let set = first_selection_set(&doc);
    assert!(set.items[0].span.start.column < set.items[1].span.start.column);
}
