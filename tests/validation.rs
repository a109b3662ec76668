use async_graphql::ast::{Definition, OperationDefinition, SelectionSet};
use async_graphql::registry::{Registry, TypeKind};
use async_graphql::{parse_query, ComplexityCalculate, OverlappingFieldsCanBeMerged, UploadFile, VisitorContext};

fn first_set(doc: &async_graphql::ast::Document) -> &SelectionSet {
    match &doc.definitions[0].node {
        Definition::Operation(op) => match &op.node {
            OperationDefinition::SelectionSet(s) => &s.node,
            OperationDefinition::Query(q) => &q.node.selection_set.node,
            OperationDefinition::Mutation(q) => &q.node.selection_set.node,
            OperationDefinition::Subscription(q) => &q.node.selection_set.node,
        },
        _ => panic!("expected an operation"),
    }
}

fn conflicts(text: &str) -> Vec<(Vec<(usize, usize)>, String)> {
    let doc = parse_query(text).unwrap();
    let registry = Registry::new();
    let frags = Vec::new();
    let mut ctx = VisitorContext::new(&registry, &frags);
    OverlappingFieldsCanBeMerged.enter_selection_set(&mut ctx, first_set(&doc));
    ctx.errors
        .iter()
        .map(|e| (e.locations.iter().map(|p| (p.line, p.column)).collect(), e.message.clone()))
        .collect()
}

#[test]
fn differing_arguments_conflict() {
    let errs = conflicts("{ x: foo(a: 1) x: foo(a: 2) }");
    assert_eq!(errs.len(), 1);
    assert_eq!(errs[0].0, vec![(1, 3), (1, 16)]);
    assert!(errs[0].1.contains("differing arguments"));
}

#[test]
fn differing_fields_conflict() {
    let errs = conflicts("{ x: foo x: bar }");
    assert_eq!(errs.len(), 1);
    assert_eq!(
        errs[0].1,
        "Fields \"x\" conflict because \"foo\" and \"bar\" are different fields. Use different aliases on the fields to fetch both if this was intentional."
    );
}

#[test]
fn identical_fields_merge() {
    assert!(conflicts("{ foo(a: 1, b: {x: 1, y: 2}) foo(b: {y: 2, x: 1}, a: 1) bar }").is_empty());
    assert!(conflicts("{ a: foo b: foo }").is_empty());
}

#[test]
fn argument_count_mismatch_conflicts() {
    let errs = conflicts("{ foo(a: 1) foo }");
    assert_eq!(errs.len(), 2);
}

#[test]
fn inline_fragments_are_expanded() {
    let errs = conflicts("{ x: foo ... on T { x: bar } }");
    assert_eq!(errs.len(), 1);
}

#[test]
fn fragment_spreads_are_expanded() {
    let doc = parse_query("{ x: foo ...F } fragment F on T { x: bar ...F }").unwrap();
    let registry = Registry::new();
    let mut frags = Vec::new();
    let mut docs = doc.definitions;
    let op = docs.remove(0);
    for d in docs {
        if let Definition::Fragment(f) = d.node {
            frags.push(f);
        }
    }
    let set = match &op.node {
        Definition::Operation(o) => match &o.node {
            OperationDefinition::SelectionSet(s) => s,
            _ => panic!(),
        },
        _ => panic!(),
    };
    let mut ctx = VisitorContext::new(&registry, &frags);
    OverlappingFieldsCanBeMerged.enter_selection_set(&mut ctx, &set.node);
    assert_eq!(ctx.errors.len(), 1);
}

fn upload_errors(text: &str) -> usize {
    let doc = parse_query(text).unwrap();
    let mut registry = Registry::new();
    registry.add_type("Upload".to_string(), TypeKind::Scalar);
    registry.add_type("String".to_string(), TypeKind::Scalar);
    let frags = Vec::new();
    let mut ctx = VisitorContext::new(&registry, &frags);
    match &doc.definitions[0].node {
        Definition::Operation(op) => UploadFile.enter_operation_definition(&mut ctx, &op.node),
        _ => panic!("expected an operation"),
    }
    for e in &ctx.errors {
        assert_eq!(e.message, "The Upload type is only allowed to be defined on a mutation");
    }
    ctx.errors.len()
}

#[test]
fn upload_allowed_in_mutation_only() {
    assert_eq!(upload_errors("mutation($f: Upload!) { upload(f: $f) }"), 0);
    assert_eq!(upload_errors("query($f: Upload!) { upload(f: $f) }"), 1);
    assert_eq!(upload_errors("subscription($f: [Upload], $s: String) { upload(f: $f) }"), 1);
    assert_eq!(upload_errors("query($s: String) { a }"), 0);
}

#[test]
fn complexity_counts_fields() {
    let doc = parse_query("{ a { b c ... on T { d } } e }").unwrap();
    let mut calc = ComplexityCalculate::new();
    calc.visit_selection_set(first_set(&doc));
    assert_eq!(calc.complexity, 5);
    calc.enter_field();
    assert_eq!(calc.complexity, 6);
}

#[test]
fn repeated_argument_names_conflict_with_different_sets() {
    let mut doc = parse_query("{ x: foo(a: 1, b: 2) x: foo(a: 1, c: 1) }").unwrap();
    {
        let set = match &mut doc.definitions[0].node {
            Definition::Operation(op) => match &mut op.node {
                OperationDefinition::SelectionSet(s) => &mut s.node,
                _ => panic!(),
            },
            _ => panic!(),
        };
        if let async_graphql::ast::Selection::Field(f) = &mut set.items[1].node {
            f.node.arguments[1].0.node = "a".to_string();
        }
    }
    let registry = Registry::new();
    let frags = Vec::new();
    let mut ctx = VisitorContext::new(&registry, &frags);
    OverlappingFieldsCanBeMerged.enter_selection_set(&mut ctx, first_set(&doc));
    assert_eq!(ctx.errors.len(), 1);
}
