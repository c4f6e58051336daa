use throw_trace::call_graph::CallGraph;
use throw_trace::fingerprint::{sort_method_signatures, sort_spans, sort_type_relations, sorted_reachable_call_edges};
use throw_trace::types::{FunctionId, MethodSignature, RelationKind, Span, TypeId, TypeRelation};

fn sp(start: u32, end: u32) -> Span {
    Span { start, end }
}

fn method(file: &str, owner: &str, name: &str, at: u32) -> MethodSignature {
    MethodSignature {
        type_id: TypeId::new(file, owner, sp(0, 1)),
        method_name: name.to_string(),
        method_span: sp(at, at + 1),
        declared_throws: vec![],
        is_abstract: false,
    }
}

#[test]
fn spans_are_ordered_by_start_then_end() {
    let sorted = sort_spans(vec![sp(5, 9), sp(1, 4), sp(5, 6), sp(1, 2)]);
    assert_eq!(sorted, vec![sp(1, 2), sp(1, 4), sp(5, 6), sp(5, 9)]);
}

#[test]
fn method_signatures_are_ordered_by_type_then_method() {
    let sorted = sort_method_signatures(vec![
        method("b.ts", "Repo", "load", 4),
        method("a.ts", "Store", "save", 9),
        method("a.ts", "Store", "load", 7),
        method("a\\c.ts", "Cache", "get", 1),
    ]);
    let names: Vec<(String, String)> =
        sorted.iter().map(|m| (m.type_id.name.clone(), m.method_name.clone())).collect();
    assert_eq!(
        names,
        vec![
            ("Store".to_string(), "load".to_string()),
            ("Store".to_string(), "save".to_string()),
            ("Cache".to_string(), "get".to_string()),
            ("Repo".to_string(), "load".to_string()),
        ]
    );
}

#[test]
fn type_relations_are_ordered_by_child_parent_and_kind() {
    let child = TypeId::new("a.ts", "Impl", sp(0, 1));
    let base = TypeId::new("a.ts", "Base", sp(2, 3));
    let sorted = sort_type_relations(vec![
        TypeRelation { child: child.clone(), parent: base.clone(), kind: RelationKind::Implements },
        TypeRelation { child: child.clone(), parent: base.clone(), kind: RelationKind::Extends },
        TypeRelation { child: base.clone(), parent: child.clone(), kind: RelationKind::Implements },
    ]);
    assert_eq!(sorted[0].child.name, "Base");
    assert_eq!(sorted[1].kind, RelationKind::Extends);
    assert_eq!(sorted[2].kind, RelationKind::Implements);
}

#[test]
fn reachable_call_edges_are_listed_in_order_with_sorted_locations() {
    let f = FunctionId::new("a.ts", "f", sp(0, 10));
    let g = FunctionId::new("a.ts", "g", sp(20, 30));
    let h = FunctionId::new("b.ts", "h", sp(0, 5));
    let other = FunctionId::new("c.ts", "other", sp(0, 5));
    let mut graph = CallGraph::new();
    for id in [&f, &g, &h, &other] {
        graph.add_function(id.clone());
    }
    graph.add_call_with_location(&f, &h, sp(8, 9));
    graph.add_call_with_location(&f, &g, sp(6, 7));
    graph.add_call_with_location(&f, &g, sp(2, 3));
    graph.add_call_with_location(&g, &h, sp(25, 26));
    graph.add_call_with_location(&other, &f, sp(1, 2));

    let edges = sorted_reachable_call_edges(&graph, &f);
    let listed: Vec<(String, String, Vec<Span>)> =
        edges.iter().map(|e| (e.caller.name.clone(), e.callee.name.clone(), e.locations.clone())).collect();
    assert_eq!(
        listed,
        vec![
            ("f".to_string(), "g".to_string(), vec![sp(2, 3), sp(6, 7)]),
            ("f".to_string(), "h".to_string(), vec![sp(8, 9)]),
            ("g".to_string(), "h".to_string(), vec![sp(25, 26)]),
        ]
    );
}

#[test]
fn a_function_that_reaches_itself_lists_its_own_edges_twice() {
    let f = FunctionId::new("a.ts", "f", sp(0, 10));
    let g = FunctionId::new("a.ts", "g", sp(20, 30));
    let mut graph = CallGraph::new();
    graph.add_function(f.clone());
    graph.add_function(g.clone());
    graph.add_call_with_location(&f, &g, sp(1, 2));
    graph.add_call_with_location(&g, &f, sp(21, 22));

    let edges = sorted_reachable_call_edges(&graph, &f);
    let pairs: Vec<(String, String)> = edges.iter().map(|e| (e.caller.name.clone(), e.callee.name.clone())).collect();
    assert_eq!(
        pairs,
        vec![
            ("f".to_string(), "g".to_string()),
            ("f".to_string(), "g".to_string()),
            ("g".to_string(), "f".to_string()),
        ]
    );
    assert!(sorted_reachable_call_edges(&graph, &FunctionId::new("x.ts", "x", sp(0, 1))).is_empty());
}

#[test]
fn the_same_elements_in_another_order_sort_the_same() {
    let a = sort_spans(vec![sp(3, 4), sp(1, 9), sp(1, 2), sp(7, 7)]);
    let b = sort_spans(vec![sp(7, 7), sp(1, 2), sp(3, 4), sp(1, 9)]);
    assert_eq!(a, b);

    let first = sort_method_signatures(vec![method("b.ts", "B", "x", 1), method("a.ts", "A", "y", 2)]);
    let second = sort_method_signatures(vec![method("a.ts", "A", "y", 2), method("b.ts", "B", "x", 1)]);
    let names = |ms: &Vec<MethodSignature>| ms.iter().map(|m| m.method_name.clone()).collect::<Vec<_>>();
    assert_eq!(names(&first), names(&second));
}

#[test]
fn methods_with_equal_keys_keep_their_order() {
    let mut first = method("a.ts", "Store", "load", 7);
    first.is_abstract = true;
    let second = method("a.ts", "Store", "load", 7);
    let sorted = sort_method_signatures(vec![method("b.ts", "Repo", "x", 1), first, second]);
    assert_eq!(sorted.len(), 3);
    assert!(sorted[0].is_abstract);
    assert!(!sorted[1].is_abstract);
    assert_eq!(sorted[2].type_id.name, "Repo");
}
