use throw_trace::analyzer::{
    build_call_graph, diagnose_function, diagnose_functions, keep_entry_diagnostics, keep_entry_violations,
    should_analyze, sort_function_ids, sorted_function_ids, AnalyzerConfig, ResolvedCall,
};
use throw_trace::call_graph::CallGraph;
use throw_trace::diagnostic::NoOpTypeResolver;
use throw_trace::signature_map::SignatureMap;
use throw_trace::types::{
    CallSite, DeclaredThrow, Diagnostic, ErrorType, FunctionId, FunctionSignature, LspViolation, MethodSignature,
    Span, ThrowSite, TypeId,
};

fn sp(start: u32, end: u32) -> Span {
    Span { start, end }
}

fn sig(id: &FunctionId, name_start: u32, throws: Vec<&str>, declared: Vec<&str>, calls: Vec<CallSite>) -> FunctionSignature {
    FunctionSignature {
        id: id.clone(),
        name_span: sp(name_start, name_start + 1),
        declared_throws: declared
            .into_iter()
            .map(|d| DeclaredThrow { error_type: d.to_string(), description: None, span: sp(0, 0) })
            .collect(),
        direct_throws: throws
            .into_iter()
            .map(|t| ThrowSite { location: sp(name_start + 2, name_start + 3), error_type: ErrorType::Named(t.to_string()) })
            .collect(),
        calls,
        try_catch_blocks: vec![],
        is_async: false,
        class_name: None,
    }
}

#[test]
fn default_config_follows_ten_rounds_over_a_thousand_files() {
    let c = AnalyzerConfig::default();
    assert_eq!(c.max_depth, 10);
    assert_eq!(c.max_files, 1000);
    assert!(c.cross_file);
}

#[test]
fn node_modules_components_are_not_followed() {
    assert!(!should_analyze("/w/node_modules/pkg/index.ts"));
    assert!(!should_analyze("node_modules/a.ts"));
    assert!(should_analyze("/w/src/node_modules_like/a.ts"));
    assert!(should_analyze("src/a.ts"));
}

#[test]
fn functions_are_ordered_by_file_name_and_span() {
    let mut m = SignatureMap::new();
    let ids = vec![
        FunctionId::new("b.ts", "a", sp(0, 1)),
        FunctionId::new("a.ts", "z", sp(5, 6)),
        FunctionId::new("a.ts", "z", sp(1, 9)),
        FunctionId::new("a\\x.ts", "a", sp(0, 1)),
        FunctionId::new("a.ts", "b", sp(0, 1)),
    ];
    for id in &ids {
        m.insert(id.clone(), sig(id, 0, vec![], vec![], vec![]));
    }
    let sorted = sorted_function_ids(&m);
    let shown: Vec<String> = sorted.iter().map(|i| format!("{}:{}:{}", i.file_path, i.name, i.span.start)).collect();
    assert_eq!(shown, vec!["a.ts:b:0", "a.ts:z:1", "a.ts:z:5", "a\\x.ts:a:0", "b.ts:a:0"]);
}

#[test]
fn a_function_with_undeclared_throws_is_diagnosed() {
    let mut m = SignatureMap::new();
    let f = FunctionId::new("a.ts", "f", sp(0, 10));
    let g = FunctionId::new("a.ts", "g", sp(20, 30));
    m.insert(f.clone(), sig(&f, 0, vec!["E"], vec![], vec![]));
    m.insert(g.clone(), sig(&g, 20, vec!["E"], vec!["E"], vec![]));
    let graph = CallGraph::new();
    let d = diagnose_function(&f, &m, &graph, &mut NoOpTypeResolver).unwrap();
    assert_eq!(d.function, f);
    assert_eq!(d.missing_throws.len(), 1);
    assert!(diagnose_function(&g, &m, &graph, &mut NoOpTypeResolver).is_none());
    let h = FunctionId::new("a.ts", "h", sp(40, 50));
    assert!(diagnose_function(&h, &m, &graph, &mut NoOpTypeResolver).is_none());
}

#[test]
fn only_findings_in_checked_files_are_kept() {
    let d = |file: &str| Diagnostic { function: FunctionId::new(file, "f", sp(0, 1)), missing_throws: vec![] };
    let kept = keep_entry_diagnostics(vec![d("a.ts"), d("lib.ts"), d("b.ts")], &vec!["a.ts".to_string(), "b.ts".to_string()]);
    assert_eq!(kept.len(), 2);
    assert_eq!(kept[1].function.file_path, "b.ts");
    let v = |file: &str| LspViolation {
        implementation: FunctionId::new(file, "m", sp(0, 1)),
        parent_method: MethodSignature {
            type_id: TypeId::new("i.ts", "I", sp(0, 1)),
            method_name: "m".to_string(),
            method_span: sp(0, 1),
            declared_throws: vec![],
            is_abstract: false,
        },
        illegal_throws: vec![ErrorType::Unknown],
    };
    let kept = keep_entry_violations(vec![v("x.ts"), v("a.ts")], &vec!["a.ts".to_string()]);
    assert_eq!(kept.len(), 1);
    assert_eq!(kept[0].implementation.file_path, "a.ts");
}

#[test]
fn calls_go_to_the_located_definition_or_a_same_file_namesake() {
    // b.ts: line 1 "function helper() {}", line 2 "function other() {}"
    let b_src = "function helper() {}\nfunction other() {}\n";
    let a_src = "function main() { helper(); local(); }\nfunction local() {}\n";
    let sources = vec![("a.ts".to_string(), a_src.to_string()), ("b.ts".to_string(), b_src.to_string())];
    let main = FunctionId::new("a.ts", "main", sp(0, 38));
    let local = FunctionId::new("a.ts", "local", sp(39, 58));
    let helper = FunctionId::new("b.ts", "helper", sp(0, 20));
    let other = FunctionId::new("b.ts", "other", sp(21, 40));
    let calls = vec![
        CallSite { callee_name: "helper".into(), callee_span: sp(18, 24), location: sp(18, 26) },
        CallSite { callee_name: "local".into(), callee_span: sp(28, 33), location: sp(28, 35) },
        CallSite { callee_name: "missing".into(), callee_span: sp(36, 37), location: sp(36, 37) },
    ];
    let mut m = SignatureMap::new();
    m.insert(main.clone(), sig(&main, 9, vec![], vec![], calls));
    m.insert(local.clone(), sig(&local, 48, vec![], vec![], vec![]));
    m.insert(helper.clone(), sig(&helper, 9, vec![], vec![], vec![]));
    m.insert(other.clone(), sig(&other, 30, vec![], vec![], vec![]));
    let mut graph = CallGraph::new();
    for id in [&main, &local, &helper, &other] {
        graph.add_function(id.clone());
    }
    let resolved = vec![ResolvedCall { caller_file: "a.ts".into(), callee_span: sp(18, 24), def_file: "b.ts".into(), def_line: 1 }];
    build_call_graph(&m, &sources, &resolved, &mut graph);
    let callees = graph.get_callees(&main);
    assert_eq!(callees.len(), 2);
    assert!(callees.contains(&helper));
    assert!(callees.contains(&local));
    assert_eq!(graph.get_call_site_locations(&main, &helper), vec![sp(18, 26)]);
    assert_eq!(graph.get_call_site_locations(&main, &local), vec![sp(28, 35)]);
}

#[test]
fn stored_findings_are_reused_and_the_rest_computed() {
    let a = FunctionId::new("a.ts", "a", sp(0, 10));
    let b = FunctionId::new("a.ts", "b", sp(20, 30));
    let mut signatures = SignatureMap::new();
    signatures.insert(a.clone(), sig(&a, 1, vec!["AError"], vec![], vec![]));
    signatures.insert(b.clone(), sig(&b, 21, vec!["BError"], vec![], vec![]));
    let mut graph = CallGraph::new();
    graph.add_function(a.clone());
    graph.add_function(b.clone());
    let ids = vec![a.clone(), b.clone()];
    // A stored "nothing to report" for `a` wins over what a fresh check would find.
    let stored: Vec<Option<Option<Diagnostic>>> = vec![Some(None), None];
    let (found, fresh) = diagnose_functions(&ids, &stored, &signatures, &graph, &mut NoOpTypeResolver);
    assert_eq!(found.len(), 1);
    assert_eq!(found[0].function, b);
    assert_eq!(fresh.len(), 1);
    assert_eq!(fresh[0].index, 1);
    assert_eq!(fresh[0].diagnostic.as_ref().map(|d| d.function.clone()), Some(b.clone()));
    assert!(fresh[0].type_checks.is_empty());
}

#[test]
fn any_list_of_functions_can_be_put_in_order() {
    let b = FunctionId::new("src\\b.ts", "f", sp(0, 1));
    let a2 = FunctionId::new("src/a.ts", "g", sp(5, 9));
    let a1 = FunctionId::new("src/a.ts", "g", sp(1, 9));
    let sorted = sort_function_ids(vec![b.clone(), a2.clone(), a1.clone()]);
    assert_eq!(sorted, vec![a1, a2, b]);
}
