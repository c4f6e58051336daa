use throw_trace::call_graph::CallGraph;
use throw_trace::diagnostic::{
    find_missing_declarations, generate_diagnostics_with_resolver, NoOpTypeResolver, TypeResolver,
};
use throw_trace::lsp::generate_lsp_violations;
use throw_trace::propagation::compute_propagated_throws;
use throw_trace::signature_map::SignatureMap;
use throw_trace::types::{
    CallSite, DeclaredThrow, Diagnostic, ErrorType, FunctionId, FunctionSignature, MethodSignature,
    PropagatedThrow, RelationKind, Span, ThrowSite, TryCatchBlock, TypeId, TypeRelation,
};

fn signature(
    id: &FunctionId,
    name_span: Span,
    declared_throws: Vec<DeclaredThrow>,
    direct_throws: Vec<ThrowSite>,
    calls: Vec<CallSite>,
    try_catch_blocks: Vec<TryCatchBlock>,
    class_name: Option<String>,
) -> FunctionSignature {
    FunctionSignature {
        id: id.clone(),
        name_span,
        declared_throws,
        direct_throws,
        calls,
        try_catch_blocks,
        is_async: false,
        class_name,
    }
}

fn throw_site(start: u32, end: u32, error_type: ErrorType) -> ThrowSite {
    ThrowSite { location: Span { start, end }, error_type }
}

fn named(n: &str) -> ErrorType {
    ErrorType::Named(n.to_string())
}

#[test]
fn function_id_display() {
    let id = FunctionId {
        file_path: "src/service.ts".to_string(),
        name: "createUser".to_string(),
        span: Span { start: 10, end: 50 },
    };
    assert_eq!(id.display(), "src/service.ts:createUser");
}

#[test]
fn function_id_anonymous() {
    let id = FunctionId::anonymous("src/util.ts", 42, Span { start: 100, end: 150 });
    assert_eq!(id.name.as_str(), "anonymous_L42");
}

#[test]
fn error_type_named() {
    let err = named("ValidationError");
    assert_eq!(err.named_type(), Some("ValidationError"));
}

#[test]
fn error_type_unknown() {
    let err = ErrorType::Unknown;
    assert_eq!(err.named_type(), None);
}

#[test]
fn throw_site_creation() {
    let site = throw_site(100, 120, named("MyError"));
    assert_eq!(site.error_type.named_type(), Some("MyError"));
}

#[test]
fn declared_throw_with_description() {
    let decl = DeclaredThrow {
        error_type: "ValidationError".to_string(),
        description: Some("When input is invalid".to_string()),
        span: Span { start: 5, end: 50 },
    };
    assert_eq!(decl.error_type.as_str(), "ValidationError");
    assert!(decl.description.is_some());
}

#[test]
fn call_site_creation() {
    let call = CallSite {
        callee_name: "validate".to_string(),
        callee_span: Span { start: 200, end: 208 },
        location: Span { start: 200, end: 220 },
    };
    assert_eq!(call.callee_name.as_str(), "validate");
}

#[test]
fn try_catch_block_contains_span() {
    let block = TryCatchBlock {
        try_span: Span { start: 100, end: 200 },
        catch_span: Some(Span { start: 200, end: 300 }),
        caught_types: vec!["ValidationError".to_string()],
    };
    assert!(block.contains(150));
    assert!(!block.contains(50));
}

#[test]
fn function_signature_creation() {
    let id = FunctionId::new("src/test.ts", "testFn", Span { start: 0, end: 100 });
    let sig = signature(&id, Span { start: 9, end: 15 }, vec![], vec![], vec![], vec![], None);
    assert_eq!(sig.id.name.as_str(), "testFn");
    assert!(!sig.is_async);
}

#[test]
fn propagated_throw_path() {
    let origin = throw_site(10, 30, named("DBError"));
    let origin_function = FunctionId::new("db.ts", "query", Span { start: 0, end: 40 });
    let propagated = PropagatedThrow {
        error_type: named("DBError"),
        origin: origin.clone(),
        origin_function,
        path: vec![
            FunctionId::new("a.ts", "inner", Span { start: 0, end: 50 }),
            FunctionId::new("b.ts", "outer", Span { start: 0, end: 100 }),
        ],
    };
    assert_eq!(propagated.path.len(), 2);
}

#[test]
fn diagnostic_missing_throws() {
    let func_id = FunctionId::new("src/service.ts", "createUser", Span { start: 0, end: 200 });
    let diagnostic = Diagnostic {
        function: func_id.clone(),
        missing_throws: vec![PropagatedThrow {
            error_type: named("ValidationError"),
            origin: throw_site(50, 80, named("ValidationError")),
            origin_function: func_id,
            path: vec![],
        }],
    };
    assert_eq!(diagnostic.missing_throws.len(), 1);
}

#[test]
fn call_graph_add_function() {
    let mut graph = CallGraph::new();
    let id = FunctionId::new("a.ts", "foo", Span { start: 0, end: 50 });
    graph.add_function(id.clone());
    assert!(graph.contains(&id));
}

#[test]
fn call_graph_add_call() {
    let mut graph = CallGraph::new();
    let span = Span { start: 0, end: 50 };
    let caller = FunctionId::new("a.ts", "foo", span);
    let callee = FunctionId::new("b.ts", "bar", span);
    graph.add_function(caller.clone());
    graph.add_function(callee.clone());
    graph.add_call(&caller, &callee);
    let callees = graph.get_callees(&caller);
    assert_eq!(callees.len(), 1);
}

#[test]
fn call_graph_transitive_callees() {
    let mut graph = CallGraph::new();
    let a = FunctionId::new("a.ts", "a", Span { start: 0, end: 50 });
    let b = FunctionId::new("b.ts", "b", Span { start: 0, end: 50 });
    let c = FunctionId::new("c.ts", "c", Span { start: 0, end: 50 });
    graph.add_function(a.clone());
    graph.add_function(b.clone());
    graph.add_function(c.clone());
    graph.add_call(&a, &b);
    graph.add_call(&b, &c);
    let all_callees = graph.get_transitive_callees(&a);
    assert_eq!(all_callees.len(), 2);
}

#[test]
fn propagation_direct_throw() {
    let mut signatures = SignatureMap::new();
    let id = FunctionId::new("a.ts", "foo", Span { start: 0, end: 50 });
    let sig = signature(
        &id,
        Span { start: 9, end: 12 },
        vec![],
        vec![throw_site(10, 30, named("MyError"))],
        vec![],
        vec![],
        None,
    );
    signatures.insert(id.clone(), sig);

    let graph = CallGraph::new();
    let propagated = compute_propagated_throws(&id, &signatures, &graph);
    assert_eq!(propagated.len(), 1);
    assert_eq!(propagated[0].error_type, named("MyError"));
}

#[test]
fn diagnostic_missing_declaration() {
    let mut signatures = SignatureMap::new();
    let id = FunctionId::new("a.ts", "foo", Span { start: 0, end: 50 });
    signatures.insert(
        id.clone(),
        signature(
            &id,
            Span { start: 9, end: 12 },
            vec![],
            vec![throw_site(10, 30, named("MyError"))],
            vec![],
            vec![],
            None,
        ),
    );

    let graph = CallGraph::new();
    let diagnostics = generate_diagnostics_with_resolver(&signatures, &graph, &mut NoOpTypeResolver);
    assert_eq!(diagnostics.len(), 1);
    assert_eq!(diagnostics[0].missing_throws.len(), 1);
}

#[test]
fn diagnostic_declared_ok() {
    let mut signatures = SignatureMap::new();
    let id = FunctionId::new("a.ts", "foo", Span { start: 0, end: 50 });
    signatures.insert(
        id.clone(),
        signature(
            &id,
            Span { start: 9, end: 12 },
            vec![DeclaredThrow {
                error_type: "MyError".to_string(),
                description: None,
                span: Span { start: 0, end: 10 },
            }],
            vec![throw_site(10, 30, named("MyError"))],
            vec![],
            vec![],
            None,
        ),
    );

    let graph = CallGraph::new();
    let diagnostics = generate_diagnostics_with_resolver(&signatures, &graph, &mut NoOpTypeResolver);
    assert!(diagnostics.is_empty());
}

#[test]
fn propagation_from_callee() {
    let mut signatures = SignatureMap::new();
    let mut graph = CallGraph::new();

    let inner = FunctionId::new("a.ts", "inner", Span { start: 0, end: 50 });
    let outer = FunctionId::new("b.ts", "outer", Span { start: 0, end: 100 });

    signatures.insert(
        inner.clone(),
        signature(
            &inner,
            Span { start: 9, end: 14 },
            vec![],
            vec![throw_site(10, 30, named("InnerError"))],
            vec![],
            vec![],
            None,
        ),
    );
    signatures.insert(
        outer.clone(),
        signature(
            &outer,
            Span { start: 9, end: 14 },
            vec![],
            vec![],
            vec![CallSite {
                callee_name: "inner".to_string(),
                callee_span: Span { start: 50, end: 55 },
                location: Span { start: 50, end: 60 },
            }],
            vec![],
            None,
        ),
    );

    graph.add_function(inner.clone());
    graph.add_function(outer.clone());
    graph.add_call_with_location(&outer, &inner, Span { start: 50, end: 60 });

    let propagated = compute_propagated_throws(&outer, &signatures, &graph);
    assert_eq!(propagated.len(), 1);
    assert_eq!(propagated[0].error_type, named("InnerError"));
}

#[test]
fn instanceof_matched_type_caught_even_with_rethrow() {
    let mut signatures = SignatureMap::new();
    let graph = CallGraph::new();
    let func = FunctionId::new("a.ts", "foo", Span { start: 0, end: 200 });
    signatures.insert(
        func.clone(),
        signature(
            &func,
            Span { start: 9, end: 12 },
            vec![],
            vec![
                throw_site(20, 50, named("SomeError")),
                throw_site(120, 130, ErrorType::Rethrow("e".to_string())),
            ],
            vec![],
            vec![TryCatchBlock {
                try_span: Span { start: 10, end: 100 },
                catch_span: Some(Span { start: 100, end: 150 }),
                caught_types: vec!["SomeError".to_string()],
            }],
            None,
        ),
    );

    let propagated = compute_propagated_throws(&func, &signatures, &graph);
    assert!(propagated.is_empty(), "instanceof-matched type should be caught even when rethrow exists");
}

#[test]
fn new_throw_in_catch_propagates() {
    let mut signatures = SignatureMap::new();
    let graph = CallGraph::new();
    let func = FunctionId::new("a.ts", "foo", Span { start: 0, end: 200 });
    signatures.insert(
        func.clone(),
        signature(
            &func,
            Span { start: 9, end: 12 },
            vec![],
            vec![throw_site(20, 50, named("OriginalError")), throw_site(120, 150, named("WrappedError"))],
            vec![],
            vec![TryCatchBlock {
                try_span: Span { start: 10, end: 100 },
                catch_span: Some(Span { start: 100, end: 180 }),
                caught_types: vec!["OriginalError".to_string()],
            }],
            None,
        ),
    );

    let propagated = compute_propagated_throws(&func, &signatures, &graph);
    assert_eq!(propagated.len(), 1);
    assert_eq!(propagated[0].error_type, named("WrappedError"));
}

fn repository_method(name: &str, declared: Vec<DeclaredThrow>) -> MethodSignature {
    MethodSignature {
        type_id: TypeId::new("test.ts", "UserRepository", Span { start: 0, end: 50 }),
        method_name: name.to_string(),
        method_span: Span { start: 10, end: 40 },
        declared_throws: declared,
        is_abstract: false,
    }
}

fn implements(child: &str) -> TypeRelation {
    TypeRelation {
        child: TypeId::new("test.ts", child, Span { start: 60, end: 250 }),
        parent: TypeId::new("test.ts", "UserRepository", Span { start: 0, end: 50 }),
        kind: RelationKind::Implements,
    }
}

fn not_found_declared() -> Vec<DeclaredThrow> {
    vec![DeclaredThrow { error_type: "NotFoundError".to_string(), description: None, span: Span { start: 0, end: 0 } }]
}

#[test]
fn lsp_violation_detects_undeclared_throw() {
    let mut signatures = SignatureMap::new();
    let graph = CallGraph::new();
    let method_id = FunctionId::new("test.ts", "findById", Span { start: 100, end: 200 });
    signatures.insert(
        method_id.clone(),
        signature(
            &method_id,
            Span { start: 110, end: 118 },
            vec![],
            vec![throw_site(150, 180, named("DBError"))],
            vec![],
            vec![],
            Some("DatabaseUserRepository".to_string()),
        ),
    );
    let interface_method = repository_method("findById", not_found_declared());
    let relation = implements("DatabaseUserRepository");

    let violations = generate_lsp_violations(
        &signatures,
        &vec![interface_method],
        &vec![relation],
        &graph,
        &mut NoOpTypeResolver,
    );

    assert_eq!(violations.len(), 1);
    assert_eq!(violations[0].implementation.name.as_str(), "findById");
    assert_eq!(violations[0].illegal_throws.len(), 1);
    assert_eq!(violations[0].illegal_throws[0], named("DBError"));
}

#[test]
fn lsp_violation_allows_declared_throw() {
    let mut signatures = SignatureMap::new();
    let graph = CallGraph::new();
    let method_id = FunctionId::new("test.ts", "findById", Span { start: 100, end: 200 });
    signatures.insert(
        method_id.clone(),
        signature(
            &method_id,
            Span { start: 110, end: 118 },
            vec![],
            vec![throw_site(150, 180, named("NotFoundError"))],
            vec![],
            vec![],
            Some("ImplementationA".to_string()),
        ),
    );
    let interface_method = repository_method("findById", not_found_declared());
    let relation = implements("ImplementationA");

    let violations = generate_lsp_violations(
        &signatures,
        &vec![interface_method],
        &vec![relation],
        &graph,
        &mut NoOpTypeResolver,
    );
    assert!(violations.is_empty());
}

#[test]
fn lsp_violation_no_throws_declared_means_no_throws_allowed() {
    let mut signatures = SignatureMap::new();
    let graph = CallGraph::new();
    let method_id = FunctionId::new("test.ts", "save", Span { start: 100, end: 200 });
    signatures.insert(
        method_id.clone(),
        signature(
            &method_id,
            Span { start: 110, end: 114 },
            vec![],
            vec![throw_site(150, 180, named("IOError"))],
            vec![],
            vec![],
            Some("DatabaseUserRepository".to_string()),
        ),
    );
    let interface_method = repository_method("save", vec![]);
    let relation = implements("DatabaseUserRepository");

    let violations = generate_lsp_violations(
        &signatures,
        &vec![interface_method],
        &vec![relation],
        &graph,
        &mut NoOpTypeResolver,
    );
    assert_eq!(violations.len(), 1);
    assert_eq!(violations[0].illegal_throws[0], named("IOError"));
}

struct OriginFileResolver;

impl TypeResolver for OriginFileResolver {
    fn is_assignable_to(&mut self, _file_path: &str, thrown_type: &str, declared_type: &str) -> bool {
        thrown_type == declared_type
    }

    fn resolve_type(&mut self, file_path: &str, _span: Span) -> Option<String> {
        if file_path == "factory.ts" {
            Some("Error".to_string())
        } else {
            None
        }
    }
}

#[test]
fn cross_file_unknown_resolves_against_origin_file() {
    let origin_fn = FunctionId::new("factory.ts", "createHandler", Span { start: 0, end: 300 });
    let caller_fn = FunctionId::new("setup.ts", "setup", Span { start: 0, end: 100 });
    let sig = signature(
        &caller_fn,
        Span { start: 13, end: 18 },
        vec![DeclaredThrow { error_type: "Error".to_string(), description: None, span: Span { start: 0, end: 0 } }],
        vec![],
        vec![],
        vec![],
        None,
    );
    let propagated = vec![PropagatedThrow {
        error_type: ErrorType::Unknown,
        origin: throw_site(217, 227, ErrorType::Unknown),
        origin_function: origin_fn,
        path: vec![caller_fn],
    }];

    let missing = find_missing_declarations(&sig, &propagated, &mut OriginFileResolver);
    assert!(
        missing.is_empty(),
        "declared @throws {{Error}} should satisfy Unknown resolved as Error at origin file, got: {:?}",
        missing.iter().map(|m| &m.error_type).collect::<Vec<_>>()
    );
}

#[test]
fn bare_catch_suppresses_all_throws() {
    let mut signatures = SignatureMap::new();
    let graph = CallGraph::new();
    let func = FunctionId::new("a.ts", "safe", Span { start: 0, end: 200 });
    signatures.insert(
        func.clone(),
        signature(
            &func,
            Span { start: 9, end: 13 },
            vec![],
            vec![throw_site(20, 50, named("MyError"))],
            vec![],
            vec![TryCatchBlock {
                try_span: Span { start: 10, end: 100 },
                catch_span: Some(Span { start: 100, end: 180 }),
                caught_types: vec![],
            }],
            None,
        ),
    );

    let propagated = compute_propagated_throws(&func, &signatures, &graph);
    assert!(
        propagated.is_empty(),
        "catch-all should suppress all throws, but got: {:?}",
        propagated.iter().map(|p| &p.error_type).collect::<Vec<_>>()
    );
}

#[test]
fn rethrow_in_bare_catch_propagates_throws() {
    let mut signatures = SignatureMap::new();
    let graph = CallGraph::new();
    let func = FunctionId::new("a.ts", "wrapper", Span { start: 0, end: 200 });
    signatures.insert(
        func.clone(),
        signature(
            &func,
            Span { start: 9, end: 16 },
            vec![],
            vec![throw_site(20, 50, named("MyError")), throw_site(120, 130, ErrorType::Rethrow("e".to_string()))],
            vec![],
            vec![TryCatchBlock {
                try_span: Span { start: 10, end: 100 },
                catch_span: Some(Span { start: 100, end: 180 }),
                caught_types: vec![],
            }],
            None,
        ),
    );

    let propagated = compute_propagated_throws(&func, &signatures, &graph);
    assert_eq!(propagated.len(), 1, "catch-all with rethrow should still propagate");
    assert_eq!(propagated[0].error_type, named("MyError"));
}

#[test]
fn rethrow_in_catch_does_not_discard_instanceof_match() {
    let mut signatures = SignatureMap::new();
    let graph = CallGraph::new();
    let func = FunctionId::new("a.ts", "handleTarget", Span { start: 0, end: 300 });
    signatures.insert(
        func.clone(),
        signature(
            &func,
            Span { start: 9, end: 21 },
            vec![],
            vec![throw_site(20, 50, named("TargetError")), throw_site(220, 230, ErrorType::Rethrow("e".to_string()))],
            vec![],
            vec![TryCatchBlock {
                try_span: Span { start: 10, end: 100 },
                catch_span: Some(Span { start: 100, end: 250 }),
                caught_types: vec!["TargetError".to_string()],
            }],
            None,
        ),
    );

    let propagated = compute_propagated_throws(&func, &signatures, &graph);
    assert!(
        propagated.is_empty(),
        "TargetError is caught by instanceof, should not propagate, but got: {:?}",
        propagated.iter().map(|p| &p.error_type).collect::<Vec<_>>()
    );
}

#[test]
fn lib_duplicate_call_uncaught_outside_try() {
    let mut signatures = SignatureMap::new();
    let mut graph = CallGraph::new();
    let callee = FunctionId::new("a.ts", "risky", Span { start: 0, end: 50 });
    let caller = FunctionId::new("a.ts", "callTwice", Span { start: 100, end: 400 });
    signatures.insert(
        callee.clone(),
        signature(&callee, Span { start: 9, end: 14 }, vec![], vec![throw_site(20, 40, named("SomeError"))], vec![], vec![], None),
    );
    signatures.insert(
        caller.clone(),
        signature(
            &caller,
            Span { start: 109, end: 118 },
            vec![],
            vec![],
            vec![
                CallSite {
                    callee_name: "risky".to_string(),
                    callee_span: Span { start: 150, end: 155 },
                    location: Span { start: 150, end: 160 },
                },
                CallSite {
                    callee_name: "risky".to_string(),
                    callee_span: Span { start: 300, end: 305 },
                    location: Span { start: 300, end: 310 },
                },
            ],
            vec![TryCatchBlock {
                try_span: Span { start: 130, end: 200 },
                catch_span: Some(Span { start: 200, end: 250 }),
                caught_types: vec![],
            }],
            None,
        ),
    );
    graph.add_function(callee.clone());
    graph.add_function(caller.clone());
    graph.add_call_with_location(&caller, &callee, Span { start: 150, end: 160 });
    graph.add_call_with_location(&caller, &callee, Span { start: 300, end: 310 });

    let propagated = compute_propagated_throws(&caller, &signatures, &graph);
    assert_eq!(propagated.len(), 1, "second call to risky() is outside try-catch, should propagate");
}

#[test]
fn shared_transitive_callee_propagates_via_uncaught_path() {
    let mut signatures = SignatureMap::new();
    let mut graph = CallGraph::new();
    let f = FunctionId::new("f.ts", "f", Span { start: 0, end: 50 });
    let a = FunctionId::new("a.ts", "a", Span { start: 0, end: 100 });
    let b = FunctionId::new("b.ts", "b", Span { start: 0, end: 100 });
    let caller = FunctionId::new("main.ts", "caller", Span { start: 0, end: 400 });

    signatures.insert(
        f.clone(),
        signature(&f, Span { start: 9, end: 10 }, vec![], vec![throw_site(20, 40, named("SharedError"))], vec![], vec![], None),
    );
    for (id, call_loc) in [(&a, 50u32), (&b, 50u32)] {
        signatures.insert(
            (*id).clone(),
            signature(
                id,
                Span { start: 9, end: 10 },
                vec![],
                vec![],
                vec![CallSite {
                    callee_name: "f".to_string(),
                    callee_span: Span { start: call_loc, end: call_loc + 1 },
                    location: Span { start: call_loc, end: call_loc + 10 },
                }],
                vec![],
                None,
            ),
        );
    }
    signatures.insert(
        caller.clone(),
        signature(
            &caller,
            Span { start: 9, end: 15 },
            vec![],
            vec![],
            vec![
                CallSite {
                    callee_name: "a".to_string(),
                    callee_span: Span { start: 150, end: 151 },
                    location: Span { start: 150, end: 160 },
                },
                CallSite {
                    callee_name: "b".to_string(),
                    callee_span: Span { start: 300, end: 301 },
                    location: Span { start: 300, end: 310 },
                },
            ],
            vec![TryCatchBlock {
                try_span: Span { start: 130, end: 200 },
                catch_span: Some(Span { start: 200, end: 250 }),
                caught_types: vec![],
            }],
            None,
        ),
    );

    graph.add_function(f.clone());
    graph.add_function(a.clone());
    graph.add_function(b.clone());
    graph.add_function(caller.clone());
    graph.add_call_with_location(&a, &f, Span { start: 50, end: 60 });
    graph.add_call_with_location(&b, &f, Span { start: 50, end: 60 });
    graph.add_call_with_location(&caller, &b, Span { start: 300, end: 310 });
    graph.add_call_with_location(&caller, &a, Span { start: 150, end: 160 });

    let propagated = compute_propagated_throws(&caller, &signatures, &graph);
    assert_eq!(
        propagated.len(),
        1,
        "SharedError should propagate via b() (outside try-catch). Got: {:?}",
        propagated.iter().map(|p| &p.error_type).collect::<Vec<_>>()
    );
    assert_eq!(propagated[0].error_type, named("SharedError"));
    assert_eq!(propagated[0].path, vec![caller.clone(), b.clone()]);
}

#[test]
fn same_name_different_callee_false_positive() {
    let mut signatures = SignatureMap::new();
    let mut graph = CallGraph::new();
    let a_find = FunctionId::new("a.ts", "find", Span { start: 0, end: 50 });
    let b_find = FunctionId::new("b.ts", "find", Span { start: 0, end: 50 });
    let caller = FunctionId::new("main.ts", "caller", Span { start: 0, end: 400 });

    signatures.insert(
        a_find.clone(),
        signature(&a_find, Span { start: 9, end: 13 }, vec![], vec![throw_site(20, 40, named("NotFoundError"))], vec![], vec![], None),
    );
    signatures.insert(b_find.clone(), signature(&b_find, Span { start: 9, end: 13 }, vec![], vec![], vec![], vec![], None));
    signatures.insert(
        caller.clone(),
        signature(
            &caller,
            Span { start: 9, end: 15 },
            vec![],
            vec![],
            vec![
                CallSite {
                    callee_name: "find".to_string(),
                    callee_span: Span { start: 150, end: 154 },
                    location: Span { start: 150, end: 160 },
                },
                CallSite {
                    callee_name: "find".to_string(),
                    callee_span: Span { start: 300, end: 304 },
                    location: Span { start: 300, end: 310 },
                },
            ],
            vec![TryCatchBlock {
                try_span: Span { start: 100, end: 200 },
                catch_span: Some(Span { start: 200, end: 250 }),
                caught_types: vec![],
            }],
            None,
        ),
    );

    graph.add_function(a_find.clone());
    graph.add_function(b_find.clone());
    graph.add_function(caller.clone());
    graph.add_call_with_location(&caller, &a_find, Span { start: 150, end: 160 });
    graph.add_call_with_location(&caller, &b_find, Span { start: 300, end: 310 });

    let propagated = compute_propagated_throws(&caller, &signatures, &graph);
    assert_eq!(
        propagated.len(),
        0,
        "a.find() is caught in try-catch, b.find() does not throw. Got: {:?}",
        propagated.iter().map(|p| &p.error_type).collect::<Vec<_>>()
    );
}

#[test]
fn throws_propagate_through_a_chain_of_calls() {
    let mut signatures = SignatureMap::new();
    let mut graph = CallGraph::new();
    let top = FunctionId::new("a.ts", "top", Span { start: 0, end: 100 });
    let middle = FunctionId::new("a.ts", "middle", Span { start: 100, end: 200 });
    let bottom = FunctionId::new("a.ts", "bottom", Span { start: 200, end: 300 });
    let call = |name: &str, at: u32| CallSite {
        callee_name: name.to_string(),
        callee_span: Span { start: at, end: at + 5 },
        location: Span { start: at, end: at + 10 },
    };
    signatures.insert(top.clone(), signature(&top, Span { start: 9, end: 12 }, vec![], vec![], vec![call("middle", 20)], vec![], None));
    signatures.insert(middle.clone(), signature(&middle, Span { start: 109, end: 115 }, vec![], vec![], vec![call("bottom", 120)], vec![], None));
    signatures.insert(
        bottom.clone(),
        signature(&bottom, Span { start: 209, end: 215 }, vec![], vec![throw_site(220, 240, named("DeepError"))], vec![], vec![], None),
    );
    graph.add_function(top.clone());
    graph.add_function(middle.clone());
    graph.add_function(bottom.clone());
    graph.add_call_with_location(&top, &middle, Span { start: 20, end: 30 });
    graph.add_call_with_location(&middle, &bottom, Span { start: 120, end: 130 });

    let propagated = compute_propagated_throws(&top, &signatures, &graph);
    assert_eq!(propagated.len(), 1);
    assert_eq!(propagated[0].error_type, named("DeepError"));
    assert_eq!(propagated[0].origin_function, bottom);
    assert_eq!(propagated[0].path, vec![top.clone(), middle.clone()]);

    let diagnostics = generate_diagnostics_with_resolver(&signatures, &graph, &mut NoOpTypeResolver);
    let reported: Vec<&str> = diagnostics.iter().map(|d| d.function.name.as_str()).collect();
    assert_eq!(reported, vec!["top", "middle", "bottom"]);
}

#[test]
fn own_throws_come_first_then_each_callee_in_turn() {
    let mut signatures = SignatureMap::new();
    let mut graph = CallGraph::new();
    let f = FunctionId::new("a.ts", "f", Span { start: 0, end: 100 });
    let g = FunctionId::new("a.ts", "g", Span { start: 100, end: 200 });
    let h = FunctionId::new("a.ts", "h", Span { start: 200, end: 300 });
    signatures.insert(
        f.clone(),
        signature(&f, Span { start: 9, end: 10 }, vec![], vec![throw_site(50, 60, named("OwnError"))], vec![], vec![], None),
    );
    signatures.insert(
        g.clone(),
        signature(&g, Span { start: 109, end: 110 }, vec![], vec![throw_site(150, 160, named("GError"))], vec![], vec![], None),
    );
    signatures.insert(
        h.clone(),
        signature(&h, Span { start: 209, end: 210 }, vec![], vec![throw_site(250, 260, named("HError"))], vec![], vec![], None),
    );
    graph.add_function(f.clone());
    graph.add_function(g.clone());
    graph.add_function(h.clone());
    graph.add_call_with_location(&f, &g, Span { start: 20, end: 25 });
    graph.add_call_with_location(&f, &h, Span { start: 30, end: 35 });

    let propagated = compute_propagated_throws(&f, &signatures, &graph);
    let types: Vec<ErrorType> = propagated.iter().map(|p| p.error_type.clone()).collect();
    assert_eq!(types, vec![named("OwnError"), named("HError"), named("GError")]);
    assert!(propagated[0].path.is_empty());
    assert_eq!(propagated[1].path, vec![f.clone()]);
    assert_eq!(propagated[2].origin_function, g);
}

#[test]
fn an_ancestor_reached_over_two_routes_is_checked_twice() {
    let mut signatures = SignatureMap::new();
    let graph = CallGraph::new();
    let method_id = FunctionId::new("test.ts", "save", Span { start: 100, end: 200 });
    signatures.insert(
        method_id.clone(),
        signature(
            &method_id,
            Span { start: 110, end: 114 },
            vec![],
            vec![throw_site(150, 180, named("IOError"))],
            vec![],
            vec![],
            Some("Impl".to_string()),
        ),
    );
    let relation = |child: &str, parent: &str| TypeRelation {
        child: TypeId::new("test.ts", child, Span { start: 0, end: 1 }),
        parent: TypeId::new("test.ts", parent, Span { start: 2, end: 3 }),
        kind: RelationKind::Implements,
    };
    let relations = vec![
        relation("Impl", "Reader"),
        relation("Impl", "Writer"),
        relation("Reader", "UserRepository"),
        relation("Writer", "UserRepository"),
    ];
    let interface_method = repository_method("save", vec![]);

    let violations =
        generate_lsp_violations(&signatures, &vec![interface_method], &relations, &graph, &mut NoOpTypeResolver);
    assert_eq!(violations.len(), 2);
    assert!(violations.iter().all(|v| v.parent_method.type_id.name == "UserRepository"));
    assert!(violations.iter().all(|v| v.illegal_throws == vec![named("IOError")]));
}

#[test]
fn propagation_through_a_cycle_keeps_deeper_throws() {
    let a = FunctionId::new("a.ts", "a", Span { start: 0, end: 10 });
    let b = FunctionId::new("a.ts", "b", Span { start: 20, end: 30 });
    let c = FunctionId::new("a.ts", "c", Span { start: 40, end: 50 });
    let mut signatures = SignatureMap::new();
    signatures.insert(a.clone(), signature(&a, Span { start: 0, end: 1 }, vec![], vec![], vec![], vec![], None));
    signatures.insert(b.clone(), signature(&b, Span { start: 20, end: 21 }, vec![], vec![], vec![], vec![], None));
    signatures.insert(
        c.clone(),
        signature(&c, Span { start: 40, end: 41 }, vec![], vec![throw_site(42, 48, named("Deep"))], vec![], vec![], None),
    );
    let mut graph = CallGraph::new();
    graph.add_function(a.clone());
    graph.add_function(b.clone());
    graph.add_function(c.clone());
    graph.add_call(&a, &b);
    graph.add_call(&b, &a);
    graph.add_call(&b, &c);
    let from_a = compute_propagated_throws(&a, &signatures, &graph);
    assert_eq!(from_a.len(), 1);
    assert_eq!(from_a[0].error_type, named("Deep"));
    assert_eq!(from_a[0].origin_function, c);
    assert_eq!(from_a[0].path, vec![a.clone(), b.clone()]);
    let from_b = compute_propagated_throws(&b, &signatures, &graph);
    assert_eq!(from_b.len(), 1);
    assert_eq!(from_b[0].path, vec![b.clone()]);
}

#[test]
fn transitive_callees_come_in_search_order() {
    let mut graph = CallGraph::new();
    let a = FunctionId::new("a.ts", "a", Span { start: 0, end: 10 });
    let b = FunctionId::new("a.ts", "b", Span { start: 20, end: 30 });
    let c = FunctionId::new("a.ts", "c", Span { start: 40, end: 50 });
    let d = FunctionId::new("a.ts", "d", Span { start: 60, end: 70 });
    for f in [&a, &b, &c, &d] {
        graph.add_function(f.clone());
    }
    graph.add_call(&a, &b);
    graph.add_call(&a, &c);
    graph.add_call(&b, &d);
    graph.add_call(&d, &a);
    assert_eq!(graph.get_transitive_callees(&a), vec![c.clone(), b.clone(), d.clone(), a.clone()]);
}
