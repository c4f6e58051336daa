use throw_trace::catch_clause::{CatchStatement, IfTest};
use throw_trace::extract::{
    analyze_expression, analyze_parsed_throw, extract_type_names, parse_declared_throws, preceding_jsdoc,
    ClassDecl, FunctionExtractor, InterfaceDecl, MethodDecl, NamedRef, ThrownExpr, TypeAnnotation,
};
use throw_trace::types::{ErrorType, RelationKind, Span};

fn sp(start: u32, end: u32) -> Span {
    Span { start, end }
}

#[test]
fn comment_right_before_a_function_is_found() {
    let source = "/** @throws {E} */\nfunction f() {}";
    assert_eq!(preceding_jsdoc(source, 19), Some("/** @throws {E} */".to_string()));
    assert_eq!(preceding_jsdoc("const x = 1;\nfunction f() {}", 13), None);
    // Text after the comment means it documents something else.
    assert_eq!(preceding_jsdoc("/** a */ x;\nfunction f() {}", 12), None);
}

#[test]
fn last_doc_comment_opener_starts_the_comment() {
    let source = "/** one */\n/** two */\nfunction f() {}";
    assert_eq!(preceding_jsdoc(source, 22), Some("/** two */".to_string()));
}

#[test]
fn declared_throws_carry_no_span() {
    let ds = parse_declared_throws("/**\n * @throws {A} why\n * @throws {B | C}\n */");
    assert_eq!(ds.len(), 3);
    assert_eq!(ds[0].error_type, "A");
    assert_eq!(ds[0].description.as_deref(), Some("why"));
    assert_eq!(ds[2].error_type, "C");
    assert_eq!(ds[1].span, sp(0, 0));
}

#[test]
fn union_annotation_lists_each_named_member() {
    let t = TypeAnnotation::Union(vec![
        TypeAnnotation::Reference(Some("ErrorA".to_string())),
        TypeAnnotation::Other,
        TypeAnnotation::Union(vec![TypeAnnotation::Reference(Some("ErrorB".to_string())), TypeAnnotation::Reference(None)]),
    ]);
    assert_eq!(extract_type_names(&t), vec!["ErrorA".to_string(), "ErrorB".to_string()]);
    assert!(extract_type_names(&TypeAnnotation::Other).is_empty());
}

#[test]
fn thrown_expression_types() {
    let none: Vec<String> = vec![];
    assert_eq!(analyze_expression(&ThrownExpr::New(Some("ValidationError".into())), &none), ErrorType::Named("ValidationError".into()));
    assert_eq!(analyze_expression(&ThrownExpr::Other, &none), ErrorType::Unknown);
    assert_eq!(analyze_expression(&ThrownExpr::Identifier("err".into()), &none), ErrorType::Unknown);
    let params = vec!["e".to_string()];
    assert_eq!(analyze_expression(&ThrownExpr::Identifier("e".into()), &params), ErrorType::Rethrow("e".into()));
    assert_eq!(analyze_expression(&ThrownExpr::Identifier("err".into()), &params), ErrorType::Unknown);
    assert_eq!(analyze_expression(&ThrownExpr::Call(Some("createError".into())), &none), ErrorType::Named("createError".into()));
    assert_eq!(analyze_expression(&ThrownExpr::Call(Some("make".into())), &none), ErrorType::Unknown);
    let cond = ThrownExpr::Conditional(Box::new(ThrownExpr::Other), Box::new(ThrownExpr::New(Some("B".into()))));
    assert_eq!(analyze_expression(&cond, &none), ErrorType::Named("B".into()));
    assert_eq!(analyze_parsed_throw(&None, &none), ErrorType::Unknown);
}

#[test]
fn extractor_records_functions_throws_calls_and_blocks() {
    let source = "/** @throws {E} */\nfunction f() { throw err; g(); }";
    let mut ex = FunctionExtractor::new(source, "a.ts");
    let idx = ex.begin_function("f", sp(28, 29), sp(19, 51), false, 19);
    assert_eq!(idx, 0);
    ex.record_variable_type(
        "err",
        &TypeAnnotation::Union(vec![
            TypeAnnotation::Reference(Some("A".into())),
            TypeAnnotation::Reference(Some("B".into())),
        ]),
    );
    ex.add_throw(sp(34, 44), Some("err"), &Some(ThrownExpr::Identifier("err".into())));
    ex.add_throw(sp(34, 44), None, &Some(ThrownExpr::New(Some("C".into()))));
    ex.add_call(Some(("g", sp(45, 46))), sp(45, 48));
    ex.add_call(None, sp(45, 48));
    let body = vec![CatchStatement::If(
        IfTest::Instanceof(Some("e".into()), Some("A".into())),
        Box::new(CatchStatement::Return),
        None,
    )];
    ex.add_try_catch(sp(30, 40), Some((sp(40, 50), &body, Some("e"))));
    ex.end_function();
    ex.add_throw(sp(0, 1), None, &None);
    let r = ex.finish();
    assert_eq!(r.signatures.len(), 1);
    let s = &r.signatures[0];
    assert_eq!(s.id.name, "f");
    assert_eq!(s.declared_throws.len(), 1);
    assert_eq!(s.declared_throws[0].error_type, "E");
    let types: Vec<ErrorType> = s.direct_throws.iter().map(|t| t.error_type.clone()).collect();
    assert_eq!(types, vec![ErrorType::Named("A".into()), ErrorType::Named("B".into()), ErrorType::Named("C".into())]);
    assert_eq!(s.calls.len(), 1);
    assert_eq!(s.calls[0].callee_name, "g");
    assert_eq!(s.try_catch_blocks.len(), 1);
    assert_eq!(s.try_catch_blocks[0].caught_types, vec!["A".to_string()]);
    assert_eq!(s.class_name, None);
}

#[test]
fn catch_parameters_turn_identifiers_into_rethrows() {
    let mut ex = FunctionExtractor::new("", "a.ts");
    ex.begin_function("f", sp(0, 1), sp(0, 10), true, 0);
    ex.push_catch_param("e");
    ex.add_throw(sp(1, 2), Some("e"), &Some(ThrownExpr::Identifier("e".into())));
    ex.pop_catch_param();
    ex.add_throw(sp(3, 4), Some("e"), &Some(ThrownExpr::Identifier("e".into())));
    let r = ex.finish();
    assert!(r.signatures[0].is_async);
    assert_eq!(r.signatures[0].direct_throws[0].error_type, ErrorType::Rethrow("e".into()));
    assert_eq!(r.signatures[0].direct_throws[1].error_type, ErrorType::Unknown);
}

#[test]
fn classes_and_interfaces_relate_types_and_list_methods() {
    let source = "interface Repo {\n  /** @throws {NotFound} */\n  find(): void;\n}";
    let mut ex = FunctionExtractor::new(source, "t.ts");
    ex.extract_interface(&InterfaceDecl {
        name: "Repo".into(),
        span: sp(0, 60),
        extends: vec![Some(NamedRef { name: "Base".into(), span: sp(1, 2) }), None],
        methods: vec![MethodDecl { name: Some("find".into()), span: sp(45, 58) }, MethodDecl { name: None, span: sp(0, 1) }],
    });
    let prev = ex.enter_class(&ClassDecl {
        name: Some("Db".into()),
        span: sp(70, 90),
        super_class: Some(NamedRef { name: "Base".into(), span: sp(3, 4) }),
        implements: vec![Some(NamedRef { name: "Repo".into(), span: sp(5, 6) })],
        is_abstract: true,
        abstract_methods: vec![MethodDecl { name: Some("save".into()), span: sp(0, 0) }],
    });
    assert!(prev.is_none());
    ex.begin_function("find", sp(80, 84), sp(80, 89), false, 80);
    ex.end_function();
    ex.exit_class(prev);
    ex.begin_function("free", sp(0, 1), sp(0, 2), false, 0);
    let r = ex.finish();
    assert_eq!(r.type_relations.len(), 3);
    assert_eq!(r.type_relations[0].child.name, "Repo");
    assert_eq!(r.type_relations[0].kind, RelationKind::Extends);
    assert_eq!(r.type_relations[1].child.name, "Db");
    assert_eq!(r.type_relations[1].parent.name, "Base");
    assert_eq!(r.type_relations[2].kind, RelationKind::Implements);
    assert_eq!(r.method_signatures.len(), 2);
    assert_eq!(r.method_signatures[0].method_name, "find");
    assert_eq!(r.method_signatures[0].declared_throws[0].error_type, "NotFound");
    assert!(!r.method_signatures[0].is_abstract);
    assert_eq!(r.method_signatures[1].method_name, "save");
    assert!(r.method_signatures[1].is_abstract);
    assert_eq!(r.signatures[0].class_name.as_deref(), Some("Db"));
    assert_eq!(r.signatures[1].class_name, None);
}
