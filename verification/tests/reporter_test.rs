use throw_trace::reporter::{build_missing_throw_json, help_types, render_text, OutputFormat};
use throw_trace::types::{Diagnostic, ErrorType, FunctionId, PropagatedThrow, Span, ThrowSite};

fn propagated(error_type: ErrorType) -> PropagatedThrow {
    let span = Span { start: 0, end: 10 };
    PropagatedThrow {
        error_type: error_type.clone(),
        origin: ThrowSite { location: span, error_type },
        origin_function: FunctionId::new("a.ts", "origin", span),
        path: vec![],
    }
}

#[test]
fn help_types_renders_unknown_as_declarable_type() {
    let missing = vec![propagated(ErrorType::Unknown)];
    assert_eq!(help_types(&missing), "unknown");
}

#[test]
fn help_types_joins_named_types() {
    let missing = vec![propagated(ErrorType::Named("AppError".into())), propagated(ErrorType::Unknown)];
    assert_eq!(help_types(&missing), "AppError, unknown");
}

#[test]
fn help_types_shows_a_run_of_one_type_once() {
    let missing = vec![
        propagated(ErrorType::Named("A".into())),
        propagated(ErrorType::Named("A".into())),
        propagated(ErrorType::Named("B".into())),
        propagated(ErrorType::Named("A".into())),
    ];
    assert_eq!(help_types(&missing), "A, B, A");
}

fn line_fixture_source() -> &'static str {
    "L1\nL2\nL3\nL4\n"
}

fn sources_with(sources: Vec<(&str, &str)>) -> Vec<(String, String)> {
    sources.into_iter().map(|(k, v)| (k.to_string(), v.to_string())).collect()
}

fn diagnostic_with(function: FunctionId, missing_throws: Vec<PropagatedThrow>) -> Diagnostic {
    Diagnostic { function, missing_throws }
}

fn throw_of_e(origin_location: Span, origin_function: FunctionId, path: Vec<FunctionId>) -> PropagatedThrow {
    PropagatedThrow {
        error_type: ErrorType::Named("E".into()),
        origin: ThrowSite { location: origin_location, error_type: ErrorType::Named("E".into()) },
        origin_function,
        path,
    }
}

#[test]
fn render_text_no_issues_reports_files_checked() {
    let sources = sources_with(vec![]);
    let rendered = render_text(&[], &[], 3, &sources);
    assert_eq!(rendered, "No issues found in 3 files\n");
}

#[test]
fn render_text_header_shows_resolved_line_and_function_name() {
    let sources = sources_with(vec![("diag.ts", line_fixture_source())]);
    let func = FunctionId::new("diag.ts", "createTestTarget", Span { start: 6, end: 8 });
    let missing = vec![throw_of_e(
        Span { start: 0, end: 2 },
        FunctionId::new("diag.ts", "validateInput", Span { start: 0, end: 2 }),
        vec![],
    )];
    let diag = diagnostic_with(func, missing);
    let rendered = render_text(std::slice::from_ref(&diag), &[], 1, &sources);

    assert!(rendered.contains("  --> diag.ts:3 (createTestTarget)"), "expected resolved header line, got: {rendered}");
}

#[test]
fn render_text_shows_throw_at_line_with_no_hops_when_path_empty() {
    let sources = sources_with(vec![("diag.ts", line_fixture_source())]);
    let func = FunctionId::new("diag.ts", "validateInput", Span { start: 0, end: 2 });
    let missing = vec![throw_of_e(
        Span { start: 6, end: 8 },
        FunctionId::new("diag.ts", "validateInput", Span { start: 0, end: 2 }),
        vec![],
    )];
    let diag = diagnostic_with(func, missing);
    let rendered = render_text(std::slice::from_ref(&diag), &[], 1, &sources);

    assert!(
        rendered.contains("   | E propagates through:\n   |     throw at diag.ts:3 in validateInput\n   |\n"),
        "expected throw-at line with no hops, got: {rendered}"
    );
}

#[test]
fn render_text_reverses_path_from_origin_toward_diagnostic_function() {
    let sources = sources_with(vec![
        ("errors.ts", line_fixture_source()),
        ("config.ts", line_fixture_source()),
        ("target.ts", line_fixture_source()),
    ]);
    let path = vec![
        FunctionId::new("target.ts", "createTestTarget", Span { start: 0, end: 2 }),
        FunctionId::new("config.ts", "parseConfig", Span { start: 3, end: 5 }),
    ];
    let missing = vec![throw_of_e(
        Span { start: 6, end: 8 },
        FunctionId::new("errors.ts", "validateInput", Span { start: 0, end: 2 }),
        path,
    )];
    let func = FunctionId::new("target.ts", "createTestTarget", Span { start: 0, end: 2 });
    let diag = diagnostic_with(func, missing);
    let rendered = render_text(std::slice::from_ref(&diag), &[], 1, &sources);

    let expected_block = [
        "   | E propagates through:",
        "   |     throw at errors.ts:3 in validateInput",
        "   |     \u{2190} parseConfig (config.ts:2)",
        "   |     \u{2190} createTestTarget (target.ts:1)",
        "   |\n",
    ]
    .join("\n");
    assert!(
        rendered.contains(&expected_block),
        "expected reversed hop order from origin to diagnostic function, got: {rendered}"
    );
}

#[test]
fn render_text_falls_back_to_question_mark_when_source_unreadable() {
    let sources = sources_with(vec![]);
    let func = FunctionId::new("diag.ts", "createTestTarget", Span { start: 0, end: 2 });
    let missing = vec![throw_of_e(
        Span { start: 0, end: 2 },
        FunctionId::new("missing.ts", "validateInput", Span { start: 0, end: 2 }),
        vec![],
    )];
    let diag = diagnostic_with(func, missing);
    let rendered = render_text(std::slice::from_ref(&diag), &[], 1, &sources);

    assert!(rendered.contains("  --> diag.ts:? (createTestTarget)"), "expected header line fallback, got: {rendered}");
    assert!(rendered.contains("throw at missing.ts:? in validateInput"), "expected origin line fallback, got: {rendered}");
}

#[test]
fn render_text_emits_separate_blocks_for_each_propagation_without_dedup() {
    let sources = sources_with(vec![("diag.ts", line_fixture_source())]);
    let func = FunctionId::new("diag.ts", "createTestTarget", Span { start: 0, end: 2 });
    let origin = || FunctionId::new("diag.ts", "validateInput", Span { start: 0, end: 2 });
    let missing = vec![
        throw_of_e(Span { start: 0, end: 2 }, origin(), vec![FunctionId::new("diag.ts", "pathA", Span { start: 0, end: 2 })]),
        throw_of_e(Span { start: 0, end: 2 }, origin(), vec![FunctionId::new("diag.ts", "pathB", Span { start: 0, end: 2 })]),
    ];
    let diag = diagnostic_with(func, missing);
    let rendered = render_text(std::slice::from_ref(&diag), &[], 1, &sources);

    assert_eq!(
        rendered.matches("E propagates through:").count(),
        2,
        "expected both propagation paths to be rendered, got: {rendered}"
    );
    assert!(rendered.contains("pathA"));
    assert!(rendered.contains("pathB"));
}

#[test]
fn render_text_counts_errors_and_ends_with_summary() {
    let sources = sources_with(vec![]);
    let func = FunctionId::new("d.ts", "f", Span { start: 0, end: 2 });
    let missing = vec![
        throw_of_e(Span { start: 0, end: 2 }, FunctionId::new("d.ts", "g", Span { start: 0, end: 2 }), vec![]),
        propagated(ErrorType::Unknown),
    ];
    let diag = diagnostic_with(func, missing);
    let rendered = render_text(std::slice::from_ref(&diag), &[], 4, &sources);
    assert!(rendered.contains("   = help: add @throws {E, unknown} to function f\n\n"));
    assert!(rendered.ends_with("Found 2 errors in 4 files\n"));
}

#[test]
fn build_missing_throw_json_includes_origin_and_path() {
    let sources = sources_with(vec![("errors.ts", line_fixture_source()), ("config.ts", line_fixture_source())]);
    let missing = throw_of_e(
        Span { start: 6, end: 8 },
        FunctionId::new("errors.ts", "validateInput", Span { start: 0, end: 2 }),
        vec![FunctionId::new("config.ts", "parseConfig", Span { start: 3, end: 5 })],
    );

    let json = build_missing_throw_json(&missing, &sources);

    assert_eq!(json.origin_file, "errors.ts");
    assert_eq!(json.origin_line, Some(3));
    assert_eq!(json.origin_function, "validateInput");
    assert_eq!(json.path.len(), 1);
    assert_eq!(json.path[0].file, "config.ts");
    assert_eq!(json.path[0].line, Some(2));
    assert_eq!(json.path[0].function, "parseConfig");
}

#[test]
fn build_missing_throw_json_uses_null_line_when_source_unreadable() {
    let sources = sources_with(vec![]);
    let missing = throw_of_e(
        Span { start: 0, end: 2 },
        FunctionId::new("missing.ts", "validateInput", Span { start: 0, end: 2 }),
        vec![],
    );

    let json = build_missing_throw_json(&missing, &sources);

    assert_eq!(json.origin_line, None);
}

#[test]
fn output_format_accepts_any_case() {
    assert_eq!(OutputFormat::from_str("text"), Some(OutputFormat::Text));
    assert_eq!(OutputFormat::from_str("JSON"), Some(OutputFormat::Json));
    assert_eq!(OutputFormat::from_str("Json"), Some(OutputFormat::Json));
    assert_eq!(OutputFormat::from_str("yaml"), None);
}
