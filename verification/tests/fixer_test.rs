use throw_trace::fixer::{apply_fixes, fix_files, generate_throws_entries, group_by_file, sync_jsdoc, ThrowsEntry};
use throw_trace::types::{Diagnostic, ErrorType, FunctionId, PropagatedThrow, Span, ThrowSite};

fn entry(name: &str) -> ThrowsEntry {
    ThrowsEntry {
        error_type: name.to_string(),
        text: format!("@throws {{{name}}} from input.ts:test"),
    }
}

#[test]
fn stale_generated_throw_is_removed_without_dropping_jsdoc_description() {
    let existing = vec![
        "/**".to_string(),
        " * Performs the operation.".to_string(),
        " * @throws {StaleError} from old.ts:old".to_string(),
        " */".to_string(),
    ];

    let synced = sync_jsdoc(&existing, &[]);

    assert_eq!(synced, vec!["/**".to_string(), " * Performs the operation.".to_string(), " */".to_string()]);
}

#[test]
fn missing_throw_is_added_to_existing_single_line_jsdoc() {
    let existing = vec!["/** Performs the operation. */".to_string()];

    let synced = sync_jsdoc(&existing, &[entry("AppError")]);

    assert_eq!(
        synced,
        vec![
            "/** Performs the operation.".to_string(),
            " * @throws {AppError} from input.ts:test".to_string(),
            " */".to_string()
        ]
    );
}

#[test]
fn duplicate_generated_throws_are_collapsed_but_manual_description_is_preserved() {
    let existing = vec![
        "/**".to_string(),
        " * @throws {AppError}".to_string(),
        " * @throws {AppError} from input.ts:test".to_string(),
        " * @throws {ManualError} Documented by a maintainer.".to_string(),
        " */".to_string(),
    ];

    let synced = sync_jsdoc(&existing, &[entry("AppError")]);

    assert_eq!(
        synced,
        vec![
            "/**".to_string(),
            " * @throws {AppError}".to_string(),
            " * @throws {ManualError} Documented by a maintainer.".to_string(),
            " */".to_string()
        ]
    );
}

#[test]
fn comment_left_empty_is_removed() {
    let existing = vec!["/**".to_string(), " * @throws {Old} from a.ts:f".to_string(), " */".to_string()];
    assert!(sync_jsdoc(&existing, &[]).is_empty());
}

#[test]
fn comment_without_content_is_regenerated_with_its_indent() {
    let existing = vec!["    /**".to_string(), "     */".to_string()];
    let synced = sync_jsdoc(&existing, &[entry("A")]);
    assert_eq!(
        synced,
        vec![
            "    /**".to_string(),
            "     * @throws {A} from input.ts:test".to_string(),
            "     */".to_string()
        ]
    );
}

fn propagated(error_type: ErrorType, origin_file: &str, origin_name: &str) -> PropagatedThrow {
    let span = Span { start: 0, end: 1 };
    PropagatedThrow {
        error_type: error_type.clone(),
        origin: ThrowSite { location: span, error_type },
        origin_function: FunctionId::new(origin_file, origin_name, span),
        path: vec![],
    }
}

#[test]
fn entries_are_one_per_type_named_after_the_origin_file() {
    let entries = generate_throws_entries(&[
        propagated(ErrorType::Named("DBError".to_string()), "src/db/query.ts", "run"),
        propagated(ErrorType::Rethrow("e".to_string()), "x.ts", "y"),
        propagated(ErrorType::Named("DBError".to_string()), "other.ts", "other"),
        propagated(ErrorType::Unknown, "z.ts", "w"),
    ]);
    assert_eq!(entries.len(), 3);
    assert_eq!(entries[0], ThrowsEntry { error_type: "DBError".to_string(), text: "@throws {DBError} from query.ts:run".to_string() });
    assert_eq!(entries[1].text, "@throws {e} from x.ts:y");
    assert_eq!(entries[2].text, "@throws {unknown} from z.ts:w");
}

fn diagnostic(file: &str, name: &str, start: u32, error: &str) -> Diagnostic {
    Diagnostic {
        function: FunctionId::new(file, name, Span { start, end: start + 10 }),
        missing_throws: vec![propagated(ErrorType::Named(error.to_string()), "lib/errors.ts", "fail")],
    }
}

#[test]
fn comment_is_inserted_above_an_undocumented_function_with_its_indent() {
    let source = "class A {\n  run() {\n    fail();\n  }\n}\n";
    let d = diagnostic("a.ts", "run", 12, "E");
    let fixed = apply_fixes(source, &[d]).unwrap();
    assert_eq!(
        fixed,
        "class A {\n  /**\n   * @throws {E} from errors.ts:fail\n   */\n  run() {\n    fail();\n  }\n}\n"
    );
}

#[test]
fn existing_comment_is_synced_and_crlf_and_bom_are_kept() {
    let source = "\u{feff}/**\r\n * Does it.\r\n */\r\nfunction f() {}";
    let d = diagnostic("a.ts", "f", 26, "E");
    let fixed = apply_fixes(source, &[d]).unwrap();
    assert_eq!(fixed, "\u{feff}/**\r\n * Does it.\r\n  * @throws {E} from errors.ts:fail\r\n  */\r\nfunction f() {}");
}

#[test]
fn nothing_to_change_gives_none() {
    let source = "/**\n * @throws {E} from errors.ts:fail\n */\nfunction f() {}\n";
    let d = diagnostic("a.ts", "f", 43, "E");
    assert_eq!(apply_fixes(source, &[d]), None);
}

#[test]
fn files_are_fixed_once_each_in_order_of_mention() {
    let ds = vec![
        diagnostic("b.ts", "g", 0, "E"),
        diagnostic("a.ts", "f", 0, "E"),
        diagnostic("b.ts", "h", 16, "F"),
    ];
    assert_eq!(group_by_file(&ds), vec!["b.ts".to_string(), "a.ts".to_string()]);
    let sources = vec![
        ("a.ts".to_string(), "function f() {}\n".to_string()),
        ("b.ts".to_string(), "function g() {}\nfunction h() {}\n".to_string()),
    ];
    let fixed = fix_files(&ds, &sources);
    assert_eq!(fixed.len(), 2);
    assert_eq!(fixed[0].0, "b.ts");
    assert_eq!(
        fixed[0].1,
        "/**\n * @throws {E} from errors.ts:fail\n */\nfunction g() {}\n/**\n * @throws {F} from errors.ts:fail\n */\nfunction h() {}\n"
    );
    assert_eq!(fixed[1].0, "a.ts");
}

#[test]
fn without_wanted_tags_only_generated_tags_go() {
    let existing = vec![
        "/**".to_string(),
        " * @throws {Manual} when the input is empty".to_string(),
        " * @throws {Generated} from a.ts:f".to_string(),
        " */".to_string(),
    ];
    let synced = sync_jsdoc(&existing, &[]);
    assert_eq!(
        synced,
        vec!["/**".to_string(), " * @throws {Manual} when the input is empty".to_string(), " */".to_string()]
    );
}

#[test]
fn every_wanted_type_is_declared_after_sync() {
    let existing = vec!["/**".to_string(), " * @throws {A} from a.ts:f".to_string(), " */".to_string()];
    let synced = sync_jsdoc(&existing, &[entry("A"), entry("B")]);
    assert!(synced.iter().any(|l| l.contains("@throws {A}")));
    assert!(synced.iter().any(|l| l.ends_with(" * @throws {B} from input.ts:test")));
}

#[test]
fn written_tags_read_back_as_declarations_of_their_type() {
    let origin = FunctionId { file_path: "src/origin.ts".to_string(), name: "load".to_string(), span: Span { start: 0, end: 1 } };
    let p = PropagatedThrow {
        error_type: ErrorType::Named("NotFoundError".to_string()),
        origin: ThrowSite { location: Span { start: 0, end: 1 }, error_type: ErrorType::Named("NotFoundError".to_string()) },
        origin_function: origin,
        path: vec![],
    };
    let entries = generate_throws_entries(&[p]);
    let comment = sync_jsdoc(&[], &entries).join("\n");
    let declared = throw_trace::jsdoc::extract_throws_from_jsdoc(&comment);
    assert_eq!(declared.len(), 1);
    assert_eq!(declared[0].error_type, "NotFoundError");
}

#[test]
fn syncing_twice_adds_nothing_more() {
    let existing = vec![
        "  /**".to_string(),
        "   * Loads a user.".to_string(),
        "   * @throws {Stale} from old.ts:gone".to_string(),
        "   */".to_string(),
    ];
    let wanted = [entry("NotFoundError"), entry("ValidationError")];
    let once = sync_jsdoc(&existing, &wanted);
    let twice = sync_jsdoc(&once, &wanted);
    assert_eq!(once, twice);
    assert_eq!(once.iter().filter(|l| l.contains("@throws {NotFoundError}")).count(), 1);
}

#[test]
fn syncing_again_leaves_the_comment_as_it_was() {
    let existing = vec![
        "/**".to_string(),
        " * @throws {NotFoundError} when the row is gone".to_string(),
        " * @throws {ValidationError} from a.ts:check".to_string(),
        " * @throws {ValidationError} from b.ts:check".to_string(),
        " * @throws {Stale} from old.ts:gone".to_string(),
        " */".to_string(),
    ];
    let wanted = [entry("NotFoundError"), entry("ValidationError"), entry("TimeoutError")];
    let once = sync_jsdoc(&existing, &wanted);
    assert_eq!(
        once,
        vec![
            "/**".to_string(),
            " * @throws {NotFoundError} when the row is gone".to_string(),
            " * @throws {ValidationError} from a.ts:check".to_string(),
            "  * @throws {TimeoutError} from input.ts:test".to_string(),
            "  */".to_string(),
        ]
    );
    assert_eq!(sync_jsdoc(&once, &wanted), once);

    let fresh = sync_jsdoc(&[], &wanted);
    assert_eq!(sync_jsdoc(&fresh, &wanted), fresh);
}

#[test]
fn fixing_keeps_the_mark_and_the_final_crlf() {
    let source = "\u{feff}function f() {}\r\n";
    let d = diagnostic("a.ts", "f", 3, "E");
    let fixed = apply_fixes(source, &[d]).unwrap();
    assert!(fixed.starts_with('\u{feff}'));
    assert!(fixed.ends_with("\r\n"));
    assert_eq!(fixed, "\u{feff}/**\r\n * @throws {E} from errors.ts:fail\r\n */\r\nfunction f() {}\r\n");
}
