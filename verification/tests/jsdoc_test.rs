use throw_trace::jsdoc::extract_throws_from_jsdoc;

#[test]
fn parse_simple_throws() {
    let result = extract_throws_from_jsdoc("/** @throws {Error} */");
    assert_eq!(result.len(), 1);
    assert_eq!(result[0].error_type, "Error");
    assert!(result[0].description.is_none());
    assert!(result[0].from.is_none());
}

#[test]
fn parse_throws_with_description() {
    let result = extract_throws_from_jsdoc("/** @throws {Error} When something fails */");
    assert_eq!(result.len(), 1);
    assert_eq!(result[0].error_type, "Error");
    assert_eq!(result[0].description, Some("When something fails".to_string()));
    assert!(result[0].from.is_none());
}

#[test]
fn parse_throws_with_from() {
    let result = extract_throws_from_jsdoc("/** @throws {DBError} from db.ts:query */");
    assert_eq!(result.len(), 1);
    assert_eq!(result[0].error_type, "DBError");
    assert!(result[0].description.is_none());
    let from = result[0].from.as_ref().unwrap();
    assert_eq!(from.file_path, "db.ts");
    assert_eq!(from.func_name, "query");
}

#[test]
fn parse_throws_with_description_and_from() {
    let result = extract_throws_from_jsdoc("/** @throws {DBError} Database failure from db.ts:query */");
    assert_eq!(result.len(), 1);
    assert_eq!(result[0].error_type, "DBError");
    assert_eq!(result[0].description, Some("Database failure".to_string()));
    let from = result[0].from.as_ref().unwrap();
    assert_eq!(from.file_path, "db.ts");
    assert_eq!(from.func_name, "query");
}

#[test]
fn parse_union_type_with_from() {
    let result = extract_throws_from_jsdoc("/** @throws {Error | DBError} from service.ts:save */");
    assert_eq!(result.len(), 2);
    assert_eq!(result[0].error_type, "Error");
    assert_eq!(result[1].error_type, "DBError");
    assert!(result[0].from.is_some());
    assert!(result[1].from.is_some());
}

#[test]
fn parse_from_in_description_not_as_origin() {
    let result = extract_throws_from_jsdoc("/** @throws {Error} when reading from disk */");
    assert_eq!(result.len(), 1);
    assert_eq!(result[0].error_type, "Error");
    assert_eq!(result[0].description, Some("when reading from disk".to_string()));
    assert!(result[0].from.is_none());
}

#[test]
fn extract_throws_single() {
    let comment = "/**\n * @throws {ValidationError} When input is invalid\n */";
    let throws = extract_throws_from_jsdoc(comment);
    assert_eq!(throws.len(), 1);
    assert_eq!(throws[0].error_type, "ValidationError");
    assert_eq!(throws[0].description.as_deref(), Some("When input is invalid"));
}

#[test]
fn extract_throws_multiple() {
    let comment = "/**\n * @throws {ValidationError}\n * @throws {NetworkError} Connection failed\n */";
    let throws = extract_throws_from_jsdoc(comment);
    assert_eq!(throws.len(), 2);
    assert_eq!(throws[0].error_type, "ValidationError");
    assert_eq!(throws[1].error_type, "NetworkError");
}

#[test]
fn extract_throws_no_braces() {
    let comment = "/** @throws Error when something fails */";
    let throws = extract_throws_from_jsdoc(comment);
    assert_eq!(throws.len(), 1);
    assert_eq!(throws[0].error_type, "Error");
}

#[test]
fn extract_throws_empty() {
    let comment = "/** This is a description */";
    let throws = extract_throws_from_jsdoc(comment);
    assert!(throws.is_empty());
}

#[test]
fn extract_throws_union_type() {
    let comment = "/**\n * @throws {ValidationError | NetworkError} When something fails\n */";
    let throws = extract_throws_from_jsdoc(comment);
    assert_eq!(throws.len(), 2);
    assert_eq!(throws[0].error_type, "ValidationError");
    assert_eq!(throws[0].description.as_deref(), Some("When something fails"));
    assert_eq!(throws[1].error_type, "NetworkError");
    assert_eq!(throws[1].description.as_deref(), Some("When something fails"));
}

#[test]
fn extract_throws_union_type_three() {
    let comment = "/**\n * @throws {A | B | C}\n */";
    let throws = extract_throws_from_jsdoc(comment);
    assert_eq!(throws.len(), 3);
    assert_eq!(throws[0].error_type, "A");
    assert_eq!(throws[1].error_type, "B");
    assert_eq!(throws[2].error_type, "C");
}

#[test]
fn no_braces_tag_keeps_description_and_origin() {
    let throws = extract_throws_from_jsdoc("/** @throws DBError lost connection from db.ts:connect */");
    assert_eq!(throws.len(), 1);
    assert_eq!(throws[0].error_type, "DBError");
    assert_eq!(throws[0].description.as_deref(), Some("lost connection"));
    let from = throws[0].from.as_ref().unwrap();
    assert_eq!(from.file_path, "db.ts");
    assert_eq!(from.func_name, "connect");
}

#[test]
fn origin_splits_at_last_colon_and_needs_both_sides() {
    let throws = extract_throws_from_jsdoc("/** @throws {E} from c:/x/a.ts:run */");
    let from = throws[0].from.as_ref().unwrap();
    assert_eq!(from.file_path, "c:/x/a.ts");
    assert_eq!(from.func_name, "run");

    let throws = extract_throws_from_jsdoc("/** @throws {E} from a.ts: */");
    assert!(throws[0].from.is_none());
    assert_eq!(throws[0].description.as_deref(), Some("from a.ts:"));
}

#[test]
fn unclosed_brace_and_blank_union_members_give_nothing() {
    assert!(extract_throws_from_jsdoc("/** @throws {Error */").is_empty());
    let throws = extract_throws_from_jsdoc("/** @throws {A | | B} */");
    assert_eq!(throws.len(), 2);
    assert_eq!(throws[1].error_type, "B");
}

#[test]
fn crlf_comment_lines_are_read() {
    let throws = extract_throws_from_jsdoc("/**\r\n * @throws {A} first\r\n * @throws {B}\r\n */");
    assert_eq!(throws.len(), 2);
    assert_eq!(throws[0].description.as_deref(), Some("first"));
    assert_eq!(throws[1].error_type, "B");
}

#[test]
fn declarations_read_from_a_comment_are_well_shaped() {
    let comment = "/**\n * @throws { A | | B }  from src/x.ts:run\n * @throws {C} from :run\n * @throws D\n * @throws {}\n */";
    let decls = extract_throws_from_jsdoc(comment);
    let names: Vec<&str> = decls.iter().map(|d| d.error_type.as_str()).collect();
    assert_eq!(names, vec!["A", "B", "C", "D"]);
    for d in &decls {
        assert!(!d.error_type.is_empty());
        assert_eq!(d.error_type, d.error_type.trim());
        assert_ne!(d.description.as_deref(), Some(""));
        if let Some(f) = &d.from {
            assert!(!f.file_path.is_empty() && !f.func_name.is_empty());
        }
    }
    assert_eq!(decls[0].from.as_ref().map(|f| f.func_name.as_str()), Some("run"));
    assert_eq!(decls[0].description, None);
    assert!(decls[2].from.is_none());
    assert_eq!(decls[2].description.as_deref(), Some("from :run"));
}
