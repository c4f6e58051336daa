use throw_trace::cache::{
    cached_finding, config_actions_of_text, config_refs_of, package_tsconfig_of_text, deferred_load_decision, load_decision, workspace_fingerprint_changed, CacheHeader, CacheLoad,
    CachedFinding, TypeCheckDependency,
    config_reference_actions, content_hash, has_json_extension, hash_bytes, hex_encode, is_config_reference_source,
    is_excluded_resolution_dir, is_resolution_affecting_file, package_style_package_root, CachedDefinition,
    ConfigAction, ConfigRefs, ExtendsField, ReferenceEntry,
};
use throw_trace::json::JsonTree;
use throw_trace::types::{Diagnostic, FunctionId, Span};

#[test]
fn content_hash_is_sha256_in_hex() {
    assert_eq!(content_hash("abc"), "ba7816bf8f01cfea414140de5dae2223b00361a396177a9cb410ff61f20015ad");
    assert_eq!(hash_bytes(b""), "e3b0c44298fc1c149afbf4c8996fb92427ae41e4649b934ca495991b7852b855");
    assert_ne!(content_hash("abc"), content_hash("abcd"));
}

#[test]
fn hex_is_lower_case_two_digits_per_byte() {
    assert_eq!(hex_encode(&[0x00, 0x0f, 0xa0, 0xff]), "000fa0ff");
    assert_eq!(hex_encode(&[]), "");
}

#[test]
fn resolution_files_are_recognised() {
    for name in ["package.json", "yarn.lock", "tsconfig.json", "tsconfig.build.json", "jsconfig.base.JSON", "bun.lockb"] {
        assert!(is_resolution_affecting_file(name), "{name}");
    }
    for name in ["tsconfig.yaml", "index.ts", "tsconfig", "my-tsconfig.json"] {
        assert!(!is_resolution_affecting_file(name), "{name}");
    }
    assert!(is_excluded_resolution_dir("node_modules"));
    assert!(is_excluded_resolution_dir(".turbo"));
    assert!(!is_excluded_resolution_dir("src"));
    assert!(has_json_extension("a.JsOn"));
    assert!(!has_json_extension(".json"));
    assert!(is_config_reference_source(Some("tsconfig.app.json")));
    assert!(!is_config_reference_source(Some("package.json")));
    assert!(!is_config_reference_source(None));
}

#[test]
fn package_roots_of_references() {
    assert_eq!(package_style_package_root("@tsconfig/node18/tsconfig.json"), Some(vec!["@tsconfig".to_string(), "node18".to_string()]));
    assert_eq!(package_style_package_root("base/tsconfig"), Some(vec!["base".to_string()]));
    assert_eq!(package_style_package_root("@scope"), None);
    assert_eq!(package_style_package_root("/abs"), None);
}

#[test]
fn configuration_references_become_actions_in_order() {
    let refs = ConfigRefs {
        extends: ExtendsField::List(vec![Some("./base.json".into()), None]),
        references: Some(vec![ReferenceEntry::Path("../lib".into()), ReferenceEntry::NonStringPath, ReferenceEntry::MissingPath]),
    };
    let actions = config_reference_actions(&refs);
    assert_eq!(
        actions,
        vec![
            ConfigAction::Extends("./base.json".into()),
            ConfigAction::Marker { kind: "extends".into(), reference: "<non-string:1>".into(), marker: "<invalid>".into() },
            ConfigAction::Project("../lib".into()),
            ConfigAction::Marker { kind: "references".into(), reference: "<non-string:1>".into(), marker: "<invalid>".into() },
            ConfigAction::Marker { kind: "references".into(), reference: "<missing:2>".into(), marker: "<invalid>".into() },
        ]
    );
    let other = ConfigRefs { extends: ExtendsField::Other, references: None };
    assert_eq!(
        config_reference_actions(&other),
        vec![ConfigAction::Marker { kind: "extends".into(), reference: "<non-string>".into(), marker: "<invalid>".into() }]
    );
    assert!(config_reference_actions(&ConfigRefs { extends: ExtendsField::Absent, references: None }).is_empty());
}

#[test]
fn cached_definition_matches_only_when_everything_is_unchanged() {
    let d = CachedDefinition {
        caller_file: "/w/a.ts".into(),
        caller_hash: "h1".into(),
        callee_span: Span { start: 1, end: 4 },
        callee_text: "foo".into(),
        definition_file: "/w/b.ts".into(),
        definition_file_hash: "h2".into(),
        resolution_fingerprint: "r".into(),
        definition_line: 3,
    };
    assert!(d.matches("h1", Span { start: 1, end: 4 }, "foo", "h2", "r"));
    assert!(!d.matches("h1", Span { start: 1, end: 4 }, "bar", "h2", "r"));
    assert!(!d.matches("h1", Span { start: 1, end: 4 }, "foo", "h3", "r"));
}

#[test]
fn content_hash_is_stable() {
    assert_eq!(content_hash("abc"), content_hash("abc"));
    assert_ne!(content_hash("abc"), content_hash("abcd"));
}

fn header(schema: u32, tool: &str, fingerprint: &str) -> CacheHeader {
    CacheHeader { schema_version: schema, tool_version: tool.to_string(), workspace_fingerprint: fingerprint.to_string() }
}

#[test]
fn loading_keeps_resets_or_starts_afresh() {
    assert_eq!(load_decision(None, 1, "0.1.9", "fp"), CacheLoad::Fresh);
    assert_eq!(load_decision(Some(&header(2, "0.1.9", "fp")), 1, "0.1.9", "fp"), CacheLoad::Fresh);
    assert_eq!(load_decision(Some(&header(1, "0.1.9", "fp")), 1, "0.1.9", "fp"), CacheLoad::Keep);
    assert_eq!(load_decision(Some(&header(1, "0.1.9", "old")), 1, "0.1.9", "fp"), CacheLoad::ResetWorkspaceParts);
    assert_eq!(load_decision(Some(&header(1, "0.1.8", "fp")), 1, "0.1.9", "fp"), CacheLoad::ResetWorkspaceParts);
}

#[test]
fn deferred_loading_compares_the_tool_version_only() {
    assert_eq!(deferred_load_decision(None, 1, "0.1.9"), CacheLoad::Fresh);
    assert_eq!(deferred_load_decision(Some(&header(1, "0.1.9", "old")), 1, "0.1.9"), CacheLoad::Keep);
    assert_eq!(deferred_load_decision(Some(&header(1, "0.1.8", "fp")), 1, "0.1.9"), CacheLoad::ResetWorkspaceParts);
    assert_eq!(deferred_load_decision(Some(&header(3, "0.1.9", "fp")), 1, "0.1.9"), CacheLoad::Fresh);
    assert!(workspace_fingerprint_changed("a", "b"));
    assert!(!workspace_fingerprint_changed("a", "a"));
}

#[test]
fn a_cached_finding_is_reused_only_while_its_inputs_are_unchanged() {
    let function = FunctionId::new("a.ts", "f", Span { start: 0, end: 10 });
    let finding = CachedFinding {
        dependency_fingerprint: "deps".to_string(),
        type_checks: vec![TypeCheckDependency {
            file: "a.ts".to_string(),
            file_hash: content_hash("class A {}"),
            thrown: "A".to_string(),
            declared: "Error".to_string(),
            result: true,
        }],
        diagnostic: Some(Diagnostic { function: function.clone(), missing_throws: vec![] }),
    };
    let same = vec![Some("class A {}".to_string())];
    let reused = cached_finding(Some(&finding), "deps", &same).expect("reusable");
    assert_eq!(reused.map(|d| d.function), Some(function));
    assert!(cached_finding(Some(&finding), "other", &same).is_none());
    assert!(cached_finding(Some(&finding), "deps", &vec![Some("class B {}".to_string())]).is_none());
    assert!(cached_finding(Some(&finding), "deps", &vec![None]).is_none());
    assert!(cached_finding(None, "deps", &same).is_none());
    let no_checks = CachedFinding { dependency_fingerprint: "deps".to_string(), type_checks: vec![], diagnostic: None };
    assert_eq!(cached_finding(Some(&no_checks), "deps", &vec![]).map(|d| d.is_none()), Some(true));
}

#[test]
fn configuration_text_is_parsed_as_jsonc_and_read() {
    let text = "{\n  // a comment\n  \"extends\": [\"./base.json\", 3],\n  \"references\": [{ \"path\": \"../lib\" }, { \"path\": 1 }, {},],\n}";
    let actions = config_actions_of_text(text).expect("valid JSONC");
    assert_eq!(
        actions,
        vec![
            ConfigAction::Extends("./base.json".into()),
            ConfigAction::Marker { kind: "extends".into(), reference: "<non-string:1>".into(), marker: "<invalid>".into() },
            ConfigAction::Project("../lib".into()),
            ConfigAction::Marker { kind: "references".into(), reference: "<non-string:1>".into(), marker: "<invalid>".into() },
            ConfigAction::Marker { kind: "references".into(), reference: "<missing:2>".into(), marker: "<invalid>".into() },
        ]
    );
    assert_eq!(config_actions_of_text("{ \"extends\": \"./a.json\" }"), Some(vec![ConfigAction::Extends("./a.json".into())]));
    assert_eq!(
        config_actions_of_text("{ \"extends\": true, \"references\": 4 }"),
        Some(vec![ConfigAction::Marker { kind: "extends".into(), reference: "<non-string>".into(), marker: "<invalid>".into() }])
    );
    assert_eq!(config_actions_of_text(""), Some(vec![]));
    assert_eq!(config_actions_of_text("[1, 2]"), Some(vec![]));
    assert_eq!(config_actions_of_text("{ \"extends\": "), None);
}

#[test]
fn package_json_tsconfig_field_is_read() {
    assert_eq!(package_tsconfig_of_text("{ \"name\": \"x\", \"tsconfig\": \"tsconfig.base.json\" }"), Some("tsconfig.base.json".to_string()));
    assert_eq!(package_tsconfig_of_text("{ \"tsconfig\": 3 }"), None);
    assert_eq!(package_tsconfig_of_text("{ \"name\": \"x\" }"), None);
    assert_eq!(package_tsconfig_of_text("{ // no comments in JSON\n }"), None);
}

#[test]
fn a_configuration_tree_is_read_field_by_field() {
    let t = JsonTree::Object(vec![("extends".to_string(), JsonTree::Text("./b.json".to_string()))]);
    let refs = config_refs_of(&t);
    assert!(matches!(refs.extends, ExtendsField::Text(ref r) if r == "./b.json"));
    assert!(refs.references.is_none());
}
