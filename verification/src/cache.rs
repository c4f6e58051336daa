//! What the persistent cache computes: content hashes, the records it
//! keeps, which files decide how imports resolve, and what a TypeScript
//! configuration refers to. Reading and writing the cache happen elsewhere.
use crate::text::{chars_of, push_all, push_all_str, rfind_char, rfind_char_exec, slice_of, split_char, split_char_exec, starts_with, string_of, has_prefix};
use crate::json::{json_tree, jsonc_tree, member, member_of, parse_json, parse_jsonc, text_of, JsonTree, JsonTreeView};
use crate::types::{decimal, decimal_chars, Span};
use sha2::Digest;
use vstd::prelude::*;

verus! {

broadcast use {vstd::string::group_string_axioms, crate::char_vec::lemma_char_vec_deep_view};

/// A type check the analysis relied on: in `file` (with content hash
/// `file_hash`), whether `thrown` is assignable to `declared`.
#[derive(Debug, Clone, PartialEq, Eq)]
pub struct TypeCheckDependency {
    pub file: String,
    pub file_hash: String,
    pub thrown: String,
    pub declared: String,
    pub result: bool,
}

/// A call resolved to its definition, with what the resolution depended on.
#[derive(Debug, Clone, PartialEq, Eq)]
pub struct CachedDefinition {
    pub caller_file: String,
    pub caller_hash: String,
    pub callee_span: Span,
    pub callee_text: String,
    pub definition_file: String,
    pub definition_file_hash: String,
    pub resolution_fingerprint: String,
    pub definition_line: u32,
}

impl CachedDefinition {
    /// The entry still answers a lookup: the caller's text, the call's span
    /// and text, the definition file's hash and the resolution fingerprint
    /// are all as recorded.
    pub fn matches(
        &self,
        content_hash: &str,
        callee_span: Span,
        callee_text: &str,
        definition_file_hash: &str,
        resolution_fingerprint: &str,
    ) -> (r: bool)
        ensures
            r == (self.caller_hash@ == content_hash@ && self.callee_span == callee_span
                && self.callee_text@ == callee_text@ && self.definition_file_hash@ == definition_file_hash@
                && self.resolution_fingerprint@ == resolution_fingerprint@),
    {
        crate::text::str_eq(self.caller_hash.as_str(), content_hash)
            && self.callee_span.start == callee_span.start && self.callee_span.end == callee_span.end
            && crate::text::str_eq(self.callee_text.as_str(), callee_text)
            && crate::text::str_eq(self.definition_file_hash.as_str(), definition_file_hash)
            && crate::text::str_eq(self.resolution_fingerprint.as_str(), resolution_fingerprint)
    }
}

// ---------------------------------------------------------------------------
// Hashes
// ---------------------------------------------------------------------------
/// The SHA-256 digest of `bytes`.
pub uninterp spec fn sha256(bytes: Seq<u8>) -> Seq<u8>;

/// `sha2::Sha256` over `bytes` (new, update, finalize): the digest, which
/// depends on the bytes alone, 32 bytes long.
#[verifier::external_body]
fn sha256_digest(bytes: &[u8]) -> (r: Vec<u8>)
    ensures
        r@ == sha256(bytes@),
        r@.len() == 32,
{
    let mut hasher = sha2::Sha256::new();
    hasher.update(bytes);
    hasher.finalize().to_vec()
}

/// Lower-case hexadecimal digit of `d`.
pub open spec fn hex_digit(d: u8) -> char {
    if d < 10 {
        (48 + d) as char
    } else {
        (87 + d) as char
    }
}

/// Two lower-case hexadecimal digits per byte, high half first (what
/// `hex::encode` writes).
pub open spec fn hex_of(bytes: Seq<u8>) -> Seq<char>
    decreases bytes.len(),
{
    if bytes.len() == 0 {
        Seq::empty()
    } else {
        hex_of(bytes.drop_last()) + seq![hex_digit(bytes.last() / 16), hex_digit(bytes.last() % 16)]
    }
}

fn hex_digit_exec(d: u8) -> (c: char)
    requires
        d < 16,
    ensures
        c == hex_digit(d),
{
    if d < 10 {
        (48u8 + d) as char
    } else {
        (87u8 + d) as char
    }
}

/// The lower-case hexadecimal text of `bytes`.
pub fn hex_encode(bytes: &[u8]) -> (r: String)
    ensures
        r@ == hex_of(bytes@),
{
    let mut out: Vec<char> = Vec::new();
    let mut i: usize = 0;
    while i < bytes.len()
        invariant
            i <= bytes.len(),
            out@ == hex_of(bytes@.take(i as int)),
        decreases bytes.len() - i,
    {
        let b = bytes[i];
        assert(bytes@.take(i + 1).drop_last() =~= bytes@.take(i as int));
        assert(bytes@.take(i + 1).last() == b);
        out.push(hex_digit_exec(b / 16));
        out.push(hex_digit_exec(b % 16));
        i += 1;
    }
    assert(bytes@.take(bytes.len() as int) =~= bytes@);
    string_of(&out)
}

/// The hash the cache keys on: SHA-256 of the bytes, in hexadecimal.
pub fn hash_bytes(bytes: &[u8]) -> (r: String)
    ensures
        r@ == hex_of(sha256(bytes@)),
        r@.len() == 64,
{
    let d = sha256_digest(bytes);
    proof {
        lemma_hex_len(d@);
    }
    hex_encode(d.as_slice())
}

proof fn lemma_hex_len(b: Seq<u8>)
    ensures
        hex_of(b).len() == 2 * b.len(),
    decreases b.len(),
{
    if b.len() > 0 {
        lemma_hex_len(b.drop_last());
    }
}

/// The hash of a source text: that of its UTF-8 bytes.
pub fn content_hash(source: &str) -> (r: String)
    ensures
        r@ == hex_of(sha256(vstd::utf8::encode_utf8(source@))),
{
    hash_bytes(source.as_bytes())
}

// ---------------------------------------------------------------------------
// Files that decide how imports resolve
// ---------------------------------------------------------------------------
/// Directories not searched for resolution files.
pub open spec fn excluded_dir(name: Seq<char>) -> bool {
    name == ".git"@ || name == ".throw-trace"@ || name == "node_modules"@ || name == "target"@ || name
        == "dist"@ || name == "build"@ || name == ".next"@ || name == "coverage"@ || name == ".turbo"@
}

/// Whether a directory is skipped when looking for resolution files.
pub fn is_excluded_resolution_dir(file_name: &str) -> (r: bool)
    ensures
        r == excluded_dir(file_name@),
{
    let s = file_name;
    crate::text::str_eq(s, ".git") || crate::text::str_eq(s, ".throw-trace") || crate::text::str_eq(s, "node_modules")
        || crate::text::str_eq(s, "target") || crate::text::str_eq(s, "dist") || crate::text::str_eq(s, "build")
        || crate::text::str_eq(s, ".next") || crate::text::str_eq(s, "coverage") || crate::text::str_eq(s, ".turbo")
}

pub open spec fn ascii_lower(c: char) -> char {
    if 'A' <= c && c <= 'Z' {
        ((c as u32) + 32) as char
    } else {
        c
    }
}

/// `a` and `b` are equal up to ASCII case.
pub open spec fn eq_ignore_ascii_case(a: Seq<char>, b: Seq<char>) -> bool {
    a.len() == b.len() && forall|i: int| 0 <= i < a.len() ==> ascii_lower(#[trigger] a[i]) == ascii_lower(b[i])
}

/// The extension of a file name (one path component): what follows its
/// last `.`, unless that `.` opens the name.
pub open spec fn extension_of(name: Seq<char>) -> Option<Seq<char>> {
    match rfind_char(name, '.') {
        Some(i) => if i > 0 {
            Some(name.skip(i + 1))
        } else {
            None
        },
        None => None,
    }
}

pub open spec fn json_extension(name: Seq<char>) -> bool {
    match extension_of(name) {
        Some(e) => eq_ignore_ascii_case(e, "json"@),
        None => false,
    }
}

fn lower(c: char) -> (r: char)
    ensures
        r == ascii_lower(c),
{
    if 'A' <= c && c <= 'Z' {
        ((c as u8) + 32) as char
    } else {
        c
    }
}

fn eq_ignore_case(a: &Vec<char>, b: &Vec<char>) -> (r: bool)
    ensures
        r == eq_ignore_ascii_case(a@, b@),
{
    if a.len() != b.len() {
        return false;
    }
    let mut i: usize = 0;
    while i < a.len()
        invariant
            i <= a.len(),
            a.len() == b.len(),
            forall|j: int| 0 <= j < i ==> ascii_lower(#[trigger] a@[j]) == ascii_lower(b@[j]),
        decreases a.len() - i,
    {
        if lower(a[i]) != lower(b[i]) {
            return false;
        }
        i += 1;
    }
    true
}

/// Whether a file name (one path component) ends in `.json`, in any case.
pub fn has_json_extension(file_name: &str) -> (r: bool)
    ensures
        r == json_extension(file_name@),
{
    let name = chars_of(file_name);
    match rfind_char_exec(&name, '.') {
        Some(i) => {
            if i > 0 {
                let e = slice_of(&name, i + 1, name.len());
                assert(e@ =~= name@.skip(i + 1));
                let json = chars_of("json");
                eq_ignore_case(&e, &json)
            } else {
                false
            }
        },
        None => false,
    }
}

/// `tsconfig.json`, `jsconfig.json`, or a `tsconfig.*`/`jsconfig.*` name
/// with a JSON extension.
pub open spec fn config_name(name: Seq<char>) -> bool {
    name == "tsconfig.json"@ || name == "jsconfig.json"@ || (starts_with(name, "tsconfig."@) && json_extension(
        name,
    )) || (starts_with(name, "jsconfig."@) && json_extension(name))
}

/// Files whose content changes how imports resolve.
pub open spec fn resolution_file(name: Seq<char>) -> bool {
    name == "package.json"@ || name == "package-lock.json"@ || name == "pnpm-lock.yaml"@ || name
        == "yarn.lock"@ || name == "bun.lockb"@ || config_name(name)
}

fn is_config_name(file_name: &str) -> (r: bool)
    ensures
        r == config_name(file_name@),
{
    let name = chars_of(file_name);
    let ts = chars_of("tsconfig.");
    let js = chars_of("jsconfig.");
    crate::text::str_eq(file_name, "tsconfig.json") || crate::text::str_eq(file_name, "jsconfig.json")
        || (has_prefix(&name, &ts) && has_json_extension(file_name))
        || (has_prefix(&name, &js) && has_json_extension(file_name))
}

/// Whether a file can change how imports resolve.
pub fn is_resolution_affecting_file(file_name: &str) -> (r: bool)
    ensures
        r == resolution_file(file_name@),
{
    let s = file_name;
    crate::text::str_eq(s, "package.json") || crate::text::str_eq(s, "package-lock.json")
        || crate::text::str_eq(s, "pnpm-lock.yaml") || crate::text::str_eq(s, "yarn.lock")
        || crate::text::str_eq(s, "bun.lockb") || is_config_name(s)
}

/// Whether a file with this name (its last path component, if any) is a
/// configuration whose references are followed.
pub fn is_config_reference_source(file_name: Option<&str>) -> (r: bool)
    ensures
        r == match file_name {
            Some(n) => config_name(n@),
            None => false,
        },
{
    match file_name {
        Some(n) => is_config_name(n),
        None => false,
    }
}

/// The package a package-style reference names: its first segment, or the
/// first two for a scoped (`@scope/name`) package; `None` when a needed
/// segment is empty or missing.
pub open spec fn package_root(reference: Seq<char>) -> Option<Seq<Seq<char>>> {
    let parts = split_char(reference, '/');
    let first = parts[0];
    if first.len() == 0 {
        None
    } else if starts_with(first, "@"@) {
        if parts.len() < 2 || parts[1].len() == 0 {
            None
        } else {
            Some(seq![first, parts[1]])
        }
    } else {
        Some(seq![first])
    }
}

proof fn lemma_split_nonempty(s: Seq<char>, c: char)
    ensures
        split_char(s, c).len() >= 1,
    decreases s.len(),
{
    match crate::text::find_char(s, c) {
        Some(i) => if 0 <= i < s.len() {
            lemma_split_nonempty(s.skip(i + 1), c);
        },
        None => {},
    }
}

/// The path segments of the package root of a package-style reference.
pub fn package_style_package_root(reference: &str) -> (r: Option<Vec<String>>)
    ensures
        r.deep_view() == package_root(reference@),
{
    let chars = chars_of(reference);
    let parts = split_char_exec(&chars, '/');
    proof {
        lemma_split_nonempty(reference@, '/');
    }
    let first = &parts[0];
    assert(parts.deep_view()[0] == first@);
    if first.len() == 0 {
        return None;
    }
    let at = chars_of("@");
    if has_prefix(first, &at) {
        if parts.len() < 2 || parts[1].len() == 0 {
            proof {
                if parts.len() >= 2 {
                    assert(parts.deep_view()[1] == parts[1]@);
                }
            }
            None
        } else {
            assert(parts.deep_view()[1] == parts[1]@);
            let mut v: Vec<String> = Vec::new();
            v.push(string_of(first));
            v.push(string_of(&parts[1]));
            assert(v.deep_view() =~= seq![first@, parts[1]@]);
            Some(v)
        }
    } else {
        let mut v: Vec<String> = Vec::new();
        v.push(string_of(first));
        assert(v.deep_view() =~= seq![first@]);
        Some(v)
    }
}

// ---------------------------------------------------------------------------
// References of a TypeScript configuration
// ---------------------------------------------------------------------------
/// The `extends` field of a configuration.
pub enum ExtendsField {
    /// No such field (or the configuration is not an object).
    Absent,
    /// A single reference.
    Text(String),
    /// A list; `None` for an entry that is not a string.
    List(Vec<Option<String>>),
    /// Any other value.
    Other,
}

/// An entry of the `references` list.
pub enum ReferenceEntry {
    /// `{ "path": "..." }`.
    Path(String),
    /// A `path` that is not a string.
    NonStringPath,
    /// No `path`.
    MissingPath,
}

/// What the analysis reads of a configuration: `extends`, and `references`
/// when it is a list.
pub struct ConfigRefs {
    pub extends: ExtendsField,
    pub references: Option<Vec<ReferenceEntry>>,
}

/// What an `extends` field holds.
pub enum ExtendsFieldView {
    Absent,
    Text(Seq<char>),
    List(Seq<Option<Seq<char>>>),
    Other,
}

/// What an entry of the `references` list holds.
pub enum ReferenceEntryView {
    Path(Seq<char>),
    NonStringPath,
    MissingPath,
}

/// What the analysis reads of a configuration.
pub struct ConfigRefsView {
    pub extends: ExtendsFieldView,
    pub references: Option<Seq<ReferenceEntryView>>,
}

impl DeepView for ExtendsField {
    type V = ExtendsFieldView;

    open spec fn deep_view(&self) -> ExtendsFieldView {
        match self {
            ExtendsField::Absent => ExtendsFieldView::Absent,
            ExtendsField::Text(r) => ExtendsFieldView::Text(r@),
            ExtendsField::List(l) => ExtendsFieldView::List(l.deep_view()),
            ExtendsField::Other => ExtendsFieldView::Other,
        }
    }
}

impl DeepView for ReferenceEntry {
    type V = ReferenceEntryView;

    open spec fn deep_view(&self) -> ReferenceEntryView {
        match self {
            ReferenceEntry::Path(p) => ReferenceEntryView::Path(p@),
            ReferenceEntry::NonStringPath => ReferenceEntryView::NonStringPath,
            ReferenceEntry::MissingPath => ReferenceEntryView::MissingPath,
        }
    }
}

impl DeepView for ConfigRefs {
    type V = ConfigRefsView;

    open spec fn deep_view(&self) -> ConfigRefsView {
        ConfigRefsView { extends: self.extends.deep_view(), references: self.references.deep_view() }
    }
}

/// What to do for a configuration's references.
#[derive(Debug, PartialEq, Eq)]
pub enum ConfigAction {
    /// Follow an `extends` reference.
    Extends(String),
    /// Follow a project reference.
    Project(String),
    /// Record that the configuration's `kind` field holds `reference`, which
    /// cannot be followed (`marker` says why).
    Marker { kind: String, reference: String, marker: String },
}

pub enum ConfigActionView {
    Extends(Seq<char>),
    Project(Seq<char>),
    Marker { kind: Seq<char>, reference: Seq<char>, marker: Seq<char> },
}

impl DeepView for ConfigAction {
    type V = ConfigActionView;

    open spec fn deep_view(&self) -> ConfigActionView {
        match self {
            ConfigAction::Extends(r) => ConfigActionView::Extends(r@),
            ConfigAction::Project(r) => ConfigActionView::Project(r@),
            ConfigAction::Marker { kind, reference, marker } => ConfigActionView::Marker {
                kind: kind@,
                reference: reference@,
                marker: marker@,
            },
        }
    }
}

pub open spec fn extends_list_actions(list: Seq<Option<Seq<char>>>) -> Seq<ConfigActionView>
    decreases list.len(),
{
    if list.len() == 0 {
        Seq::empty()
    } else {
        let prev = extends_list_actions(list.drop_last());
        let index = (list.len() - 1) as nat;
        prev.push(
            match list.last() {
                Some(r) => ConfigActionView::Extends(r),
                None => ConfigActionView::Marker {
                    kind: "extends"@,
                    reference: "<non-string:"@ + decimal(index) + ">"@,
                    marker: "<invalid>"@,
                },
            },
        )
    }
}

pub open spec fn reference_actions(list: Seq<ReferenceEntryView>) -> Seq<ConfigActionView>
    decreases list.len(),
{
    if list.len() == 0 {
        Seq::empty()
    } else {
        let prev = reference_actions(list.drop_last());
        let index = (list.len() - 1) as nat;
        prev.push(
            match list.last() {
                ReferenceEntryView::Path(r) => ConfigActionView::Project(r),
                ReferenceEntryView::NonStringPath => ConfigActionView::Marker {
                    kind: "references"@,
                    reference: "<non-string:"@ + decimal(index) + ">"@,
                    marker: "<invalid>"@,
                },
                ReferenceEntryView::MissingPath => ConfigActionView::Marker {
                    kind: "references"@,
                    reference: "<missing:"@ + decimal(index) + ">"@,
                    marker: "<invalid>"@,
                },
            },
        )
    }
}

/// The actions for a configuration: its `extends` references first, then
/// its project references, each in order.
pub open spec fn config_actions(refs: ConfigRefsView) -> Seq<ConfigActionView> {
    (match refs.extends {
        ExtendsFieldView::Absent => Seq::empty(),
        ExtendsFieldView::Text(r) => seq![ConfigActionView::Extends(r)],
        ExtendsFieldView::List(l) => extends_list_actions(l),
        ExtendsFieldView::Other => seq![
            ConfigActionView::Marker { kind: "extends"@, reference: "<non-string>"@, marker: "<invalid>"@ },
        ],
    }) + (match refs.references {
        Some(l) => reference_actions(l),
        None => Seq::empty(),
    })
}

fn marker(kind: &str, prefix: &str, index: usize) -> (r: ConfigAction)
    ensures
        r.deep_view() == (ConfigActionView::Marker {
            kind: kind@,
            reference: prefix@ + decimal(index as nat) + ">"@,
            marker: "<invalid>"@,
        }),
{
    let mut reference = chars_of(prefix);
    let d = decimal_chars(index as u64);
    push_all(&mut reference, &d);
    push_all_str(&mut reference, ">");
    ConfigAction::Marker {
        kind: crate::text::str_to_string(kind),
        reference: string_of(&reference),
        marker: crate::text::str_to_string("<invalid>"),
    }
}

/// What to do with the references of a configuration file, in order.
pub fn config_reference_actions(refs: &ConfigRefs) -> (r: Vec<ConfigAction>)
    ensures
        r.deep_view() == config_actions(refs.deep_view()),
{
    let mut out: Vec<ConfigAction> = Vec::new();
    match &refs.extends {
        ExtendsField::Absent => {},
        ExtendsField::Text(r) => {
            out.push(ConfigAction::Extends(r.clone()));
        },
        ExtendsField::List(l) => {
            let ghost lv = l.deep_view();
            let mut i: usize = 0;
            assert(out.deep_view() =~= extends_list_actions(lv.take(0)));
            while i < l.len()
                invariant
                    i <= l.len(),
                    lv == l.deep_view(),
                    out.deep_view() == extends_list_actions(lv.take(i as int)),
                decreases l.len() - i,
            {
                assert(lv.take(i + 1).drop_last() =~= lv.take(i as int));
                assert(lv.take(i + 1).last() == l@[i as int].deep_view());
                let a = match &l[i] {
                    Some(r) => ConfigAction::Extends(r.clone()),
                    None => marker("extends", "<non-string:", i),
                };
                let ghost before = out.deep_view();
                out.push(a);
                assert(out.deep_view() =~= before.push(a.deep_view()));
                i += 1;
            }
            assert(lv.take(l.len() as int) =~= lv);
        },
        ExtendsField::Other => {
            out.push(
                ConfigAction::Marker {
                    kind: crate::text::str_to_string("extends"),
                    reference: crate::text::str_to_string("<non-string>"),
                    marker: crate::text::str_to_string("<invalid>"),
                },
            );
        },
    }
    let ghost first = out.deep_view();
    match &refs.references {
        Some(l) => {
            let ghost lv = l.deep_view();
            let mut i: usize = 0;
            assert(out.deep_view() =~= first + reference_actions(lv.take(0)));
            while i < l.len()
                invariant
                    i <= l.len(),
                    lv == l.deep_view(),
                    out.deep_view() == first + reference_actions(lv.take(i as int)),
                decreases l.len() - i,
            {
                assert(lv.take(i + 1).drop_last() =~= lv.take(i as int));
                assert(lv.take(i + 1).last() == l@[i as int].deep_view());
                let a = match &l[i] {
                    ReferenceEntry::Path(r) => ConfigAction::Project(r.clone()),
                    ReferenceEntry::NonStringPath => marker("references", "<non-string:", i),
                    ReferenceEntry::MissingPath => marker("references", "<missing:", i),
                };
                let ghost before = out.deep_view();
                out.push(a);
                assert(out.deep_view() =~= before.push(a.deep_view()));
                i += 1;
            }
            assert(lv.take(l.len() as int) =~= lv);
        },
        None => {
            assert(out.deep_view() =~= first + Seq::<ConfigActionView>::empty());
        },
    }
    assert(out.deep_view() =~= config_actions(refs.deep_view()));
    out
}

/// The `extends` field of the configuration `t`: absent, a string, a list
/// (with `None` for each entry that is not a string), or something else.
pub open spec fn extends_of(t: JsonTreeView) -> ExtendsFieldView {
    match member(t, "extends"@) {
        None => ExtendsFieldView::Absent,
        Some(JsonTreeView::Text(r)) => ExtendsFieldView::Text(r),
        Some(JsonTreeView::List(l)) => ExtendsFieldView::List(l.map_values(|x: JsonTreeView| text_of(x))),
        Some(_) => ExtendsFieldView::Other,
    }
}

/// An entry of the `references` list: its `path` when that is a string.
pub open spec fn reference_entry_of(r: JsonTreeView) -> ReferenceEntryView {
    match member(r, "path"@) {
        Some(JsonTreeView::Text(p)) => ReferenceEntryView::Path(p),
        Some(_) => ReferenceEntryView::NonStringPath,
        None => ReferenceEntryView::MissingPath,
    }
}

/// The `references` of the configuration `t`, when that field is a list.
pub open spec fn references_of(t: JsonTreeView) -> Option<Seq<ReferenceEntryView>> {
    match member(t, "references"@) {
        Some(JsonTreeView::List(l)) => Some(l.map_values(|r: JsonTreeView| reference_entry_of(r))),
        _ => None,
    }
}

/// What the analysis reads of the configuration `t`.
pub open spec fn config_refs_spec(t: JsonTreeView) -> ConfigRefsView {
    ConfigRefsView { extends: extends_of(t), references: references_of(t) }
}

fn text_entry(v: &JsonTree) -> (r: Option<String>)
    ensures
        r.deep_view() == text_of(v.deep_view()),
{
    match v {
        JsonTree::Text(s) => Some(s.clone()),
        _ => None,
    }
}

fn reference_entry(v: &JsonTree) -> (r: ReferenceEntry)
    ensures
        r.deep_view() == reference_entry_of(v.deep_view()),
{
    match member_of(v, "path") {
        Some(JsonTree::Text(p)) => ReferenceEntry::Path(p.clone()),
        Some(_) => ReferenceEntry::NonStringPath,
        None => ReferenceEntry::MissingPath,
    }
}

/// What the analysis reads of the configuration `t`: its `extends` field and
/// its `references` list.
pub fn config_refs_of(t: &JsonTree) -> (r: ConfigRefs)
    ensures
        r.deep_view() == config_refs_spec(t.deep_view()),
{
    let extends = match member_of(t, "extends") {
        None => ExtendsField::Absent,
        Some(JsonTree::Text(r)) => ExtendsField::Text(r.clone()),
        Some(JsonTree::List(l)) => {
            let ghost lv = l@.map_values(|x: JsonTree| x.deep_view());
            let mut out: Vec<Option<String>> = Vec::new();
            let mut i: usize = 0;
            assert(out.deep_view() =~= lv.take(0).map_values(|x: JsonTreeView| text_of(x)));
            while i < l.len()
                invariant
                    i <= l.len(),
                    lv == l@.map_values(|x: JsonTree| x.deep_view()),
                    out.deep_view() == lv.take(i as int).map_values(|x: JsonTreeView| text_of(x)),
                decreases l.len() - i,
            {
                let e = text_entry(&l[i]);
                let ghost before = out.deep_view();
                out.push(e);
                assert(out.deep_view() =~= before.push(e.deep_view()));
                assert(lv.take(i + 1).map_values(|x: JsonTreeView| text_of(x))
                    =~= lv.take(i as int).map_values(|x: JsonTreeView| text_of(x)).push(text_of(lv[i as int])));
                i += 1;
            }
            assert(lv.take(l.len() as int) =~= lv);
            proof {
                let v = member(t.deep_view(), "extends"@).unwrap();
                assert(v == JsonTreeView::List(lv)) by {
                    if let JsonTreeView::List(w) = v {
                        assert(w =~= lv);
                    }
                }
            }
            ExtendsField::List(out)
        },
        Some(_) => ExtendsField::Other,
    };
    let references = match member_of(t, "references") {
        Some(JsonTree::List(l)) => {
            let ghost lv = l@.map_values(|x: JsonTree| x.deep_view());
            let mut out: Vec<ReferenceEntry> = Vec::new();
            let mut i: usize = 0;
            assert(out.deep_view() =~= lv.take(0).map_values(|r: JsonTreeView| reference_entry_of(r)));
            while i < l.len()
                invariant
                    i <= l.len(),
                    lv == l@.map_values(|x: JsonTree| x.deep_view()),
                    out.deep_view() == lv.take(i as int).map_values(|r: JsonTreeView| reference_entry_of(r)),
                decreases l.len() - i,
            {
                let e = reference_entry(&l[i]);
                let ghost before = out.deep_view();
                out.push(e);
                assert(out.deep_view() =~= before.push(e.deep_view()));
                assert(lv.take(i + 1).map_values(|r: JsonTreeView| reference_entry_of(r))
                    =~= lv.take(i as int).map_values(|r: JsonTreeView| reference_entry_of(r)).push(reference_entry_of(lv[i as int])));
                i += 1;
            }
            assert(lv.take(l.len() as int) =~= lv);
            proof {
                let v = member(t.deep_view(), "references"@).unwrap();
                assert(v == JsonTreeView::List(lv)) by {
                    if let JsonTreeView::List(w) = v {
                        assert(w =~= lv);
                    }
                }
            }
            Some(out)
        },
        _ => None,
    };
    ConfigRefs { extends, references }
}

/// The actions for the configuration whose JSONC text is `text`: `None`
/// when the text does not parse, else what `config_reference_actions` gives
/// for what the analysis reads of it.
pub fn config_actions_of_text(text: &str) -> (r: Option<Vec<ConfigAction>>)
    ensures
        match jsonc_tree(text@) {
            None => r is None,
            Some(t) => r matches Some(a) && a.deep_view() == config_actions(config_refs_spec(t)),
        },
{
    match parse_jsonc(text) {
        None => None,
        Some(t) => Some(config_reference_actions(&config_refs_of(&t))),
    }
}

/// The `tsconfig` field of a `package.json` text, when the text parses as
/// JSON and the field is a string.
pub fn package_tsconfig_of_text(text: &str) -> (r: Option<String>)
    ensures
        r.deep_view() == match json_tree(text@) {
            Some(t) => match member(t, "tsconfig"@) {
                Some(v) => text_of(v),
                None => None,
            },
            None => None,
        },
{
    match parse_json(text) {
        None => None,
        Some(t) => match member_of(&t, "tsconfig") {
            Some(v) => text_entry(v),
            None => None,
        },
    }
}

// ---------------------------------------------------------------------------
// What the cache keeps from one run to the next
// ---------------------------------------------------------------------------
/// How a cache file read from disk was written.
pub struct CacheHeader {
    pub schema_version: u32,
    pub tool_version: String,
    pub workspace_fingerprint: String,
}

/// What loading does with the cache file found on disk.
#[derive(Debug, Clone, Copy, PartialEq, Eq, Structural)]
pub enum CacheLoad {
    /// Nothing usable was found: start with an empty cache.
    Fresh,
    /// Keep the file whole.
    Keep,
    /// Keep the per-file extractions, drop what depends on the workspace
    /// (definitions, findings, type checks) and write the file back.
    ResetWorkspaceParts,
}

/// What loading does with `read`: a file that is absent, unreadable or of
/// another schema gives way to an empty cache; one written for another
/// workspace fingerprint or by another tool version keeps only its
/// extractions; any other is kept whole.
pub open spec fn load_outcome(
    read: Option<CacheHeader>,
    schema_version: u32,
    tool_version: Seq<char>,
    workspace_fingerprint: Seq<char>,
) -> CacheLoad {
    match read {
        None => CacheLoad::Fresh,
        Some(h) => if h.schema_version != schema_version {
            CacheLoad::Fresh
        } else if h.workspace_fingerprint@ != workspace_fingerprint || h.tool_version@ != tool_version {
            CacheLoad::ResetWorkspaceParts
        } else {
            CacheLoad::Keep
        },
    }
}

/// What loading does with `read` when the workspace fingerprint is checked
/// later: as `load_outcome`, with only the tool version compared.
pub open spec fn deferred_load_outcome(read: Option<CacheHeader>, schema_version: u32, tool_version: Seq<char>) -> CacheLoad {
    match read {
        None => CacheLoad::Fresh,
        Some(h) => if h.schema_version != schema_version {
            CacheLoad::Fresh
        } else if h.tool_version@ != tool_version {
            CacheLoad::ResetWorkspaceParts
        } else {
            CacheLoad::Keep
        },
    }
}

/// How to load the cache file `read` (if one was read) for the given schema,
/// tool version and workspace fingerprint.
pub fn load_decision(
    read: Option<&CacheHeader>,
    schema_version: u32,
    tool_version: &str,
    workspace_fingerprint: &str,
) -> (r: CacheLoad)
    ensures
        r == load_outcome(
            match read {
                Some(h) => Some(*h),
                None => None,
            },
            schema_version,
            tool_version@,
            workspace_fingerprint@,
        ),
{
    match read {
        None => CacheLoad::Fresh,
        Some(h) => if h.schema_version != schema_version {
            CacheLoad::Fresh
        } else if !crate::text::str_eq(h.workspace_fingerprint.as_str(), workspace_fingerprint)
            || !crate::text::str_eq(h.tool_version.as_str(), tool_version) {
            CacheLoad::ResetWorkspaceParts
        } else {
            CacheLoad::Keep
        },
    }
}

/// How to load the cache file `read` when its workspace fingerprint is
/// checked later (by `workspace_fingerprint_changed`).
pub fn deferred_load_decision(read: Option<&CacheHeader>, schema_version: u32, tool_version: &str) -> (r: CacheLoad)
    ensures
        r == deferred_load_outcome(
            match read {
                Some(h) => Some(*h),
                None => None,
            },
            schema_version,
            tool_version@,
        ),
{
    match read {
        None => CacheLoad::Fresh,
        Some(h) => if h.schema_version != schema_version {
            CacheLoad::Fresh
        } else if !crate::text::str_eq(h.tool_version.as_str(), tool_version) {
            CacheLoad::ResetWorkspaceParts
        } else {
            CacheLoad::Keep
        },
    }
}

/// Whether a new workspace fingerprint invalidates what depends on the
/// workspace: it does exactly when it differs from the recorded one.
pub fn workspace_fingerprint_changed(recorded: &str, current: &str) -> (r: bool)
    ensures
        r == (recorded@ != current@),
{
    !crate::text::str_eq(recorded, current)
}

/// A finding kept in the cache, with what it was computed from.
pub struct CachedFinding {
    pub dependency_fingerprint: String,
    pub type_checks: Vec<TypeCheckDependency>,
    pub diagnostic: Option<crate::types::Diagnostic>,
}

/// The content hash of a text (what `content_hash` computes).
pub open spec fn text_hash(text: Seq<char>) -> Seq<char> {
    hex_of(sha256(vstd::utf8::encode_utf8(text)))
}

/// The files of the type checks still read as they did: one current text
/// per check, each present and hashing to the recorded hash.
pub open spec fn type_checks_current(checks: Seq<TypeCheckDependency>, sources: Seq<Option<String>>) -> bool {
    &&& sources.len() == checks.len()
    &&& forall|i: int| 0 <= i < checks.len() ==> (#[trigger] sources[i] matches Some(t) && text_hash(t@) == checks[i].file_hash@)
}

/// The stored finding answers the lookup: there is one, it was computed
/// under the current dependency fingerprint, and the files of the type
/// checks it relied on are unchanged.
pub open spec fn finding_reusable(entry: Option<CachedFinding>, dependency_fingerprint: Seq<char>, sources: Seq<Option<String>>) -> bool {
    entry matches Some(e) && e.dependency_fingerprint@ == dependency_fingerprint
        && type_checks_current(e.type_checks@, sources)
}

/// The cached finding for a function, given the stored entry (if any), the
/// current dependency fingerprint and the current text of the file of each
/// type check the entry relied on, in the entry's order (`None` where the
/// file could not be read): the stored finding when it is reusable, else
/// nothing.
pub fn cached_finding(
    entry: Option<&CachedFinding>,
    dependency_fingerprint: &str,
    sources: &Vec<Option<String>>,
) -> (r: Option<Option<crate::types::Diagnostic>>)
    ensures
        ({
            let e = match entry {
                Some(e) => Some(*e),
                None => None,
            };
            match r {
                Some(d) => finding_reusable(e, dependency_fingerprint@, sources@)
                    && d.deep_view() == e.unwrap().diagnostic.deep_view(),
                None => !finding_reusable(e, dependency_fingerprint@, sources@),
            }
        }),
{
    let e = match entry {
        Some(e) => e,
        None => return None,
    };
    if !crate::text::str_eq(e.dependency_fingerprint.as_str(), dependency_fingerprint) {
        return None;
    }
    if sources.len() != e.type_checks.len() {
        return None;
    }
    let mut i: usize = 0;
    while i < sources.len()
        invariant
            i <= sources.len(),
            sources.len() == e.type_checks.len(),
            entry == Some(e),
            e.dependency_fingerprint@ == dependency_fingerprint@,
            forall|j: int| 0 <= j < i ==> (#[trigger] sources@[j] matches Some(t) && text_hash(t@) == e.type_checks@[j].file_hash@),
        decreases sources.len() - i,
    {
        match &sources[i] {
            None => {
                assert(!(sources@[i as int] matches Some(t) && text_hash(t@) == e.type_checks@[i as int].file_hash@));
                return None;
            },
            Some(t) => {
                let h = content_hash(t.as_str());
                if !crate::text::str_eq(h.as_str(), e.type_checks[i].file_hash.as_str()) {
                    assert(sources@[i as int] == Some(*t));
                    assert(!(sources@[i as int] matches Some(t) && text_hash(t@) == e.type_checks@[i as int].file_hash@));
                    return None;
                }
            },
        }
        i += 1;
    }
    Some(clone_finding(&e.diagnostic))
}

fn clone_finding(d: &Option<crate::types::Diagnostic>) -> (r: Option<crate::types::Diagnostic>)
    ensures
        r.deep_view() == d.deep_view(),
{
    match d {
        None => None,
        Some(x) => Some(crate::types::Diagnostic {
            function: x.function.clone(),
            missing_throws: crate::types::clone_propagated(&x.missing_throws),
        }),
    }
}

} // verus!
