//! What the checker tells its user: the text report, and the values that
//! make up the JSON report.
use crate::text::{chars_of, push_all, push_all_str, string_chars, string_of, join};
use crate::tsserver::{byte_len, byte_offset_to_line_col, char_index_at, line_after};
use crate::types::{
    decimal, decimal_chars, Diagnostic, DiagnosticView, ErrorType, ErrorTypeView, FunctionId,
    FunctionIdView, LspViolation, LspViolationView, PropagatedThrow, PropagatedThrowView,
};
use vstd::prelude::*;

verus! {

broadcast use {vstd::string::group_string_axioms, crate::char_vec::lemma_char_vec_deep_view};

/// How the report is written.
#[derive(Debug, Clone, Copy, PartialEq, Eq)]
pub enum OutputFormat {
    Text,
    Json,
}

/// `s` in lower case, as `str::to_lowercase` gives it.
pub uninterp spec fn lowercase(s: Seq<char>) -> Seq<char>;

/// `str::to_lowercase`; the result is a function of `s` alone.
#[verifier::external_body]
fn to_lowercase(s: &str) -> (r: String)
    ensures
        r@ == lowercase(s@),
{
    s.to_lowercase()
}

impl OutputFormat {
    /// `text` or `json`, in any case.
    pub fn from_str(s: &str) -> (r: Option<Self>)
        ensures
            r == (if lowercase(s@) == "text"@ {
                Some(OutputFormat::Text)
            } else if lowercase(s@) == "json"@ {
                Some(OutputFormat::Json)
            } else {
                None
            }),
    {
        let l = to_lowercase(s);
        if crate::text::str_eq(l.as_str(), "text") {
            Some(OutputFormat::Text)
        } else if crate::text::str_eq(l.as_str(), "json") {
            Some(OutputFormat::Json)
        } else {
            None
        }
    }
}

// ---------------------------------------------------------------------------
// Lines of source positions
// ---------------------------------------------------------------------------
/// The text that `sources` holds for `file` (the first entry naming it).
pub open spec fn source_text(sources: Seq<(Seq<char>, Seq<char>)>, file: Seq<char>) -> Option<Seq<char>>
    decreases sources.len(),
{
    if sources.len() == 0 {
        None
    } else if sources[0].0 == file {
        Some(sources[0].1)
    } else {
        source_text(sources.drop_first(), file)
    }
}

/// The 1-based line of byte `offset` of `file`: `None` when its text is not
/// at hand, the offset is past its end, or the text is too long for 32-bit
/// offsets.
pub open spec fn resolved_line(sources: Seq<(Seq<char>, Seq<char>)>, file: Seq<char>, offset: int) -> Option<int> {
    match source_text(sources, file) {
        None => None,
        Some(s) => if offset > byte_len(s) || byte_len(s) >= u32::MAX {
            None
        } else {
            Some(line_after(s.take(char_index_at(s, offset, 0))))
        },
    }
}

pub(crate) fn source_for<'a>(sources: &'a [(String, String)], file: &String) -> (r: Option<&'a String>)
    ensures
        match r {
            Some(t) => source_text(sources.deep_view(), file@) == Some(t@),
            None => source_text(sources.deep_view(), file@) is None,
        },
{
    let ghost sv = sources.deep_view();
    assert(sv.skip(0) =~= sv);
    let mut i: usize = 0;
    while i < sources.len()
        invariant
            i <= sources.len(),
            sv == sources.deep_view(),
            source_text(sv, file@) == source_text(sv.skip(i as int), file@),
        decreases sources.len() - i,
    {
        assert(sv.skip(i as int)[0] == sources[i as int].deep_view());
        assert(sv.skip(i as int).drop_first() =~= sv.skip(i + 1));
        if crate::text::string_eq(&sources[i].0, file) {
            return Some(&sources[i].1);
        }
        i += 1;
    }
    None
}

fn resolve_line(sources: &[(String, String)], file: &String, offset: u32) -> (r: Option<u32>)
    ensures
        match r {
            Some(l) => resolved_line(sources.deep_view(), file@, offset as int) == Some(l as int),
            None => resolved_line(sources.deep_view(), file@, offset as int) is None,
        },
{
    let source = match source_for(sources, file) {
        Some(s) => s,
        None => return None,
    };
    let n = match crate::tsserver::byte_length_below_u32_max(source.as_str()) {
        Some(n) => n,
        None => return None,
    };
    if offset > n {
        return None;
    }
    Some(byte_offset_to_line_col(source.as_str(), offset).0)
}

/// A line number, or `?` when it is not known.
pub open spec fn line_text(l: Option<int>) -> Seq<char> {
    match l {
        Some(n) => decimal(n as nat),
        None => "?"@,
    }
}

fn line_or_unknown(line: Option<u32>) -> (r: Vec<char>)
    ensures
        r@ == line_text(match line {
            Some(n) => Some(n as int),
            None => None,
        }),
{
    match line {
        Some(l) => decimal_chars(l as u64),
        None => chars_of("?"),
    }
}

// ---------------------------------------------------------------------------
// The text report
// ---------------------------------------------------------------------------
/// The type shown for an error: its name, or `Unknown`.
pub open spec fn shown_type(e: ErrorTypeView) -> Seq<char> {
    match e {
        ErrorTypeView::Named(n) => n,
        _ => "Unknown"@,
    }
}

/// The type proposed for a declaration: its name, or `unknown`.
pub open spec fn declarable_type(e: ErrorTypeView) -> Seq<char> {
    match e {
        ErrorTypeView::Named(n) => n,
        _ => "unknown"@,
    }
}

/// `ts` without an entry equal to the one before it.
pub open spec fn dedup(ts: Seq<Seq<char>>) -> Seq<Seq<char>>
    decreases ts.len(),
{
    if ts.len() <= 1 {
        ts
    } else if ts.last() == ts[ts.len() - 2] {
        dedup(ts.drop_last())
    } else {
        dedup(ts.drop_last()).push(ts.last())
    }
}

/// The types to declare, for the help line.
pub open spec fn help_text(missing: Seq<PropagatedThrowView>) -> Seq<char> {
    join(dedup(missing.map_values(|m: PropagatedThrowView| declarable_type(m.error_type))), ", "@)
}

/// `help_types`: the declarable types of the missing throws, runs of the
/// same type shown once, separated by `, `.
pub fn help_types(missing: &[PropagatedThrow]) -> (r: String)
    ensures
        r@ == help_text(missing.deep_view()),
{
    let ghost mv = missing.deep_view();
    let ghost all = mv.map_values(|m: PropagatedThrowView| declarable_type(m.error_type));
    let mut types: Vec<Vec<char>> = Vec::new();
    let mut i: usize = 0;
    assert(types.deep_view() =~= dedup(all.take(0)));
    while i < missing.len()
        invariant
            i <= missing.len(),
            mv == missing.deep_view(),
            all == mv.map_values(|m: PropagatedThrowView| declarable_type(m.error_type)),
            types.deep_view() == dedup(all.take(i as int)),
            i > 0 ==> types.len() > 0 && types.deep_view().last() == all[i - 1],
        decreases missing.len() - i,
    {
        let t: Vec<char> = match &missing[i].error_type {
            ErrorType::Named(n) => string_chars(n),
            _ => chars_of("unknown"),
        };
        assert(t@ == all[i as int]);
        assert(all.take(i + 1).drop_last() =~= all.take(i as int));
        assert(all.take(i + 1).last() == all[i as int]);
        let dup = types.len() > 0 && crate::text::seq_eq(&types[types.len() - 1], &t);
        proof {
            if i > 0 {
                assert(all.take(i + 1)[i - 1] == all[i - 1]);
                assert(types.deep_view()[types.len() - 1] == types[types.len() - 1]@);
            }
        }
        if !dup {
            let ghost before = types.deep_view();
            types.push(t);
            assert(types.deep_view() =~= before.push(all[i as int]));
        }
        i += 1;
    }
    assert(all.take(missing.len() as int) =~= all);
    let mut sep: Vec<char> = Vec::new();
    push_all_str(&mut sep, ", ");
    assert(sep@ =~= ", "@);
    let joined = crate::text::join_exec(&types, &sep);
    string_of(&joined)
}

/// The lines of one propagation: the throw, then each call it passes on
/// its way up to the reported function.
pub open spec fn propagation_lines(sources: Seq<(Seq<char>, Seq<char>)>, m: PropagatedThrowView) -> Seq<Seq<char>> {
    seq![
        "   | "@ + shown_type(m.error_type) + " propagates through:"@,
        "   |     throw at "@ + m.origin_function.file_path + ":"@ + line_text(
            resolved_line(sources, m.origin_function.file_path, m.origin.location.start as int),
        ) + " in "@ + m.origin_function.name,
    ] + hop_lines(sources, m.path) + seq!["   |"@]
}

/// One line per hop of `path`, last hop first.
pub open spec fn hop_lines(sources: Seq<(Seq<char>, Seq<char>)>, path: Seq<FunctionIdView>) -> Seq<Seq<char>>
    decreases path.len(),
{
    if path.len() == 0 {
        Seq::empty()
    } else {
        seq![hop_line(sources, path.last())] + hop_lines(sources, path.drop_last())
    }
}

pub open spec fn hop_line(sources: Seq<(Seq<char>, Seq<char>)>, hop: FunctionIdView) -> Seq<char> {
    "   |     \u{2190} "@ + hop.name + " ("@ + hop.file_path + ":"@ + line_text(
        resolved_line(sources, hop.file_path, hop.span.start as int),
    ) + ")"@
}

/// The lines for all propagations of a diagnostic, in order.
pub open spec fn propagations_lines(sources: Seq<(Seq<char>, Seq<char>)>, ms: Seq<PropagatedThrowView>) -> Seq<Seq<char>>
    decreases ms.len(),
{
    if ms.len() == 0 {
        Seq::empty()
    } else {
        propagations_lines(sources, ms.drop_last()) + propagation_lines(sources, ms.last())
    }
}

/// The block reported for a function that lacks declarations.
pub open spec fn diagnostic_lines(sources: Seq<(Seq<char>, Seq<char>)>, d: DiagnosticView) -> Seq<Seq<char>> {
    seq![
        "error: missing @throws declaration"@,
        "  --> "@ + d.function.file_path + ":"@ + line_text(
            resolved_line(sources, d.function.file_path, d.function.span.start as int),
        ) + " ("@ + d.function.name + ")"@,
        "   |"@,
    ] + propagations_lines(sources, d.missing_throws) + seq![
        "   = help: add @throws {"@ + help_text(d.missing_throws) + "} to function "@ + d.function.name,
        Seq::empty(),
    ]
}

/// What the parent method declares, for the report.
pub open spec fn parent_declares_line(v: LspViolationView) -> Seq<char> {
    if v.parent_method.declared_throws.len() == 0 {
        "   = parent declares: (no throws allowed)"@
    } else {
        "   = parent declares: @throws {"@ + join(
            v.parent_method.declared_throws.map_values(|d: crate::types::DeclaredThrowView| d.error_type),
            ", "@,
        ) + "}"@
    }
}

proof fn lemma_join_holds_part(parts: Seq<Seq<char>>, sep: Seq<char>, j: int)
    requires
        0 <= j < parts.len(),
    ensures
        exists|k: int| 0 <= k && k + parts[j].len() <= join(parts, sep).len()
            && #[trigger] join(parts, sep).subrange(k, k + parts[j].len()) == parts[j],
    decreases parts.len(),
{
    let jn = join(parts, sep);
    if parts.len() == 1 {
        let k: int = 0;
        assert(jn.subrange(k, k + parts[j].len()) =~= parts[j]);
    } else {
        let x = join(parts.drop_last(), sep);
        assert(jn == x + sep + parts.last());
        if j < parts.len() - 1 {
            lemma_join_holds_part(parts.drop_last(), sep, j);
            assert(parts.drop_last()[j] == parts[j]);
            let k = choose|k: int| 0 <= k && k + parts[j].len() <= x.len()
                && #[trigger] x.subrange(k, k + parts[j].len()) == parts[j];
            assert(jn.subrange(k, k + parts[j].len()) =~= x.subrange(k, k + parts[j].len()));
        } else {
            let k: int = (x.len() + sep.len()) as int;
            assert(jn.subrange(k, k + parts[j].len()) =~= parts[j]);
        }
    }
}

/// The line saying what the parent method declares reads `(no throws
/// allowed)` exactly when that method declares no throw, and otherwise
/// names every type it declares.
pub proof fn law_parent_declares_line_names_every_declared_type(v: LspViolationView)
    ensures
        (parent_declares_line(v) == "   = parent declares: (no throws allowed)"@) <==> v.parent_method.declared_throws.len() == 0,
        forall|j: int| #![trigger v.parent_method.declared_throws[j]] 0 <= j < v.parent_method.declared_throws.len() ==> exists|k: int|
            0 <= k && k + v.parent_method.declared_throws[j].error_type.len() <= parent_declares_line(v).len()
            && #[trigger] parent_declares_line(v).subrange(k, k + v.parent_method.declared_throws[j].error_type.len())
                == v.parent_method.declared_throws[j].error_type,
{
    reveal_strlit("   = parent declares: (no throws allowed)");
    reveal_strlit("   = parent declares: @throws {");
    reveal_strlit(", ");
    reveal_strlit("}");
    let ds = v.parent_method.declared_throws;
    if ds.len() > 0 {
        let types = ds.map_values(|d: crate::types::DeclaredThrowView| d.error_type);
        let head = "   = parent declares: @throws {"@;
        let line = parent_declares_line(v);
        assert(line == head + join(types, ", "@) + "}"@);
        assert(line[22] == head[22]);
        assert(line[22] != ("   = parent declares: (no throws allowed)"@)[22]);
        assert forall|j: int| #![trigger ds[j]] 0 <= j < ds.len() implies exists|k: int|
            0 <= k && k + ds[j].error_type.len() <= line.len()
            && #[trigger] line.subrange(k, k + ds[j].error_type.len()) == ds[j].error_type by {
            lemma_join_holds_part(types, ", "@, j);
            assert(types[j] == ds[j].error_type);
            let jn = join(types, ", "@);
            let k = choose|k: int| 0 <= k && k + types[j].len() <= jn.len()
                && #[trigger] jn.subrange(k, k + types[j].len()) == types[j];
            assert(line.subrange(head.len() + k, head.len() + k + ds[j].error_type.len())
                =~= jn.subrange(k, k + types[j].len()));
        }
    }
}

/// The block reported for an implementation that throws more than its
/// parent allows.
pub open spec fn violation_lines(v: LspViolationView) -> Seq<Seq<char>> {
    seq![
        "error: LSP violation - throws not declared in parent"@,
        "  --> "@ + v.implementation.file_path + ":"@ + v.implementation.name,
        "   |"@,
    ] + v.illegal_throws.map_values(
        |e: ErrorTypeView|
            "   | "@ + shown_type(e) + " is not declared in "@ + v.parent_method.type_id.name + "."@
                + v.parent_method.method_name,
    ) + seq![
        "   |"@,
        parent_declares_line(v),
        "   = help: handle the exception in the implementation or add @throws to the parent"@,
        Seq::empty(),
    ]
}

/// Number of missing throws over all diagnostics.
pub open spec fn error_total(ds: Seq<DiagnosticView>) -> nat
    decreases ds.len(),
{
    if ds.len() == 0 {
        0
    } else {
        error_total(ds.drop_last()) + ds.last().missing_throws.len()
    }
}

pub open spec fn all_diagnostic_lines(sources: Seq<(Seq<char>, Seq<char>)>, ds: Seq<DiagnosticView>) -> Seq<Seq<char>>
    decreases ds.len(),
{
    if ds.len() == 0 {
        Seq::empty()
    } else {
        all_diagnostic_lines(sources, ds.drop_last()) + diagnostic_lines(sources, ds.last())
    }
}

pub open spec fn all_violation_lines(vs: Seq<LspViolationView>) -> Seq<Seq<char>>
    decreases vs.len(),
{
    if vs.len() == 0 {
        Seq::empty()
    } else {
        all_violation_lines(vs.drop_last()) + violation_lines(vs.last())
    }
}

/// Each line followed by a line feed.
pub open spec fn as_text(ls: Seq<Seq<char>>) -> Seq<char>
    decreases ls.len(),
{
    if ls.len() == 0 {
        Seq::empty()
    } else {
        as_text(ls.drop_last()) + ls.last() + seq!['\n']
    }
}

/// The whole text report.
pub open spec fn report_lines(
    sources: Seq<(Seq<char>, Seq<char>)>,
    ds: Seq<DiagnosticView>,
    vs: Seq<LspViolationView>,
    files_checked: nat,
) -> Seq<Seq<char>> {
    if ds.len() == 0 && vs.len() == 0 {
        seq!["No issues found in "@ + decimal(files_checked) + " files"@]
    } else {
        all_diagnostic_lines(sources, ds) + all_violation_lines(vs) + seq![
            "Found "@ + decimal(error_total(ds)) + " errors in "@ + decimal(files_checked) + " files"@,
        ]
    }
}


/// The help line of a diagnostic's block.
pub open spec fn help_line(d: DiagnosticView) -> Seq<char> {
    "   = help: add @throws {"@ + help_text(d.missing_throws) + "} to function "@ + d.function.name
}

proof fn lemma_help_lines_listed(sources: Seq<(Seq<char>, Seq<char>)>, ds: Seq<DiagnosticView>)
    ensures
        forall|k: int| 0 <= k < ds.len() ==> all_diagnostic_lines(sources, ds).contains(#[trigger] help_line(ds[k])),
    decreases ds.len(),
{
    if ds.len() > 0 {
        lemma_help_lines_listed(sources, ds.drop_last());
        let prev = all_diagnostic_lines(sources, ds.drop_last());
        let block = diagnostic_lines(sources, ds.last());
        let all = all_diagnostic_lines(sources, ds);
        assert(all == prev + block);
        assert forall|k: int| 0 <= k < ds.len() implies all.contains(#[trigger] help_line(ds[k])) by {
            if k < ds.len() - 1 {
                assert(ds.drop_last()[k] == ds[k]);
                let w = choose|w: int| 0 <= w < prev.len() && prev[w] == help_line(ds[k]);
                assert(all[w] == prev[w]);
            } else {
                let at: int = 3 + propagations_lines(sources, ds.last().missing_throws).len() as int;
                assert(block[at] == help_line(ds.last()));
                assert(all[prev.len() as int + at] == block[at]);
            }
        }
    }
}

/// A report with something to show has, for each diagnostic, the help line
/// naming the types to declare and the function, and ends with the summary
/// `Found N errors in K files`, where `N` is the number of missing throws
/// over all diagnostics and `K` the number of files checked.
pub proof fn law_report_has_help_lines_and_summary(
    sources: Seq<(Seq<char>, Seq<char>)>,
    ds: Seq<DiagnosticView>,
    vs: Seq<LspViolationView>,
    files_checked: nat,
)
    requires
        ds.len() > 0 || vs.len() > 0,
    ensures
        forall|k: int| 0 <= k < ds.len() ==> report_lines(sources, ds, vs, files_checked).contains(#[trigger] help_line(ds[k])),
        report_lines(sources, ds, vs, files_checked).last()
            == "Found "@ + decimal(error_total(ds)) + " errors in "@ + decimal(files_checked) + " files"@,
{
    lemma_help_lines_listed(sources, ds);
    let a = all_diagnostic_lines(sources, ds);
    let all = report_lines(sources, ds, vs, files_checked);
    assert forall|k: int| 0 <= k < ds.len() implies all.contains(#[trigger] help_line(ds[k])) by {
        let w = choose|w: int| 0 <= w < a.len() && a[w] == help_line(ds[k]);
        assert(all[w] == a[w]);
    }
}

fn push_line(out: &mut Vec<Vec<char>>, l: Vec<char>)
    ensures
        final(out).deep_view() == old(out).deep_view().push(l@),
{
    let ghost before = out.deep_view();
    out.push(l);
    assert(out.deep_view() =~= before.push(l@));
}

fn text_line(s: &str) -> (r: Vec<char>)
    ensures
        r@ == s@,
{
    chars_of(s)
}

fn hop_line_exec(sources: &[(String, String)], hop: &FunctionId) -> (r: Vec<char>)
    ensures
        r@ == hop_line(sources.deep_view(), hop@),
{
    let mut l = text_line("   |     \u{2190} ");
    let name = string_chars(&hop.name);
    push_all(&mut l, &name);
    push_all_str(&mut l, " (");
    let file = string_chars(&hop.file_path);
    push_all(&mut l, &file);
    push_all_str(&mut l, ":");
    let line = line_or_unknown(resolve_line(sources, &hop.file_path, hop.span.start));
    push_all(&mut l, &line);
    push_all_str(&mut l, ")");
    l
}

fn render_propagation_block(out: &mut Vec<Vec<char>>, missing: &PropagatedThrow, sources: &[(String, String)])
    ensures
        final(out).deep_view() == old(out).deep_view() + propagation_lines(sources.deep_view(), missing@),
{
    let ghost o0 = out.deep_view();
    let ghost sv = sources.deep_view();
    let mut l1 = text_line("   | ");
    let t: Vec<char> = match &missing.error_type {
        ErrorType::Named(n) => string_chars(n),
        _ => text_line("Unknown"),
    };
    assert(t@ == shown_type(missing.error_type@));
    push_all(&mut l1, &t);
    push_all_str(&mut l1, " propagates through:");
    push_line(out, l1);
    let mut l2 = text_line("   |     throw at ");
    let of = string_chars(&missing.origin_function.file_path);
    push_all(&mut l2, &of);
    push_all_str(&mut l2, ":");
    let ol = line_or_unknown(resolve_line(sources, &missing.origin_function.file_path, missing.origin.location.start));
    push_all(&mut l2, &ol);
    push_all_str(&mut l2, " in ");
    let on = string_chars(&missing.origin_function.name);
    push_all(&mut l2, &on);
    push_line(out, l2);
    let ghost o2 = out.deep_view();
    let ghost pv = missing.path.deep_view();
    let mut k = missing.path.len();
    assert(pv.take(pv.len() as int) =~= pv);
    assert(hop_lines(sv, pv) == hop_lines(sv, pv.take(k as int)));
    while k > 0
        invariant
            k <= pv.len(),
            pv == missing.path.deep_view(),
            sv == sources.deep_view(),
            out.deep_view() + hop_lines(sv, pv.take(k as int)) == o2 + hop_lines(sv, pv),
        decreases k,
    {
        let hop = &missing.path[k - 1];
        assert(pv[k - 1] == hop@);
        assert(pv.take(k as int).last() == hop@);
        assert(pv.take(k as int).drop_last() =~= pv.take(k - 1));
        let l = hop_line_exec(sources, hop);
        let ghost before = out.deep_view();
        push_line(out, l);
        assert(before + hop_lines(sv, pv.take(k as int)) =~= out.deep_view() + hop_lines(sv, pv.take(k - 1)));
        k -= 1;
    }
    assert(pv.take(0) =~= Seq::<FunctionIdView>::empty());
    assert(out.deep_view() + hop_lines(sv, pv.take(0)) =~= out.deep_view());
    push_line(out, text_line("   |"));
    assert(out.deep_view() =~= o0 + propagation_lines(sv, missing@));
}

fn render_diagnostic(out: &mut Vec<Vec<char>>, diag: &Diagnostic, sources: &[(String, String)])
    ensures
        final(out).deep_view() == old(out).deep_view() + diagnostic_lines(sources.deep_view(), diag@),
{
    let ghost o0 = out.deep_view();
    let ghost sv = sources.deep_view();
    push_line(out, text_line("error: missing @throws declaration"));
    let mut h = text_line("  --> ");
    let f = string_chars(&diag.function.file_path);
    push_all(&mut h, &f);
    push_all_str(&mut h, ":");
    let hl = line_or_unknown(resolve_line(sources, &diag.function.file_path, diag.function.span.start));
    push_all(&mut h, &hl);
    push_all_str(&mut h, " (");
    let n = string_chars(&diag.function.name);
    push_all(&mut h, &n);
    push_all_str(&mut h, ")");
    push_line(out, h);
    push_line(out, text_line("   |"));
    let ghost o1 = out.deep_view();
    let ghost mv = diag.missing_throws.deep_view();
    let mut i: usize = 0;
    assert(mv.take(0) =~= Seq::<PropagatedThrowView>::empty());
    assert(o1 =~= o1 + propagations_lines(sv, mv.take(0)));
    while i < diag.missing_throws.len()
        invariant
            i <= mv.len(),
            mv == diag.missing_throws.deep_view(),
            sv == sources.deep_view(),
            out.deep_view() == o1 + propagations_lines(sv, mv.take(i as int)),
        decreases mv.len() - i,
    {
        assert(mv.take(i + 1).drop_last() =~= mv.take(i as int));
        assert(mv.take(i + 1).last() == diag.missing_throws[i as int]@);
        render_propagation_block(out, &diag.missing_throws[i], sources);
        i += 1;
    }
    assert(mv.take(mv.len() as int) =~= mv);
    let mut help = text_line("   = help: add @throws {");
    let ht = help_types(diag.missing_throws.as_slice());
    let htc = string_chars(&ht);
    push_all(&mut help, &htc);
    push_all_str(&mut help, "} to function ");
    push_all(&mut help, &n);
    push_line(out, help);
    push_line(out, Vec::new());
    assert(out.deep_view() =~= o0 + diagnostic_lines(sv, diag@));
}

fn render_violation(out: &mut Vec<Vec<char>>, violation: &LspViolation)
    ensures
        final(out).deep_view() == old(out).deep_view() + violation_lines(violation@),
{
    let ghost o0 = out.deep_view();
    let ghost v = violation@;
    push_line(out, text_line("error: LSP violation - throws not declared in parent"));
    let mut h = text_line("  --> ");
    let f = string_chars(&violation.implementation.file_path);
    push_all(&mut h, &f);
    push_all_str(&mut h, ":");
    let n = string_chars(&violation.implementation.name);
    push_all(&mut h, &n);
    push_line(out, h);
    push_line(out, text_line("   |"));
    let ghost o1 = out.deep_view();
    let ghost iv = violation.illegal_throws.deep_view();
    let pt = string_chars(&violation.parent_method.type_id.name);
    let pm = string_chars(&violation.parent_method.method_name);
    let mut i: usize = 0;
    while i < violation.illegal_throws.len()
        invariant
            i <= iv.len(),
            iv == violation.illegal_throws.deep_view(),
            v == violation@,
            pt@ == v.parent_method.type_id.name,
            pm@ == v.parent_method.method_name,
            out.deep_view() == o1 + iv.take(i as int).map_values(
                |e: ErrorTypeView|
                    "   | "@ + shown_type(e) + " is not declared in "@ + v.parent_method.type_id.name + "."@
                        + v.parent_method.method_name,
            ),
        decreases iv.len() - i,
    {
        let mut l = text_line("   | ");
        let t: Vec<char> = match &violation.illegal_throws[i] {
            ErrorType::Named(x) => string_chars(x),
            _ => text_line("Unknown"),
        };
        assert(t@ == shown_type(iv[i as int]));
        push_all(&mut l, &t);
        push_all_str(&mut l, " is not declared in ");
        push_all(&mut l, &pt);
        push_all_str(&mut l, ".");
        push_all(&mut l, &pm);
        let ghost before = out.deep_view();
        push_line(out, l);
        assert(iv.take(i + 1) =~= iv.take(i as int).push(iv[i as int]));
        assert(out.deep_view() =~= o1 + iv.take(i + 1).map_values(
            |e: ErrorTypeView|
                "   | "@ + shown_type(e) + " is not declared in "@ + v.parent_method.type_id.name + "."@
                    + v.parent_method.method_name,
        ));
        i += 1;
    }
    assert(iv.take(iv.len() as int) =~= iv);
    push_line(out, text_line("   |"));
    let ghost dv = violation.parent_method.declared_throws.deep_view();
    if violation.parent_method.declared_throws.len() == 0 {
        push_line(out, text_line("   = parent declares: (no throws allowed)"));
    } else {
        let mut names: Vec<Vec<char>> = Vec::new();
        let mut j: usize = 0;
        while j < violation.parent_method.declared_throws.len()
            invariant
                j <= dv.len(),
                dv == violation.parent_method.declared_throws.deep_view(),
                names.deep_view() == dv.take(j as int).map_values(|d: crate::types::DeclaredThrowView| d.error_type),
            decreases dv.len() - j,
        {
            let e = string_chars(&violation.parent_method.declared_throws[j].error_type);
            let ghost before = names.deep_view();
            names.push(e);
            assert(names.deep_view() =~= before.push(e@));
            assert(dv.take(j + 1) =~= dv.take(j as int).push(dv[j as int]));
            assert(names.deep_view() =~= dv.take(j + 1).map_values(|d: crate::types::DeclaredThrowView| d.error_type));
            j += 1;
        }
        assert(dv.take(dv.len() as int) =~= dv);
        let mut sep: Vec<char> = Vec::new();
        push_all_str(&mut sep, ", ");
        let joined = crate::text::join_exec(&names, &sep);
        let mut l = text_line("   = parent declares: @throws {");
        push_all(&mut l, &joined);
        push_all_str(&mut l, "}");
        push_line(out, l);
    }
    push_line(out, text_line("   = help: handle the exception in the implementation or add @throws to the parent"));
    push_line(out, Vec::new());
    assert(out.deep_view() =~= o0 + violation_lines(v));
}

/// The text report: a block per diagnostic and per violation and a count,
/// or a line saying that nothing was found. Line numbers come from the
/// file texts in `sources`; a file without one shows `?`.
pub fn render_text(
    diagnostics: &[Diagnostic],
    lsp_violations: &[LspViolation],
    files_checked: usize,
    sources: &[(String, String)],
) -> (r: String)
    requires
        error_total(diagnostics.deep_view()) <= usize::MAX,
    ensures
        r@ == as_text(report_lines(sources.deep_view(), diagnostics.deep_view(), lsp_violations.deep_view(), files_checked as nat)),
{
    let ghost sv = sources.deep_view();
    let ghost dv = diagnostics.deep_view();
    let ghost vv = lsp_violations.deep_view();
    let mut lines: Vec<Vec<char>> = Vec::new();
    if diagnostics.len() == 0 && lsp_violations.len() == 0 {
        let mut l = text_line("No issues found in ");
        let n = decimal_chars(files_checked as u64);
        push_all(&mut l, &n);
        push_all_str(&mut l, " files");
        push_line(&mut lines, l);
    } else {
        let mut i: usize = 0;
        let mut errors: usize = 0;
        assert(dv.take(0) =~= Seq::<DiagnosticView>::empty());
        assert(lines.deep_view() =~= all_diagnostic_lines(sv, dv.take(0)));
        while i < diagnostics.len()
            invariant
                i <= dv.len(),
                dv == diagnostics.deep_view(),
                sv == sources.deep_view(),
                error_total(dv) <= usize::MAX,
                errors == error_total(dv.take(i as int)),
                lines.deep_view() == all_diagnostic_lines(sv, dv.take(i as int)),
            decreases dv.len() - i,
        {
            assert(dv.take(i + 1).drop_last() =~= dv.take(i as int));
            assert(dv.take(i + 1).last() == diagnostics[i as int]@);
            proof {
                lemma_error_total_prefix(dv, i + 1);
            }
            render_diagnostic(&mut lines, &diagnostics[i], sources);
            errors = errors + diagnostics[i].missing_throws.len();
            i += 1;
        }
        assert(dv.take(dv.len() as int) =~= dv);
        let ghost o1 = lines.deep_view();
        let mut j: usize = 0;
        assert(vv.take(0) =~= Seq::<LspViolationView>::empty());
        assert(o1 =~= o1 + all_violation_lines(vv.take(0)));
        while j < lsp_violations.len()
            invariant
                j <= vv.len(),
                vv == lsp_violations.deep_view(),
                lines.deep_view() == o1 + all_violation_lines(vv.take(j as int)),
            decreases vv.len() - j,
        {
            assert(vv.take(j + 1).drop_last() =~= vv.take(j as int));
            assert(vv.take(j + 1).last() == lsp_violations[j as int]@);
            render_violation(&mut lines, &lsp_violations[j]);
            j += 1;
        }
        assert(vv.take(vv.len() as int) =~= vv);
        let mut l = text_line("Found ");
        let e = decimal_chars(errors as u64);
        push_all(&mut l, &e);
        push_all_str(&mut l, " errors in ");
        let n = decimal_chars(files_checked as u64);
        push_all(&mut l, &n);
        push_all_str(&mut l, " files");
        push_line(&mut lines, l);
    }
    assert(lines.deep_view() =~= report_lines(sv, dv, vv, files_checked as nat));
    let mut out: Vec<char> = Vec::new();
    let ghost lv = lines.deep_view();
    let mut k: usize = 0;
    while k < lines.len()
        invariant
            k <= lines.len(),
            lv == lines.deep_view(),
            out@ == as_text(lv.take(k as int)),
        decreases lines.len() - k,
    {
        assert(lv.take(k + 1).drop_last() =~= lv.take(k as int));
        assert(lv.take(k + 1).last() == lines[k as int]@);
        push_all(&mut out, &lines[k]);
        out.push('\n');
        k += 1;
    }
    assert(lv.take(lv.len() as int) =~= lv);
    string_of(&out)
}

proof fn lemma_error_total_prefix(ds: Seq<DiagnosticView>, k: int)
    requires
        0 <= k <= ds.len(),
    ensures
        error_total(ds.take(k)) <= error_total(ds),
    decreases ds.len(),
{
    if k < ds.len() {
        assert(ds.drop_last().take(k) =~= ds.take(k));
        lemma_error_total_prefix(ds.drop_last(), k);
    } else {
        assert(ds.take(k) =~= ds);
    }
}


// ---------------------------------------------------------------------------
// Values of the JSON report
// ---------------------------------------------------------------------------
/// A hop of a propagation path in the JSON report.
#[derive(Debug, Clone, PartialEq, Eq)]
pub struct JsonPathEntry {
    pub file: String,
    pub line: Option<u32>,
    pub function: String,
}

/// A missing throw in the JSON report.
#[derive(Debug, Clone, PartialEq, Eq)]
pub struct JsonMissingThrow {
    pub error_type: String,
    pub origin_file: String,
    pub origin_line: Option<u32>,
    pub origin_function: String,
    pub path: Vec<JsonPathEntry>,
}

/// A function lacking declarations in the JSON report.
#[derive(Debug, Clone, PartialEq, Eq)]
pub struct JsonDiagnostic {
    pub file: String,
    pub function: String,
    pub missing_throws: Vec<JsonMissingThrow>,
}

/// An implementation throwing more than its parent allows, in the JSON report.
#[derive(Debug, Clone, PartialEq, Eq)]
pub struct JsonLspViolation {
    pub file: String,
    pub class: String,
    pub method: String,
    pub illegal_throws: Vec<String>,
    pub parent_type: String,
    pub parent_declared_throws: Vec<String>,
}

pub open spec fn line_value(l: Option<u32>) -> Option<int> {
    match l {
        Some(n) => Some(n as int),
        None => None,
    }
}

/// The JSON form of one hop.
pub open spec fn path_entry_ok(sources: Seq<(Seq<char>, Seq<char>)>, hop: FunctionIdView, e: JsonPathEntry) -> bool {
    &&& e.file@ == hop.file_path
    &&& line_value(e.line) == resolved_line(sources, hop.file_path, hop.span.start as int)
    &&& e.function@ == hop.name
}

/// The JSON form of one missing throw: its shown type, where it is thrown
/// (with the line when known) and its path, first hop first.
pub open spec fn missing_throw_ok(sources: Seq<(Seq<char>, Seq<char>)>, m: PropagatedThrowView, j: JsonMissingThrow) -> bool {
    &&& j.error_type@ == shown_type(m.error_type)
    &&& j.origin_file@ == m.origin_function.file_path
    &&& line_value(j.origin_line) == resolved_line(sources, m.origin_function.file_path, m.origin.location.start as int)
    &&& j.origin_function@ == m.origin_function.name
    &&& j.path.len() == m.path.len()
    &&& forall|k: int| 0 <= k < m.path.len() ==> path_entry_ok(sources, m.path[k], #[trigger] j.path@[k])
}

/// The JSON record of one missing throw.
pub fn build_missing_throw_json(missing: &PropagatedThrow, sources: &[(String, String)]) -> (r: JsonMissingThrow)
    ensures
        missing_throw_ok(sources.deep_view(), missing@, r),
{
    let ghost pv = missing.path.deep_view();
    let mut path: Vec<JsonPathEntry> = Vec::new();
    let mut k: usize = 0;
    while k < missing.path.len()
        invariant
            k <= pv.len(),
            pv == missing.path.deep_view(),
            path.len() == k,
            forall|i: int| 0 <= i < k ==> path_entry_ok(sources.deep_view(), pv[i], #[trigger] path@[i]),
        decreases pv.len() - k,
    {
        let hop = &missing.path[k];
        assert(pv[k as int] == hop@);
        let e = JsonPathEntry {
            file: hop.file_path.clone(),
            line: resolve_line(sources, &hop.file_path, hop.span.start),
            function: hop.name.clone(),
        };
        path.push(e);
        k += 1;
    }
    let et: Vec<char> = match &missing.error_type {
        ErrorType::Named(n) => string_chars(n),
        _ => text_line("Unknown"),
    };
    JsonMissingThrow {
        error_type: string_of(&et),
        origin_file: missing.origin_function.file_path.clone(),
        origin_line: resolve_line(sources, &missing.origin_function.file_path, missing.origin.location.start),
        origin_function: missing.origin_function.name.clone(),
        path,
    }
}

/// The JSON record of one diagnostic.
pub fn build_diagnostic_json(diag: &Diagnostic, sources: &[(String, String)]) -> (r: JsonDiagnostic)
    ensures
        r.file@ == diag.function.file_path@,
        r.function@ == diag.function.name@,
        r.missing_throws.len() == diag.missing_throws.len(),
        forall|k: int| 0 <= k < diag.missing_throws.len() ==> missing_throw_ok(
            sources.deep_view(),
            diag.missing_throws[k]@,
            #[trigger] r.missing_throws@[k],
        ),
{
    let mut ms: Vec<JsonMissingThrow> = Vec::new();
    let mut k: usize = 0;
    while k < diag.missing_throws.len()
        invariant
            k <= diag.missing_throws.len(),
            ms.len() == k,
            forall|i: int| 0 <= i < k ==> missing_throw_ok(sources.deep_view(), diag.missing_throws[i]@, #[trigger] ms@[i]),
        decreases diag.missing_throws.len() - k,
    {
        let j = build_missing_throw_json(&diag.missing_throws[k], sources);
        ms.push(j);
        k += 1;
    }
    JsonDiagnostic { file: diag.function.file_path.clone(), function: diag.function.name.clone(), missing_throws: ms }
}

/// The JSON record of one substitutability violation.
pub fn build_lsp_violation_json(v: &LspViolation) -> (r: JsonLspViolation)
    ensures
        r.file@ == v.implementation.file_path@,
        r.class@ == Seq::<char>::empty(),
        r.method@ == v.implementation.name@,
        r.illegal_throws.deep_view() == v.illegal_throws.deep_view().map_values(|e: ErrorTypeView| shown_type(e)),
        r.parent_type@ == v.parent_method.type_id.name@,
        r.parent_declared_throws.deep_view() == v.parent_method.declared_throws.deep_view().map_values(
            |d: crate::types::DeclaredThrowView| d.error_type,
        ),
{
    let ghost iv = v.illegal_throws.deep_view();
    let mut ill: Vec<String> = Vec::new();
    let mut k: usize = 0;
    while k < v.illegal_throws.len()
        invariant
            k <= iv.len(),
            iv == v.illegal_throws.deep_view(),
            ill.deep_view() == iv.take(k as int).map_values(|e: ErrorTypeView| shown_type(e)),
        decreases iv.len() - k,
    {
        let t: Vec<char> = match &v.illegal_throws[k] {
            ErrorType::Named(n) => string_chars(n),
            _ => text_line("Unknown"),
        };
        assert(t@ == shown_type(iv[k as int]));
        let s = string_of(&t);
        let ghost before = ill.deep_view();
        ill.push(s);
        assert(ill.deep_view() =~= before.push(s@));
        assert(iv.take(k + 1) =~= iv.take(k as int).push(iv[k as int]));
        assert(ill.deep_view() =~= iv.take(k + 1).map_values(|e: ErrorTypeView| shown_type(e)));
        k += 1;
    }
    assert(iv.take(iv.len() as int) =~= iv);
    let ghost dv = v.parent_method.declared_throws.deep_view();
    let mut decl: Vec<String> = Vec::new();
    let mut j: usize = 0;
    while j < v.parent_method.declared_throws.len()
        invariant
            j <= dv.len(),
            dv == v.parent_method.declared_throws.deep_view(),
            decl.deep_view() == dv.take(j as int).map_values(|d: crate::types::DeclaredThrowView| d.error_type),
        decreases dv.len() - j,
    {
        let e = v.parent_method.declared_throws[j].error_type.clone();
        let ghost before = decl.deep_view();
        decl.push(e);
        assert(decl.deep_view() =~= before.push(e@));
        assert(dv.take(j + 1) =~= dv.take(j as int).push(dv[j as int]));
        assert(decl.deep_view() =~= dv.take(j + 1).map_values(|d: crate::types::DeclaredThrowView| d.error_type));
        j += 1;
    }
    assert(dv.take(dv.len() as int) =~= dv);
    JsonLspViolation {
        file: v.implementation.file_path.clone(),
        class: String::new(),
        method: v.implementation.name.clone(),
        illegal_throws: ill,
        parent_type: v.parent_method.type_id.name.clone(),
        parent_declared_throws: decl,
    }
}

/// Number of missing throws over all diagnostics (the report's error count).
pub fn count_errors(diagnostics: &[Diagnostic]) -> (r: usize)
    requires
        error_total(diagnostics.deep_view()) <= usize::MAX,
    ensures
        r == error_total(diagnostics.deep_view()),
{
    let ghost dv = diagnostics.deep_view();
    let mut errors: usize = 0;
    let mut i: usize = 0;
    assert(dv.take(0) =~= Seq::<DiagnosticView>::empty());
    while i < diagnostics.len()
        invariant
            i <= dv.len(),
            dv == diagnostics.deep_view(),
            error_total(dv) <= usize::MAX,
            errors == error_total(dv.take(i as int)),
        decreases dv.len() - i,
    {
        assert(dv.take(i + 1).drop_last() =~= dv.take(i as int));
        assert(dv.take(i + 1).last() == diagnostics[i as int]@);
        proof {
            lemma_error_total_prefix(dv, i + 1);
        }
        errors = errors + diagnostics[i].missing_throws.len();
        i += 1;
    }
    assert(dv.take(dv.len() as int) =~= dv);
    errors
}



} // verus!
