//! The decisions of a whole-workspace analysis: which files to follow,
//! the order functions are checked in, how calls are resolved to the
//! functions they reach, and which findings concern the checked files.
use crate::call_graph::{CallGraph, CallGraphView};
use crate::cache::TypeCheckDependency;
use crate::diagnostic::{
    declared_types, find_missing_declarations, lemma_same_answers_trans, lemma_same_outcome, missing_all, outcome_fits,
    outcome_of, same_answers, NoOpTypeResolver, ResolverOutcome, TypeResolver,
};
use crate::propagation::compute_propagated_throws;
use crate::reporter::source_text;
use crate::signature_map::{SignatureMap, SignatureMapView};
use crate::text::{split_char, split_char_exec, string_chars, string_eq, chars_of};
use crate::tsserver::{byte_len, byte_offset_to_line_col, char_index_at, line_after};
use crate::types::{
    CallSiteView, Diagnostic, DiagnosticView, FunctionId, FunctionIdView, FunctionSignature,
    FunctionSignatureView, LspViolation, LspViolationView, PropagatedThrowView, Span,
};
use vstd::prelude::*;

verus! {

broadcast use {vstd::string::group_string_axioms, crate::char_vec::lemma_char_vec_deep_view};

/// Limits of an analysis.
pub struct AnalyzerConfig {
    /// Rounds of following calls into other files.
    pub max_depth: u32,
    /// Files analysed at most.
    pub max_files: usize,
    /// Whether calls are followed into other files.
    pub cross_file: bool,
}

impl Default for AnalyzerConfig {
    fn default() -> (r: Self)
        ensures
            r.max_depth == 10,
            r.max_files == 1000,
            r.cross_file,
    {
        AnalyzerConfig { max_depth: 10, max_files: 1000, cross_file: true }
    }
}

/// A file is followed unless one of its path components is `node_modules`.
pub open spec fn analyzable(path: Seq<char>) -> bool {
    !split_char(path, '/').contains("node_modules"@)
}

/// Whether a file found through a definition is analysed as well.
pub fn should_analyze(file_path: &str) -> (r: bool)
    ensures
        r == analyzable(file_path@),
{
    let chars = chars_of(file_path);
    let parts = split_char_exec(&chars, '/');
    let nm = chars_of("node_modules");
    let mut i: usize = 0;
    while i < parts.len()
        invariant
            i <= parts.len(),
            nm@ == "node_modules"@,
            parts.deep_view() == split_char(file_path@, '/'),
            forall|j: int| 0 <= j < i ==> parts.deep_view()[j] != "node_modules"@,
        decreases parts.len() - i,
    {
        if crate::text::seq_eq(&parts[i], &nm) {
            assert(parts.deep_view()[i as int] == "node_modules"@);
            return false;
        }
        i += 1;
    }
    true
}

// ---------------------------------------------------------------------------
// Order of functions
// ---------------------------------------------------------------------------
/// `a` comes before `b` in lexicographic order of characters.
pub open spec fn text_lt(a: Seq<char>, b: Seq<char>) -> bool
    decreases a.len(),
{
    if b.len() == 0 {
        false
    } else if a.len() == 0 {
        true
    } else if a[0] != b[0] {
        (a[0] as u32) < (b[0] as u32)
    } else {
        text_lt(a.drop_first(), b.drop_first())
    }
}

/// A path with its backslashes written as slashes, for ordering.
pub open spec fn slashed(p: Seq<char>) -> Seq<char> {
    p.map_values(|c: char| if c == '\\' {
        '/'
    } else {
        c
    })
}

/// Functions are ordered by file (slashed), name, span start and span end.
pub open spec fn id_lt(a: FunctionIdView, b: FunctionIdView) -> bool {
    let (pa, pb) = (slashed(a.file_path), slashed(b.file_path));
    if pa != pb {
        text_lt(pa, pb)
    } else if a.name != b.name {
        text_lt(a.name, b.name)
    } else if a.span.start != b.span.start {
        a.span.start < b.span.start
    } else {
        a.span.end < b.span.end
    }
}

pub(crate) fn text_less(a: &Vec<char>, b: &Vec<char>) -> (r: bool)
    ensures
        r == text_lt(a@, b@),
{
    let mut i: usize = 0;
    assert(a@.skip(0) =~= a@);
    assert(b@.skip(0) =~= b@);
    while i < a.len() && i < b.len() && a[i] == b[i]
        invariant
            i <= a.len(),
            i <= b.len(),
            text_lt(a@, b@) == text_lt(a@.skip(i as int), b@.skip(i as int)),
        decreases a.len() - i,
    {
        assert(a@.skip(i as int).drop_first() =~= a@.skip(i + 1));
        assert(b@.skip(i as int).drop_first() =~= b@.skip(i + 1));
        i += 1;
    }
    if i == b.len() {
        false
    } else if i == a.len() {
        true
    } else {
        (a[i] as u32) < (b[i] as u32)
    }
}

pub(crate) fn slashed_exec(p: &String) -> (r: Vec<char>)
    ensures
        r@ == slashed(p@),
{
    let v = string_chars(p);
    let mut out: Vec<char> = Vec::new();
    let mut i: usize = 0;
    while i < v.len()
        invariant
            i <= v.len(),
            v@ == p@,
            out@ == slashed(v@.take(i as int)),
        decreases v.len() - i,
    {
        out.push(if v[i] == '\\' {
            '/'
        } else {
            v[i]
        });
        assert(slashed(v@.take(i + 1)) =~= slashed(v@.take(i as int)).push(if v@[i as int] == '\\' {
            '/'
        } else {
            v@[i as int]
        }));
        i += 1;
    }
    assert(v@.take(v.len() as int) =~= v@);
    out
}

fn id_less(a: &FunctionId, b: &FunctionId) -> (r: bool)
    ensures
        r == id_lt(a@, b@),
{
    let pa = slashed_exec(&a.file_path);
    let pb = slashed_exec(&b.file_path);
    if !crate::text::seq_eq(&pa, &pb) {
        return text_less(&pa, &pb);
    }
    if !string_eq(&a.name, &b.name) {
        let na = string_chars(&a.name);
        let nb = string_chars(&b.name);
        return text_less(&na, &nb);
    }
    if a.span.start != b.span.start {
        return a.span.start < b.span.start;
    }
    a.span.end < b.span.end
}

/// `s` ordered by `id_lt`, equal keys kept in their order.
pub open spec fn ids_sorted(s: Seq<FunctionIdView>) -> bool {
    forall|i: int, j: int| 0 <= i < j < s.len() ==> !id_lt(#[trigger] s[j], #[trigger] s[i])
}

/// The functions of the table, ordered by file, name and span.
pub fn sorted_function_ids(signatures: &SignatureMap) -> (r: Vec<FunctionId>)
    requires
        signatures.wf(),
    ensures
        r.deep_view().to_multiset() == signatures@.keys.to_multiset(),
        ids_sorted(r.deep_view()),
{
    let n = signatures.len();
    let mut out: Vec<FunctionId> = Vec::new();
    let ghost keys = signatures@.keys;
    let mut i: usize = 0;
    proof {
        assert(out.deep_view() =~= Seq::<FunctionIdView>::empty());
        assert(keys.take(0) =~= Seq::<FunctionIdView>::empty());
    }
    while i < n
        invariant
            signatures.wf(),
            keys == signatures@.keys,
            n == keys.len(),
            i <= n,
            out.deep_view().to_multiset() == keys.take(i as int).to_multiset(),
            ids_sorted(out.deep_view()),
        decreases n - i,
    {
        let id = signatures.key_at(i).clone();
        assert(keys.take(i + 1) =~= keys.take(i as int).push(id@));
        insert_in_order(&mut out, id);
        proof {
            vstd::seq_lib::to_multiset_insert(keys.take(i as int), i as int, keys[i as int]);
            assert(keys.take(i as int).insert(i as int, keys[i as int]) =~= keys.take(i + 1));
        }
        i += 1;
    }
    assert(keys.take(n as int) =~= keys);
    out
}

/// `ids` ordered by file, name and span; equal ones kept in their order.
pub fn sort_function_ids(ids: Vec<FunctionId>) -> (r: Vec<FunctionId>)
    ensures
        r.deep_view().to_multiset() == ids.deep_view().to_multiset(),
        ids_sorted(r.deep_view()),
{
    let ghost keys = ids.deep_view();
    let mut out: Vec<FunctionId> = Vec::new();
    let mut i: usize = 0;
    proof {
        assert(out.deep_view() =~= Seq::<FunctionIdView>::empty());
        assert(keys.take(0) =~= Seq::<FunctionIdView>::empty());
    }
    while i < ids.len()
        invariant
            keys == ids.deep_view(),
            i <= ids.len(),
            out.deep_view().to_multiset() == keys.take(i as int).to_multiset(),
            ids_sorted(out.deep_view()),
        decreases ids.len() - i,
    {
        let id = ids[i].clone();
        assert(keys[i as int] == id@);
        assert(keys.take(i + 1) =~= keys.take(i as int).push(id@));
        insert_in_order(&mut out, id);
        proof {
            vstd::seq_lib::to_multiset_insert(keys.take(i as int), i as int, keys[i as int]);
            assert(keys.take(i as int).insert(i as int, keys[i as int]) =~= keys.take(i + 1));
        }
        i += 1;
    }
    assert(keys.take(ids.len() as int) =~= keys);
    out
}

proof fn lemma_id_lt_total(a: FunctionIdView, b: FunctionIdView)
    ensures
        !id_lt(a, b) && !id_lt(b, a) ==> a.span == b.span && a.name == b.name && slashed(a.file_path) == slashed(b.file_path),
        id_lt(a, b) ==> !id_lt(b, a),
{
    lemma_text_lt_asym(slashed(a.file_path), slashed(b.file_path));
    lemma_text_lt_asym(a.name, b.name);
}

pub(crate) proof fn lemma_text_lt_asym(a: Seq<char>, b: Seq<char>)
    ensures
        text_lt(a, b) ==> !text_lt(b, a),
        a != b ==> text_lt(a, b) || text_lt(b, a),
    decreases a.len(),
{
    if a.len() > 0 && b.len() > 0 && a[0] == b[0] {
        lemma_text_lt_asym(a.drop_first(), b.drop_first());
        if a != b {
            assert(a.drop_first() != b.drop_first()) by {
                if a.drop_first() == b.drop_first() {
                    assert(a =~= seq![a[0]] + a.drop_first());
                    assert(b =~= seq![b[0]] + b.drop_first());
                }
            }
        }
    }
    if a.len() == 0 && b.len() == 0 {
        assert(a =~= b);
    }
    if a.len() > 0 && b.len() > 0 && a[0] != b[0] {
        vstd::utf8::char_u32_cast(a[0], a[0] as u32);
        vstd::utf8::char_u32_cast(b[0], b[0] as u32);
    }
}

pub(crate) proof fn lemma_text_lt_trans(a: Seq<char>, b: Seq<char>, c: Seq<char>)
    requires
        text_lt(a, b),
        text_lt(b, c),
    ensures
        text_lt(a, c),
    decreases a.len(),
{
    if a.len() > 0 && b.len() > 0 && c.len() > 0 && a[0] == b[0] && b[0] == c[0] {
        lemma_text_lt_trans(a.drop_first(), b.drop_first(), c.drop_first());
    }
}

proof fn lemma_id_le_trans(a: FunctionIdView, b: FunctionIdView, c: FunctionIdView)
    requires
        !id_lt(b, a),
        !id_lt(c, b),
    ensures
        !id_lt(c, a),
{
    lemma_id_lt_total(a, b);
    lemma_id_lt_total(b, c);
    lemma_id_lt_total(a, c);
    if id_lt(c, a) {
        let (pa, pb, pc) = (slashed(a.file_path), slashed(b.file_path), slashed(c.file_path));
        lemma_text_lt_asym(pa, pb);
        lemma_text_lt_asym(pb, pc);
        lemma_text_lt_asym(pa, pc);
        lemma_text_lt_asym(a.name, b.name);
        lemma_text_lt_asym(b.name, c.name);
        lemma_text_lt_asym(a.name, c.name);
        if pc != pa {
            // c < a by path; b sits between, so a <= b <= c by path.
            if pa != pb {
                lemma_text_lt_trans(pc, pa, pb);
            }
            if pb != pc {
                lemma_text_lt_trans(pb, pc, pa);
            }
        } else if pb != pa {
            lemma_text_lt_asym(pa, pb);
        } else if c.name != a.name {
            if a.name != b.name {
                lemma_text_lt_trans(c.name, a.name, b.name);
            }
            if b.name != c.name {
                lemma_text_lt_trans(b.name, c.name, a.name);
            }
        }
    }
}

/// Inserts `id` after every element that does not come after it.
fn insert_in_order(v: &mut Vec<FunctionId>, id: FunctionId)
    requires
        ids_sorted(old(v).deep_view()),
    ensures
        ids_sorted(final(v).deep_view()),
        final(v).deep_view().to_multiset() == old(v).deep_view().to_multiset().insert(id@),
{
    let ghost s0 = v.deep_view();
    let mut k = v.len();
    while k > 0 && id_less(&id, &v[k - 1])
        invariant
            k <= v.len(),
            v.deep_view() == s0,
            forall|j: int| k <= j < s0.len() ==> id_lt(id@, #[trigger] s0[j]),
        decreases k,
    {
        assert(s0[k - 1] == v[k - 1]@);
        k -= 1;
    }
    proof {
        if k > 0 {
            assert(s0[k - 1] == v[k - 1]@);
        }
    }
    let ghost idv = id@;
    v.insert(k, id);
    proof {
        let s1 = v.deep_view();
        assert(s1 =~= s0.insert(k as int, idv));
        assert forall|i: int, j: int| 0 <= i < j < s1.len() implies !id_lt(#[trigger] s1[j], #[trigger] s1[i]) by {
            if i < k && j == k {
                if k > 0 {
                    lemma_id_le_trans(s0[i], s0[k - 1], idv);
                }
            } else if i == k && j > k {
                lemma_id_lt_total(idv, s0[j - 1]);
            } else if i < k && j > k {
                assert(s1[i] == s0[i]);
                assert(s1[j] == s0[j - 1]);
            } else if i > k {
                assert(s1[i] == s0[i - 1]);
                assert(s1[j] == s0[j - 1]);
            } else {
                assert(s1[i] == s0[i]);
                assert(s1[j] == s0[j]);
            }
        }
        vstd::seq_lib::to_multiset_insert(s0, k as int, idv);
    }
}


// ---------------------------------------------------------------------------
// Diagnosing one function
// ---------------------------------------------------------------------------
/// `r` is a finding for `f` that the analysis can give: none when `f` is
/// not in the table; otherwise, for the throws that
/// `compute_propagated_throws` returns (`propagation`) and the answers of
/// `resolver`, the missing ones when there are any.
pub open spec fn diagnosis_fits<R: TypeResolver>(resolver: R, g: CallGraphView, m: SignatureMapView, f: FunctionIdView, r: Option<DiagnosticView>) -> bool {
    &&& m.get(f) is None ==> r is None
    &&& m.get(f) matches Some(sig) ==> exists|ps: Seq<PropagatedThrowView>, os: Seq<ResolverOutcome>|
        os.len() == ps.len()
        && (forall|j: int| 0 <= j < ps.len() ==> crate::propagation::valid_route(g, m, f, #[trigger] ps[j]))
        && crate::propagation::direct_part(m, f).is_prefix_of(ps)
        && (crate::propagation::acyclic_from(g, f) ==> crate::propagation::complete_for(g, m, f, ps))
        && ps == crate::propagation::propagation(g, m, f)
        && (forall|i: int| 0 <= i < os.len() ==> outcome_fits(ps[i], declared_types(sig), #[trigger] os[i]))
        && (resolver.states_answers() ==> forall|i: int| 0 <= i < os.len()
            ==> #[trigger] os[i] == outcome_of(resolver, ps[i], declared_types(sig)))
        && (match r {
            Some(d) => d.function == f && d.missing_throws == missing_all(ps, declared_types(sig), os)
                && d.missing_throws.len() > 0,
            None => missing_all(ps, declared_types(sig), os).len() == 0,
        })
}

/// The finding for `func_id`: the throws escaping it that its documentation
/// does not declare, if there are any. What escapes is what
/// `compute_propagated_throws` returns; which of it is declared is decided
/// with the resolver as `find_missing_declarations` states.
pub fn diagnose_function<R: TypeResolver>(
    func_id: &FunctionId,
    signatures: &SignatureMap,
    graph: &CallGraph,
    resolver: &mut R,
) -> (r: Option<Diagnostic>)
    requires
        signatures.wf(),
        graph.wf(),
    ensures
        diagnosis_fits(*old(resolver), graph@, signatures@, func_id@, r.deep_view()),
        same_answers(*old(resolver), *final(resolver)),
{
    let sig = match signatures.get(func_id) {
        Some(s) => s,
        None => return None,
    };
    let propagated = compute_propagated_throws(func_id, signatures, graph);
    let missing = find_missing_declarations(sig, &propagated, resolver);
    if missing.len() == 0 {
        None
    } else {
        Some(Diagnostic { function: func_id.clone(), missing_throws: missing })
    }
}

proof fn lemma_diagnosis_same_answers<R: TypeResolver>(a: R, b: R, g: CallGraphView, m: SignatureMapView, f: FunctionIdView, r: Option<DiagnosticView>)
    requires
        same_answers(a, b),
        diagnosis_fits(b, g, m, f, r),
    ensures
        diagnosis_fits(a, g, m, f, r),
{
    if let Some(sig) = m.get(f) {
        let (ps, os) = choose|ps: Seq<PropagatedThrowView>, os: Seq<ResolverOutcome>|
            os.len() == ps.len()
            && (forall|j: int| 0 <= j < ps.len() ==> crate::propagation::valid_route(g, m, f, #[trigger] ps[j]))
            && crate::propagation::direct_part(m, f).is_prefix_of(ps)
            && (crate::propagation::acyclic_from(g, f) ==> crate::propagation::complete_for(g, m, f, ps))
            && ps == crate::propagation::propagation(g, m, f)
            && (forall|i: int| 0 <= i < os.len() ==> outcome_fits(ps[i], declared_types(sig), #[trigger] os[i]))
            && (b.states_answers() ==> forall|i: int| 0 <= i < os.len()
                ==> #[trigger] os[i] == outcome_of(b, ps[i], declared_types(sig)))
            && (match r {
                Some(d) => d.function == f && d.missing_throws == missing_all(ps, declared_types(sig), os)
                    && d.missing_throws.len() > 0,
                None => missing_all(ps, declared_types(sig), os).len() == 0,
            });
        assert forall|i: int| a.states_answers() && 0 <= i < os.len() implies #[trigger] os[i] == outcome_of(a, ps[i], declared_types(sig)) by {
            lemma_same_outcome(a, b, ps[i], declared_types(sig));
        }
    }
}

/// A type resolver that can hand over the type checks it answered since it
/// was last asked, so that a finding can be stored with what it relied on.
pub trait RecordingResolver: TypeResolver {
    /// The type checks answered since the last call; the answers stay.
    fn take_recorded(&mut self) -> (r: Vec<TypeCheckDependency>)
        ensures
            old(self).states_answers() ==> final(self).states_answers(),
            old(self).states_answers() ==> forall|f: Seq<char>, t: Seq<char>, d: Seq<char>|
                #[trigger] final(self).assignable(f, t, d) == old(self).assignable(f, t, d),
            old(self).states_answers() ==> forall|f: Seq<char>, s: Span|
                #[trigger] final(self).resolution(f, s) == old(self).resolution(f, s),
    ;
}

impl RecordingResolver for NoOpTypeResolver {
    fn take_recorded(&mut self) -> (r: Vec<TypeCheckDependency>)
        ensures
            r.len() == 0,
    {
        Vec::new()
    }
}

/// A finding computed afresh, to be stored: the position of its function
/// in the list checked, the finding, and the type checks it relied on.
pub struct FreshFinding {
    pub index: usize,
    pub diagnostic: Option<Diagnostic>,
    pub type_checks: Vec<TypeCheckDependency>,
}

pub struct FreshFindingView {
    pub index: usize,
    pub diagnostic: Option<DiagnosticView>,
}

impl DeepView for FreshFinding {
    type V = FreshFindingView;

    open spec fn deep_view(&self) -> FreshFindingView {
        FreshFindingView { index: self.index, diagnostic: self.diagnostic.deep_view() }
    }
}

/// The finding for `f` is the stored one when there is one, else one the
/// analysis can give.
pub open spec fn finding_fits<R: TypeResolver>(
    resolver: R,
    g: CallGraphView,
    m: SignatureMapView,
    f: FunctionIdView,
    stored: Option<Option<DiagnosticView>>,
    found: Option<DiagnosticView>,
) -> bool {
    match stored {
        Some(x) => found == x,
        None => diagnosis_fits(resolver, g, m, f, found),
    }
}

/// The findings that are diagnostics, in order.
pub open spec fn somes(found: Seq<Option<DiagnosticView>>) -> Seq<DiagnosticView>
    decreases found.len(),
{
    if found.len() == 0 {
        Seq::empty()
    } else {
        let prev = somes(found.drop_last());
        match found.last() {
            Some(d) => prev.push(d),
            None => prev,
        }
    }
}

/// The findings computed afresh: those of the positions with nothing
/// stored, in order.
pub open spec fn fresh_of(stored: Seq<Option<Option<DiagnosticView>>>, found: Seq<Option<DiagnosticView>>) -> Seq<FreshFindingView>
    decreases stored.len(),
{
    if stored.len() == 0 || found.len() != stored.len() {
        Seq::empty()
    } else {
        let prev = fresh_of(stored.drop_last(), found.drop_last());
        if stored.last() is None {
            prev.push(FreshFindingView { index: (stored.len() - 1) as usize, diagnostic: found.last() })
        } else {
            prev
        }
    }
}

fn clone_finding(d: &Option<Diagnostic>) -> (r: Option<Diagnostic>)
    ensures
        r.deep_view() == d.deep_view(),
{
    match d {
        Some(x) => Some(x.clone()),
        None => None,
    }
}

/// The findings for the functions `ids`, in order: a stored finding
/// (`stored[i]` is `Some`) is taken as it is; any other is computed as
/// `diagnose_function` does, with the type checks it relied on handed back
/// among the fresh findings to be stored.
pub fn diagnose_functions<R: RecordingResolver>(
    ids: &Vec<FunctionId>,
    stored: &Vec<Option<Option<Diagnostic>>>,
    signatures: &SignatureMap,
    graph: &CallGraph,
    resolver: &mut R,
) -> (r: (Vec<Diagnostic>, Vec<FreshFinding>))
    requires
        signatures.wf(),
        graph.wf(),
        ids.len() == stored.len(),
    ensures
        exists|found: Seq<Option<DiagnosticView>>|
            found.len() == ids.len()
            && (forall|i: int| 0 <= i < found.len()
                ==> #[trigger] finding_fits(*old(resolver), graph@, signatures@, ids.deep_view()[i], stored.deep_view()[i], found[i]))
            && r.0.deep_view() == somes(found)
            && r.1.deep_view() == fresh_of(stored.deep_view(), found),
        same_answers(*old(resolver), *final(resolver)),
{
    let ghost r0 = *resolver;
    let ghost sv = stored.deep_view();
    let ghost iv = ids.deep_view();
    let mut out: Vec<Diagnostic> = Vec::new();
    let mut fresh: Vec<FreshFinding> = Vec::new();
    let ghost mut found: Seq<Option<DiagnosticView>> = Seq::empty();
    let mut i: usize = 0;
    assert(out.deep_view() =~= Seq::<DiagnosticView>::empty());
    assert(fresh.deep_view() =~= Seq::<FreshFindingView>::empty());
    assert(sv.take(0) =~= Seq::<Option<Option<DiagnosticView>>>::empty());
    while i < ids.len()
        invariant
            signatures.wf(),
            graph.wf(),
            ids.len() == stored.len(),
            sv == stored.deep_view(),
            iv == ids.deep_view(),
            i <= ids.len(),
            found.len() == i,
            forall|k: int| 0 <= k < i ==> #[trigger] finding_fits(r0, graph@, signatures@, iv[k], sv[k], found[k]),
            r0 == *old(resolver),
            same_answers(r0, *resolver),
            out.deep_view() == somes(found),
            fresh.deep_view() == fresh_of(sv.take(i as int), found),
        decreases ids.len() - i,
    {
        let ghost found0 = found;
        let ghost out0 = out.deep_view();
        let ghost fresh0 = fresh.deep_view();
        assert(sv[i as int] == stored[i as int].deep_view());
        assert(iv[i as int] == ids[i as int]@);
        let d = match &stored[i] {
            Some(c) => clone_finding(c),
            None => {
                let _ = resolver.take_recorded();
                let ghost rb = *resolver;
                let d = diagnose_function(&ids[i], signatures, graph, resolver);
                let ghost ra = *resolver;
                let type_checks = resolver.take_recorded();
                proof {
                    lemma_same_answers_trans(r0, rb, ra);
                    lemma_same_answers_trans(r0, ra, *resolver);
                    lemma_diagnosis_same_answers(r0, rb, graph@, signatures@, ids[i as int]@, d.deep_view());
                }
                let entry = FreshFinding { index: i, diagnostic: clone_finding(&d), type_checks };
                fresh.push(entry);
                assert(fresh.deep_view() =~= fresh0.push(entry.deep_view()));
                d
            },
        };
        proof {
            found = found0.push(d.deep_view());
            assert(found.drop_last() =~= found0);
            assert(sv.take(i + 1).drop_last() =~= sv.take(i as int));
            assert(sv.take(i + 1).last() == sv[i as int]);
            assert forall|k: int| 0 <= k < i + 1 implies #[trigger] finding_fits(r0, graph@, signatures@, iv[k], sv[k], found[k]) by {
                if k < i {
                    assert(found[k] == found0[k]);
                }
            }
        }
        match d {
            Some(x) => {
                out.push(x);
                assert(out.deep_view() =~= out0.push(x.deep_view()));
            },
            None => {},
        }
        i += 1;
    }
    assert(sv.take(ids.len() as int) =~= sv);
    (out, fresh)
}

fn contains_file(files: &Vec<String>, f: &String) -> (r: bool)
    ensures
        r == files.deep_view().contains(f@),
{
    let mut i: usize = 0;
    while i < files.len()
        invariant
            i <= files.len(),
            forall|j: int| 0 <= j < i ==> files.deep_view()[j] != f@,
        decreases files.len() - i,
    {
        if string_eq(&files[i], f) {
            assert(files.deep_view()[i as int] == f@);
            return true;
        }
        i += 1;
    }
    false
}

/// The findings about functions of the checked files, in order.
pub fn keep_entry_diagnostics(diagnostics: Vec<Diagnostic>, entry_files: &Vec<String>) -> (r: Vec<Diagnostic>)
    ensures
        r.deep_view() == diagnostics.deep_view().filter(|d: DiagnosticView| entry_files.deep_view().contains(d.function.file_path)),
{
    let ghost dv = diagnostics.deep_view();
    let ghost keep = |d: DiagnosticView| entry_files.deep_view().contains(d.function.file_path);
    let mut out: Vec<Diagnostic> = Vec::new();
    let mut i: usize = 0;
    assert(dv.take(0) =~= Seq::<DiagnosticView>::empty());
    assert(out.deep_view() =~= dv.take(0).filter(keep));
    while i < diagnostics.len()
        invariant
            i <= diagnostics.len(),
            dv == diagnostics.deep_view(),
            keep == (|d: DiagnosticView| entry_files.deep_view().contains(d.function.file_path)),
            out.deep_view() == dv.take(i as int).filter(keep),
        decreases diagnostics.len() - i,
    {
        let ghost before = out.deep_view();
        assert(dv.take(i + 1) =~= dv.take(i as int).push(dv[i as int]));
        reveal(Seq::filter);
        assert(dv.take(i + 1).drop_last() =~= dv.take(i as int));
        assert(dv[i as int] == diagnostics[i as int]@);
        if contains_file(entry_files, &diagnostics[i].function.file_path) {
            let d = diagnostics[i].clone();
            out.push(d);
            assert(out.deep_view() =~= before.push(d.deep_view()));
        }
        i += 1;
    }
    assert(dv.take(diagnostics.len() as int) =~= dv);
    out
}

/// The violations by implementations in the checked files, in order.
pub fn keep_entry_violations(violations: Vec<LspViolation>, entry_files: &Vec<String>) -> (r: Vec<LspViolation>)
    ensures
        r.deep_view() == violations.deep_view().filter(|v: LspViolationView| entry_files.deep_view().contains(v.implementation.file_path)),
{
    let ghost vv = violations.deep_view();
    let ghost keep = |v: LspViolationView| entry_files.deep_view().contains(v.implementation.file_path);
    let mut out: Vec<LspViolation> = Vec::new();
    let mut violations = violations;
    let mut rev: Vec<LspViolation> = Vec::new();
    let ghost n = vv.len();
    assert(violations.deep_view() =~= vv.take(n as int));
    while violations.len() > 0
        invariant
            rev.len() + violations.len() == n,
            n == vv.len(),
            violations.deep_view() == vv.take(violations.len() as int),
            forall|j: int| 0 <= j < rev.len() ==> #[trigger] rev.deep_view()[j] == vv[n - 1 - j],
        decreases violations.len(),
    {
        let ghost r0 = violations.deep_view();
        let ghost q0 = rev.deep_view();
        let v = violations.pop().unwrap();
        proof {
            assert(violations.deep_view() =~= r0.drop_last());
            assert(v.deep_view() == r0.last());
            assert(violations.deep_view() =~= vv.take(violations.len() as int));
        }
        rev.push(v);
        proof {
            assert(rev.deep_view() =~= q0.push(v.deep_view()));
            assert forall|j: int| 0 <= j < rev.len() implies #[trigger] rev.deep_view()[j] == vv[n - 1 - j] by {
                if j < q0.len() {
                    assert(rev.deep_view()[j] == q0[j]);
                }
            }
        }
    }
    let mut k: usize = 0;
    assert(vv.take(0) =~= Seq::<LspViolationView>::empty());
    assert(out.deep_view() =~= vv.take(0).filter(keep));
    assert(n == rev.len());
    while rev.len() > 0
        invariant
            k + rev.len() == n,
            n == vv.len(),
            n <= usize::MAX,
            keep == (|v: LspViolationView| entry_files.deep_view().contains(v.implementation.file_path)),
            out.deep_view() == vv.take(k as int).filter(keep),
            forall|j: int| 0 <= j < rev.len() ==> #[trigger] rev.deep_view()[j] == vv[n - 1 - j],
        decreases rev.len(),
    {
        let ghost q0 = rev.deep_view();
        let ghost before = out.deep_view();
        let v = rev.pop().unwrap();
        proof {
            assert(rev.deep_view() =~= q0.drop_last());
            assert(v.deep_view() == q0[q0.len() - 1]);
            assert(v.deep_view() == vv[k as int]);
            assert forall|j: int| 0 <= j < rev.len() implies #[trigger] rev.deep_view()[j] == vv[n - 1 - j] by {
                assert(rev.deep_view()[j] == q0[j]);
            }
            assert(vv.take(k + 1) =~= vv.take(k as int).push(vv[k as int]));
            reveal(Seq::filter);
            assert(vv.take(k + 1).drop_last() =~= vv.take(k as int));
        }
        if contains_file(entry_files, &v.implementation.file_path) {
            let ghost vd = v.deep_view();
            out.push(v);
            assert(out.deep_view() =~= before.push(vd));
        }
        k += 1;
    }
    assert(vv.take(n as int) =~= vv);
    out
}


// ---------------------------------------------------------------------------
// Resolving calls to functions
// ---------------------------------------------------------------------------
/// A call whose definition tsserver located: the call at `callee_span` of
/// `caller_file` goes to line `def_line` of `def_file`.
#[derive(Debug, Clone, PartialEq, Eq)]
pub struct ResolvedCall {
    pub caller_file: String,
    pub callee_span: Span,
    pub def_file: String,
    pub def_line: u32,
}

pub struct ResolvedCallView {
    pub caller_file: Seq<char>,
    pub callee_span: Span,
    pub def_file: Seq<char>,
    pub def_line: u32,
}

impl DeepView for ResolvedCall {
    type V = ResolvedCallView;

    open spec fn deep_view(&self) -> ResolvedCallView {
        ResolvedCallView {
            caller_file: self.caller_file@,
            callee_span: self.callee_span,
            def_file: self.def_file@,
            def_line: self.def_line,
        }
    }
}

/// The text of `file` used to place names on lines: its text in `sources`,
/// or nothing when it is not there or too long for 32-bit offsets.
pub open spec fn text_for_lines(sources: Seq<(Seq<char>, Seq<char>)>, file: Seq<char>) -> Seq<char> {
    match source_text(sources, file) {
        Some(t) => if byte_len(t) < u32::MAX {
            t
        } else {
            Seq::empty()
        },
        None => Seq::empty(),
    }
}

/// The 1-based line on which the name of `s` stands.
pub open spec fn name_line(sources: Seq<(Seq<char>, Seq<char>)>, s: FunctionSignatureView) -> int {
    let t = text_for_lines(sources, s.id.file_path);
    line_after(t.take(char_index_at(t, s.name_span.start as int, 0)))
}

/// The last of the first `n` functions of the table whose name stands on
/// line `line` of `file`.
pub open spec fn by_line(m: SignatureMapView, lines: Seq<int>, file: Seq<char>, line: int, n: int) -> Option<FunctionIdView>
    decreases n,
{
    if n <= 0 || n > m.values.len() {
        None
    } else if m.values[n - 1].id.file_path == file && lines[n - 1] == line {
        Some(m.values[n - 1].id)
    } else {
        by_line(m, lines, file, line, n - 1)
    }
}

/// The first function of the table, from entry `i` on, named `name` in `file`.
pub open spec fn by_name(m: SignatureMapView, name: Seq<char>, file: Seq<char>, i: int) -> Option<FunctionIdView>
    decreases m.values.len() - i,
{
    if i < 0 || i >= m.values.len() {
        None
    } else if m.values[i].id.name == name && m.values[i].id.file_path == file {
        Some(m.values[i].id)
    } else {
        by_name(m, name, file, i + 1)
    }
}

/// The last of the first `n` resolved calls made at `span` of `file`.
pub open spec fn resolved_at(rs: Seq<ResolvedCallView>, file: Seq<char>, span: Span, n: int) -> Option<ResolvedCallView>
    decreases n,
{
    if n <= 0 || n > rs.len() {
        None
    } else if rs[n - 1].caller_file == file && rs[n - 1].callee_span == span {
        Some(rs[n - 1])
    } else {
        resolved_at(rs, file, span, n - 1)
    }
}

/// The function a call of `sig` reaches: the function defined on the line
/// tsserver located, or else the first function of the caller's file with
/// the callee's name.
pub open spec fn call_target(
    m: SignatureMapView,
    lines: Seq<int>,
    rs: Seq<ResolvedCallView>,
    sig: FunctionSignatureView,
    call: CallSiteView,
) -> Option<FunctionIdView> {
    let fallback = by_name(m, call.callee_name, sig.id.file_path, 0);
    match resolved_at(rs, sig.id.file_path, call.callee_span, rs.len() as int) {
        Some(r) => match by_line(m, lines, r.def_file, r.def_line as int, m.values.len() as int) {
            Some(c) => Some(c),
            None => fallback,
        },
        None => fallback,
    }
}

/// The edges the calls `calls` of `sig` contribute, in order.
pub open spec fn planned_calls(
    m: SignatureMapView,
    lines: Seq<int>,
    rs: Seq<ResolvedCallView>,
    sig: FunctionSignatureView,
    calls: Seq<CallSiteView>,
) -> Seq<(FunctionIdView, FunctionIdView, Span)>
    decreases calls.len(),
{
    if calls.len() == 0 {
        Seq::empty()
    } else {
        let prev = planned_calls(m, lines, rs, sig, calls.drop_last());
        match call_target(m, lines, rs, sig, calls.last()) {
            Some(c) => prev.push((sig.id, c, calls.last().location)),
            None => prev,
        }
    }
}

/// The edges of the first `n` functions of the table, in order.
pub open spec fn planned(m: SignatureMapView, lines: Seq<int>, rs: Seq<ResolvedCallView>, n: int) -> Seq<(FunctionIdView, FunctionIdView, Span)>
    decreases n,
{
    if n <= 0 || n > m.values.len() {
        Seq::empty()
    } else {
        planned(m, lines, rs, n - 1) + planned_calls(m, lines, rs, m.values[n - 1], m.values[n - 1].calls)
    }
}

/// Number of call sites of the first `n` functions.
pub open spec fn call_count(m: SignatureMapView, n: int) -> nat
    decreases n,
{
    if n <= 0 || n > m.values.len() {
        0
    } else {
        call_count(m, n - 1) + m.values[n - 1].calls.len()
    }
}

/// The edges of `g` once the planned calls `ps` are added.
pub open spec fn edges_after(g: CallGraphView, ps: Seq<(FunctionIdView, FunctionIdView, Span)>) -> Seq<(usize, usize)>
    decreases ps.len(),
{
    if ps.len() == 0 {
        g.edges
    } else {
        let e = edges_after(g, ps.drop_last());
        match (g.index(ps.last().0), g.index(ps.last().1)) {
            (Some(i), Some(j)) => if e.contains((i as usize, j as usize)) {
                e
            } else {
                e.push((i as usize, j as usize))
            },
            _ => e,
        }
    }
}

/// The locations of the planned calls from `a` to `b`, in order.
pub open spec fn spans_between(ps: Seq<(FunctionIdView, FunctionIdView, Span)>, a: FunctionIdView, b: FunctionIdView) -> Seq<Span>
    decreases ps.len(),
{
    if ps.len() == 0 {
        Seq::empty()
    } else if ps.last().0 == a && ps.last().1 == b {
        spans_between(ps.drop_last(), a, b).push(ps.last().2)
    } else {
        spans_between(ps.drop_last(), a, b)
    }
}

proof fn lemma_planned_calls_len(
    m: SignatureMapView,
    lines: Seq<int>,
    rs: Seq<ResolvedCallView>,
    sig: FunctionSignatureView,
    calls: Seq<CallSiteView>,
)
    ensures
        planned_calls(m, lines, rs, sig, calls).len() <= calls.len(),
    decreases calls.len(),
{
    if calls.len() > 0 {
        lemma_planned_calls_len(m, lines, rs, sig, calls.drop_last());
    }
}

proof fn lemma_edges_after_len(g: CallGraphView, ps: Seq<(FunctionIdView, FunctionIdView, Span)>)
    ensures
        edges_after(g, ps).len() <= g.edges.len() + ps.len(),
    decreases ps.len(),
{
    if ps.len() > 0 {
        lemma_edges_after_len(g, ps.drop_last());
    }
}

fn by_line_exec(signatures: &SignatureMap, lines: &Vec<u32>, file: &String, line: u32) -> (r: Option<FunctionId>)
    requires
        signatures.wf(),
        lines.len() == signatures@.len(),
    ensures
        r.deep_view() == by_line(signatures@, lines@.map_values(|l: u32| l as int), file@, line as int, signatures@.len() as int),
{
    let ghost lv = lines@.map_values(|l: u32| l as int);
    proof {
        signatures.lemma_wf_len();
    }
    let mut n = signatures.len();
    while n > 0
        invariant
            signatures.wf(),
            signatures@.keys.len() == signatures@.values.len(),
            n <= signatures@.len(),
            lines.len() == signatures@.len(),
            lv == lines@.map_values(|l: u32| l as int),
            by_line(signatures@, lv, file@, line as int, signatures@.len() as int) == by_line(signatures@, lv, file@, line as int, n as int),
        decreases n,
    {
        let s = signatures.value_at(n - 1);
        if string_eq(&s.id.file_path, file) && lines[n - 1] == line {
            return Some(s.id.clone());
        }
        n -= 1;
    }
    None
}

fn by_name_exec(signatures: &SignatureMap, name: &String, file: &String) -> (r: Option<FunctionId>)
    requires
        signatures.wf(),
    ensures
        r.deep_view() == by_name(signatures@, name@, file@, 0),
{
    let mut i: usize = 0;
    let n = signatures.len();
    proof {
        signatures.lemma_wf_len();
    }
    while i < n
        invariant
            signatures.wf(),
            signatures@.keys.len() == signatures@.values.len(),
            n == signatures@.len(),
            i <= n,
            by_name(signatures@, name@, file@, 0) == by_name(signatures@, name@, file@, i as int),
        decreases n - i,
    {
        let s = signatures.value_at(i);
        if string_eq(&s.id.name, name) && string_eq(&s.id.file_path, file) {
            return Some(s.id.clone());
        }
        i += 1;
    }
    None
}

fn resolved_at_exec<'a>(resolved: &'a Vec<ResolvedCall>, file: &String, span: Span) -> (r: Option<&'a ResolvedCall>)
    ensures
        match r {
            Some(x) => resolved_at(resolved.deep_view(), file@, span, resolved.len() as int) == Some(x.deep_view()),
            None => resolved_at(resolved.deep_view(), file@, span, resolved.len() as int) is None,
        },
{
    let mut n = resolved.len();
    while n > 0
        invariant
            n <= resolved.len(),
            resolved_at(resolved.deep_view(), file@, span, resolved.len() as int) == resolved_at(resolved.deep_view(), file@, span, n as int),
        decreases n,
    {
        let r = &resolved[n - 1];
        assert(resolved.deep_view()[n - 1] == r.deep_view());
        if string_eq(&r.caller_file, file) && r.callee_span.start == span.start && r.callee_span.end == span.end {
            return Some(r);
        }
        n -= 1;
    }
    None
}

fn name_line_exec(sources: &[(String, String)], sig: &FunctionSignature) -> (r: u32)
    ensures
        r as int == name_line(sources.deep_view(), sig@),
{
    let empty = String::new();
    let text: &String = match crate::reporter::source_for(sources, &sig.id.file_path) {
        Some(t) => match crate::tsserver::byte_length_below_u32_max(t.as_str()) {
            Some(_) => t,
            None => &empty,
        },
        None => &empty,
    };
    proof {
        assert(empty@ =~= Seq::<char>::empty());
        crate::tsserver::lemma_byte_len_take(empty@, 0);
    }
    byte_offset_to_line_col(text.as_str(), sig.name_span.start).0
}

/// Adds an edge, with its location, for every call of every function of
/// the table that reaches a function (see `call_target`): the graph's
/// functions stay, its edges grow as `edges_after` says, and each pair's
/// locations gain the planned calls' locations in order. Names are placed
/// on lines with the file texts of `sources`.
pub fn build_call_graph(
    signatures: &SignatureMap,
    sources: &[(String, String)],
    resolved: &Vec<ResolvedCall>,
    graph: &mut CallGraph,
)
    requires
        signatures.wf(),
        old(graph).wf(),
        old(graph)@.edges.len() + call_count(signatures@, signatures@.len() as int) < u32::MAX,
    ensures
        final(graph).wf(),
        ({
            let lines = signatures@.values.map_values(|s: FunctionSignatureView| name_line(sources.deep_view(), s));
            let ps = planned(signatures@, lines, resolved.deep_view(), signatures@.len() as int);
            &&& final(graph)@.nodes == old(graph)@.nodes
            &&& final(graph)@.edges == edges_after(old(graph)@, ps)
            &&& forall|a: FunctionIdView, b: FunctionIdView| #[trigger] final(graph)@.locations(a, b) == if old(graph)@.contains(a) && old(graph)@.contains(b) {
                old(graph)@.locations(a, b) + spans_between(ps, a, b)
            } else {
                old(graph)@.locations(a, b)
            }
        }),
{
    let n = signatures.len();
    let ghost m = signatures@;
    proof {
        signatures.lemma_wf_len();
    }
    let ghost sv = sources.deep_view();
    let ghost rs = resolved.deep_view();
    let ghost g0 = graph@;
    let mut lines: Vec<u32> = Vec::new();
    let mut i: usize = 0;
    while i < n
        invariant
            signatures.wf(),
            m == signatures@,
            m.keys.len() == m.values.len(),
            sv == sources.deep_view(),
            n == m.len(),
            i <= n,
            lines.len() == i,
            forall|j: int| 0 <= j < i ==> lines@[j] as int == #[trigger] name_line(sv, m.values[j]),
        decreases n - i,
    {
        let l = name_line_exec(sources, signatures.value_at(i));
        lines.push(l);
        i += 1;
    }
    let ghost lv = lines@.map_values(|l: u32| l as int);
    let ghost lines_spec = m.values.map_values(|s: FunctionSignatureView| name_line(sv, s));
    assert(lv =~= lines_spec);
    let ghost total = call_count(m, n as int);
    let mut i: usize = 0;
    assert(planned(m, lv, rs, 0) =~= Seq::<(FunctionIdView, FunctionIdView, Span)>::empty());
    assert(edges_after(g0, planned(m, lv, rs, 0)) == g0.edges);
    while i < n
        invariant
            signatures.wf(),
            graph.wf(),
            m == signatures@,
            m.keys.len() == m.values.len(),
            rs == resolved.deep_view(),
            n == m.len(),
            i <= n,
            lines.len() == n,
            lv == lines@.map_values(|l: u32| l as int),
            g0.edges.len() + call_count(m, n as int) < u32::MAX,
            graph@.nodes == g0.nodes,
            graph@.edges == edges_after(g0, planned(m, lv, rs, i as int)),
            planned(m, lv, rs, i as int).len() <= call_count(m, i as int),
            call_count(m, i as int) <= call_count(m, n as int),
            forall|a: FunctionIdView, b: FunctionIdView| #[trigger] graph@.locations(a, b) == if g0.contains(a) && g0.contains(b) {
                g0.locations(a, b) + spans_between(planned(m, lv, rs, i as int), a, b)
            } else {
                g0.locations(a, b)
            },
        decreases n - i,
    {
        let sig = signatures.value_at(i);
        let ghost base = planned(m, lv, rs, i as int);
        assert(m.values[i as int] == sig@);
        let mut k: usize = 0;
        assert(sig@.calls.take(0) =~= Seq::<CallSiteView>::empty());
        assert(base + planned_calls(m, lv, rs, sig@, sig@.calls.take(0)) =~= base);
        proof {
            lemma_call_count_mono(m, i as int + 1, n as int);
        }
        while k < sig.calls.len()
            invariant
                signatures.wf(),
                graph.wf(),
                m == signatures@,
                m.keys.len() == m.values.len(),
                rs == resolved.deep_view(),
                n == m.len(),
                i < n,
                lines.len() == n,
                lv == lines@.map_values(|l: u32| l as int),
                sig@ == m.values[i as int],
                k <= sig.calls.len(),
                g0.edges.len() + call_count(m, n as int) < u32::MAX,
                call_count(m, i as int) + sig@.calls.len() <= call_count(m, n as int),
                base == planned(m, lv, rs, i as int),
                base.len() <= call_count(m, i as int),
                graph@.nodes == g0.nodes,
                graph@.edges == edges_after(g0, base + planned_calls(m, lv, rs, sig@, sig@.calls.take(k as int))),
                forall|a: FunctionIdView, b: FunctionIdView| #[trigger] graph@.locations(a, b) == if g0.contains(a) && g0.contains(b) {
                    g0.locations(a, b) + spans_between(base + planned_calls(m, lv, rs, sig@, sig@.calls.take(k as int)), a, b)
                } else {
                    g0.locations(a, b)
                },
            decreases sig.calls.len() - k,
        {
            let call = &sig.calls[k];
            let ghost cs = sig@.calls;
            assert(cs.take(k + 1).drop_last() =~= cs.take(k as int));
            assert(cs.take(k + 1).last() == call@);
            let ghost prev = base + planned_calls(m, lv, rs, sig@, cs.take(k as int));
            proof {
                lemma_planned_calls_len(m, lv, rs, sig@, cs.take(k as int));
                lemma_edges_after_len(g0, prev);
                assert(cs.take(k as int).len() == k);
            }
            let fallback = by_name_exec(signatures, &call.callee_name, &sig.id.file_path);
            let target: Option<FunctionId> = match resolved_at_exec(resolved, &sig.id.file_path, call.callee_span) {
                Some(r) => match by_line_exec(signatures, &lines, &r.def_file, r.def_line) {
                    Some(c) => Some(c),
                    None => fallback,
                },
                None => fallback,
            };
            assert(target.deep_view() == call_target(m, lv, rs, sig@, call@));
            match target {
                Some(c) => {
                    let ghost pg = graph@;
                    graph.add_call_with_location(&sig.id, &c, call.location);
                    proof {
                        let step = (sig@.id, c@, call@.location);
                        let next = prev.push(step);
                        assert(base + planned_calls(m, lv, rs, sig@, cs.take(k + 1)) =~= next);
                        assert(next.drop_last() =~= prev);
                        assert forall|a: FunctionIdView, b: FunctionIdView| #[trigger] graph@.locations(a, b) == if g0.contains(a) && g0.contains(b) {
                            g0.locations(a, b) + spans_between(next, a, b)
                        } else {
                            g0.locations(a, b)
                        } by {
                            assert(pg.locations(a, b) == if g0.contains(a) && g0.contains(b) {
                                g0.locations(a, b) + spans_between(prev, a, b)
                            } else {
                                g0.locations(a, b)
                            });
                            if g0.contains(a) && g0.contains(b) && a == sig@.id && b == c@ {
                                assert(g0.locations(a, b) + spans_between(next, a, b) =~= (g0.locations(a, b) + spans_between(prev, a, b)).push(call@.location));
                            }
                        }
                    }
                },
                None => {
                    assert(base + planned_calls(m, lv, rs, sig@, cs.take(k + 1)) =~= prev);
                },
            }
            k += 1;
        }
        assert(sig@.calls.take(sig.calls.len() as int) =~= sig@.calls);
        assert(planned(m, lv, rs, i + 1) =~= base + planned_calls(m, lv, rs, sig@, sig@.calls));
        proof {
            lemma_planned_calls_len(m, lv, rs, sig@, sig@.calls);
        }
        i += 1;
    }
}

proof fn lemma_call_count_mono(m: SignatureMapView, a: int, b: int)
    requires
        0 <= a <= b <= m.values.len(),
    ensures
        call_count(m, a) <= call_count(m, b),
    decreases b - a,
{
    if a < b {
        lemma_call_count_mono(m, a, b - 1);
    }
}

} // verus!
