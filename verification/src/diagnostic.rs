//! Findings: functions whose `@throws` declarations miss escaping throws,
//! and implementations that throw what the method they implement does not
//! allow. Whether one type is assignable to another, and what type an
//! untyped throw has, is asked of a `TypeResolver`.
use crate::call_graph::CallGraph;
use crate::propagation::{compute_propagated_throws, valid_route};
use crate::signature_map::{SignatureMap, SignatureMapView};
use crate::text::str_eq;
use crate::types::{
    Diagnostic, DiagnosticView, ErrorType, ErrorTypeView, FunctionIdView,
    FunctionSignature, FunctionSignatureView, MethodSignatureView, PropagatedThrow, PropagatedThrowView, Span, DeclaredThrowView,
};
use vstd::prelude::*;

verus! {

broadcast use vstd::string::group_string_axioms;

/// Answers type questions about the analysed sources.
///
/// An implementation may state its answers: when `states_answers` holds,
/// each call answers as `assignable` and `resolution` say, and asking a
/// question changes the answer to no question. An implementation that does
/// not state them promises nothing about its answers.
pub trait TypeResolver: Sized {
    /// Whether `assignable` and `resolution` are this resolver's answers.
    open spec fn states_answers(&self) -> bool {
        false
    }

    /// The answer to whether a value of type `thrown` may be used where
    /// `declared` is expected, in the context of `file`.
    open spec fn assignable(&self, file: Seq<char>, thrown: Seq<char>, declared: Seq<char>) -> bool {
        false
    }

    /// The type found for the thrown expression at `span` of `file`.
    open spec fn resolution(&self, file: Seq<char>, span: Span) -> Option<Seq<char>> {
        None
    }

    /// Whether a value of type `thrown_type` may be used where
    /// `declared_type` is expected, in the context of `file_path`.
    fn is_assignable_to(&mut self, file_path: &str, thrown_type: &str, declared_type: &str) -> (r: bool)
        ensures
            old(self).states_answers() ==> r == old(self).assignable(file_path@, thrown_type@, declared_type@),
            old(self).states_answers() ==> final(self).states_answers(),
            old(self).states_answers() ==> forall|f: Seq<char>, t: Seq<char>, d: Seq<char>|
                #[trigger] final(self).assignable(f, t, d) == old(self).assignable(f, t, d),
            old(self).states_answers() ==> forall|f: Seq<char>, s: Span|
                #[trigger] final(self).resolution(f, s) == old(self).resolution(f, s),
    ;

    /// The type of the thrown expression at `span` of `file_path`, if known.
    fn resolve_type(&mut self, file_path: &str, span: Span) -> (r: Option<String>)
        ensures
            old(self).states_answers() ==> r.deep_view() == old(self).resolution(file_path@, span),
            old(self).states_answers() ==> final(self).states_answers(),
            old(self).states_answers() ==> forall|f: Seq<char>, t: Seq<char>, d: Seq<char>|
                #[trigger] final(self).assignable(f, t, d) == old(self).assignable(f, t, d),
            old(self).states_answers() ==> forall|f: Seq<char>, s: Span|
                #[trigger] final(self).resolution(f, s) == old(self).resolution(f, s),
    ;
}

/// When `a` states its answers, so does `b`, and it gives the same answers
/// to every question.
pub open spec fn same_answers<R: TypeResolver>(a: R, b: R) -> bool {
    a.states_answers() ==> {
        &&& b.states_answers()
        &&& forall|f: Seq<char>, t: Seq<char>, d: Seq<char>| #[trigger] a.assignable(f, t, d) == b.assignable(f, t, d)
        &&& forall|f: Seq<char>, s: Span| #[trigger] a.resolution(f, s) == b.resolution(f, s)
    }
}

/// Compares type names textually and resolves nothing.
pub struct NoOpTypeResolver;

impl TypeResolver for NoOpTypeResolver {
    open spec fn states_answers(&self) -> bool {
        true
    }

    open spec fn assignable(&self, file: Seq<char>, thrown: Seq<char>, declared: Seq<char>) -> bool {
        thrown == declared
    }

    open spec fn resolution(&self, file: Seq<char>, span: Span) -> Option<Seq<char>> {
        None
    }

    fn is_assignable_to(&mut self, file_path: &str, thrown_type: &str, declared_type: &str) -> (r: bool) {
        str_eq(thrown_type, declared_type)
    }

    fn resolve_type(&mut self, file_path: &str, span: Span) -> (r: Option<String>) {
        None
    }
}

/// Some declared type accepts `thrown`, by the answers of `r` in `file`.
pub open spec fn accepted_by<R: TypeResolver>(r: R, file: Seq<char>, thrown: Seq<char>, declared: Seq<Seq<char>>) -> bool {
    exists|j: int| 0 <= j < declared.len() && #[trigger] r.assignable(file, thrown, declared[j])
}

/// What `r` answers about the throw `p` against `declared`, asked in the
/// file the throw was written in: a named type is checked as it is; an
/// untyped throw is first resolved at its location, then checked under the
/// resolved type; a rethrow is not asked about.
pub open spec fn outcome_of<R: TypeResolver>(r: R, p: PropagatedThrowView, declared: Seq<Seq<char>>) -> ResolverOutcome {
    let file = p.origin_function.file_path;
    match p.error_type {
        ErrorTypeView::Named(t) => ResolverOutcome { resolved: None, accepted: accepted_by(r, file, t, declared) },
        ErrorTypeView::Unknown => match r.resolution(file, p.origin.location) {
            None => ResolverOutcome { resolved: None, accepted: false },
            Some(x) => ResolverOutcome { resolved: Some(x), accepted: accepted_by(r, file, x, declared) },
        },
        ErrorTypeView::Rethrow(_) => ResolverOutcome { resolved: None, accepted: false },
    }
}

/// Resolvers with the same answers give the same outcome.
pub proof fn lemma_same_outcome<R: TypeResolver>(a: R, b: R, p: PropagatedThrowView, declared: Seq<Seq<char>>)
    requires
        same_answers(a, b),
        a.states_answers(),
    ensures
        outcome_of(a, p, declared) == outcome_of(b, p, declared),
{
    let file = p.origin_function.file_path;
    assert(a.resolution(file, p.origin.location) == b.resolution(file, p.origin.location));
    assert forall|t: Seq<char>| accepted_by(a, file, t, declared) == accepted_by(b, file, t, declared) by {
        lemma_same_accepted(a, b, file, t, declared);
    }
}

/// What a resolver answered about one throw: the type it resolved an
/// untyped throw to, and whether a declared type accepted the throw.
pub ghost struct ResolverOutcome {
    pub resolved: Option<Seq<char>>,
    pub accepted: bool,
}

/// Answers a resolver can give: nothing is accepted when nothing is
/// declared, and only untyped throws get resolved.
pub open spec fn outcome_fits(p: PropagatedThrowView, declared: Seq<Seq<char>>, o: ResolverOutcome) -> bool {
    &&& declared.len() == 0 ==> !o.accepted
    &&& !(p.error_type is Unknown) ==> o.resolved is None
    &&& p.error_type is Rethrow ==> !o.accepted
}

/// Whether the throw `p` is missing from `declared`, given the resolver's
/// answers; a missing untyped throw is reported under its resolved type.
pub open spec fn missing_check(p: PropagatedThrowView, declared: Seq<Seq<char>>, o: ResolverOutcome) -> Option<PropagatedThrowView> {
    match p.error_type {
        ErrorTypeView::Named(_) => if o.accepted {
            None
        } else {
            Some(p)
        },
        ErrorTypeView::Unknown => match o.resolved {
            None => if declared.contains("unknown"@) {
                None
            } else {
                Some(p)
            },
            Some(r) => if o.accepted {
                None
            } else {
                Some(PropagatedThrowView { error_type: ErrorTypeView::Named(r), ..p })
            },
        },
        ErrorTypeView::Rethrow(_) => Some(p),
    }
}

/// The missing throws among `ps`, in order, given one answer per throw.
pub open spec fn missing_all(ps: Seq<PropagatedThrowView>, declared: Seq<Seq<char>>, os: Seq<ResolverOutcome>) -> Seq<PropagatedThrowView>
    decreases ps.len(),
{
    if ps.len() == 0 || os.len() != ps.len() {
        Seq::empty()
    } else {
        let rest = missing_all(ps.drop_last(), declared, os.drop_last());
        match missing_check(ps.last(), declared, os.last()) {
            Some(q) => rest.push(q),
            None => rest,
        }
    }
}

/// A reported throw keeps where it comes from and how it travelled; an
/// untyped throw that the resolver resolves to `t` is reported, when it is
/// reported, under the named type `t`, and it is reported whenever the
/// resolver does not accept `t`; a named type is reported as it is
/// exactly when the resolver does not accept it; an untyped throw left
/// unresolved is reported unless `unknown` is declared; a rethrow is always
/// reported.
pub proof fn law_resolved_throw_is_reported_under_its_type(p: PropagatedThrowView, declared: Seq<Seq<char>>, o: ResolverOutcome)
    ensures
        missing_check(p, declared, o) matches Some(q) ==> q.origin == p.origin && q.origin_function == p.origin_function
            && q.path == p.path,
        p.error_type is Unknown && o.resolved is Some ==> (missing_check(p, declared, o) matches Some(q)
            ==> q.error_type == ErrorTypeView::Named(o.resolved.unwrap())),
        p.error_type is Unknown && o.resolved is Some && !o.accepted ==> missing_check(p, declared, o) is Some,
        !(p.error_type is Unknown) ==> (missing_check(p, declared, o) matches Some(q) ==> q == p),
        p.error_type is Rethrow ==> missing_check(p, declared, o) == Some(p),
        p.error_type is Named ==> (missing_check(p, declared, o) is None <==> o.accepted),
        p.error_type is Unknown && o.resolved is Some && o.accepted ==> missing_check(p, declared, o) is None,
        p.error_type is Unknown && o.resolved is None
            ==> (missing_check(p, declared, o) is None <==> declared.contains("unknown"@)),
{
}

pub open spec fn declared_types(sig: FunctionSignatureView) -> Seq<Seq<char>> {
    sig.declared_throws.map_values(|d: DeclaredThrowView| d.error_type)
}

pub open spec fn method_declared_types(m: MethodSignatureView) -> Seq<Seq<char>> {
    m.declared_throws.map_values(|d: DeclaredThrowView| d.error_type)
}

/// The decision for one throw, given the resolver's answers: `None` when
/// a declaration covers it, else the throw to report.
pub fn check_declaration(p: &PropagatedThrow, declared: &Vec<String>, resolved: Option<String>, accepted: bool) -> (r: Option<PropagatedThrow>)
    ensures
        match r {
            Some(q) => missing_check(p@, declared.deep_view(), ResolverOutcome { resolved: resolved.deep_view(), accepted }) == Some(q@),
            None => missing_check(p@, declared.deep_view(), ResolverOutcome { resolved: resolved.deep_view(), accepted }) is None,
        },
{
    match &p.error_type {
        ErrorType::Named(_) => if accepted {
            None
        } else {
            Some(p.clone())
        },
        ErrorType::Unknown => match resolved {
            None => if contains_str(declared, "unknown") {
                None
            } else {
                Some(p.clone())
            },
            Some(r) => if accepted {
                None
            } else {
                let mut q = p.clone();
                q.error_type = ErrorType::Named(r);
                Some(q)
            },
        },
        ErrorType::Rethrow(_) => Some(p.clone()),
    }
}

fn contains_str(v: &Vec<String>, s: &str) -> (r: bool)
    ensures
        r == v.deep_view().contains(s@),
{
    let mut i: usize = 0;
    while i < v.len()
        invariant
            i <= v.len(),
            forall|j: int| 0 <= j < i ==> v.deep_view()[j] != s@,
        decreases v.len() - i,
    {
        if str_eq(v[i].as_str(), s) {
            assert(v.deep_view()[i as int] == s@);
            return true;
        }
        i += 1;
    }
    false
}

/// Asks the resolver whether `thrown` is assignable to one of `declared`,
/// in order, stopping at the first that accepts it.
pub(crate) fn any_assignable<R: TypeResolver>(resolver: &mut R, file_path: &str, thrown: &str, declared: &Vec<String>) -> (r: bool)
    ensures
        declared.len() == 0 ==> !r,
        old(resolver).states_answers() ==> r == accepted_by(*old(resolver), file_path@, thrown@, declared.deep_view()),
        same_answers(*old(resolver), *final(resolver)),
{
    let ghost r0 = *resolver;
    let ghost dv = declared.deep_view();
    let mut i: usize = 0;
    while i < declared.len()
        invariant
            i <= declared.len(),
            dv == declared.deep_view(),
            r0 == *old(resolver),
            same_answers(r0, *resolver),
            r0.states_answers() ==> forall|j: int| 0 <= j < i ==> !#[trigger] r0.assignable(file_path@, thrown@, dv[j]),
        decreases declared.len() - i,
    {
        assert(dv[i as int] == declared[i as int]@);
        let ok = resolver.is_assignable_to(file_path, thrown, declared[i].as_str());
        if ok {
            proof {
                if r0.states_answers() {
                    assert(r0.assignable(file_path@, thrown@, dv[i as int]));
                }
            }
            return true;
        }
        i += 1;
    }
    false
}

/// Asks the resolver about one throw: an untyped throw is resolved against
/// the file that holds the throw, then checked against the declarations.
fn resolve_declaration<R: TypeResolver>(p: &PropagatedThrow, declared: &Vec<String>, resolver: &mut R) -> (r: (bool, Option<String>))
    ensures
        outcome_fits(p@, declared.deep_view(), ResolverOutcome { resolved: r.1.deep_view(), accepted: r.0 }),
        p@.error_type is Unknown && r.1 is None ==> !r.0,
        old(resolver).states_answers() ==> (ResolverOutcome { resolved: r.1.deep_view(), accepted: r.0 }) == outcome_of(
            *old(resolver),
            p@,
            declared.deep_view(),
        ),
        same_answers(*old(resolver), *final(resolver)),
{
    let ghost r0 = *resolver;
    let file_path = p.origin_function.file_path.as_str();
    match &p.error_type {
        ErrorType::Named(thrown) => (any_assignable(resolver, file_path, thrown.as_str(), declared), None),
        ErrorType::Unknown => match resolver.resolve_type(file_path, p.origin.location) {
            None => (false, None),
            Some(resolved) => {
                let ghost r1 = *resolver;
                let accepted = any_assignable(resolver, file_path, resolved.as_str(), declared);
                proof {
                    if r0.states_answers() {
                        lemma_same_accepted(r0, r1, file_path@, resolved@, declared.deep_view());
                    }
                    lemma_same_answers_trans(r0, r1, *resolver);
                }
                (accepted, Some(resolved))
            },
        },
        ErrorType::Rethrow(_) => (false, None),
    }
}

pub proof fn lemma_same_accepted<R: TypeResolver>(a: R, b: R, file: Seq<char>, t: Seq<char>, declared: Seq<Seq<char>>)
    requires
        same_answers(a, b),
        a.states_answers(),
    ensures
        accepted_by(a, file, t, declared) == accepted_by(b, file, t, declared),
{
    if accepted_by(a, file, t, declared) {
        let j = choose|j: int| 0 <= j < declared.len() && #[trigger] a.assignable(file, t, declared[j]);
        assert(b.assignable(file, t, declared[j]));
    }
    if accepted_by(b, file, t, declared) {
        let j = choose|j: int| 0 <= j < declared.len() && #[trigger] b.assignable(file, t, declared[j]);
        assert(a.assignable(file, t, declared[j]));
    }
}

pub proof fn lemma_same_answers_trans<R: TypeResolver>(a: R, b: R, c: R)
    requires
        same_answers(a, b),
        same_answers(b, c),
    ensures
        same_answers(a, c),
{
    if a.states_answers() {
        assert forall|f: Seq<char>, t: Seq<char>, d: Seq<char>| #[trigger] a.assignable(f, t, d) == c.assignable(f, t, d) by {
            assert(b.assignable(f, t, d) == c.assignable(f, t, d));
        }
        assert forall|f: Seq<char>, s: Span| #[trigger] a.resolution(f, s) == c.resolution(f, s) by {
            assert(b.resolution(f, s) == c.resolution(f, s));
        }
    }
}

fn declared_type_names(sig: &FunctionSignature) -> (r: Vec<String>)
    ensures
        r.deep_view() == declared_types(sig@),
{
    let mut r: Vec<String> = Vec::new();
    let mut i: usize = 0;
    while i < sig.declared_throws.len()
        invariant
            i <= sig.declared_throws.len(),
            r.deep_view() == declared_types(sig@).take(i as int),
        decreases sig.declared_throws.len() - i,
    {
        let ghost before = r.deep_view();
        let e = sig.declared_throws[i].error_type.clone();
        r.push(e);
        proof {
            assert(sig@.declared_throws[i as int] == sig.declared_throws[i as int]@);
            assert(r.deep_view() =~= before.push(e@));
            assert(r.deep_view() =~= declared_types(sig@).take(i + 1));
        }
        i += 1;
    }
    assert(declared_types(sig@).take(sig.declared_throws.len() as int) =~= declared_types(sig@));
    r
}

/// The throws of `propagated` that `sig` does not declare, in order. An
/// untyped throw that the resolver resolves is reported under the resolved
/// type. The resolver is asked in each throw's origin file: at the throw's
/// location for `resolve_type`, and with each declared type in turn for
/// `is_assignable_to`. There is one answer per throw such that the result
/// is exactly what `missing_check` decides for each; when the resolver
/// states its answers (`states_answers`, as `NoOpTypeResolver` does), those
/// answers are its own (`outcome_of`), so the result is fixed.
pub fn find_missing_declarations<R: TypeResolver>(
    sig: &FunctionSignature,
    propagated: &Vec<PropagatedThrow>,
    resolver: &mut R,
) -> (result: Vec<PropagatedThrow>)
    ensures
        exists|os: Seq<ResolverOutcome>|
            os.len() == propagated.len()
            && (forall|i: int| 0 <= i < os.len() ==> outcome_fits(propagated.deep_view()[i], declared_types(sig@), #[trigger] os[i]))
            && (old(resolver).states_answers() ==> forall|i: int| 0 <= i < os.len()
                ==> #[trigger] os[i] == outcome_of(*old(resolver), propagated.deep_view()[i], declared_types(sig@)))
            && result.deep_view() == missing_all(propagated.deep_view(), declared_types(sig@), os),
        same_answers(*old(resolver), *final(resolver)),
{
    let ghost r0 = *resolver;
    let declared = declared_type_names(sig);
    let ghost ps = propagated.deep_view();
    let ghost dts = declared_types(sig@);
    let ghost mut os: Seq<ResolverOutcome> = Seq::empty();
    let mut result: Vec<PropagatedThrow> = Vec::new();
    let mut i: usize = 0;
    assert(result.deep_view() =~= Seq::<PropagatedThrowView>::empty());
    while i < propagated.len()
        invariant
            i <= propagated.len(),
            ps == propagated.deep_view(),
            declared.deep_view() == dts,
            dts == declared_types(sig@),
            os.len() == i,
            forall|j: int| 0 <= j < i ==> outcome_fits(ps[j], dts, #[trigger] os[j]),
            r0 == *old(resolver),
            same_answers(r0, *resolver),
            r0.states_answers() ==> forall|j: int| 0 <= j < i ==> #[trigger] os[j] == outcome_of(r0, ps[j], dts),
            result.deep_view() == missing_all(ps.take(i as int), dts, os),
        decreases propagated.len() - i,
    {
        let p = &propagated[i];
        assert(ps[i as int] == p@);
        let ghost rb = *resolver;
        let (accepted, resolved) = resolve_declaration(p, &declared, resolver);
        let ghost o = ResolverOutcome { resolved: resolved.deep_view(), accepted };
        proof {
            if r0.states_answers() {
                lemma_same_outcome(r0, rb, p@, dts);
            }
            lemma_same_answers_trans(r0, rb, *resolver);
        }
        let decision = check_declaration(p, &declared, resolved, accepted);
        let ghost before = result.deep_view();
        let ghost os_old = os;
        proof {
            os = os.push(o);
            assert(os.drop_last() =~= os_old);
            assert(ps.take(i + 1).drop_last() == ps.take(i as int));
            assert(ps.take(i + 1).last() == p@);
            assert(os.drop_last() == os.take(i as int));
        }
        match decision {
            Some(q) => {
                result.push(q);
                assert(result.deep_view() =~= before.push(q@));
            },
            None => {},
        }
        proof {
            assert(os.drop_last() =~= os.take(i as int));
            assert forall|j: int| 0 <= j < i + 1 implies outcome_fits(ps[j], dts, #[trigger] os[j]) by {
                if j < i {
                    assert(os[j] == os.take(i as int)[j]);
                }
            }
            assert forall|j: int| r0.states_answers() && 0 <= j < i + 1 implies #[trigger] os[j] == outcome_of(r0, ps[j], dts) by {
                if j < i {
                    assert(os[j] == os_old[j]);
                }
            }
            assert(missing_all(ps.take(i + 1), dts, os) == match missing_check(p@, dts, o) {
                Some(q) => missing_all(ps.take(i as int), dts, os.drop_last()).push(q),
                None => missing_all(ps.take(i as int), dts, os.drop_last()),
            });
        }
        i += 1;
    }
    assert(ps.take(propagated.len() as int) == ps);
    result
}


/// A reported throw stems from a real escape route of `f`: with the type
/// it had at its origin restored it is a valid route, and its type is
/// either that one or a resolution of an untyped throw.
pub open spec fn reported_route(g: crate::call_graph::CallGraphView, m: SignatureMapView, f: FunctionIdView, q: PropagatedThrowView) -> bool {
    &&& valid_route(g, m, f, PropagatedThrowView { error_type: q.origin.error_type, ..q })
    &&& (q.error_type == q.origin.error_type || q.origin.error_type is Unknown)
}

proof fn lemma_missing_all_elements(ps: Seq<PropagatedThrowView>, d: Seq<Seq<char>>, os: Seq<ResolverOutcome>, k: int)
    requires
        os.len() == ps.len(),
        0 <= k < missing_all(ps, d, os).len(),
    ensures
        exists|i: int| 0 <= i < ps.len() && missing_check(ps[i], d, os[i]) == Some(#[trigger] missing_all(ps, d, os)[k]),
    decreases ps.len(),
{
    let rest = missing_all(ps.drop_last(), d, os.drop_last());
    if k < rest.len() {
        lemma_missing_all_elements(ps.drop_last(), d, os.drop_last(), k);
        let i = choose|i: int| 0 <= i < ps.drop_last().len() && missing_check(ps.drop_last()[i], d, os.drop_last()[i]) == Some(#[trigger] rest[k]);
        assert(ps[i] == ps.drop_last()[i]);
        assert(os[i] == os.drop_last()[i]);
        assert(missing_all(ps, d, os)[k] == rest[k]);
    } else {
        let i = ps.len() - 1;
        assert(ps[i] == ps.last());
        assert(os[i] == os.last());
    }
}

proof fn lemma_missing_all_undeclared(ps: Seq<PropagatedThrowView>, d: Seq<Seq<char>>, os: Seq<ResolverOutcome>)
    requires
        os.len() == ps.len(),
        d.len() == 0,
        forall|i: int| 0 <= i < os.len() ==> outcome_fits(ps[i], d, #[trigger] os[i]),
    ensures
        missing_all(ps, d, os).len() == ps.len(),
    decreases ps.len(),
{
    if ps.len() > 0 {
        assert forall|i: int| 0 <= i < os.drop_last().len() implies outcome_fits(ps.drop_last()[i], d, #[trigger] os.drop_last()[i]) by {
            assert(os.drop_last()[i] == os[i]);
            assert(ps.drop_last()[i] == ps[i]);
        }
        lemma_missing_all_undeclared(ps.drop_last(), d, os.drop_last());
        assert(outcome_fits(ps[ps.len() - 1], d, os[os.len() - 1]));
        assert(!d.contains("unknown"@));
    }
}

/// Throws that meet what `compute_propagated_throws` promises for `f`.
pub open spec fn propagation_fits(g: crate::call_graph::CallGraphView, m: SignatureMapView, f: FunctionIdView, ps: Seq<PropagatedThrowView>) -> bool {
    &&& forall|j: int| 0 <= j < ps.len() ==> valid_route(g, m, f, #[trigger] ps[j])
    &&& crate::propagation::direct_part(m, f).is_prefix_of(ps)
    &&& crate::propagation::acyclic_from(g, f) ==> crate::propagation::complete_for(g, m, f, ps)
    &&& crate::propagation::acyclic_from(g, f) ==> ps == crate::propagation::routes_from(g, m, f, Seq::empty())
    &&& ps == crate::propagation::propagation(g, m, f)
}

/// The answers of `r`, one per throw.
pub open spec fn outcomes_fit<R: TypeResolver>(r: R, ps: Seq<PropagatedThrowView>, declared: Seq<Seq<char>>, os: Seq<ResolverOutcome>) -> bool {
    &&& os.len() == ps.len()
    &&& forall|i: int| 0 <= i < os.len() ==> outcome_fits(ps[i], declared, #[trigger] os[i])
    &&& r.states_answers() ==> forall|i: int| 0 <= i < os.len() ==> #[trigger] os[i] == outcome_of(r, ps[i], declared)
}

/// The diagnostics for the first `pss.len()` functions of `m`, given the
/// throws escaping each (`pss`) and the resolver's answers (`oss`): one per
/// function with a missing throw, in table order.
pub open spec fn findings(m: SignatureMapView, pss: Seq<Seq<PropagatedThrowView>>, oss: Seq<Seq<ResolverOutcome>>) -> Seq<DiagnosticView>
    decreases pss.len(),
{
    if pss.len() == 0 {
        Seq::empty()
    } else {
        let i = pss.len() - 1;
        let prev = findings(m, pss.drop_last(), oss.drop_last());
        let missing = missing_all(pss[i], declared_types(m.values[i]), oss[i]);
        if missing.len() > 0 {
            prev.push(DiagnosticView { function: m.keys[i], missing_throws: missing })
        } else {
            prev
        }
    }
}

/// The findings of a table are one diagnostic per function whose missing
/// list is non-empty, carrying that list, and nothing else: each
/// diagnostic is such a function's, every such function has one, and no
/// function has two (for the findings of the first `pss.len()` functions).
pub proof fn law_one_diagnostic_per_undeclared_function(m: SignatureMapView, pss: Seq<Seq<PropagatedThrowView>>, oss: Seq<Seq<ResolverOutcome>>)
    requires
        pss.len() <= m.keys.len(),
        oss.len() == pss.len(),
        m.keys.no_duplicates(),
    ensures
        forall|k: int| 0 <= k < findings(m, pss, oss).len() ==> exists|i: int|
            0 <= i < pss.len() && #[trigger] findings(m, pss, oss)[k] == (DiagnosticView {
                function: m.keys[i],
                missing_throws: missing_all(pss[i], declared_types(m.values[i]), oss[i]),
            }) && missing_all(pss[i], declared_types(m.values[i]), oss[i]).len() > 0,
        forall|i: int| 0 <= i < pss.len() && #[trigger] missing_all(pss[i], declared_types(m.values[i]), oss[i]).len() > 0
            ==> findings(m, pss, oss).contains(DiagnosticView {
                function: m.keys[i],
                missing_throws: missing_all(pss[i], declared_types(m.values[i]), oss[i]),
            }),
        forall|a: int, b: int| 0 <= a < b < findings(m, pss, oss).len()
            ==> (#[trigger] findings(m, pss, oss)[a]).function != (#[trigger] findings(m, pss, oss)[b]).function,
    decreases pss.len(),
{
    if pss.len() > 0 {
        let n = pss.len() - 1;
        let p2 = pss.drop_last();
        let o2 = oss.drop_last();
        law_one_diagnostic_per_undeclared_function(m, p2, o2);
        let prev = findings(m, p2, o2);
        let f = findings(m, pss, oss);
        let mis = missing_all(pss[n], declared_types(m.values[n]), oss[n]);
        assert(prev.is_prefix_of(f));
        assert forall|k: int| 0 <= k < f.len() implies exists|i: int|
            0 <= i < pss.len() && #[trigger] f[k] == (DiagnosticView {
                function: m.keys[i],
                missing_throws: missing_all(pss[i], declared_types(m.values[i]), oss[i]),
            }) && missing_all(pss[i], declared_types(m.values[i]), oss[i]).len() > 0 by {
            if k < prev.len() {
                assert(f[k] == prev[k]);
                let i = choose|i: int| 0 <= i < p2.len() && #[trigger] prev[k] == (DiagnosticView {
                    function: m.keys[i],
                    missing_throws: missing_all(p2[i], declared_types(m.values[i]), o2[i]),
                }) && missing_all(p2[i], declared_types(m.values[i]), o2[i]).len() > 0;
                assert(p2[i] == pss[i] && o2[i] == oss[i]);
            } else {
                assert(f[k] == DiagnosticView { function: m.keys[n], missing_throws: mis });
            }
        }
        assert forall|i: int| 0 <= i < pss.len() && #[trigger] missing_all(pss[i], declared_types(m.values[i]), oss[i]).len() > 0
            implies f.contains(DiagnosticView {
                function: m.keys[i],
                missing_throws: missing_all(pss[i], declared_types(m.values[i]), oss[i]),
            }) by {
            if i < n {
                assert(p2[i] == pss[i] && o2[i] == oss[i]);
                assert(missing_all(p2[i], declared_types(m.values[i]), o2[i]).len() > 0);
                let d = DiagnosticView { function: m.keys[i], missing_throws: missing_all(pss[i], declared_types(m.values[i]), oss[i]) };
                assert(prev.contains(d));
                let w = choose|w: int| 0 <= w < prev.len() && prev[w] == d;
                assert(f[w] == prev[w]);
            } else {
                assert(f[f.len() - 1] == DiagnosticView { function: m.keys[n], missing_throws: mis });
            }
        }
        assert forall|a: int, b: int| 0 <= a < b < f.len() implies (#[trigger] f[a]).function != (#[trigger] f[b]).function by {
            assert(f[a] == prev[a]);
            if b < prev.len() {
                assert(f[b] == prev[b]);
            } else {
                let i = choose|i: int| 0 <= i < p2.len() && #[trigger] prev[a] == (DiagnosticView {
                    function: m.keys[i],
                    missing_throws: missing_all(p2[i], declared_types(m.values[i]), o2[i]),
                }) && missing_all(p2[i], declared_types(m.values[i]), o2[i]).len() > 0;
                assert(f[b].function == m.keys[n]);
                assert(m.keys[i] != m.keys[n]);
            }
        }
    }
}

/// A throw the no-op resolver leaves missing: a named type that no declared
/// name equals, an untyped throw when `unknown` is not declared, or a
/// rethrow.
pub open spec fn plainly_undeclared(p: PropagatedThrowView, declared: Seq<Seq<char>>) -> bool {
    match p.error_type {
        ErrorTypeView::Named(t) => !declared.contains(t),
        ErrorTypeView::Unknown => !declared.contains("unknown"@),
        ErrorTypeView::Rethrow(_) => true,
    }
}

/// With the no-op resolver's answers, the missing throws are the propagated
/// throws that the declared names leave undeclared, in order and unchanged.
pub proof fn law_no_op_resolver_keeps_the_undeclared(
    ps: Seq<PropagatedThrowView>,
    declared: Seq<Seq<char>>,
    os: Seq<ResolverOutcome>,
)
    requires
        os.len() == ps.len(),
        forall|i: int| 0 <= i < os.len() ==> #[trigger] os[i] == outcome_of(NoOpTypeResolver, ps[i], declared),
    ensures
        missing_all(ps, declared, os) == ps.filter(|p: PropagatedThrowView| plainly_undeclared(p, declared)),
    decreases ps.len(),
{
    reveal(Seq::filter);
    if ps.len() > 0 {
        let n = ps.len() - 1;
        assert forall|i: int| 0 <= i < os.drop_last().len() implies #[trigger] os.drop_last()[i] == outcome_of(NoOpTypeResolver, ps.drop_last()[i], declared) by {
            assert(os.drop_last()[i] == os[i]);
            assert(ps.drop_last()[i] == ps[i]);
        }
        law_no_op_resolver_keeps_the_undeclared(ps.drop_last(), declared, os.drop_last());
        let p = ps.last();
        assert(os.last() == os[n]);
        assert(os[n] == outcome_of(NoOpTypeResolver, ps[n], declared));
        if let ErrorTypeView::Named(t) = p.error_type {
            let r = NoOpTypeResolver;
            if declared.contains(t) {
                let j = choose|j: int| 0 <= j < declared.len() && declared[j] == t;
                assert(r.assignable(p.origin_function.file_path, t, declared[j]));
            }
            assert(accepted_by(r, p.origin_function.file_path, t, declared) == declared.contains(t));
        }
    }
}

/// One diagnostic per function of `signatures` (in table order) whose
/// escaping throws are not all declared: exactly `findings` for throws that
/// meet what `compute_propagated_throws` promises and for answers the
/// resolver can give, asked as `find_missing_declarations` asks it (and,
/// for a resolver that states its answers, exactly those answers). Each
/// reported throw stems from a real escape route of
/// its function; each diagnostic reports at least one throw; and a function
/// that declares nothing but lets a throw escape (see `escapes_somehow`)
/// always gets a diagnostic.
pub fn generate_diagnostics_with_resolver<R: TypeResolver>(
    signatures: &SignatureMap,
    graph: &CallGraph,
    resolver: &mut R,
) -> (result: Vec<Diagnostic>)
    requires
        signatures.wf(),
        graph.wf(),
    ensures
        forall|k: int| 0 <= k < result.len() ==> (#[trigger] result.deep_view()[k]).missing_throws.len() > 0
            && signatures@.get(result.deep_view()[k].function) is Some
            && forall|q: int| 0 <= q < result.deep_view()[k].missing_throws.len()
                ==> reported_route(graph@, signatures@, result.deep_view()[k].function, #[trigger] result.deep_view()[k].missing_throws[q]),
        forall|i: int| 0 <= i < signatures@.keys.len()
            && declared_types(signatures@.values[i]).len() == 0
            && #[trigger] crate::propagation::escapes_somehow(graph@, signatures@, signatures@.keys[i])
            ==> exists|k: int| 0 <= k < result.len() && (#[trigger] result.deep_view()[k]).function == signatures@.keys[i],
        exists|pss: Seq<Seq<PropagatedThrowView>>, oss: Seq<Seq<ResolverOutcome>>|
            pss.len() == signatures@.len() && oss.len() == signatures@.len()
            && (forall|i: int| 0 <= i < pss.len() ==> propagation_fits(graph@, signatures@, signatures@.keys[i], #[trigger] pss[i])
                && outcomes_fit(*old(resolver), pss[i], declared_types(signatures@.values[i]), oss[i]))
            && result.deep_view() == findings(signatures@, pss, oss),
        same_answers(*old(resolver), *final(resolver)),
{
    let ghost r0 = *resolver;
    let mut diagnostics: Vec<Diagnostic> = Vec::new();
    let n = signatures.len();
    let ghost m = signatures@;
    let ghost g = graph@;
    let mut i: usize = 0;
    let ghost mut pss: Seq<Seq<PropagatedThrowView>> = Seq::empty();
    let ghost mut oss: Seq<Seq<ResolverOutcome>> = Seq::empty();
    assert(diagnostics.deep_view() =~= Seq::<DiagnosticView>::empty());
    while i < n
        invariant
            signatures.wf(),
            graph.wf(),
            m == signatures@,
            g == graph@,
            n == m.len(),
            i <= n,
            forall|k: int| 0 <= k < diagnostics.len() ==> (#[trigger] diagnostics.deep_view()[k]).missing_throws.len() > 0
                && m.get(diagnostics.deep_view()[k].function) is Some
                && forall|q: int| 0 <= q < diagnostics.deep_view()[k].missing_throws.len()
                    ==> reported_route(g, m, diagnostics.deep_view()[k].function, #[trigger] diagnostics.deep_view()[k].missing_throws[q]),
            forall|j: int| 0 <= j < i && declared_types(m.values[j]).len() == 0
                && #[trigger] crate::propagation::escapes_somehow(g, m, m.keys[j])
                ==> exists|k: int| 0 <= k < diagnostics.len() && (#[trigger] diagnostics.deep_view()[k]).function == m.keys[j],
            pss.len() == i,
            oss.len() == i,
            forall|k: int| 0 <= k < i ==> propagation_fits(g, m, m.keys[k], #[trigger] pss[k])
                && outcomes_fit(r0, pss[k], declared_types(m.values[k]), oss[k]),
            r0 == *old(resolver),
            same_answers(r0, *resolver),
            diagnostics.deep_view() == findings(m, pss, oss),
        decreases n - i,
    {
        let func_id = signatures.key_at(i);
        let sig = signatures.value_at(i);
        let ghost f = func_id@;
        let propagated = compute_propagated_throws(func_id, signatures, graph);
        let ghost rb = *resolver;
        let missing = find_missing_declarations(sig, &propagated, resolver);
        let ghost before = diagnostics.deep_view();
        let ghost ps = propagated.deep_view();
        let ghost os = choose|os: Seq<ResolverOutcome>|
            os.len() == propagated.len()
            && (forall|t: int| 0 <= t < os.len() ==> outcome_fits(propagated.deep_view()[t], declared_types(sig@), #[trigger] os[t]))
            && (rb.states_answers() ==> forall|t: int| 0 <= t < os.len()
                ==> #[trigger] os[t] == outcome_of(rb, propagated.deep_view()[t], declared_types(sig@)))
            && missing.deep_view() == missing_all(propagated.deep_view(), declared_types(sig@), os);
        proof {
            assert forall|q: int| 0 <= q < missing.deep_view().len() implies reported_route(g, m, f, #[trigger] missing.deep_view()[q]) by {
                lemma_missing_all_elements(propagated.deep_view(), declared_types(sig@), os, q);
                let t = choose|t: int| 0 <= t < propagated.deep_view().len()
                    && missing_check(propagated.deep_view()[t], declared_types(sig@), os[t]) == Some(#[trigger] missing_all(propagated.deep_view(), declared_types(sig@), os)[q]);
                let p = propagated.deep_view()[t];
                assert(valid_route(g, m, f, p));
                if p.path.len() == 0 {
                } else {
                }
                assert(p.error_type == p.origin.error_type) by {
                    crate::propagation::law_route_keeps_type(g, m, f, p);
                }
                assert(PropagatedThrowView { error_type: p.origin.error_type, ..p } == p);
            }
            if declared_types(sig@).len() == 0 && crate::propagation::escapes_somehow(g, m, f) {
                lemma_missing_all_undeclared(propagated.deep_view(), declared_types(sig@), os);
                if crate::propagation::direct_part(m, f).len() > 0 {
                    assert(crate::propagation::direct_part(m, f).is_prefix_of(propagated.deep_view()));
                } else {
                    let q = choose|q: PropagatedThrowView| #[trigger] valid_route(g, m, f, q);
                    assert(propagated.deep_view().contains(q));
                }
            }
        }
        if missing.len() > 0 {
            let d = Diagnostic { function: func_id.clone(), missing_throws: missing };
            diagnostics.push(d);
            proof {
                assert(diagnostics.deep_view() =~= before.push(d@));
                assert(diagnostics.deep_view()[before.len() as int] == d@);
                assert forall|j: int| 0 <= j < i + 1 && declared_types(m.values[j]).len() == 0
                    && #[trigger] crate::propagation::escapes_somehow(g, m, m.keys[j])
                    implies exists|k: int| 0 <= k < diagnostics.len() && (#[trigger] diagnostics.deep_view()[k]).function == m.keys[j] by {
                    if j < i {
                        let k = choose|k: int| 0 <= k < before.len() && (#[trigger] before[k]).function == m.keys[j];
                        assert(diagnostics.deep_view()[k] == before[k]);
                    } else {
                        assert(diagnostics.deep_view()[before.len() as int].function == m.keys[j]);
                    }
                }
            }
        }
        proof {
            let pss0 = pss;
            let oss0 = oss;
            pss = pss.push(ps);
            oss = oss.push(os);
            assert(pss.drop_last() =~= pss0);
            assert(oss.drop_last() =~= oss0);
            assert(m.keys[i as int] == f);
            assert(m.values[i as int] == sig@);
            assert(propagation_fits(g, m, f, ps));
            assert forall|t: int| r0.states_answers() && 0 <= t < os.len() implies #[trigger] os[t] == outcome_of(r0, ps[t], declared_types(sig@)) by {
                lemma_same_outcome(r0, rb, ps[t], declared_types(sig@));
            }
            lemma_same_answers_trans(r0, rb, *resolver);
            assert(outcomes_fit(r0, ps, declared_types(sig@), os));
            assert forall|k: int| 0 <= k < i + 1 implies propagation_fits(g, m, m.keys[k], #[trigger] pss[k])
                && outcomes_fit(r0, pss[k], declared_types(m.values[k]), oss[k]) by {
                if k < i {
                    assert(pss[k] == pss0[k]);
                    assert(oss[k] == oss0[k]);
                }
            }
            if missing.len() > 0 {
                assert(diagnostics.deep_view() == before.push(DiagnosticView { function: f, missing_throws: missing_all(ps, declared_types(sig@), os) }));
            }
        }
        i += 1;
    }
    diagnostics
}

} // verus!
