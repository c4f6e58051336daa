//! Which throws escape a function: its own uncaught throws, and the throws
//! of the functions it calls that its `try`/`catch` blocks do not handle at
//! any of the call sites.
use crate::call_graph::{CallGraph, CallGraphView};
use crate::signature_map::{SignatureMap, SignatureMapView};
use crate::types::{
    clone_propagated, ErrorType, ErrorTypeView, FunctionId, FunctionIdView,
    FunctionSignature, FunctionSignatureView, PropagatedThrow, PropagatedThrowView, Span,
    ThrowSite, ThrowSiteView, TryCatchBlock, TryCatchBlockView,
};
use vstd::prelude::*;

verus! {

/// The throw stands inside the block's `catch` clause.
pub open spec fn in_catch_clause(t: ThrowSiteView, b: TryCatchBlockView) -> bool {
    match b.catch_span {
        Some(cs) => cs.start <= t.location.start && t.location.end <= cs.end,
        None => false,
    }
}

/// The throw stands inside some `catch` clause of the function.
pub open spec fn in_some_catch(t: ThrowSiteView, sig: FunctionSignatureView) -> bool {
    exists|i: int| 0 <= i < sig.try_catch_blocks.len() && in_catch_clause(t, #[trigger] sig.try_catch_blocks[i])
}

/// The block's `catch` clause throws its parameter again.
pub open spec fn rethrows(b: TryCatchBlockView, sig: FunctionSignatureView) -> bool {
    exists|i: int|
        0 <= i < sig.direct_throws.len() && (#[trigger] sig.direct_throws[i]).error_type is Rethrow
            && in_catch_clause(sig.direct_throws[i], b)
}

/// The block handles the throw: the throw starts in the `try` block, and the
/// `catch` clause either never rethrows (so it swallows everything) or
/// handles the named type through an `instanceof` check.
pub open spec fn handles(b: TryCatchBlockView, sig: FunctionSignatureView, t: ThrowSiteView) -> bool {
    &&& b.covers(t.location.start)
    &&& (!rethrows(b, sig) || (t.error_type matches ErrorTypeView::Named(n) && b.caught_types.contains(n)))
}

/// The throw is caught inside the function. A rethrow never is.
pub open spec fn caught(t: ThrowSiteView, sig: FunctionSignatureView) -> bool {
    &&& !(t.error_type is Rethrow)
    &&& exists|i: int| 0 <= i < sig.try_catch_blocks.len() && handles(#[trigger] sig.try_catch_blocks[i], sig, t)
}

/// A throw of the function itself leaves it: it is not a rethrow inside a
/// `catch` clause (those are accounted for by what the `try` block lets
/// through) and no block catches it.
pub open spec fn escapes_directly(t: ThrowSiteView, sig: FunctionSignatureView) -> bool {
    !(t.error_type is Rethrow && in_some_catch(t, sig)) && !caught(t, sig)
}

pub open spec fn origin_throw(f: FunctionIdView, t: ThrowSiteView) -> PropagatedThrowView {
    PropagatedThrowView { error_type: t.error_type, origin: t, origin_function: f, path: Seq::empty() }
}

/// The escaping throws among `ts`, in order, for function `f` with signature `sig`.
pub open spec fn direct_escapes(f: FunctionIdView, sig: FunctionSignatureView, ts: Seq<ThrowSiteView>) -> Seq<PropagatedThrowView>
    decreases ts.len(),
{
    if ts.len() == 0 {
        Seq::empty()
    } else if escapes_directly(ts.last(), sig) {
        direct_escapes(f, sig, ts.drop_last()).push(origin_throw(f, ts.last()))
    } else {
        direct_escapes(f, sig, ts.drop_last())
    }
}

/// The function's own escaping throws, in source order.
pub open spec fn direct_part(m: SignatureMapView, f: FunctionIdView) -> Seq<PropagatedThrowView> {
    match m.get(f) {
        Some(s) => direct_escapes(f, s, s.direct_throws),
        None => Seq::empty(),
    }
}

/// An error of type `et` raised by a call lets the caller's blocks pass it
/// at one of the call's locations (or no location of the call is known).
pub open spec fn call_escapes(sig: FunctionSignatureView, locs: Seq<Span>, et: ErrorTypeView) -> bool {
    locs.len() == 0 || exists|i: int|
        0 <= i < locs.len() && !caught(ThrowSiteView { location: #[trigger] locs[i], error_type: et }, sig)
}

/// `p` describes a real way out of `f`: `f` calls `p.path[1]`, which calls
/// the next function, and so on down to `p.origin_function`, each call
/// escaping its caller's handlers, and the origin's throw escapes its
/// own function.
pub open spec fn valid_route(g: CallGraphView, m: SignatureMapView, f: FunctionIdView, p: PropagatedThrowView) -> bool
    decreases p.path.len(),
{
    if p.path.len() == 0 {
        &&& p.origin_function == f
        &&& p.error_type == p.origin.error_type
        &&& m.get(f) matches Some(s) && s.direct_throws.contains(p.origin) && escapes_directly(p.origin, s)
    } else {
        let next = if p.path.len() == 1 {
            p.origin_function
        } else {
            p.path[1]
        };
        &&& p.path[0] == f
        &&& m.get(f) matches Some(s) && call_escapes(s, g.locations(f, next), p.error_type)
        &&& g.has_edge(f, next)
        &&& valid_route(g, m, next, PropagatedThrowView { path: p.path.drop_first(), ..p })
    }
}

/// A throw of a callee, seen from its caller `f`.
pub open spec fn lifted(f: FunctionIdView, p: PropagatedThrowView) -> PropagatedThrowView {
    PropagatedThrowView { path: seq![f] + p.path, ..p }
}

/// Number of graph nodes not currently under evaluation.
pub open spec fn pending(nodes: Seq<FunctionIdView>, inprog: Seq<FunctionIdView>) -> nat
    decreases nodes.len(),
{
    if nodes.len() == 0 {
        0
    } else {
        pending(nodes.drop_last(), inprog) + if inprog.contains(nodes.last()) {
            0nat
        } else {
            1nat
        }
    }
}

/// Putting a function under evaluation leaves fewer functions pending.
pub proof fn lemma_pending_push(nodes: Seq<FunctionIdView>, inprog: Seq<FunctionIdView>, f: FunctionIdView)
    requires
        !inprog.contains(f),
    ensures
        pending(nodes, inprog.push(f)) <= pending(nodes, inprog),
        nodes.contains(f) ==> pending(nodes, inprog.push(f)) < pending(nodes, inprog),
    decreases nodes.len(),
{
    if nodes.len() > 0 {
        let d = nodes.drop_last();
        lemma_pending_push(d, inprog, f);
        let x = nodes.last();
        if inprog.contains(x) {
            let j = choose|j: int| 0 <= j < inprog.len() && inprog[j] == x;
            assert(inprog.push(f)[j] == x);
        }
        if nodes.contains(f) && !d.contains(f) {
            let j = choose|j: int| 0 <= j < nodes.len() && nodes[j] == f;
            if j < nodes.len() - 1 {
                assert(d[j] == f);
            }
            assert(x == f);
            assert(inprog.push(f)[inprog.len() as int] == f);
        }
        if inprog.push(f).contains(x) && x != f {
            let j = choose|j: int| 0 <= j < inprog.push(f).len() && inprog.push(f)[j] == x;
            assert(inprog[j] == x);
        }
    }
}

// ---------------------------------------------------------------------------
// Executable checks
// ---------------------------------------------------------------------------
fn in_catch_clause_exec(t: &ThrowSite, b: &TryCatchBlock) -> (r: bool)
    ensures
        r == in_catch_clause(t@, b@),
{
    match &b.catch_span {
        Some(cs) => t.location.start >= cs.start && t.location.end <= cs.end,
        None => false,
    }
}

fn is_in_catch_block(t: &ThrowSite, sig: &FunctionSignature) -> (r: bool)
    ensures
        r == in_some_catch(t@, sig@),
{
    let mut i: usize = 0;
    while i < sig.try_catch_blocks.len()
        invariant
            i <= sig.try_catch_blocks.len(),
            forall|j: int| 0 <= j < i ==> !in_catch_clause(t@, #[trigger] sig@.try_catch_blocks[j]),
        decreases sig.try_catch_blocks.len() - i,
    {
        assert(sig@.try_catch_blocks[i as int] == sig.try_catch_blocks[i as int]@);
        if in_catch_clause_exec(t, &sig.try_catch_blocks[i]) {
            return true;
        }
        i += 1;
    }
    false
}

fn catch_has_rethrow(b: &TryCatchBlock, sig: &FunctionSignature) -> (r: bool)
    ensures
        r == rethrows(b@, sig@),
{
    let mut i: usize = 0;
    while i < sig.direct_throws.len()
        invariant
            i <= sig.direct_throws.len(),
            forall|j: int| 0 <= j < i ==> !((#[trigger] sig@.direct_throws[j]).error_type is Rethrow
                && in_catch_clause(sig@.direct_throws[j], b@)),
        decreases sig.direct_throws.len() - i,
    {
        assert(sig@.direct_throws[i as int] == sig.direct_throws[i as int]@);
        if sig.direct_throws[i].error_type.is_rethrow() && in_catch_clause_exec(&sig.direct_throws[i], b) {
            return true;
        }
        i += 1;
    }
    false
}

fn contains_string(v: &Vec<String>, s: &String) -> (r: bool)
    ensures
        r == v.deep_view().contains(s@),
{
    let mut i: usize = 0;
    while i < v.len()
        invariant
            i <= v.len(),
            forall|j: int| 0 <= j < i ==> v.deep_view()[j] != s@,
        decreases v.len() - i,
    {
        if v[i].eq(s) {
            assert(v.deep_view()[i as int] == s@);
            return true;
        }
        i += 1;
    }
    false
}

fn is_caught(t: &ThrowSite, sig: &FunctionSignature) -> (r: bool)
    ensures
        r == caught(t@, sig@),
{
    if t.error_type.is_rethrow() {
        return false;
    }
    let mut i: usize = 0;
    while i < sig.try_catch_blocks.len()
        invariant
            !(t@.error_type is Rethrow),
            i <= sig.try_catch_blocks.len(),
            forall|j: int| 0 <= j < i ==> !handles(#[trigger] sig@.try_catch_blocks[j], sig@, t@),
        decreases sig.try_catch_blocks.len() - i,
    {
        let block = &sig.try_catch_blocks[i];
        assert(sig@.try_catch_blocks[i as int] == block@);
        if block.contains(t.location.start) {
            let has_rethrow = catch_has_rethrow(block, sig);
            if !has_rethrow {
                return true;
            }
            if let ErrorType::Named(name) = &t.error_type {
                if contains_string(&block.caught_types, name) {
                    return true;
                }
            }
        }
        i += 1;
    }
    false
}

fn lookup_memo(keys: &Vec<FunctionId>, id: &FunctionId) -> (r: Option<usize>)
    ensures
        match r {
            Some(i) => i < keys.len() && keys.deep_view()[i as int] == id@
                && forall|j: int| 0 <= j < i ==> keys.deep_view()[j] != id@,
            None => !keys.deep_view().contains(id@),
        },
{
    let mut i: usize = 0;
    while i < keys.len()
        invariant
            i <= keys.len(),
            forall|j: int| 0 <= j < i ==> keys.deep_view()[j] != id@,
        decreases keys.len() - i,
    {
        assert(keys.deep_view()[i as int] == keys[i as int]@);
        if keys[i].same(id) {
            return Some(i);
        }
        i += 1;
    }
    None
}

/// `s` without the entries equal to `x`, in order.
pub open spec fn without(s: Seq<FunctionIdView>, x: FunctionIdView) -> Seq<FunctionIdView>
    decreases s.len(),
{
    if s.len() == 0 {
        Seq::empty()
    } else {
        let r = without(s.drop_last(), x);
        if s.last() == x {
            r
        } else {
            r.push(s.last())
        }
    }
}

/// `dst` with each entry of `src` that it does not hold yet appended, in
/// order: the union of the two as a list without repeats.
pub open spec fn with_all(dst: Seq<FunctionIdView>, src: Seq<FunctionIdView>) -> Seq<FunctionIdView>
    decreases src.len(),
{
    if src.len() == 0 {
        dst
    } else {
        let r = with_all(dst, src.drop_last());
        if r.contains(src.last()) {
            r
        } else {
            r.push(src.last())
        }
    }
}

/// Removes every entry equal to `id` from `v`, keeping the others in order.
fn remove_all(v: &mut Vec<FunctionId>, id: &FunctionId)
    ensures
        final(v).deep_view() == without(old(v).deep_view(), id@),
{
    let ghost s = v.deep_view();
    let mut out: Vec<FunctionId> = Vec::new();
    let mut i: usize = 0;
    assert(s.take(0) =~= Seq::<FunctionIdView>::empty());
    assert(out.deep_view() =~= without(s.take(0), id@));
    while i < v.len()
        invariant
            s == v.deep_view(),
            i <= v.len(),
            out.deep_view() == without(s.take(i as int), id@),
        decreases v.len() - i,
    {
        assert(s.take(i + 1).drop_last() =~= s.take(i as int));
        assert(s.take(i + 1).last() == v[i as int]@);
        if !v[i].same(id) {
            let ghost before = out.deep_view();
            let c = v[i].clone();
            out.push(c);
            assert(out.deep_view() =~= before.push(c@));
        }
        i += 1;
    }
    assert(s.take(v.len() as int) =~= s);
    *v = out;
}

/// Appends to `dst` each entry of `src` that it does not hold yet, in order.
fn add_all(dst: &mut Vec<FunctionId>, src: &Vec<FunctionId>)
    ensures
        final(dst).deep_view() == with_all(old(dst).deep_view(), src.deep_view()),
{
    let ghost d0 = dst.deep_view();
    let ghost s = src.deep_view();
    let mut i: usize = 0;
    assert(s.take(0) =~= Seq::<FunctionIdView>::empty());
    while i < src.len()
        invariant
            s == src.deep_view(),
            i <= src.len(),
            dst.deep_view() == with_all(d0, s.take(i as int)),
        decreases src.len() - i,
    {
        assert(s.take(i + 1).drop_last() =~= s.take(i as int));
        assert(s.take(i + 1).last() == src[i as int]@);
        match lookup_memo(dst, &src[i]) {
            None => {
                let ghost before = dst.deep_view();
                let c = src[i].clone();
                dst.push(c);
                assert(dst.deep_view() =~= before.push(c@));
            },
            Some(k) => {
                assert(dst.deep_view()[k as int] == src[i as int]@);
            },
        }
        i += 1;
    }
    assert(s.take(src.len() as int) =~= s);
}

/// No function that `f` reaches, `f` included, lies on a cycle of calls.
pub open spec fn acyclic_from(g: CallGraphView, f: FunctionIdView) -> bool {
    &&& !g.calls_transitively(f, f)
    &&& forall|x: FunctionIdView| #[trigger] g.calls_transitively(f, x) ==> !g.calls_transitively(x, x)
}

/// `r` lists every way out of `f`.
pub open spec fn complete_for(g: CallGraphView, m: SignatureMapView, f: FunctionIdView, r: Seq<PropagatedThrowView>) -> bool {
    forall|p: PropagatedThrowView| #[trigger] valid_route(g, m, f, p) ==> r.contains(p)
}

/// Memoised results for functions outside cycles are complete.
pub open spec fn memo_complete(g: CallGraphView, m: SignatureMapView, keys: Seq<FunctionIdView>, vals: Seq<Seq<PropagatedThrowView>>) -> bool {
    forall|i: int| 0 <= i < keys.len() && i < vals.len() && #[trigger] acyclic_from(g, keys[i]) ==> complete_for(g, m, keys[i], vals[i])
}

/// `f` lets a throw escape: one of its own, or, when no function it
/// reaches lies on a cycle of calls, any throw on a way out of it.
pub open spec fn escapes_somehow(g: CallGraphView, m: SignatureMapView, f: FunctionIdView) -> bool {
    ||| direct_part(m, f).len() > 0
    ||| acyclic_from(g, f) && exists|q: PropagatedThrowView| #[trigger] valid_route(g, m, f, q)
}

proof fn lemma_acyclic_callee(g: CallGraphView, f: FunctionIdView, c: FunctionIdView)
    requires
        acyclic_from(g, f),
        g.has_edge(f, c),
    ensures
        acyclic_from(g, c),
{
    g.lemma_edge_calls(f, c);
    assert(!g.calls_transitively(c, c));
    assert forall|x: FunctionIdView| #[trigger] g.calls_transitively(c, x) implies !g.calls_transitively(x, x) by {
        g.lemma_calls_compose(f, c, x);
    }
}

proof fn lemma_direct_escapes_complete(f: FunctionIdView, s: FunctionSignatureView, ts: Seq<ThrowSiteView>, t: ThrowSiteView)
    requires
        ts.contains(t),
        escapes_directly(t, s),
    ensures
        direct_escapes(f, s, ts).contains(origin_throw(f, t)),
    decreases ts.len(),
{
    let r = direct_escapes(f, s, ts.drop_last());
    if ts.last() == t {
        assert(direct_escapes(f, s, ts) == r.push(origin_throw(f, t)));
        assert(direct_escapes(f, s, ts)[r.len() as int] == origin_throw(f, t));
    } else {
        let k = choose|k: int| 0 <= k < ts.len() && ts[k] == t;
        assert(k < ts.len() - 1);
        assert(ts.drop_last()[k] == t);
        lemma_direct_escapes_complete(f, s, ts.drop_last(), t);
        let w = choose|w: int| 0 <= w < r.len() && r[w] == origin_throw(f, t);
        if escapes_directly(ts.last(), s) {
            assert(direct_escapes(f, s, ts)[w] == origin_throw(f, t));
        }
    }
}

// ---------------------------------------------------------------------------
// The routes out of a function, in order
// ---------------------------------------------------------------------------
/// The throws of `ps` that one of the calls at `locs` lets through, seen
/// from the caller `f`, in order.
pub open spec fn lift_passing(
    s: FunctionSignatureView,
    f: FunctionIdView,
    locs: Seq<Span>,
    ps: Seq<PropagatedThrowView>,
) -> Seq<PropagatedThrowView>
    decreases ps.len(),
{
    if ps.len() == 0 {
        Seq::empty()
    } else {
        let r = lift_passing(s, f, locs, ps.drop_last());
        if call_escapes(s, locs, ps.last().error_type) {
            r.push(lifted(f, ps.last()))
        } else {
            r
        }
    }
}

/// The ways out of `f` that a depth-first search finds when it starts at
/// `f` with `visiting` already on its path and contributes nothing for a
/// function it is already visiting: `f`'s own escaping throws, then, callee
/// by callee, those of each callee that the calls let through.
pub open spec fn routes_from(
    g: CallGraphView,
    m: SignatureMapView,
    f: FunctionIdView,
    visiting: Seq<FunctionIdView>,
) -> Seq<PropagatedThrowView>
    decreases pending(g.nodes, visiting), 0nat,
{
    if visiting.contains(f) {
        Seq::empty()
    } else {
        match m.get(f) {
            None => Seq::empty(),
            Some(s) => direct_part(m, f) + if g.nodes.contains(f) {
                proof {
                    lemma_pending_push(g.nodes, visiting, f);
                }
                callee_routes(g, m, f, s, g.callees(f), visiting)
            } else {
                Seq::empty()
            },
        }
    }
}

/// The part of `routes_from` that the callees `cs` of `f` contribute.
pub open spec fn callee_routes(
    g: CallGraphView,
    m: SignatureMapView,
    f: FunctionIdView,
    s: FunctionSignatureView,
    cs: Seq<FunctionIdView>,
    visiting: Seq<FunctionIdView>,
) -> Seq<PropagatedThrowView>
    decreases pending(g.nodes, visiting.push(f)), cs.len(),
{
    if cs.len() == 0 {
        Seq::empty()
    } else {
        callee_routes(g, m, f, s, cs.drop_last(), visiting) + lift_passing(
            s,
            f,
            g.locations(f, cs.last()),
            routes_from(g, m, cs.last(), visiting.push(f)),
        )
    }
}

/// What the search keeps from call to call: the memoised results and the
/// functions whose evaluation a cycle cut short.
pub struct SearchState {
    pub memo_keys: Seq<FunctionIdView>,
    pub memo_vals: Seq<Seq<PropagatedThrowView>>,
    pub blocked: Seq<FunctionIdView>,
}

/// The state made of the given memo and cut-short list.
pub open spec fn search_state(
    memo_keys: Seq<FunctionIdView>,
    memo_vals: Seq<Seq<PropagatedThrowView>>,
    blocked: Seq<FunctionIdView>,
) -> SearchState {
    SearchState { memo_keys, memo_vals, blocked }
}

/// The position of the first memo entry for `f`.
pub open spec fn memo_index(keys: Seq<FunctionIdView>, f: FunctionIdView) -> int {
    choose|i: int| 0 <= i < keys.len() && keys[i] == f && forall|j: int| 0 <= j < i ==> keys[j] != f
}

/// One step of the memoised depth-first search for the throws escaping `f`,
/// while the functions of `inprog` are being evaluated: what it returns and
/// the state it leaves. A memoised function gives its memo entry; a function
/// being evaluated gives nothing and is marked as cut short; any other gives
/// its own escaping throws and, callee by callee, what the calls let through
/// of each callee's result. The result is memoised unless something other
/// than `f` itself was cut short below it, in which case those functions
/// are passed up.
pub open spec fn search(
    g: CallGraphView,
    m: SignatureMapView,
    f: FunctionIdView,
    inprog: Seq<FunctionIdView>,
    st: SearchState,
) -> (Seq<PropagatedThrowView>, SearchState)
    decreases pending(g.nodes, inprog), 0nat,
{
    if st.memo_keys.contains(f) {
        (st.memo_vals[memo_index(st.memo_keys, f)], st)
    } else if inprog.contains(f) {
        (Seq::empty(), search_state(st.memo_keys, st.memo_vals, st.blocked.push(f)))
    } else {
        let fresh = search_state(st.memo_keys, st.memo_vals, Seq::empty());
        let body = match m.get(f) {
            None => (Seq::empty(), fresh),
            Some(s) => if g.nodes.contains(f) {
                proof {
                    lemma_pending_push(g.nodes, inprog, f);
                }
                search_callees(g, m, f, s, g.callees(f), inprog, direct_part(m, f), fresh)
            } else {
                (direct_part(m, f), fresh)
            },
        };
        let rest = without(body.1.blocked, f);
        if rest.len() == 0 {
            (body.0, search_state(body.1.memo_keys.push(f), body.1.memo_vals.push(body.0), st.blocked))
        } else {
            (body.0, search_state(body.1.memo_keys, body.1.memo_vals, with_all(st.blocked, rest)))
        }
    }
}

/// The search through the callees `cs` of `f`, starting from the throws
/// `found` and the state `st`.
pub open spec fn search_callees(
    g: CallGraphView,
    m: SignatureMapView,
    f: FunctionIdView,
    s: FunctionSignatureView,
    cs: Seq<FunctionIdView>,
    inprog: Seq<FunctionIdView>,
    found: Seq<PropagatedThrowView>,
    st: SearchState,
) -> (Seq<PropagatedThrowView>, SearchState)
    decreases pending(g.nodes, inprog.push(f)), cs.len(),
{
    if cs.len() == 0 {
        (found, st)
    } else {
        let before = search_callees(g, m, f, s, cs.drop_last(), inprog, found, st);
        let sub = search(g, m, cs.last(), inprog.push(f), before.1);
        (before.0 + lift_passing(s, f, g.locations(f, cs.last()), sub.0), sub.1)
    }
}

/// The throws that the search from `f` with an empty memo finds.
pub open spec fn propagation(g: CallGraphView, m: SignatureMapView, f: FunctionIdView) -> Seq<PropagatedThrowView> {
    search(g, m, f, Seq::empty(), search_state(Seq::empty(), Seq::empty(), Seq::empty())).0
}

/// Every listed callee is called.
pub open spec fn callees_called(g: CallGraphView) -> bool {
    forall|x: FunctionIdView, q: int| 0 <= q < g.callees(x).len() ==> #[trigger] g.has_edge(x, g.callees(x)[q])
}

/// `visiting` holds neither `c` nor anything `c` reaches.
pub open spec fn apart(g: CallGraphView, c: FunctionIdView, visiting: Seq<FunctionIdView>) -> bool {
    forall|v: FunctionIdView| #[trigger] visiting.contains(v) ==> v != c && !g.calls_transitively(c, v)
}

proof fn lemma_apart_callee(g: CallGraphView, c: FunctionIdView, d: FunctionIdView, visiting: Seq<FunctionIdView>)
    requires
        acyclic_from(g, c),
        apart(g, c, visiting),
        g.has_edge(c, d),
    ensures
        apart(g, d, visiting.push(c)),
        acyclic_from(g, d),
{
    lemma_acyclic_callee(g, c, d);
    g.lemma_edge_calls(c, d);
    assert forall|v: FunctionIdView| #[trigger] visiting.push(c).contains(v) implies v != d && !g.calls_transitively(d, v) by {
        if v == c {
            if d == c {
            }
            if g.calls_transitively(d, c) {
                g.lemma_calls_compose(c, d, c);
            }
        } else {
            let w = choose|w: int| 0 <= w < visiting.push(c).len() && visiting.push(c)[w] == v;
            assert(visiting[w] == v);
            assert(visiting.contains(v));
            if g.calls_transitively(d, v) {
                g.lemma_calls_compose(c, d, v);
            }
        }
    }
}

/// For a function off every cycle, what the search finds does not depend
/// on the path it came by, as long as that path holds nothing it reaches.
proof fn lemma_routes_apart(g: CallGraphView, m: SignatureMapView, c: FunctionIdView, v: Seq<FunctionIdView>, w: Seq<FunctionIdView>)
    requires
        callees_called(g),
        acyclic_from(g, c),
        apart(g, c, v),
        apart(g, c, w),
    ensures
        routes_from(g, m, c, v) == routes_from(g, m, c, w),
    decreases pending(g.nodes, v), 0nat,
{
    assert(!v.contains(c));
    assert(!w.contains(c));
    match m.get(c) {
        None => {},
        Some(s) => {
            if g.nodes.contains(c) {
                lemma_pending_push(g.nodes, v, c);
                assert forall|q: int| 0 <= q < g.callees(c).len() implies #[trigger] g.has_edge(c, g.callees(c)[q]) by {}
                lemma_callee_routes_apart(g, m, c, s, g.callees(c), v, w);
            }
        },
    }
}

proof fn lemma_callee_routes_apart(
    g: CallGraphView,
    m: SignatureMapView,
    c: FunctionIdView,
    s: FunctionSignatureView,
    cs: Seq<FunctionIdView>,
    v: Seq<FunctionIdView>,
    w: Seq<FunctionIdView>,
)
    requires
        callees_called(g),
        acyclic_from(g, c),
        apart(g, c, v),
        apart(g, c, w),
        forall|q: int| 0 <= q < cs.len() ==> #[trigger] g.has_edge(c, cs[q]),
    ensures
        callee_routes(g, m, c, s, cs, v) == callee_routes(g, m, c, s, cs, w),
    decreases pending(g.nodes, v.push(c)), cs.len(),
{
    if cs.len() > 0 {
        let d = cs.last();
        assert(g.has_edge(c, cs[cs.len() - 1]));
        lemma_apart_callee(g, c, d, v);
        lemma_apart_callee(g, c, d, w);
        assert forall|q: int| 0 <= q < cs.drop_last().len() implies #[trigger] g.has_edge(c, cs.drop_last()[q]) by {
            assert(cs.drop_last()[q] == cs[q]);
        }
        lemma_callee_routes_apart(g, m, c, s, cs.drop_last(), v, w);
        lemma_routes_apart(g, m, d, v.push(c), w.push(c));
    }
}

/// Memoised results: each one sound, each one starting with the function's
/// own escaping throws.
pub open spec fn memo_ok(g: CallGraphView, m: SignatureMapView, keys: Seq<FunctionIdView>, vals: Seq<Seq<PropagatedThrowView>>) -> bool {
    &&& keys.len() == vals.len()
    &&& forall|i: int, j: int| 0 <= i < vals.len() && 0 <= j < vals[i].len() ==> valid_route(g, m, keys[i], #[trigger] vals[i][j])
    &&& forall|i: int| 0 <= i < keys.len() ==> direct_part(m, keys[i]).is_prefix_of(#[trigger] vals[i])
}

/// Memoised results for functions outside cycles are exactly what the
/// search from them finds.
pub open spec fn memo_exact(g: CallGraphView, m: SignatureMapView, keys: Seq<FunctionIdView>, vals: Seq<Seq<PropagatedThrowView>>) -> bool {
    forall|i: int| 0 <= i < keys.len() && i < vals.len() && #[trigger] acyclic_from(g, keys[i])
        ==> vals[i] == routes_from(g, m, keys[i], Seq::empty())
}

proof fn lemma_graph_callees_called(graph: &CallGraph)
    requires
        graph.wf(),
    ensures
        callees_called(graph@),
{
    assert forall|x: FunctionIdView, q: int| 0 <= q < graph@.callees(x).len() implies #[trigger] graph@.has_edge(x, graph@.callees(x)[q]) by {
        graph.lemma_callees_are_edges(x);
    }
}

/// Does a callee's escaping throw of type `et` pass one of the calls?
fn any_uncaught(sig: &FunctionSignature, locs: &Vec<Span>, et: &ErrorType) -> (r: bool)
    ensures
        r == call_escapes(sig@, locs@, et@),
{
    if locs.len() == 0 {
        return true;
    }
    let mut i: usize = 0;
    while i < locs.len()
        invariant
            i <= locs.len(),
            forall|j: int| 0 <= j < i ==> caught(ThrowSiteView { location: #[trigger] locs@[j], error_type: et@ }, sig@),
        decreases locs.len() - i,
    {
        let virtual_throw = ThrowSite { location: locs[i], error_type: et.clone() };
        if !is_caught(&virtual_throw, sig) {
            return true;
        }
        i += 1;
    }
    false
}

proof fn lemma_direct_escapes_prefix(f: FunctionIdView, sig: FunctionSignatureView, ts: Seq<ThrowSiteView>, i: int)
    requires
        0 <= i < ts.len(),
    ensures
        direct_escapes(f, sig, ts.take(i + 1)) == if escapes_directly(ts[i], sig) {
            direct_escapes(f, sig, ts.take(i)).push(origin_throw(f, ts[i]))
        } else {
            direct_escapes(f, sig, ts.take(i))
        },
{
    assert(ts.take(i + 1).drop_last() == ts.take(i));
    assert(ts.take(i + 1).last() == ts[i]);
}

proof fn lemma_direct_escapes_sound(f: FunctionIdView, sig: FunctionSignatureView, ts: Seq<ThrowSiteView>, k: int)
    requires
        0 <= k < direct_escapes(f, sig, ts).len(),
    ensures
        ts.contains(direct_escapes(f, sig, ts)[k].origin),
        escapes_directly(direct_escapes(f, sig, ts)[k].origin, sig),
        direct_escapes(f, sig, ts)[k] == origin_throw(f, direct_escapes(f, sig, ts)[k].origin),
    decreases ts.len(),
{
    let d = ts.drop_last();
    let rest = direct_escapes(f, sig, d);
    if k < rest.len() {
        lemma_direct_escapes_sound(f, sig, d, k);
        let j = choose|j: int| 0 <= j < d.len() && d[j] == rest[k].origin;
        assert(ts[j] == d[j]);
    } else {
        assert(ts[ts.len() - 1] == ts.last());
    }
}

/// Escaping throws of `func_id`. Results are memoised per function, except
/// those that a call cycle cut short: a function that is already being
/// evaluated contributes nothing on re-entry.
#[verifier::rlimit(60)]
#[verifier::spinoff_prover]
fn escaping_throws(
    func_id: &FunctionId,
    signatures: &SignatureMap,
    graph: &CallGraph,
    memo_keys: &mut Vec<FunctionId>,
    memo_vals: &mut Vec<Vec<PropagatedThrow>>,
    in_progress: &mut Vec<FunctionId>,
    blocked: &mut Vec<FunctionId>,
) -> (result: Vec<PropagatedThrow>)
    requires
        signatures.wf(),
        graph.wf(),
        memo_ok(graph@, signatures@, old(memo_keys).deep_view(), old(memo_vals).deep_view()),
        memo_complete(graph@, signatures@, old(memo_keys).deep_view(), old(memo_vals).deep_view()),
        memo_exact(graph@, signatures@, old(memo_keys).deep_view(), old(memo_vals).deep_view()),
        forall|x: FunctionIdView| old(in_progress).deep_view().contains(x) ==> graph@.calls_transitively(x, func_id@),
    ensures
        memo_ok(graph@, signatures@, final(memo_keys).deep_view(), final(memo_vals).deep_view()),
        memo_complete(graph@, signatures@, final(memo_keys).deep_view(), final(memo_vals).deep_view()),
        memo_exact(graph@, signatures@, final(memo_keys).deep_view(), final(memo_vals).deep_view()),
        acyclic_from(graph@, func_id@) ==> result.deep_view() == routes_from(graph@, signatures@, func_id@, Seq::empty()),
        acyclic_from(graph@, func_id@) && !old(in_progress).deep_view().contains(func_id@)
            ==> complete_for(graph@, signatures@, func_id@, result.deep_view()),
        final(in_progress).deep_view() == old(in_progress).deep_view(),
        search(
            graph@,
            signatures@,
            func_id@,
            old(in_progress).deep_view(),
            search_state(old(memo_keys).deep_view(), old(memo_vals).deep_view(), old(blocked).deep_view()),
        ) == (result.deep_view(), search_state(final(memo_keys).deep_view(), final(memo_vals).deep_view(), final(blocked).deep_view())),
        forall|j: int| 0 <= j < result.len() ==> valid_route(graph@, signatures@, func_id@, #[trigger] result.deep_view()[j]),
        old(memo_keys).deep_view().contains(func_id@) || !old(in_progress).deep_view().contains(func_id@)
            ==> direct_part(signatures@, func_id@).is_prefix_of(result.deep_view()),
        !old(memo_keys).deep_view().contains(func_id@) && !old(in_progress).deep_view().contains(func_id@)
            ==> forall|c: FunctionIdView, t: PropagatedThrowView|
                graph@.callees(func_id@).contains(c) && !old(in_progress).deep_view().push(func_id@).contains(c)
                && #[trigger] direct_part(signatures@, c).contains(t)
                && (signatures@.get(func_id@) matches Some(s) && call_escapes(s, graph@.locations(func_id@, c), t.error_type))
                ==> result.deep_view().contains(lifted(func_id@, t)),
    decreases pending(graph@.nodes, in_progress.deep_view()),
{
    if let Some(i) = lookup_memo(memo_keys, func_id) {
        let r = clone_propagated(&memo_vals[i]);
        assert(memo_vals.deep_view()[i as int] == memo_vals[i as int].deep_view());
        proof {
            let ks = memo_keys.deep_view();
            assert(ks.contains(func_id@));
            let w = memo_index(ks, func_id@);
            assert(0 <= w < ks.len() && ks[w] == func_id@ && forall|j: int| 0 <= j < w ==> ks[j] != func_id@);
            assert(w == i);
            if acyclic_from(graph@, func_id@) {
                assert(acyclic_from(graph@, memo_keys.deep_view()[i as int]));
            }
        }
        return r;
    }
    if lookup_memo(in_progress, func_id).is_some() {
        assert(in_progress.deep_view().contains(func_id@));
        let ghost b_before = blocked.deep_view();
        let id = func_id.clone();
        blocked.push(id);
        assert(blocked.deep_view() =~= b_before.push(func_id@));
        let r: Vec<PropagatedThrow> = Vec::new();
        assert(r.deep_view() =~= Seq::<PropagatedThrowView>::empty());
        return r;
    }
    let ghost inprog0 = in_progress.deep_view();
    let ghost m = signatures@;
    let ghost g = graph@;
    let ghost f = func_id@;
    in_progress.push(func_id.clone());
    assert(in_progress.deep_view() =~= inprog0.push(f));

    let mut result: Vec<PropagatedThrow> = Vec::new();
    let mut subtree_blocked: Vec<FunctionId> = Vec::new();
    assert(result.deep_view() =~= Seq::<PropagatedThrowView>::empty());
    let ghost entry_keys = memo_keys.deep_view();
    let ghost entry_vals = memo_vals.deep_view();
    let ghost entry_blocked = blocked.deep_view();
    let ghost fresh = search_state(entry_keys, entry_vals, Seq::empty());
    assert(subtree_blocked.deep_view() =~= Seq::<FunctionIdView>::empty());

    if let Some(sig) = signatures.get(func_id) {
        let ghost sv = sig@;
        let mut i: usize = 0;
        while i < sig.direct_throws.len()
            invariant
                sig@ == sv,
                f == func_id@,
                m == signatures@,
                g == graph@,
                m.get(f) == Some(sv),
                i <= sig.direct_throws.len(),
                result.deep_view() == direct_escapes(f, sv, sv.direct_throws.take(i as int)),
                forall|j: int| 0 <= j < result.len() ==> valid_route(g, m, f, #[trigger] result.deep_view()[j]),
            decreases sig.direct_throws.len() - i,
        {
            let throw_site = &sig.direct_throws[i];
            assert(sv.direct_throws[i as int] == throw_site@);
            proof {
                lemma_direct_escapes_prefix(f, sv, sv.direct_throws, i as int);
            }
            let skip = throw_site.error_type.is_rethrow() && is_in_catch_block(throw_site, sig);
            if !skip && !is_caught(throw_site, sig) {
                let et = throw_site.error_type.clone();
                let origin = throw_site.clone();
                let of = func_id.clone();
                let empty_path: Vec<FunctionId> = Vec::new();
                assert(empty_path.deep_view() =~= Seq::<FunctionIdView>::empty());
                let p = PropagatedThrow { error_type: et, origin, origin_function: of, path: empty_path };
                assert(p@.error_type == throw_site@.error_type);
                assert(p@.origin == throw_site@);
                assert(p@.origin_function == f);
                assert(p@.path == Seq::<FunctionIdView>::empty());
                assert(p@ == origin_throw(f, throw_site@));
                let ghost before = result.deep_view();
                result.push(p);
                proof {
                    assert(result.deep_view() =~= before.push(p@));
                    assert(sv.direct_throws.contains(throw_site@));
                    assert(valid_route(g, m, f, p@));
                }
            }
            i += 1;
        }
        assert(sv.direct_throws.take(sv.direct_throws.len() as int) == sv.direct_throws);
        let ghost direct = result.deep_view();
        assert(direct == direct_part(m, f));

        let callees = graph.get_callees(func_id);
        proof {
            graph.lemma_callees_are_edges(f);
            lemma_graph_callees_called(graph);
            assert(g.callees(f).take(0) =~= Seq::<FunctionIdView>::empty());
        }
        let mut k: usize = 0;
        while k < callees.len()
            invariant
                signatures.wf(),
                graph.wf(),
                sig@ == sv,
                f == func_id@,
                m == signatures@,
                g == graph@,
                m.get(f) == Some(sv),
                callees.deep_view() == g.callees(f),
                forall|q: int| 0 <= q < g.callees(f).len() ==> #[trigger] g.has_edge(f, g.callees(f)[q]),
                g.callees(f).len() > 0 ==> g.contains(f),
                !inprog0.contains(f),
                inprog0 == old(in_progress).deep_view(),
                in_progress.deep_view() == inprog0.push(f),
                k <= callees.len(),
                memo_ok(g, m, memo_keys.deep_view(), memo_vals.deep_view()),
                direct.is_prefix_of(result.deep_view()),
                forall|j: int| 0 <= j < result.len() ==> valid_route(g, m, f, #[trigger] result.deep_view()[j]),
                forall|q: int, t: PropagatedThrowView|
                    0 <= q < k && !inprog0.push(f).contains(g.callees(f)[q])
                    && #[trigger] direct_part(m, g.callees(f)[q]).contains(t)
                    && call_escapes(sv, g.locations(f, g.callees(f)[q]), t.error_type)
                    ==> result.deep_view().contains(lifted(f, t)),
                memo_complete(g, m, memo_keys.deep_view(), memo_vals.deep_view()),
                memo_exact(g, m, memo_keys.deep_view(), memo_vals.deep_view()),
                callees_called(g),
                acyclic_from(g, f) ==> result.deep_view() == direct + callee_routes(g, m, f, sv, g.callees(f).take(k as int), Seq::empty()),
                blocked.deep_view() == entry_blocked,
                direct == direct_part(m, f),
                search_callees(g, m, f, sv, g.callees(f).take(k as int), inprog0, direct, fresh)
                    == (result.deep_view(), search_state(memo_keys.deep_view(), memo_vals.deep_view(), subtree_blocked.deep_view())),
                forall|x: FunctionIdView| inprog0.contains(x) ==> g.calls_transitively(x, f),
                acyclic_from(g, f) ==> forall|q: int, p: PropagatedThrowView|
                    0 <= q < k && #[trigger] valid_route(g, m, g.callees(f)[q], p)
                    && call_escapes(sv, g.locations(f, g.callees(f)[q]), p.error_type)
                    ==> result.deep_view().contains(lifted(f, p)),
            decreases callees.len() - k,
        {
            let callee_id = &callees[k];
            let ghost c = callee_id@;
            assert(c == g.callees(f)[k as int]);
            proof {
                lemma_pending_push(g.nodes, inprog0, f);
                assert(g.callees(f).len() > 0);
                assert(g.contains(f));
                assert(pending(graph@.nodes, in_progress.deep_view()) < pending(graph@.nodes, inprog0));
                assert(g.has_edge(f, c));
                g.lemma_edge_calls(f, c);
                assert forall|x: FunctionIdView| in_progress.deep_view().contains(x) implies g.calls_transitively(x, c) by {
                    if x != f {
                        let w = choose|w: int| 0 <= w < in_progress.deep_view().len() && in_progress.deep_view()[w] == x;
                        assert(inprog0[w] == x);
                        assert(inprog0.contains(x));
                        g.lemma_calls_compose(x, f, c);
                    }
                }
            }
            let ghost st_before = search_state(memo_keys.deep_view(), memo_vals.deep_view(), subtree_blocked.deep_view());
            let ghost res_at_call = result.deep_view();
            let callee_throws = escaping_throws(
                callee_id,
                signatures,
                graph,
                memo_keys,
                memo_vals,
                in_progress,
                &mut subtree_blocked,
            );
            let ghost st_after = search_state(memo_keys.deep_view(), memo_vals.deep_view(), subtree_blocked.deep_view());
            assert(search(g, m, c, inprog0.push(f), st_before) == (callee_throws.deep_view(), st_after));
            let locs = graph.get_call_site_locations(func_id, callee_id);
            assert(locs@ == graph@.locations(func_id@, callee_id@));
            assert(locs@ == g.locations(f, c));
            let ghost res_before = result.deep_view();
            let mut j: usize = 0;
            assert(callee_throws.deep_view().take(0) =~= Seq::<PropagatedThrowView>::empty());
            assert(result.deep_view() =~= res_before + lift_passing(sv, f, locs@, callee_throws.deep_view().take(0)));
            while j < callee_throws.len()
                invariant
                    signatures.wf(),
                    sig@ == sv,
                    f == func_id@,
                    m == signatures@,
                    g == graph@,
                    m.get(f) == Some(sv),
                    c == callee_id@,
                    g.has_edge(f, c),
                    locs@ == g.locations(f, c),
                    j <= callee_throws.len(),
                    forall|q: int| 0 <= q < callee_throws.len() ==> valid_route(g, m, c, #[trigger] callee_throws.deep_view()[q]),
                    res_before.is_prefix_of(result.deep_view()),
                    result.deep_view() == res_before + lift_passing(sv, f, locs@, callee_throws.deep_view().take(j as int)),
                    forall|q: int| 0 <= q < result.len() ==> valid_route(g, m, f, #[trigger] result.deep_view()[q]),
                    forall|q: int| 0 <= q < j && call_escapes(sv, locs@, callee_throws.deep_view()[q].error_type)
                        ==> result.deep_view().contains(lifted(f, #[trigger] callee_throws.deep_view()[q])),
                decreases callee_throws.len() - j,
            {
                let propagated = &callee_throws[j];
                let ghost pv = propagated@;
                assert(callee_throws.deep_view()[j as int] == pv);
                if any_uncaught(sig, &locs, &propagated.error_type) {
                    let mut path: Vec<FunctionId> = Vec::new();
                    path.push(func_id.clone());
                    assert(path.deep_view() =~= seq![f]);
                    assert(seq![f] + pv.path.take(0) =~= seq![f]);
                    let mut t: usize = 0;
                    while t < propagated.path.len()
                        invariant
                            f == func_id@,
                            t <= propagated.path.len(),
                            propagated@ == pv,
                            path.deep_view() == seq![f] + pv.path.take(t as int),
                        decreases propagated.path.len() - t,
                    {
                        let ghost before = path.deep_view();
                        path.push(propagated.path[t].clone());
                        proof {
                            assert(path.deep_view() =~= before.push(pv.path[t as int]));
                            assert(pv.path.take(t + 1) == pv.path.take(t as int).push(pv.path[t as int]));
                        }
                        t += 1;
                    }
                    assert(pv.path.take(pv.path.len() as int) == pv.path);
                    let p = PropagatedThrow {
                        error_type: propagated.error_type.clone(),
                        origin: propagated.origin.clone(),
                        origin_function: propagated.origin_function.clone(),
                        path,
                    };
                    assert(p@ == lifted(f, pv));
                    let ghost before = result.deep_view();
                    result.push(p);
                    proof {
                        assert(result.deep_view() =~= before.push(p@));
                        assert(result.deep_view()[before.len() as int] == p@);
                        assert(before.is_prefix_of(result.deep_view()));
                        let lp = lifted(f, pv);
                        assert(lp.path.drop_first() =~= pv.path);
                        assert(PropagatedThrowView { path: lp.path.drop_first(), ..lp } == pv);
                        if pv.path.len() == 0 {
                            assert(pv.origin_function == c);
                        } else {
                            assert(pv.path[0] == c);
                            assert(lp.path[1] == pv.path[0]);
                        }
                        assert(valid_route(g, m, f, lp));
                        assert forall|q: int| 0 <= q < result.len() implies valid_route(g, m, f, #[trigger] result.deep_view()[q]) by {
                            if q < before.len() {
                                assert(result.deep_view()[q] == before[q]);
                            }
                        }
                        assert forall|q: int| 0 <= q < j + 1 && call_escapes(sv, locs@, callee_throws.deep_view()[q].error_type)
                            implies result.deep_view().contains(lifted(f, #[trigger] callee_throws.deep_view()[q])) by {
                            if q < j {
                                let w = choose|w: int| 0 <= w < before.len() && before[w] == lifted(f, callee_throws.deep_view()[q]);
                                assert(result.deep_view()[w] == before[w]);
                            }
                        }
                    }
                }
                proof {
                    let ct = callee_throws.deep_view();
                    assert(ct.take(j + 1).drop_last() =~= ct.take(j as int));
                    assert(ct.take(j + 1).last() == pv);
                    assert(result.deep_view() =~= res_before + lift_passing(sv, f, locs@, ct.take(j + 1)));
                }
                j += 1;
            }
            proof {
                let ct = callee_throws.deep_view();
                assert(ct.take(ct.len() as int) =~= ct);
                assert(st_after == search_state(memo_keys.deep_view(), memo_vals.deep_view(), subtree_blocked.deep_view()));
                let cs1 = g.callees(f).take(k + 1);
                assert(cs1.drop_last() =~= g.callees(f).take(k as int));
                assert(cs1.last() == c);
                assert(res_at_call == res_before);
                assert(search_callees(g, m, f, sv, cs1, inprog0, direct, fresh)
                    == (result.deep_view(), search_state(memo_keys.deep_view(), memo_vals.deep_view(), subtree_blocked.deep_view())));
                if acyclic_from(g, f) {
                    lemma_apart_callee(g, f, c, Seq::empty());
                    assert(Seq::<FunctionIdView>::empty().push(f) =~= seq![f]);
                    assert(apart(g, c, Seq::<FunctionIdView>::empty()));
                    lemma_routes_apart(g, m, c, Seq::<FunctionIdView>::empty().push(f), Seq::empty());
                    let cs1 = g.callees(f).take(k + 1);
                    assert(cs1.drop_last() =~= g.callees(f).take(k as int));
                    assert(cs1.last() == c);
                    assert(result.deep_view() =~= direct + callee_routes(g, m, f, sv, cs1, Seq::empty()));
                }
                assert forall|q: int, t: PropagatedThrowView|
                    0 <= q < k + 1 && !inprog0.push(f).contains(g.callees(f)[q])
                    && #[trigger] direct_part(m, g.callees(f)[q]).contains(t)
                    && call_escapes(sv, g.locations(f, g.callees(f)[q]), t.error_type)
                    implies result.deep_view().contains(lifted(f, t)) by {
                    if q < k {
                        let w = choose|w: int| 0 <= w < res_before.len() && res_before[w] == lifted(f, t);
                        assert(result.deep_view()[w] == res_before[w]);
                    } else {
                        let dp = direct_part(m, c);
                        assert(dp.is_prefix_of(callee_throws.deep_view()));
                        let w = choose|w: int| 0 <= w < dp.len() && dp[w] == t;
                        assert(callee_throws.deep_view()[w] == t);
                    }
                }
                if acyclic_from(g, f) {
                    lemma_acyclic_callee(g, f, c);
                    assert(!inprog0.push(f).contains(c)) by {
                        g.lemma_edge_calls(f, c);
                        if c == f {
                        } else if inprog0.push(f).contains(c) {
                            let w = choose|w: int| 0 <= w < inprog0.push(f).len() && inprog0.push(f)[w] == c;
                            assert(inprog0[w] == c);
                            g.lemma_calls_compose(c, f, c);
                        }
                    }
                    assert forall|q: int, p: PropagatedThrowView|
                        0 <= q < k + 1 && #[trigger] valid_route(g, m, g.callees(f)[q], p)
                        && call_escapes(sv, g.locations(f, g.callees(f)[q]), p.error_type)
                        implies result.deep_view().contains(lifted(f, p)) by {
                        if q < k {
                            let w = choose|w: int| 0 <= w < res_before.len() && res_before[w] == lifted(f, p);
                            assert(result.deep_view()[w] == res_before[w]);
                        } else {
                            assert(complete_for(g, m, c, callee_throws.deep_view()));
                            let w = choose|w: int| 0 <= w < callee_throws.deep_view().len() && callee_throws.deep_view()[w] == p;
                            assert(call_escapes(sv, locs@, callee_throws.deep_view()[w].error_type));
                        }
                    }
                }
            }
            k += 1;
        }
        proof {
            assert forall|c: FunctionIdView, t: PropagatedThrowView|
                g.callees(f).contains(c) && !inprog0.push(f).contains(c)
                && #[trigger] direct_part(m, c).contains(t)
                && (m.get(f) matches Some(s) && call_escapes(s, g.locations(f, c), t.error_type))
                implies result.deep_view().contains(lifted(f, t)) by {
                let q = choose|q: int| 0 <= q < g.callees(f).len() && g.callees(f)[q] == c;
            }
            if acyclic_from(g, f) {
                assert(g.callees(f).take(g.callees(f).len() as int) =~= g.callees(f));
                if !g.nodes.contains(f) {
                    assert(g.callees(f).len() == 0);
                    assert(callee_routes(g, m, f, sv, g.callees(f), Seq::empty()) =~= Seq::<PropagatedThrowView>::empty());
                }
                assert(result.deep_view() =~= routes_from(g, m, f, Seq::empty()));
                graph.lemma_node_count();
                assert forall|p: PropagatedThrowView| #[trigger] valid_route(g, m, f, p) implies result.deep_view().contains(p) by {
                    if p.path.len() == 0 {
                        lemma_direct_escapes_complete(f, sv, sv.direct_throws, p.origin);
                        assert(p.path =~= Seq::<FunctionIdView>::empty());
                        assert(p == origin_throw(f, p.origin));
                        let w = choose|w: int| 0 <= w < direct.len() && direct[w] == p;
                        assert(result.deep_view()[w] == direct[w]);
                    } else {
                        let next = if p.path.len() == 1 {
                            p.origin_function
                        } else {
                            p.path[1]
                        };
                        g.lemma_edges_are_callees(f, next);
                        let q = choose|q: int| 0 <= q < g.callees(f).len() && g.callees(f)[q] == next;
                        let p2 = PropagatedThrowView { path: p.path.drop_first(), ..p };
                        assert(valid_route(g, m, g.callees(f)[q], p2));
                        assert(lifted(f, p2).path =~= p.path);
                        assert(lifted(f, p2) == p);
                    }
                }
            }
        }
        proof {
            assert(g.callees(f).take(g.callees(f).len() as int) =~= g.callees(f));
            if !g.nodes.contains(f) {
                assert(g.callees(f).len() == 0);
            }
        }
    } else {
        proof {
            assert(direct_part(m, f) =~= Seq::<PropagatedThrowView>::empty());
            assert forall|c: FunctionIdView, t: PropagatedThrowView|
                g.callees(f).contains(c) && !inprog0.push(f).contains(c)
                && #[trigger] direct_part(m, c).contains(t)
                && (m.get(f) matches Some(s) && call_escapes(s, g.locations(f, c), t.error_type))
                implies result.deep_view().contains(lifted(f, t)) by {
            }
        }
    }

    let ghost body = match m.get(f) {
        None => (Seq::<PropagatedThrowView>::empty(), fresh),
        Some(s) => if g.nodes.contains(f) {
            search_callees(g, m, f, s, g.callees(f), inprog0, direct_part(m, f), fresh)
        } else {
            (direct_part(m, f), fresh)
        },
    };
    assert(body == (result.deep_view(), search_state(memo_keys.deep_view(), memo_vals.deep_view(), subtree_blocked.deep_view())));
    assert(blocked.deep_view() == entry_blocked);
    let ghost popped = in_progress.deep_view();
    let ghost popped_vec = in_progress@;
    in_progress.pop();
    assert(in_progress@ == popped_vec.drop_last());
    assert(in_progress.deep_view() =~= inprog0) by {
        assert(popped == inprog0.push(f));
        assert forall|q: int| 0 <= q < in_progress.deep_view().len() implies in_progress.deep_view()[q] == inprog0[q] by {
            assert(in_progress.deep_view()[q] == popped[q]);
        }
    }
    remove_all(&mut subtree_blocked, func_id);
    if subtree_blocked.len() == 0 {
        let ghost keys0 = memo_keys.deep_view();
        let ghost vals0 = memo_vals.deep_view();
        memo_keys.push(func_id.clone());
        memo_vals.push(clone_propagated(&result));
        proof {
            assert(memo_keys.deep_view() =~= keys0.push(f));
            assert(memo_vals.deep_view() =~= vals0.push(result.deep_view()));
            assert forall|i: int, j: int| 0 <= i < memo_vals.deep_view().len() && 0 <= j < memo_vals.deep_view()[i].len()
                implies valid_route(g, m, memo_keys.deep_view()[i], #[trigger] memo_vals.deep_view()[i][j]) by {
                if i < vals0.len() {
                    assert(memo_vals.deep_view()[i] == vals0[i]);
                    assert(memo_keys.deep_view()[i] == keys0[i]);
                }
            }
            assert forall|i: int| 0 <= i < memo_keys.deep_view().len()
                implies direct_part(m, memo_keys.deep_view()[i]).is_prefix_of(#[trigger] memo_vals.deep_view()[i]) by {
                if i < vals0.len() {
                    assert(memo_vals.deep_view()[i] == vals0[i]);
                    assert(memo_keys.deep_view()[i] == keys0[i]);
                }
            }
            assert forall|i: int| 0 <= i < memo_keys.deep_view().len() && i < memo_vals.deep_view().len()
                && #[trigger] acyclic_from(g, memo_keys.deep_view()[i])
                implies memo_vals.deep_view()[i] == routes_from(g, m, memo_keys.deep_view()[i], Seq::empty()) by {
                if i < vals0.len() {
                    assert(memo_vals.deep_view()[i] == vals0[i]);
                    assert(memo_keys.deep_view()[i] == keys0[i]);
                    assert(acyclic_from(g, keys0[i]));
                }
            }
            assert forall|i: int| 0 <= i < memo_keys.deep_view().len() && i < memo_vals.deep_view().len()
                && #[trigger] acyclic_from(g, memo_keys.deep_view()[i])
                implies complete_for(g, m, memo_keys.deep_view()[i], memo_vals.deep_view()[i]) by {
                if i < vals0.len() {
                    assert(memo_vals.deep_view()[i] == vals0[i]);
                    assert(memo_keys.deep_view()[i] == keys0[i]);
                    assert(acyclic_from(g, keys0[i]));
                }
            }
        }
    } else {
        add_all(blocked, &subtree_blocked);
    }
    result
}

/// The throws that escape `func_id`, each with the chain of calls it
/// travels. The function's own escaping throws come first, in source
/// order; every listed throw follows a real chain of calls; every
/// escaping throw of a directly called function (other than `func_id`
/// itself) that one of the calls lets through is listed with the path
/// `[func_id]`; and when no function that `func_id` reaches lies on a
/// cycle of calls, the list is exactly what a depth-first search from
/// `func_id` finds, callee by callee (`routes_from`), which is every way out
/// of `func_id`. In every case the list is exactly `propagation`: the
/// memoised search that cuts off a re-entry into a function it is still
/// evaluating and keeps everything else it finds.
pub fn compute_propagated_throws(func_id: &FunctionId, signatures: &SignatureMap, graph: &CallGraph) -> (result: Vec<PropagatedThrow>)
    requires
        signatures.wf(),
        graph.wf(),
    ensures
        forall|j: int| 0 <= j < result.len() ==> valid_route(graph@, signatures@, func_id@, #[trigger] result.deep_view()[j]),
        direct_part(signatures@, func_id@).is_prefix_of(result.deep_view()),
        forall|c: FunctionIdView, t: PropagatedThrowView|
            graph@.callees(func_id@).contains(c) && c != func_id@
            && #[trigger] direct_part(signatures@, c).contains(t)
            && (signatures@.get(func_id@) matches Some(s) && call_escapes(s, graph@.locations(func_id@, c), t.error_type))
            ==> result.deep_view().contains(lifted(func_id@, t)),
        acyclic_from(graph@, func_id@) ==> complete_for(graph@, signatures@, func_id@, result.deep_view()),
        acyclic_from(graph@, func_id@) ==> result.deep_view() == routes_from(graph@, signatures@, func_id@, Seq::empty()),
        result.deep_view() == propagation(graph@, signatures@, func_id@),
{
    let mut memo_keys: Vec<FunctionId> = Vec::new();
    let mut memo_vals: Vec<Vec<PropagatedThrow>> = Vec::new();
    let mut in_progress: Vec<FunctionId> = Vec::new();
    let mut blocked: Vec<FunctionId> = Vec::new();
    assert(memo_keys.deep_view() =~= Seq::<FunctionIdView>::empty());
    assert(memo_vals.deep_view() =~= Seq::<Seq<PropagatedThrowView>>::empty());
    assert(in_progress.deep_view() =~= Seq::<FunctionIdView>::empty());
    assert(blocked.deep_view() =~= Seq::<FunctionIdView>::empty());
    let r = escaping_throws(func_id, signatures, graph, &mut memo_keys, &mut memo_vals, &mut in_progress, &mut blocked);
    proof {
        assert forall|c: FunctionIdView| c != func_id@ implies !Seq::<FunctionIdView>::empty().push(func_id@).contains(c) by {
            if Seq::<FunctionIdView>::empty().push(func_id@).contains(c) {
                let j = choose|j: int| 0 <= j < 1 && Seq::<FunctionIdView>::empty().push(func_id@)[j] == c;
            }
        }
    }
    r
}


// ---------------------------------------------------------------------------
// Laws
// ---------------------------------------------------------------------------
/// A throw that a `try`/`catch` block of its own function catches never
/// leaves that function directly.
pub proof fn law_caught_throw_stays(m: SignatureMapView, f: FunctionIdView, p: PropagatedThrowView)
    requires
        direct_part(m, f).contains(p),
    ensures
        m.get(f) matches Some(s) && s.direct_throws.contains(p.origin) && !caught(p.origin, s),
        p.path.len() == 0,
        p.origin_function == f,
{
    match m.get(f) {
        Some(s) => lemma_direct_escapes_members(f, s, s.direct_throws, p),
        None => {},
    }
}

proof fn lemma_direct_escapes_members(f: FunctionIdView, s: FunctionSignatureView, ts: Seq<ThrowSiteView>, p: PropagatedThrowView)
    requires
        direct_escapes(f, s, ts).contains(p),
    ensures
        ts.contains(p.origin),
        escapes_directly(p.origin, s),
        p == origin_throw(f, p.origin),
    decreases ts.len(),
{
    if ts.len() > 0 {
        let rest = direct_escapes(f, s, ts.drop_last());
        let k = choose|k: int| 0 <= k < direct_escapes(f, s, ts).len() && direct_escapes(f, s, ts)[k] == p;
        if escapes_directly(ts.last(), s) && k == rest.len() {
            assert(ts[ts.len() - 1] == ts.last());
        } else {
            assert(rest[k] == p);
            lemma_direct_escapes_members(f, s, ts.drop_last(), p);
            let j = choose|j: int| 0 <= j < ts.drop_last().len() && ts.drop_last()[j] == p.origin;
            assert(ts[j] == p.origin);
        }
    }
}

/// A rethrow inside a `catch` clause is never caught by its own function.
pub proof fn law_rethrow_is_never_caught(t: ThrowSiteView, s: FunctionSignatureView)
    requires
        t.error_type is Rethrow,
    ensures
        !caught(t, s),
{
}

/// Propagation is transitive: a way out of a callee is a way out of every
/// caller whose handlers let its type through at the call.
pub proof fn law_callee_throws_reach_caller(
    g: CallGraphView,
    m: SignatureMapView,
    f: FunctionIdView,
    c: FunctionIdView,
    p: PropagatedThrowView,
)
    requires
        valid_route(g, m, c, p),
        g.has_edge(f, c),
        m.get(f) matches Some(s) && call_escapes(s, g.locations(f, c), p.error_type),
    ensures
        valid_route(g, m, f, lifted(f, p)),
{
    let q = lifted(f, p);
    assert(q.path.drop_first() =~= p.path);
    assert(PropagatedThrowView { path: q.path.drop_first(), ..q } == p);
    if p.path.len() == 0 {
        assert(q.path.len() == 1);
    } else {
        assert(q.path[1] == p.path[0]);
    }
}

/// A throw keeps its type along its whole way out.
pub proof fn law_route_keeps_type(g: CallGraphView, m: SignatureMapView, f: FunctionIdView, p: PropagatedThrowView)
    requires
        valid_route(g, m, f, p),
    ensures
        p.error_type == p.origin.error_type,
    decreases p.path.len(),
{
    if p.path.len() > 0 {
        let next = if p.path.len() == 1 {
            p.origin_function
        } else {
            p.path[1]
        };
        law_route_keeps_type(g, m, next, PropagatedThrowView { path: p.path.drop_first(), ..p });
    }
}

} // verus!
