//! The fixed orders in which an analysis lists what a cached finding depends
//! on: the call edges reachable from a function, the method signatures and
//! the type relations, each sorted by a key of texts and numbers.
use crate::analyzer::slashed;
use crate::call_graph::{CallGraph, CallGraphView};
use crate::ordering::{lemma_map_to_multiset, key_sorted, sort_by_keys, sorted_by, KeyPart, KeyPartView};
use crate::text::string_chars;
use crate::types::{
    FunctionId, FunctionIdView, MethodSignature, MethodSignatureView, RelationKind, Span,
    TypeIdView, TypeRelation, TypeRelationView,
};
use vstd::prelude::*;

verus! {

broadcast use {vstd::string::group_string_axioms, crate::char_vec::lemma_char_vec_deep_view};

// ---------------------------------------------------------------------------
// Keys
// ---------------------------------------------------------------------------
pub open spec fn text_part(t: Seq<char>) -> KeyPartView {
    KeyPartView::Text(t)
}

pub open spec fn num_part(n: u32) -> KeyPartView {
    KeyPartView::Num(n as int)
}

/// A function is ordered by file (with `/` for `\`), name, span start and end.
pub open spec fn id_key(id: FunctionIdView) -> Seq<KeyPartView> {
    seq![text_part(slashed(id.file_path)), text_part(id.name), num_part(id.span.start), num_part(id.span.end)]
}

/// A type is ordered as a function is.
pub open spec fn type_key(t: TypeIdView) -> Seq<KeyPartView> {
    seq![text_part(slashed(t.file_path)), text_part(t.name), num_part(t.span.start), num_part(t.span.end)]
}

pub open spec fn span_key(s: Span) -> Seq<KeyPartView> {
    seq![num_part(s.start), num_part(s.end)]
}

/// A list of spans is ordered span by span, each by start and end.
pub open spec fn spans_key(s: Seq<Span>) -> Seq<KeyPartView>
    decreases s.len(),
{
    if s.len() == 0 {
        Seq::empty()
    } else {
        spans_key(s.drop_last()) + span_key(s.last())
    }
}

/// The name a relation kind is written with.
pub open spec fn kind_name(k: RelationKind) -> Seq<char> {
    match k {
        RelationKind::Implements => seq!['I', 'm', 'p', 'l', 'e', 'm', 'e', 'n', 't', 's'],
        RelationKind::Extends => seq!['E', 'x', 't', 'e', 'n', 'd', 's'],
    }
}

pub open spec fn method_key(m: MethodSignatureView) -> Seq<KeyPartView> {
    type_key(m.type_id) + seq![text_part(m.method_name), num_part(m.method_span.start), num_part(m.method_span.end)]
}

pub open spec fn relation_key(r: TypeRelationView) -> Seq<KeyPartView> {
    type_key(r.child) + type_key(r.parent) + seq![text_part(kind_name(r.kind))]
}

fn push_location_key(out: &mut Vec<KeyPart>, file_path: &String, name: &String, span: Span)
    ensures
        final(out).deep_view() == old(out).deep_view() + seq![
            text_part(slashed(file_path@)),
            text_part(name@),
            num_part(span.start),
            num_part(span.end),
        ],
{
    let ghost o = out.deep_view();
    out.push(KeyPart::Text(crate::analyzer::slashed_exec(file_path)));
    out.push(KeyPart::Text(string_chars(name)));
    out.push(KeyPart::Num(span.start as u64));
    out.push(KeyPart::Num(span.end as u64));
    assert(out.deep_view() =~= o + seq![
        text_part(slashed(file_path@)),
        text_part(name@),
        num_part(span.start),
        num_part(span.end),
    ]);
}

fn push_span_key(out: &mut Vec<KeyPart>, s: Span)
    ensures
        final(out).deep_view() == old(out).deep_view() + span_key(s),
{
    let ghost o = out.deep_view();
    out.push(KeyPart::Num(s.start as u64));
    out.push(KeyPart::Num(s.end as u64));
    assert(out.deep_view() =~= o + span_key(s));
}

// ---------------------------------------------------------------------------
// Sorted lists
// ---------------------------------------------------------------------------
fn method_key_exec(m: &MethodSignature) -> (r: Vec<KeyPart>)
    ensures
        r.deep_view() == method_key(m@),
{
    let name_part = KeyPart::Text(string_chars(&m.method_name));
    let mut out: Vec<KeyPart> = Vec::new();
    push_location_key(&mut out, &m.type_id.file_path, &m.type_id.name, m.type_id.span);
    out.push(name_part);
    push_span_key(&mut out, m.method_span);
    assert(out.deep_view() =~= method_key(m@));
    out
}

/// The method signatures, ordered by type (file, name, span), then method
/// name and span.
pub fn sort_method_signatures(methods: Vec<MethodSignature>) -> (r: Vec<MethodSignature>)
    ensures
        r@.to_multiset() == methods@.to_multiset(),
        sorted_by(r@, |m: MethodSignature| method_key(m@)),
        r@ == key_sorted(methods@, |m: MethodSignature| method_key(m@)),
{
    let mut keys: Vec<Vec<KeyPart>> = Vec::new();
    let mut i: usize = 0;
    while i < methods.len()
        invariant
            i <= methods.len(),
            keys.len() == i,
            forall|j: int| 0 <= j < i ==> #[trigger] keys[j].deep_view() == method_key(methods[j]@),
        decreases methods.len() - i,
    {
        keys.push(method_key_exec(&methods[i]));
        i += 1;
    }
    sort_by_keys(methods, keys, Ghost(|m: MethodSignature| method_key(m@)))
}

fn relation_key_exec(t: &TypeRelation) -> (r: Vec<KeyPart>)
    ensures
        r.deep_view() == relation_key(t@),
{
    let mut out: Vec<KeyPart> = Vec::new();
    push_location_key(&mut out, &t.child.file_path, &t.child.name, t.child.span);
    push_location_key(&mut out, &t.parent.file_path, &t.parent.name, t.parent.span);
    let ghost o = out.deep_view();
    let name = match t.kind {
        RelationKind::Implements => crate::text::chars_of("Implements"),
        RelationKind::Extends => crate::text::chars_of("Extends"),
    };
    proof {
        reveal_strlit("Implements");
        reveal_strlit("Extends");
    }
    assert(name@ =~= kind_name(t.kind));
    out.push(KeyPart::Text(name));
    assert(out.deep_view() =~= relation_key(t@));
    out
}

/// The type relations, ordered by child type, parent type, then kind name.
pub fn sort_type_relations(relations: Vec<TypeRelation>) -> (r: Vec<TypeRelation>)
    ensures
        r@.to_multiset() == relations@.to_multiset(),
        sorted_by(r@, |t: TypeRelation| relation_key(t@)),
        r@ == key_sorted(relations@, |t: TypeRelation| relation_key(t@)),
{
    let mut keys: Vec<Vec<KeyPart>> = Vec::new();
    let mut i: usize = 0;
    while i < relations.len()
        invariant
            i <= relations.len(),
            keys.len() == i,
            forall|j: int| 0 <= j < i ==> #[trigger] keys[j].deep_view() == relation_key(relations[j]@),
        decreases relations.len() - i,
    {
        keys.push(relation_key_exec(&relations[i]));
        i += 1;
    }
    sort_by_keys(relations, keys, Ghost(|t: TypeRelation| relation_key(t@)))
}

/// Spans ordered by start, then end.
pub fn sort_spans(spans: Vec<Span>) -> (r: Vec<Span>)
    ensures
        r@.to_multiset() == spans@.to_multiset(),
        sorted_by(r@, |s: Span| span_key(s)),
        r@ == key_sorted(spans@, |s: Span| span_key(s)),
{
    let mut keys: Vec<Vec<KeyPart>> = Vec::new();
    let mut i: usize = 0;
    while i < spans.len()
        invariant
            i <= spans.len(),
            keys.len() == i,
            forall|j: int| 0 <= j < i ==> #[trigger] keys[j].deep_view() == span_key(spans[j]),
        decreases spans.len() - i,
    {
        let mut k: Vec<KeyPart> = Vec::new();
        push_span_key(&mut k, spans[i]);
        assert(k.deep_view() =~= span_key(spans[i as int]));
        keys.push(k);
        i += 1;
    }
    sort_by_keys(spans, keys, Ghost(|s: Span| span_key(s)))
}

// ---------------------------------------------------------------------------
// The call edges a function reaches
// ---------------------------------------------------------------------------
/// A call edge with the places its calls are made at.
pub struct CallEdge {
    pub caller: FunctionId,
    pub callee: FunctionId,
    pub locations: Vec<Span>,
}

pub struct CallEdgeView {
    pub caller: FunctionIdView,
    pub callee: FunctionIdView,
    pub locations: Seq<Span>,
}

impl View for CallEdge {
    type V = CallEdgeView;

    open spec fn view(&self) -> CallEdgeView {
        CallEdgeView { caller: self.caller@, callee: self.callee@, locations: self.locations@ }
    }
}

/// Edges are ordered by caller, callee, then their list of locations.
pub open spec fn edge_key(e: CallEdgeView) -> Seq<KeyPartView> {
    id_key(e.caller) + id_key(e.callee) + spans_key(e.locations)
}

/// The caller and callee of each edge.
pub open spec fn edge_pairs(s: Seq<CallEdge>) -> Seq<(FunctionIdView, FunctionIdView)> {
    s.map_values(|e: CallEdge| (e.caller@, e.callee@))
}

/// The calls made by each of `callers`, in order, as caller and callee.
pub open spec fn call_pairs(g: CallGraphView, callers: Seq<FunctionIdView>) -> Seq<(FunctionIdView, FunctionIdView)>
    decreases callers.len(),
{
    if callers.len() == 0 {
        Seq::empty()
    } else {
        let a = callers.last();
        call_pairs(g, callers.drop_last()) + g.callees(a).map_values(|b: FunctionIdView| (a, b))
    }
}

/// `callers` lists `f`, then every function that `f` reaches, each once.
pub open spec fn reach_list(g: CallGraphView, f: FunctionIdView, callers: Seq<FunctionIdView>) -> bool {
    &&& callers.len() >= 1
    &&& callers[0] == f
    &&& callers.drop_first().no_duplicates()
    &&& forall|id: FunctionIdView| #[trigger] callers.drop_first().contains(id) <==> g.calls_transitively(f, id)
}

/// An edge whose locations are those the graph records for it, sorted.
pub open spec fn edge_fits(g: CallGraphView, e: CallEdge) -> bool {
    &&& e.locations@.to_multiset() == g.locations(e.caller@, e.callee@).to_multiset()
    &&& sorted_by(e.locations@, |s: Span| span_key(s))
}

fn edge_key_exec(e: &CallEdge) -> (r: Vec<KeyPart>)
    ensures
        r.deep_view() == edge_key(e@),
{
    let mut out: Vec<KeyPart> = Vec::new();
    push_location_key(&mut out, &e.caller.file_path, &e.caller.name, e.caller.span);
    push_location_key(&mut out, &e.callee.file_path, &e.callee.name, e.callee.span);
    let ghost head = out.deep_view();
    assert(head =~= id_key(e.caller@) + id_key(e.callee@));
    let mut i: usize = 0;
    assert(e.locations@.take(0) =~= Seq::<Span>::empty());
    assert(out.deep_view() =~= head + spans_key(e.locations@.take(0)));
    while i < e.locations.len()
        invariant
            i <= e.locations.len(),
            out.deep_view() == head + spans_key(e.locations@.take(i as int)),
        decreases e.locations.len() - i,
    {
        push_span_key(&mut out, e.locations[i]);
        assert(e.locations@.take(i + 1).drop_last() =~= e.locations@.take(i as int));
        assert(out.deep_view() =~= head + spans_key(e.locations@.take(i + 1)));
        i += 1;
    }
    assert(e.locations@.take(e.locations.len() as int) =~= e.locations@);
    out
}

/// Every call edge that `func_id` reaches, its own and those of every
/// function it calls directly or not, with their locations sorted; ordered
/// by caller, callee and locations. The edges of `func_id` come twice when
/// it reaches itself, as they do for a search that starts from it and
/// visits it again.
pub fn sorted_reachable_call_edges(graph: &CallGraph, func_id: &FunctionId) -> (r: Vec<CallEdge>)
    requires
        graph.wf(),
    ensures
        sorted_by(r@, |e: CallEdge| edge_key(e@)),
        forall|k: int| 0 <= k < r.len() ==> edge_fits(graph@, #[trigger] r@[k]),
        exists|c: Seq<FunctionIdView>| #[trigger] reach_list(graph@, func_id@, c)
            && call_pairs(graph@, c).to_multiset() == edge_pairs(r@).to_multiset(),
{
    let ghost g = graph@;
    let reached = graph.get_transitive_callees(func_id);
    let mut callers: Vec<FunctionId> = Vec::new();
    callers.push(func_id.clone());
    let mut i: usize = 0;
    while i < reached.len()
        invariant
            i <= reached.len(),
            callers.deep_view() == seq![func_id@] + reached.deep_view().take(i as int),
        decreases reached.len() - i,
    {
        let ghost before = callers.deep_view();
        callers.push(reached[i].clone());
        assert(callers.deep_view() =~= before.push(reached[i as int]@));
        assert(reached.deep_view().take(i + 1) =~= reached.deep_view().take(i as int).push(reached[i as int]@));
        assert(callers.deep_view() =~= seq![func_id@] + reached.deep_view().take(i + 1));
        i += 1;
    }
    let ghost c = callers.deep_view();
    proof {
        assert(reached.deep_view().take(reached.len() as int) =~= reached.deep_view());
        assert(c.drop_first() =~= reached.deep_view());
        assert(reach_list(g, func_id@, c));
    }
    let mut edges: Vec<CallEdge> = Vec::new();
    let mut keys: Vec<Vec<KeyPart>> = Vec::new();
    let mut i: usize = 0;
    assert(c.take(0) =~= Seq::<FunctionIdView>::empty());
    assert(edge_pairs(edges@) =~= call_pairs(g, c.take(0)));
    while i < callers.len()
        invariant
            graph.wf(),
            g == graph@,
            c == callers.deep_view(),
            i <= callers.len(),
            edges.len() == keys.len(),
            forall|k: int| 0 <= k < edges.len() ==> #[trigger] keys[k].deep_view() == edge_key(edges[k]@),
            forall|k: int| 0 <= k < edges.len() ==> edge_fits(g, #[trigger] edges@[k]),
            edge_pairs(edges@) == call_pairs(g, c.take(i as int)),
        decreases callers.len() - i,
    {
        let cs = graph.get_callees(&callers[i]);
        let ghost a = c[i as int];
        assert(callers[i as int]@ == a);
        let ghost base = edge_pairs(edges@);
        let mut j: usize = 0;
        assert(cs.deep_view().take(0).map_values(|b: FunctionIdView| (a, b)) =~= Seq::<(FunctionIdView, FunctionIdView)>::empty());
        assert(edge_pairs(edges@) =~= base + cs.deep_view().take(0).map_values(|b: FunctionIdView| (a, b)));
        while j < cs.len()
            invariant
                graph.wf(),
                g == graph@,
                c == callers.deep_view(),
                i < callers.len(),
                a == callers[i as int]@,
                j <= cs.len(),
                edges.len() == keys.len(),
                forall|k: int| 0 <= k < edges.len() ==> #[trigger] keys[k].deep_view() == edge_key(edges[k]@),
                forall|k: int| 0 <= k < edges.len() ==> edge_fits(g, #[trigger] edges@[k]),
                edge_pairs(edges@) == base + cs.deep_view().take(j as int).map_values(|b: FunctionIdView| (a, b)),
            decreases cs.len() - j,
        {
            let locations = graph.get_call_site_locations(&callers[i], &cs[j]);
            let locations = sort_spans(locations);
            let e = CallEdge { caller: callers[i].clone(), callee: cs[j].clone(), locations };
            let k = edge_key_exec(&e);
            let ghost before = edges@;
            keys.push(k);
            edges.push(e);
            proof {
                assert(edges@ == before.push(e));
                assert(edge_fits(g, e));
                assert forall|q: int| 0 <= q < edges.len() implies edge_fits(g, #[trigger] edges@[q]) by {
                    if q < before.len() {
                        assert(edges@[q] == before[q]);
                    }
                }
                assert(edge_pairs(edges@) =~= edge_pairs(before).push((a, cs[j as int]@)));
                assert(cs.deep_view().take(j + 1) =~= cs.deep_view().take(j as int).push(cs[j as int]@));
                assert(cs.deep_view().take(j + 1).map_values(|b: FunctionIdView| (a, b))
                    =~= cs.deep_view().take(j as int).map_values(|b: FunctionIdView| (a, b)).push((a, cs[j as int]@)));
                assert(edge_pairs(edges@) =~= base + cs.deep_view().take(j + 1).map_values(|b: FunctionIdView| (a, b)));
            }
            j += 1;
        }
        proof {
            assert(cs.deep_view().take(cs.len() as int) =~= cs.deep_view());
            assert(c.take(i + 1).drop_last() =~= c.take(i as int));
            assert(c.take(i + 1).last() == a);
            assert(edge_pairs(edges@) == call_pairs(g, c.take(i + 1)));
        }
        i += 1;
    }
    assert(c.take(callers.len() as int) =~= c);
    let ghost pre = edges@;
    let r = sort_by_keys(edges, keys, Ghost(|e: CallEdge| edge_key(e@)));
    proof {
        let f = |e: CallEdge| (e.caller@, e.callee@);
        lemma_map_to_multiset(r@, pre, f);
        assert(edge_pairs(r@) =~= r@.map_values(f));
        assert(edge_pairs(pre) =~= pre.map_values(f));
        assert forall|k: int| 0 <= k < r.len() implies edge_fits(g, #[trigger] r@[k]) by {
            vstd::seq_lib::to_multiset_contains(r@, r@[k]);
            vstd::seq_lib::to_multiset_contains(pre, r@[k]);
            assert(r@.contains(r@[k]));
            let q = choose|q: int| 0 <= q < pre.len() && pre[q] == r@[k];
            assert(edge_fits(g, pre[q]));
        }
        assert(reach_list(g, func_id@, c));
    }
    r
}

} // verus!
