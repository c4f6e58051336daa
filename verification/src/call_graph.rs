//! The call graph: functions as nodes, "calls" as edges, and the source
//! locations of the calls behind each edge. The edges live in a `petgraph`
//! directed graph; the functions and the call locations live beside it.
use crate::types::{FunctionId, FunctionIdView, Span};
use petgraph::graph::{Graph, NodeIndex};
use petgraph::Directed;
use vstd::prelude::*;

verus! {

/// The graph type of the `petgraph` crate.
#[verifier::external_type_specification]
#[verifier::external_body]
#[verifier::reject_recursive_types(N)]
#[verifier::reject_recursive_types(E)]
#[verifier::reject_recursive_types(Ty)]
#[verifier::reject_recursive_types(Ix)]
pub struct ExGraph<N, E, Ty, Ix>(Graph<N, E, Ty, Ix>);

/// The marker type of directed `petgraph` graphs.
#[verifier::external_type_specification]
#[verifier::external_body]
pub struct ExDirected(Directed);

/// The edges of a `petgraph` graph, as (source, target) node indices in the
/// order in which they were added.
pub uninterp spec fn graph_edges(g: Graph<(), (), Directed, u32>) -> Seq<(usize, usize)>;

/// The number of nodes of a `petgraph` graph.
pub uninterp spec fn graph_node_count(g: Graph<(), (), Directed, u32>) -> nat;

/// `Graph::new`: a graph with no node and no edge.
#[verifier::external_body]
fn graph_new() -> (g: Graph<(), (), Directed, u32>)
    ensures
        graph_edges(g) == Seq::<(usize, usize)>::empty(),
        graph_node_count(g) == 0,
{
    Graph::new()
}

/// `Graph::add_node`: the new node's index is the former node count. It
/// panics when the count reaches the index type's maximum, which `requires`
/// leaves out.
#[verifier::external_body]
fn graph_add_node(g: &mut Graph<(), (), Directed, u32>) -> (idx: usize)
    requires
        graph_node_count(*old(g)) < u32::MAX,
    ensures
        idx == graph_node_count(*old(g)),
        graph_node_count(*final(g)) == graph_node_count(*old(g)) + 1,
        graph_edges(*final(g)) == graph_edges(*old(g)),
{
    g.add_node(()).index()
}

/// `Graph::add_edge`: appends the edge `(a, b)`. It panics on a missing
/// node or when the edge count reaches the index type's maximum, which
/// `requires` leaves out.
#[verifier::external_body]
fn graph_add_edge(g: &mut Graph<(), (), Directed, u32>, a: usize, b: usize)
    requires
        a < graph_node_count(*old(g)),
        b < graph_node_count(*old(g)),
        graph_edges(*old(g)).len() < u32::MAX,
    ensures
        graph_edges(*final(g)) == graph_edges(*old(g)).push((a, b)),
        graph_node_count(*final(g)) == graph_node_count(*old(g)),
{
    g.add_edge(NodeIndex::new(a), NodeIndex::new(b), ());
}

/// `Graph::contains_edge`: whether an edge from `a` to `b` was added.
#[verifier::external_body]
fn graph_contains_edge(g: &Graph<(), (), Directed, u32>, a: usize, b: usize) -> (r: bool)
    requires
        a < graph_node_count(*g),
        b < graph_node_count(*g),
    ensures
        r == graph_edges(*g).contains((a, b)),
{
    g.contains_edge(NodeIndex::new(a), NodeIndex::new(b))
}

/// `Graph::neighbors`: on a directed graph, the targets of the edges that
/// leave `a`, the most recently added edge first.
#[verifier::external_body]
fn graph_neighbors(g: &Graph<(), (), Directed, u32>, a: usize) -> (r: Vec<usize>)
    requires
        a < graph_node_count(*g),
    ensures
        r@ == out_targets(graph_edges(*g), a),
{
    g.neighbors(NodeIndex::new(a)).map(|n| n.index()).collect()
}

/// Targets of the edges leaving `a`, most recently added first.
pub open spec fn out_targets(edges: Seq<(usize, usize)>, a: usize) -> Seq<usize>
    decreases edges.len(),
{
    if edges.len() == 0 {
        Seq::empty()
    } else if edges.last().0 == a {
        seq![edges.last().1] + out_targets(edges.drop_last(), a)
    } else {
        out_targets(edges.drop_last(), a)
    }
}

/// First index at which `id` stands in `nodes`.
pub open spec fn node_index(nodes: Seq<FunctionIdView>, id: FunctionIdView) -> Option<int>
    decreases nodes.len(),
{
    if nodes.len() == 0 {
        None
    } else {
        match node_index(nodes.drop_last(), id) {
            Some(i) => Some(i),
            None => if nodes.last() == id {
                Some(nodes.len() - 1)
            } else {
                None
            },
        }
    }
}

/// The spans recorded for the call edge `(i, j)`.
pub open spec fn site_spans(keys: Seq<(usize, usize)>, spans: Seq<Seq<Span>>, i: usize, j: usize) -> Seq<Span>
    decreases keys.len(),
{
    if keys.len() == 0 || spans.len() != keys.len() {
        Seq::empty()
    } else if keys.last() == (i, j) {
        spans.last()
    } else {
        site_spans(keys.drop_last(), spans.drop_last(), i, j)
    }
}

/// `b` is reachable from `a` over one or more edges.
pub open spec fn is_walk(edges: Seq<(usize, usize)>, p: Seq<usize>) -> bool {
    p.len() >= 2 && forall|k: int| 0 <= k < p.len() - 1 ==> #[trigger] walk_step(edges, p, k)
}

/// The `k`-th step of `p` is an edge.
pub open spec fn walk_step(edges: Seq<(usize, usize)>, p: Seq<usize>, k: int) -> bool {
    edges.contains((p[k], p[k + 1]))
}

pub open spec fn reaches(edges: Seq<(usize, usize)>, a: usize, b: usize) -> bool {
    exists|p: Seq<usize>| #[trigger] is_walk(edges, p) && p[0] == a && p.last() == b
}

/// What a call graph holds: its functions in insertion order, its edges
/// between node indices in insertion order, and the call locations behind
/// each edge.
pub struct CallGraphView {
    pub nodes: Seq<FunctionIdView>,
    pub edges: Seq<(usize, usize)>,
    pub site_keys: Seq<(usize, usize)>,
    pub site_spans: Seq<Seq<Span>>,
}

impl CallGraphView {
    pub open spec fn contains(self, id: FunctionIdView) -> bool {
        self.nodes.contains(id)
    }

    pub open spec fn index(self, id: FunctionIdView) -> Option<int> {
        node_index(self.nodes, id)
    }

    /// The functions that `caller` calls, in the order `petgraph` lists them.
    pub open spec fn callees(self, caller: FunctionIdView) -> Seq<FunctionIdView> {
        match self.index(caller) {
            Some(i) => out_targets(self.edges, i as usize).map_values(|k: usize| self.nodes[k as int]),
            None => Seq::empty(),
        }
    }

    /// The recorded call locations from `from` to `to`.
    pub open spec fn locations(self, from: FunctionIdView, to: FunctionIdView) -> Seq<Span> {
        match (self.index(from), self.index(to)) {
            (Some(i), Some(j)) => site_spans(self.site_keys, self.site_spans, i as usize, j as usize),
            _ => Seq::empty(),
        }
    }

    /// `callee` is reachable from `caller` over one or more calls.
    pub open spec fn calls_transitively(self, caller: FunctionIdView, callee: FunctionIdView) -> bool {
        match (self.index(caller), self.index(callee)) {
            (Some(i), Some(j)) => reaches(self.edges, i as usize, j as usize),
            _ => false,
        }
    }

    pub open spec fn has_edge(self, from: FunctionIdView, to: FunctionIdView) -> bool {
        match (self.index(from), self.index(to)) {
            (Some(i), Some(j)) => self.edges.contains((i as usize, j as usize)),
            _ => false,
        }
    }
}

proof fn lemma_reaches_concat(edges: Seq<(usize, usize)>, a: usize, b: usize, c: usize)
    requires
        reaches(edges, a, b),
        reaches(edges, b, c),
    ensures
        reaches(edges, a, c),
{
    let p1 = choose|p: Seq<usize>| #[trigger] is_walk(edges, p) && p[0] == a && p.last() == b;
    let p2 = choose|p: Seq<usize>| #[trigger] is_walk(edges, p) && p[0] == b && p.last() == c;
    let p = p1 + p2.skip(1);
    assert forall|k: int| 0 <= k < p.len() - 1 implies #[trigger] walk_step(edges, p, k) by {
        if k < p1.len() - 1 {
            assert(walk_step(edges, p1, k));
            assert(p[k] == p1[k] && p[k + 1] == p1[k + 1]);
        } else if k == p1.len() - 1 {
            assert(walk_step(edges, p2, 0));
            assert(p[k] == p1.last() && p[k + 1] == p2[1]);
        } else {
            let k2 = k - p1.len() + 1;
            assert(walk_step(edges, p2, k2));
            assert(p[k] == p2[k2] && p[k + 1] == p2[k2 + 1]);
        }
    }
    assert(is_walk(edges, p));
    assert(p.last() == p2.last());
}

impl CallGraphView {
    /// A call is a way from the caller to the callee.
    pub proof fn lemma_edge_calls(self, a: FunctionIdView, b: FunctionIdView)
        requires
            self.has_edge(a, b),
        ensures
            self.calls_transitively(a, b),
    {
        let i = self.index(a)->0 as usize;
        let j = self.index(b)->0 as usize;
        let p = seq![i, j];
        assert(walk_step(self.edges, p, 0));
        assert(is_walk(self.edges, p));
    }

    /// Ways compose.
    pub proof fn lemma_calls_compose(self, a: FunctionIdView, b: FunctionIdView, c: FunctionIdView)
        requires
            self.calls_transitively(a, b),
            self.calls_transitively(b, c),
        ensures
            self.calls_transitively(a, c),
    {
        lemma_reaches_concat(self.edges, self.index(a)->0 as usize, self.index(b)->0 as usize, self.index(c)->0 as usize);
    }

    /// Every call of `caller` is listed among its callees.
    pub proof fn lemma_edges_are_callees(self, caller: FunctionIdView, callee: FunctionIdView)
        requires
            self.has_edge(caller, callee),
            self.nodes.len() <= usize::MAX,
        ensures
            self.callees(caller).contains(callee),
    {
        let i = self.index(caller)->0;
        let j = self.index(callee)->0;
        lemma_node_index(self.nodes, callee);
        lemma_out_targets_complete(self.edges, i as usize, j as usize);
        let t = out_targets(self.edges, i as usize);
        let q = choose|q: int| 0 <= q < t.len() && t[q] == j as usize;
        assert(self.callees(caller)[q] == self.nodes[j]);
    }
}

impl CallGraph {
    /// A graph has no more functions than a vector can hold.
    pub proof fn lemma_node_count(&self)
        ensures
            self@.nodes.len() <= usize::MAX,
    {
        assert(self.nodes.len() == self.nodes@.len());
        assert(self@.nodes.len() == self.nodes@.len());
    }
}

pub struct CallGraph {
    graph: Graph<(), (), Directed, u32>,
    nodes: Vec<FunctionId>,
    site_keys: Vec<(usize, usize)>,
    site_spans: Vec<Vec<Span>>,
}

impl View for CallGraph {
    type V = CallGraphView;

    closed spec fn view(&self) -> CallGraphView {
        CallGraphView {
            nodes: self.nodes.deep_view(),
            edges: graph_edges(self.graph),
            site_keys: self.site_keys@,
            site_spans: self.site_spans.deep_view(),
        }
    }
}

proof fn lemma_node_index(nodes: Seq<FunctionIdView>, id: FunctionIdView)
    ensures
        match node_index(nodes, id) {
            Some(i) => 0 <= i < nodes.len() && nodes[i] == id && forall|k: int|
                0 <= k < i ==> nodes[k] != id,
            None => !nodes.contains(id),
        },
    decreases nodes.len(),
{
    if nodes.len() > 0 {
        let d = nodes.drop_last();
        lemma_node_index(d, id);
        match node_index(d, id) {
            Some(i) => {
                assert(d[i] == nodes[i]);
                assert forall|k: int| 0 <= k < i implies nodes[k] != id by {
                    assert(d[k] == nodes[k]);
                }
            },
            None => {
                assert forall|k: int| 0 <= k < nodes.len() - 1 implies nodes[k] != id by {
                    assert(d[k] == nodes[k]);
                    if nodes[k] == id {
                        assert(d.contains(id));
                    }
                }
                if nodes.last() != id {
                    assert forall|k: int| 0 <= k < nodes.len() implies nodes[k] != id by {
                        if k < nodes.len() - 1 {
                        } else {
                            assert(nodes[k] == nodes.last());
                        }
                    }
                }
            },
        }
    }
}

proof fn lemma_site_spans_push(
    keys: Seq<(usize, usize)>,
    spans: Seq<Seq<Span>>,
    k: (usize, usize),
    s: Seq<Span>,
    i: usize,
    j: usize,
)
    requires
        keys.len() == spans.len(),
    ensures
        site_spans(keys.push(k), spans.push(s), i, j) == if k == (i, j) {
            s
        } else {
            site_spans(keys, spans, i, j)
        },
{
    assert(keys.push(k).drop_last() == keys);
    assert(spans.push(s).drop_last() == spans);
}

proof fn lemma_site_spans_update(
    keys: Seq<(usize, usize)>,
    spans: Seq<Seq<Span>>,
    m: int,
    s: Seq<Span>,
    i: usize,
    j: usize,
)
    requires
        keys.len() == spans.len(),
        0 <= m < keys.len(),
        keys.no_duplicates(),
    ensures
        site_spans(keys, spans.update(m, s), i, j) == if keys[m] == (i, j) {
            s
        } else {
            site_spans(keys, spans, i, j)
        },
    decreases keys.len(),
{
    if m == keys.len() - 1 {
        assert(spans.update(m, s).drop_last() == spans.drop_last());
        if keys[m] != (i, j) {
            assert(spans.update(m, s).last() == s);
        }
    } else {
        assert(spans.update(m, s).drop_last() == spans.drop_last().update(m, s));
        assert(keys.drop_last()[m] == keys[m]);
        assert(keys.last() != keys[m]);
        lemma_site_spans_update(keys.drop_last(), spans.drop_last(), m, s, i, j);
    }
}

proof fn lemma_site_spans_key(keys: Seq<(usize, usize)>, spans: Seq<Seq<Span>>, m: int)
    requires
        keys.len() == spans.len(),
        0 <= m < keys.len(),
        keys.no_duplicates(),
    ensures
        site_spans(keys, spans, keys[m].0, keys[m].1) == spans[m],
    decreases keys.len(),
{
    if m < keys.len() - 1 {
        assert(keys.drop_last()[m] == keys[m]);
        assert(keys.last() != keys[m]);
        lemma_site_spans_key(keys.drop_last(), spans.drop_last(), m);
    }
}

proof fn lemma_site_spans_absent(keys: Seq<(usize, usize)>, spans: Seq<Seq<Span>>, i: usize, j: usize)
    requires
        !keys.contains((i, j)),
    ensures
        site_spans(keys, spans, i, j) == Seq::<Span>::empty(),
    decreases keys.len(),
{
    if keys.len() > 0 && spans.len() == keys.len() {
        assert(keys.last() == keys[keys.len() - 1]);
        assert forall|k: int| 0 <= k < keys.len() - 1 implies keys.drop_last()[k] != (i, j) by {
            assert(keys.drop_last()[k] == keys[k]);
        }
        lemma_site_spans_absent(keys.drop_last(), spans.drop_last(), i, j);
    }
}

proof fn lemma_out_targets_bound(edges: Seq<(usize, usize)>, a: usize, n: nat)
    requires
        forall|k: int| 0 <= k < edges.len() ==> (#[trigger] edges[k]).1 < n,
    ensures
        forall|k: int| 0 <= k < out_targets(edges, a).len() ==> #[trigger] out_targets(edges, a)[k] < n,
        forall|k: int| 0 <= k < out_targets(edges, a).len() ==> edges.contains((a, #[trigger] out_targets(edges, a)[k])),
    decreases edges.len(),
{
    if edges.len() > 0 {
        let e = edges.drop_last();
        assert forall|k: int| 0 <= k < e.len() implies (#[trigger] e[k]).1 < n by {
            assert(e[k] == edges[k]);
        }
        lemma_out_targets_bound(e, a, n);
        let t = out_targets(edges, a);
        assert forall|k: int| 0 <= k < t.len() implies edges.contains((a, #[trigger] t[k])) by {
            if edges.last().0 == a {
                if k == 0 {
                    assert(edges[edges.len() - 1] == (a, t[k]));
                } else {
                    assert(t[k] == out_targets(e, a)[k - 1]);
                    let w = choose|w: int| 0 <= w < e.len() && e[w] == (a, out_targets(e, a)[k - 1]);
                    assert(edges[w] == e[w]);
                }
            } else {
                let w = choose|w: int| 0 <= w < e.len() && e[w] == (a, out_targets(e, a)[k]);
                assert(edges[w] == e[w]);
            }
        }
        if edges.last().0 == a {
            assert(edges[edges.len() - 1].1 < n);
        }
    }
}

proof fn lemma_out_targets_complete(edges: Seq<(usize, usize)>, a: usize, b: usize)
    requires
        edges.contains((a, b)),
    ensures
        out_targets(edges, a).contains(b),
    decreases edges.len(),
{
    if edges.last() == (a, b) {
        assert(out_targets(edges, a)[0] == b);
    } else {
        let w = choose|w: int| 0 <= w < edges.len() && edges[w] == (a, b);
        assert(w < edges.len() - 1);
        assert(edges.drop_last()[w] == (a, b));
        lemma_out_targets_complete(edges.drop_last(), a, b);
        let t = out_targets(edges.drop_last(), a);
        let q = choose|q: int| 0 <= q < t.len() && t[q] == b;
        if edges.last().0 == a {
            assert(out_targets(edges, a)[q + 1] == b);
        } else {
            assert(out_targets(edges, a)[q] == b);
        }
    }
}

impl CallGraph {
    /// Well-formedness: one node per function, no function twice, edges
    /// between existing nodes, no edge twice, call locations only behind
    /// existing edges and under distinct keys.
    pub closed spec fn wf(&self) -> bool {
        let v = self@;
        &&& self.nodes@.len() == graph_node_count(self.graph)
        &&& v.nodes.no_duplicates()
        &&& forall|k: int| 0 <= k < v.edges.len() ==> (#[trigger] v.edges[k]).0 < v.nodes.len() && v.edges[k].1 < v.nodes.len()
        &&& v.edges.no_duplicates()
        &&& self.site_keys@.len() == self.site_spans@.len()
        &&& v.site_keys.no_duplicates()
        &&& forall|k: int| 0 <= k < v.site_keys.len() ==> v.edges.contains(#[trigger] v.site_keys[k])
    }

    /// An empty call graph.
    pub fn new() -> (g: Self)
        ensures
            g.wf(),
            g@.nodes == Seq::<FunctionIdView>::empty(),
            g@.edges == Seq::<(usize, usize)>::empty(),
            g@.site_keys == Seq::<(usize, usize)>::empty(),
    {
        let g = CallGraph {
            graph: graph_new(),
            nodes: Vec::new(),
            site_keys: Vec::new(),
            site_spans: Vec::new(),
        };
        assert(g@.nodes =~= Seq::<FunctionIdView>::empty());
        assert(g.site_spans.deep_view() =~= Seq::<Seq<Span>>::empty());
        g
    }

    fn index_of(&self, id: &FunctionId) -> (r: Option<usize>)
        requires
            self.wf(),
        ensures
            match r {
                Some(i) => self@.index(id@) == Some(i as int) && i < self@.nodes.len(),
                None => self@.index(id@) is None,
            },
    {
        proof {
            lemma_node_index(self@.nodes, id@);
        }
        let mut i: usize = 0;
        while i < self.nodes.len()
            invariant
                i <= self.nodes.len(),
                self@.nodes == self.nodes.deep_view(),
                forall|k: int| 0 <= k < i ==> self@.nodes[k] != id@,
                match node_index(self@.nodes, id@) {
                    Some(j) => 0 <= j < self@.nodes.len() && self@.nodes[j] == id@ && forall|k: int|
                        0 <= k < j ==> self@.nodes[k] != id@,
                    None => !self@.nodes.contains(id@),
                },
            decreases self.nodes.len() - i,
        {
            if self.nodes[i].same(id) {
                proof {
                    assert(self@.nodes[i as int] == self.nodes[i as int]@);
                    match node_index(self@.nodes, id@) {
                        Some(j) => {
                            if j < i {
                                assert(self@.nodes[j] != id@);
                            }
                            if i < j {
                                assert(self@.nodes[i as int] != id@);
                            }
                        },
                        None => {
                            assert(self@.nodes.contains(id@));
                        },
                    }
                }
                return Some(i);
            }
            assert(self@.nodes[i as int] == self.nodes[i as int]@);
            i += 1;
        }
        proof {
            match node_index(self@.nodes, id@) {
                Some(j) => {
                    assert(self@.nodes[j] != id@);
                },
                None => {},
            }
        }
        None
    }

    fn site_index(&self, fi: usize, ti: usize) -> (r: Option<usize>)
        requires
            self.wf(),
        ensures
            match r {
                Some(k) => k < self.site_keys@.len() && self.site_keys@[k as int] == (fi, ti),
                None => !self.site_keys@.contains((fi, ti)),
            },
    {
        let mut k: usize = 0;
        while k < self.site_keys.len()
            invariant
                k <= self.site_keys.len(),
                forall|m: int| 0 <= m < k ==> self.site_keys@[m] != (fi, ti),
            decreases self.site_keys.len() - k,
        {
            if self.site_keys[k].0 == fi && self.site_keys[k].1 == ti {
                return Some(k);
            }
            k += 1;
        }
        None
    }

    /// Adds a function as a node, unless it is one already.
    pub fn add_function(&mut self, id: FunctionId)
        requires
            old(self).wf(),
            old(self)@.contains(id@) || old(self)@.nodes.len() < u32::MAX,
        ensures
            final(self).wf(),
            final(self)@.nodes == if old(self)@.contains(id@) {
                old(self)@.nodes
            } else {
                old(self)@.nodes.push(id@)
            },
            final(self)@.edges == old(self)@.edges,
            final(self)@.site_keys == old(self)@.site_keys,
            final(self)@.site_spans == old(self)@.site_spans,
    {
        proof {
            lemma_node_index(self@.nodes, id@);
        }
        match self.index_of(&id) {
            Some(_) => {},
            None => {
                let ghost old_nodes = self@.nodes;
                let idx = graph_add_node(&mut self.graph);
                self.nodes.push(id);
                proof {
                    assert(self@.nodes =~= old_nodes.push(id@));
                    assert forall|a: int, b: int|
                        0 <= a < b < self@.nodes.len() implies self@.nodes[a] != self@.nodes[b] by {
                        if b == old_nodes.len() {
                            assert(old_nodes[a] == self@.nodes[a]);
                            assert(old_nodes.contains(old_nodes[a]));
                        }
                    }
                }
            },
        }
    }

    /// Whether `id` is a function of the graph.
    pub fn contains(&self, id: &FunctionId) -> (r: bool)
        requires
            self.wf(),
        ensures
            r == self@.contains(id@),
    {
        proof {
            lemma_node_index(self@.nodes, id@);
        }
        self.index_of(id).is_some()
    }

    /// Adds the edge `from -> to` when both are nodes and the edge is new.
    pub fn add_call(&mut self, from: &FunctionId, to: &FunctionId)
        requires
            old(self).wf(),
            old(self)@.edges.len() < u32::MAX,
        ensures
            final(self).wf(),
            final(self)@.nodes == old(self)@.nodes,
            final(self)@.site_keys == old(self)@.site_keys,
            final(self)@.site_spans == old(self)@.site_spans,
            final(self)@.edges == match (old(self)@.index(from@), old(self)@.index(to@)) {
                (Some(i), Some(j)) => if old(self)@.edges.contains((i as usize, j as usize)) {
                    old(self)@.edges
                } else {
                    old(self)@.edges.push((i as usize, j as usize))
                },
                _ => old(self)@.edges,
            },
    {
        if let (Some(fi), Some(ti)) = (self.index_of(from), self.index_of(to)) {
            self.add_edge_between(fi, ti);
        }
    }

    fn add_edge_between(&mut self, fi: usize, ti: usize)
        requires
            old(self).wf(),
            fi < old(self)@.nodes.len(),
            ti < old(self)@.nodes.len(),
            old(self)@.edges.len() < u32::MAX,
        ensures
            final(self).wf(),
            final(self)@.nodes == old(self)@.nodes,
            final(self)@.site_keys == old(self)@.site_keys,
            final(self)@.site_spans == old(self)@.site_spans,
            final(self)@.edges == if old(self)@.edges.contains((fi, ti)) {
                old(self)@.edges
            } else {
                old(self)@.edges.push((fi, ti))
            },
    {
        if !graph_contains_edge(&self.graph, fi, ti) {
            let ghost old_edges = self@.edges;
            graph_add_edge(&mut self.graph, fi, ti);
            proof {
                assert forall|a: int, b: int|
                    0 <= a < b < self@.edges.len() implies self@.edges[a] != self@.edges[b] by {
                    if b == old_edges.len() {
                        assert(old_edges[a] == self@.edges[a]);
                        assert(old_edges.contains(old_edges[a]));
                    }
                }
                assert forall|k: int| 0 <= k < self@.site_keys.len() implies self@.edges.contains(
                    #[trigger] self@.site_keys[k],
                ) by {
                    let w = choose|w: int| 0 <= w < old_edges.len() && old_edges[w] == self@.site_keys[k];
                    assert(self@.edges[w] == old_edges[w]);
                }
            }
        }
    }

    /// Adds the edge `from -> to` as `add_call` does, and records the call's
    /// location behind it.
    pub fn add_call_with_location(&mut self, from: &FunctionId, to: &FunctionId, call_location: Span)
        requires
            old(self).wf(),
            old(self)@.edges.len() < u32::MAX,
        ensures
            final(self).wf(),
            final(self)@.nodes == old(self)@.nodes,
            final(self)@.edges == match (old(self)@.index(from@), old(self)@.index(to@)) {
                (Some(i), Some(j)) => if old(self)@.edges.contains((i as usize, j as usize)) {
                    old(self)@.edges
                } else {
                    old(self)@.edges.push((i as usize, j as usize))
                },
                _ => old(self)@.edges,
            },
            forall|a: FunctionIdView, b: FunctionIdView| #[trigger]
                final(self)@.locations(a, b) == if a == from@ && b == to@ && old(self)@.contains(
                    from@,
                ) && old(self)@.contains(to@) {
                    old(self)@.locations(a, b).push(call_location)
                } else {
                    old(self)@.locations(a, b)
                },
    {
        proof {
            lemma_node_index(self@.nodes, from@);
            lemma_node_index(self@.nodes, to@);
        }
        if let (Some(fi), Some(ti)) = (self.index_of(from), self.index_of(to)) {
            let ghost e_before = self@.edges;
            self.add_edge_between(fi, ti);
            assert(self@.edges.contains((fi, ti))) by {
                if !e_before.contains((fi, ti)) {
                    assert(self@.edges[e_before.len() as int] == (fi, ti));
                }
            }
            let nn = self.nodes.len();
            let ghost keys0 = self.site_keys@;
            let ghost spans0 = self.site_spans.deep_view();
            let ghost v0 = self@;
            assert(v0.nodes.len() == nn);
            assert(spans0.len() == keys0.len());
            assert(v0.index(from@) == Some(fi as int));
            assert(v0.index(to@) == Some(ti as int));
            assert(v0.nodes[fi as int] == from@);
            assert(v0.nodes[ti as int] == to@);
            let found = self.site_index(fi, ti);
            if let Some(k) = found {
                let mut s = self.site_spans[k].clone();
                assert(s.deep_view() =~= spans0[k as int]);
                s.push(call_location);
                assert(s.deep_view() =~= spans0[k as int].push(call_location));
                let ghost old_spans = self.site_spans@;
                self.site_spans.set(k, s);
                proof {
                    assert(self.site_spans@ == old_spans.update(k as int, s));
                    assert(self.site_spans.deep_view() =~= spans0.update(k as int, spans0[k as int].push(call_location)));
                    assert forall|a: FunctionIdView, b: FunctionIdView| #[trigger]
                        self@.locations(a, b) == if a == from@ && b == to@ && v0.contains(from@) && v0.contains(to@) {
                            v0.locations(a, b).push(call_location)
                        } else {
                            v0.locations(a, b)
                        } by {
                        lemma_node_index(v0.nodes, a);
                        lemma_node_index(v0.nodes, b);
                        if let (Some(ia), Some(ib)) = (v0.index(a), v0.index(b)) {
                            lemma_site_spans_update(keys0, spans0, k as int, spans0[k as int].push(call_location), ia as usize, ib as usize);
                            lemma_site_spans_key(keys0, spans0, k as int);
                            assert(ia as usize as int == ia);
                            assert(ib as usize as int == ib);
                            if (ia as usize, ib as usize) == (fi, ti) {
                                assert(a == from@);
                                assert(b == to@);
                            }
                            if a == from@ && b == to@ {
                                assert(ia == fi as int);
                                assert(ib == ti as int);
                            }
                        }
                    }
                }
            } else {
                self.site_keys.push((fi, ti));
                let mut s: Vec<Span> = Vec::new();
                s.push(call_location);
                assert(s.deep_view() =~= seq![call_location]);
                let ghost old_spans = self.site_spans@;
                self.site_spans.push(s);
                proof {
                    assert(self.site_spans@ == old_spans.push(s));
                    assert(!keys0.contains((fi, ti)));
                    assert(self.site_spans.deep_view() =~= spans0.push(seq![call_location]));
                    assert(self.site_keys@ == keys0.push((fi, ti)));
                    assert forall|a: int, b: int|
                        0 <= a < b < self.site_keys@.len() implies self.site_keys@[a] != self.site_keys@[b] by {
                        if b == keys0.len() {
                            assert(keys0.contains(keys0[a]));
                        }
                    }
                    assert forall|m: int| 0 <= m < self@.site_keys.len() implies self@.edges.contains(
                        #[trigger] self@.site_keys[m],
                    ) by {
                        if m == keys0.len() {
                            assert(v0.edges.contains((fi, ti)));
                        }
                    }
                    assert forall|a: FunctionIdView, b: FunctionIdView| #[trigger]
                        self@.locations(a, b) == if a == from@ && b == to@ && v0.contains(from@) && v0.contains(to@) {
                            v0.locations(a, b).push(call_location)
                        } else {
                            v0.locations(a, b)
                        } by {
                        lemma_node_index(v0.nodes, a);
                        lemma_node_index(v0.nodes, b);
                        if let (Some(ia), Some(ib)) = (v0.index(a), v0.index(b)) {
                            assert(ia as usize as int == ia);
                            assert(ib as usize as int == ib);
                            lemma_site_spans_push(keys0, spans0, (fi, ti), seq![call_location], ia as usize, ib as usize);
                            if (ia as usize, ib as usize) == (fi, ti) {
                                assert(a == from@);
                                assert(b == to@);
                            }
                            if a == from@ && b == to@ {
                                assert(ia == fi as int);
                                assert(ib == ti as int);
                            }
                            if a == from@ && b == to@ {
                                lemma_site_spans_absent(keys0, spans0, fi, ti);
                                assert(seq![call_location] =~= Seq::<Span>::empty().push(call_location));
                            }
                            if (ia as usize, ib as usize) == (fi, ti) {
                                assert(v0.nodes[ia] == a);
                                assert(v0.nodes[fi as int] == from@);
                            }
                        }
                    }
                }
            }
        } else {
            proof {
                assert forall|a: FunctionIdView, b: FunctionIdView| #[trigger]
                    self@.locations(a, b) == self@.locations(a, b) by {}
            }
        }
    }

    /// The recorded locations of the calls from `from` to `to`.
    pub fn get_call_site_locations(&self, from: &FunctionId, to: &FunctionId) -> (r: Vec<Span>)
        requires
            self.wf(),
        ensures
            r@ == self@.locations(from@, to@),
    {
        let (fi, ti) = match (self.index_of(from), self.index_of(to)) {
            (Some(fi), Some(ti)) => (fi, ti),
            _ => {
                return Vec::new();
            },
        };
        let ghost keys = self.site_keys@;
        let ghost spans = self.site_spans.deep_view();
        assert(spans.len() == keys.len());
        match self.site_index(fi, ti) {
            Some(k) => {
                proof {
                    lemma_site_spans_key(keys, spans, k as int);
                }
                let r = self.site_spans[k].clone();
                assert(r@ =~= spans[k as int]);
                r
            },
            None => {
                proof {
                    lemma_site_spans_absent(keys, spans, fi, ti);
                }
                Vec::new()
            },
        }
    }

    fn ids_of(&self, idxs: &Vec<usize>) -> (r: Vec<FunctionId>)
        requires
            self.wf(),
            forall|k: int| 0 <= k < idxs.len() ==> #[trigger] idxs[k] < self@.nodes.len(),
        ensures
            r.deep_view() == idxs@.map_values(|k: usize| self@.nodes[k as int]),
    {
        let mut r: Vec<FunctionId> = Vec::new();
        let mut i: usize = 0;
        while i < idxs.len()
            invariant
                self.wf(),
                i <= idxs.len(),
                forall|k: int| 0 <= k < idxs.len() ==> #[trigger] idxs[k] < self@.nodes.len(),
                r.deep_view() == idxs@.take(i as int).map_values(|k: usize| self@.nodes[k as int]),
            decreases idxs.len() - i,
        {
            let ghost before = r.deep_view();
            let c = self.nodes[idxs[i]].clone();
            assert(c@ == self@.nodes[idxs[i as int] as int]);
            let ghost rv = r@;
            r.push(c);
            proof {
                assert(r@ == rv.push(c));
                assert(r.deep_view() =~= before.push(c@));
                assert(idxs@.take(i + 1) == idxs@.take(i as int).push(idxs@[i as int]));
                assert(r.deep_view() =~= idxs@.take(i + 1).map_values(|k: usize| self@.nodes[k as int]));
            }
            i += 1;
        }
        assert(idxs@.take(idxs.len() as int) == idxs@);
        r
    }

    /// The functions that `caller` calls directly.
    pub fn get_callees(&self, caller: &FunctionId) -> (r: Vec<FunctionId>)
        requires
            self.wf(),
        ensures
            r.deep_view() == self@.callees(caller@),
    {
        match self.index_of(caller) {
            None => {
                let r: Vec<FunctionId> = Vec::new();
                assert(r.deep_view() =~= Seq::<FunctionIdView>::empty());
                r
            },
            Some(ci) => {
                let targets = graph_neighbors(&self.graph, ci);
                proof {
                    lemma_out_targets_bound(self@.edges, ci, self@.nodes.len());
                }
                self.ids_of(&targets)
            },
        }
    }

    /// Each listed callee of `caller` is the target of an edge from `caller`.
    pub proof fn lemma_callees_are_edges(&self, caller: FunctionIdView)
        requires
            self.wf(),
        ensures
            forall|k: int| 0 <= k < self@.callees(caller).len() ==> #[trigger] self@.has_edge(caller, self@.callees(caller)[k]),
            self@.callees(caller).len() > 0 ==> self@.contains(caller),
    {
        let v = self@;
        lemma_node_index(v.nodes, caller);
        if let Some(i) = v.index(caller) {
            let t = out_targets(v.edges, i as usize);
            lemma_out_targets_bound(v.edges, i as usize, v.nodes.len());
            assert forall|k: int| 0 <= k < v.callees(caller).len() implies #[trigger] v.has_edge(caller, v.callees(caller)[k]) by {
                let c = v.nodes[t[k] as int];
                assert(v.callees(caller)[k] == c);
                lemma_node_index(v.nodes, c);
                match v.index(c) {
                    Some(j) => {
                        if j != t[k] as int {
                            if j < t[k] as int {
                            } else {
                                assert(v.nodes[t[k] as int] != c);
                            }
                        }
                    },
                    None => {
                        assert(v.nodes.contains(c));
                    },
                }
            }
        }
    }

    /// Every function reachable from `caller` over one or more calls, each
    /// once, in the order a depth-first search from `caller` first meets
    /// them (`transitive_order`).
    pub fn get_transitive_callees(&self, caller: &FunctionId) -> (r: Vec<FunctionId>)
        requires
            self.wf(),
        ensures
            r.deep_view().no_duplicates(),
            forall|id: FunctionIdView|
                r.deep_view().contains(id) <==> self@.calls_transitively(caller@, id),
            r.deep_view() == transitive_order(self@, caller@),
    {
        let ci = match self.index_of(caller) {
            None => {
                let r: Vec<FunctionId> = Vec::new();
                assert(r.deep_view() =~= Seq::<FunctionIdView>::empty());
                return r;
            },
            Some(ci) => ci,
        };
        let n = self.nodes.len();
        let ghost edges = self@.edges;
        let ghost nodes = self@.nodes;
        let mut visited: Vec<bool> = Vec::new();
        while visited.len() < n
            invariant
                visited.len() <= n,
                forall|k: int| 0 <= k < visited.len() ==> !visited[k],
            decreases n - visited.len(),
        {
            visited.push(false);
        }
        let mut order: Vec<usize> = Vec::new();
        let mut stack: Vec<usize> = Vec::new();
        stack.push(ci);
        assert(stack@[0] == ci);
        assert(visited@ =~= Seq::new(nodes.len(), |i: int| false));
        assert(order@ =~= Seq::<usize>::empty());
        assert(stack@ =~= seq![ci]);
        let ghost target = dfs_order(edges, visited@, order@, stack@);
        while stack.len() > 0
            invariant
                dfs_order(edges, visited@, order@, stack@) == target,
                self.wf(),
                n == nodes.len(),
                edges == self@.edges,
                nodes == self@.nodes,
                ci < n,
                visited.len() == n,
                forall|k: int| 0 <= k < stack.len() ==> #[trigger] stack[k] < n,
                forall|k: int| 0 <= k < stack.len() ==> #[trigger] stack[k] == ci || visited[stack[k] as int],
                forall|k: int| 0 <= k < order.len() ==> #[trigger] order[k] < n,
                order@.no_duplicates(),
                forall|x: int| 0 <= x < n ==> (visited[x] <==> order@.contains(x as usize)),
                forall|x: int| 0 <= x < n && #[trigger] visited[x] ==> reaches(edges, ci, x as usize),
                forall|x: usize, y: usize|
                    x < n && (x == ci || visited[x as int]) && !stack@.contains(x) && #[trigger] edges.contains((x, y))
                        ==> visited[y as int],
            decreases unvisited(visited@), stack.len(),
        {
            let ghost stack0 = stack@;
            let cur = stack.pop().unwrap();
            let ghost stack_rest = stack@;
            assert(stack0 == stack_rest.push(cur));
            let nbrs = graph_neighbors(&self.graph, cur);
            proof {
                lemma_out_targets_bound(edges, cur, n as nat);
                assert forall|x: usize| stack0.contains(x) <==> (stack_rest.contains(x) || x == cur) by {
                    if stack0.contains(x) {
                        let j = choose|j: int| 0 <= j < stack0.len() && stack0[j] == x;
                        if j < stack_rest.len() {
                            assert(stack_rest[j] == x);
                        }
                    }
                    if stack_rest.contains(x) {
                        let j = choose|j: int| 0 <= j < stack_rest.len() && stack_rest[j] == x;
                        assert(stack0[j] == x);
                    }
                    if x == cur {
                        assert(stack0[stack_rest.len() as int] == x);
                    }
                }
            }
            let ghost unvisited0 = unvisited(visited@);
            let ghost visited_at_pop = visited@;
            let ghost order_at_pop = order@;
            let mut k: usize = 0;
            assert(nbrs@.take(0) =~= Seq::<usize>::empty());
            while k < nbrs.len()
                invariant
                    (visited@, order@, stack@) == visit_all(nbrs@.take(k as int), visited_at_pop, order_at_pop, stack_rest),
                    self.wf(),
                    n == nodes.len(),
                    edges == self@.edges,
                    nodes == self@.nodes,
                    ci < n,
                    cur < n,
                    cur == ci || visited[cur as int],
                    k <= nbrs.len(),
                    nbrs@ == out_targets(edges, cur),
                    forall|j: int| 0 <= j < nbrs.len() ==> #[trigger] nbrs[j] < n,
                    forall|j: int| 0 <= j < nbrs.len() ==> edges.contains((cur, #[trigger] nbrs[j])),
                    visited.len() == n,
                    stack_rest.is_prefix_of(stack@),
                    unvisited(visited@) <= unvisited0,
                    unvisited(visited@) == unvisited0 ==> stack@ == stack_rest,
                    forall|j: int| 0 <= j < stack.len() ==> #[trigger] stack[j] < n,
                    forall|j: int| 0 <= j < stack.len() ==> #[trigger] stack[j] == ci || visited[stack[j] as int],
                    forall|j: int| 0 <= j < order.len() ==> #[trigger] order[j] < n,
                    order@.no_duplicates(),
                    forall|x: int| 0 <= x < n ==> (visited[x] <==> order@.contains(x as usize)),
                    forall|x: int| 0 <= x < n && #[trigger] visited[x] ==> reaches(edges, ci, x as usize),
                    forall|j: int| 0 <= j < k ==> visited[#[trigger] nbrs[j] as int],
                    forall|x: usize, y: usize|
                        x < n && (x == ci || visited[x as int]) && !stack@.contains(x) && x != cur && #[trigger] edges.contains((x, y))
                            ==> visited[y as int],
                decreases nbrs.len() - k,
            {
                let nb = nbrs[k];
                proof {
                    assert(nbrs@.take(k + 1).drop_last() =~= nbrs@.take(k as int));
                    assert(nbrs@.take(k + 1).last() == nb);
                }
                if !visited[nb] {
                    proof {
                        if cur == ci {
                            let w = seq![ci, nb];
                            assert(walk_step(edges, w, 0));
                            assert(is_walk(edges, w));
                        } else {
                            let p0 = choose|p: Seq<usize>| #[trigger] is_walk(edges, p) && p[0] == ci && p.last() == cur;
                            let w = p0.push(nb);
                            assert forall|q: int| 0 <= q < w.len() - 1 implies #[trigger] walk_step(edges, w, q) by {
                                if q < p0.len() - 1 {
                                    assert(walk_step(edges, p0, q));
                                }
                            }
                            assert(is_walk(edges, w));
                        }
                        lemma_unvisited_set(visited@, nb as int);
                    }
                    let ghost old_visited = visited@;
                    let ghost old_order = order@;
                    let ghost old_stack = stack@;
                    visited.set(nb, true);
                    order.push(nb);
                    stack.push(nb);
                    proof {
                        assert(visited@ == old_visited.update(nb as int, true));
                        assert(order@ == old_order.push(nb));
                        assert(stack@ == old_stack.push(nb));
                        assert(!old_order.contains(nb));
                        assert forall|a: int, b: int| 0 <= a < b < order@.len() implies order@[a] != order@[b] by {
                            if b == order@.len() - 1 {
                                assert(old_order.contains(old_order[a]));
                            } else {
                                assert(old_order[a] != old_order[b]);
                            }
                        }
                        assert forall|x: int| 0 <= x < n implies (visited[x] <==> order@.contains(x as usize)) by {
                            if order@.contains(x as usize) && x as usize != nb {
                                let j = choose|j: int| 0 <= j < order@.len() && order@[j] == x as usize;
                                assert(old_order[j] == x as usize);
                            }
                            if x as usize == nb {
                                assert(order@[old_order.len() as int] == nb);
                            }
                            if old_order.contains(x as usize) {
                                let j = choose|j: int| 0 <= j < old_order.len() && old_order[j] == x as usize;
                                assert(order@[j] == x as usize);
                            }
                        }
                        assert(stack_rest.is_prefix_of(stack@));
                        assert forall|x: usize| stack@.contains(x) implies x == nb || old_stack.contains(x) by {
                            if stack@.contains(x) {
                                let j = choose|j: int| 0 <= j < stack@.len() && stack@[j] == x;
                                if j < old_stack.len() {
                                    assert(old_stack[j] == x);
                                }
                            }
                        }
                        assert forall|x: usize| old_stack.contains(x) implies stack@.contains(x) by {
                            if old_stack.contains(x) {
                                let j = choose|j: int| 0 <= j < old_stack.len() && old_stack[j] == x;
                                assert(stack@[j] == x);
                            }
                        }
                        assert(stack@[old_stack.len() as int] == nb);
                        assert forall|x: usize, y: usize|
                            x < n && (x == ci || visited[x as int]) && !stack@.contains(x) && x != cur
                                && #[trigger] edges.contains((x, y)) implies visited[y as int] by {
                            assert(!old_stack.contains(x));
                            assert(x != nb);
                            assert(old_visited[x as int] == visited[x as int]);
                            assert(old_visited[y as int] ==> visited[y as int]);
                        }
                    }
                }
                k += 1;
            }
            proof {
                assert(nbrs@.take(nbrs.len() as int) =~= nbrs@);
                assert(stack0.last() == cur);
                assert(stack0.drop_last() =~= stack_rest);
                assert(dfs_order(edges, visited@, order@, stack@) == dfs_order(edges, visited_at_pop, order_at_pop, stack0));
                assert forall|y: usize| #[trigger] edges.contains((cur, y)) implies visited[y as int] by {
                    lemma_out_targets_complete(edges, cur, y);
                    let j = choose|j: int| 0 <= j < nbrs.len() && nbrs[j] == y;
                }
            }
        }
        proof {
            assert forall|x: usize| #[trigger] reaches(edges, ci, x) implies x < n && visited[x as int] by {
                let p = choose|p: Seq<usize>| #[trigger] is_walk(edges, p) && p[0] == ci && p.last() == x;
                lemma_walk_visited(edges, p, ci, visited@, n);
            }
        }
        let r = self.ids_of(&order);
        proof {
            assert(order@ == target);
            assert(self@.index(caller@) == Some(ci as int));
            assert(r.deep_view() == transitive_order(self@, caller@));
            assert forall|a: int, b: int| 0 <= a < b < r.deep_view().len() implies r.deep_view()[a] != r.deep_view()[b] by {
                assert(order@[a] != order@[b]);
                assert(r.deep_view()[a] == nodes[order@[a] as int]);
                assert(r.deep_view()[b] == nodes[order@[b] as int]);
            }
            assert forall|id: FunctionIdView|
                r.deep_view().contains(id) <==> self@.calls_transitively(caller@, id) by {
                lemma_node_index(nodes, id);
                lemma_node_index(nodes, caller@);
                assert(self@.index(caller@) == Some(ci as int));
                if r.deep_view().contains(id) {
                    let j = choose|j: int| 0 <= j < r.deep_view().len() && r.deep_view()[j] == id;
                    let x = order@[j];
                    assert(order@.contains(x));
                    assert(visited[x as int]);
                    assert(nodes[x as int] == id);
                    match self@.index(id) {
                        Some(ix) => {
                            if ix != x as int {
                                if ix < x as int {
                                } else {
                                    assert(nodes[x as int] != id);
                                }
                            }
                        },
                        None => {
                            assert(nodes.contains(id));
                        },
                    }
                }
                if self@.calls_transitively(caller@, id) {
                    let ix = self@.index(id)->0;
                    assert(reaches(edges, ci, ix as usize));
                    assert(visited[ix]);
                    assert(order@.contains(ix as usize));
                    let j = choose|j: int| 0 <= j < order@.len() && order@[j] == ix as usize;
                    assert(r.deep_view()[j] == id);
                }
            }
        }
        r
    }
}

/// Number of `false` entries.
pub open spec fn unvisited(v: Seq<bool>) -> nat
    decreases v.len(),
{
    if v.len() == 0 {
        0
    } else {
        unvisited(v.drop_last()) + if v.last() {
            0nat
        } else {
            1nat
        }
    }
}

proof fn lemma_unvisited_set(v: Seq<bool>, i: int)
    requires
        0 <= i < v.len(),
        !v[i],
    ensures
        unvisited(v.update(i, true)) + 1 == unvisited(v),
    decreases v.len(),
{
    if i < v.len() - 1 {
        assert(v.update(i, true).drop_last() == v.drop_last().update(i, true));
        lemma_unvisited_set(v.drop_last(), i);
    } else {
        assert(v.update(i, true).drop_last() == v.drop_last());
    }
}

/// The neighbours `nbrs` visited in turn: each one not yet visited is
/// marked, appended to the order and pushed on the stack.
pub open spec fn visit_all(nbrs: Seq<usize>, visited: Seq<bool>, order: Seq<usize>, stack: Seq<usize>) -> (Seq<bool>, Seq<usize>, Seq<usize>)
    decreases nbrs.len(),
{
    if nbrs.len() == 0 {
        (visited, order, stack)
    } else {
        let (v, o, s) = visit_all(nbrs.drop_last(), visited, order, stack);
        let nb = nbrs.last();
        if nb < v.len() && !v[nb as int] {
            (v.update(nb as int, true), o.push(nb), s.push(nb))
        } else {
            (v, o, s)
        }
    }
}

pub proof fn lemma_visit_all_measure(nbrs: Seq<usize>, visited: Seq<bool>, order: Seq<usize>, stack: Seq<usize>)
    ensures
        ({
            let (v, o, s) = visit_all(nbrs, visited, order, stack);
            v.len() == visited.len() && unvisited(v) + s.len() == unvisited(visited) + stack.len()
        }),
    decreases nbrs.len(),
{
    if nbrs.len() > 0 {
        lemma_visit_all_measure(nbrs.drop_last(), visited, order, stack);
        let (v, o, s) = visit_all(nbrs.drop_last(), visited, order, stack);
        let nb = nbrs.last();
        if nb < v.len() && !v[nb as int] {
            lemma_unvisited_set(v, nb as int);
        }
    }
}

/// The order in which a depth-first search visits nodes: pop the top of
/// the stack, then visit its out-neighbours in the order the graph lists
/// them (most recent edge first), until the stack is empty.
pub open spec fn dfs_order(edges: Seq<(usize, usize)>, visited: Seq<bool>, order: Seq<usize>, stack: Seq<usize>) -> Seq<usize>
    decreases unvisited(visited) + stack.len(),
{
    if stack.len() == 0 {
        order
    } else {
        let cur = stack.last();
        proof {
            lemma_visit_all_measure(out_targets(edges, cur), visited, order, stack.drop_last());
        }
        let (v, o, s) = visit_all(out_targets(edges, cur), visited, order, stack.drop_last());
        dfs_order(edges, v, o, s)
    }
}

/// The functions reachable from `caller` in the order the search from it
/// first meets them.
pub open spec fn transitive_order(g: CallGraphView, caller: FunctionIdView) -> Seq<FunctionIdView> {
    match g.index(caller) {
        None => Seq::empty(),
        Some(ci) => dfs_order(g.edges, Seq::new(g.nodes.len(), |i: int| false), Seq::empty(), seq![ci as usize])
            .map_values(|k: usize| g.nodes[k as int]),
    }
}

proof fn lemma_walk_visited(edges: Seq<(usize, usize)>, p: Seq<usize>, ci: usize, visited: Seq<bool>, n: usize)
    requires
        is_walk(edges, p),
        p[0] == ci,
        ci < n,
        visited.len() == n,
        forall|x: usize, y: usize|
            x < n && (x == ci || visited[x as int]) && #[trigger] edges.contains((x, y)) ==> visited[y as int],
        forall|k: int| 0 <= k < edges.len() ==> (#[trigger] edges[k]).0 < n && edges[k].1 < n,
    ensures
        p.last() < n && visited[p.last() as int],
    decreases p.len(),
{
    if p.len() == 2 {
        assert(walk_step(edges, p, 0));
        let w = choose|w: int| 0 <= w < edges.len() && edges[w] == (p[0], p[1]);
    } else {
        let q = p.drop_last();
        assert forall|k: int| 0 <= k < q.len() - 1 implies #[trigger] walk_step(edges, q, k) by {
            assert(walk_step(edges, p, k));
        }
        lemma_walk_visited(edges, q, ci, visited, n);
        assert(walk_step(edges, p, p.len() - 2));
        let w = choose|w: int| 0 <= w < edges.len() && edges[w] == (p[p.len() - 2], p[p.len() - 1]);
    }
}

} // verus!
