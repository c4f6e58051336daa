//! Substitutability of throws: an implementation must not throw what the
//! interface or abstract method it implements does not allow.
use crate::call_graph::{CallGraph, CallGraphView};
use crate::diagnostic::{
    accepted_by, any_assignable, lemma_same_accepted, lemma_same_answers_trans, method_declared_types, propagation_fits,
    same_answers, TypeResolver,
};
use crate::propagation::{complete_for, compute_propagated_throws, direct_part, escapes_somehow, valid_route};
use crate::signature_map::{SignatureMap, SignatureMapView};
use crate::text::string_eq;
use crate::types::{
    ErrorType, ErrorTypeView, FunctionIdView, LspViolation, LspViolationView, MethodSignature,
    MethodSignatureView, PropagatedThrow, PropagatedThrowView, TypeRelation, TypeRelationView,
};
use vstd::prelude::*;

verus! {

broadcast use vstd::string::group_string_axioms;

/// `b` is a direct parent of the type named `a`.
pub open spec fn is_parent(rels: Seq<TypeRelationView>, a: Seq<char>, b: Seq<char>) -> bool {
    exists|i: int| 0 <= i < rels.len() && (#[trigger] rels[i]).child.name == a && rels[i].parent.name == b
}

/// The parents of `a`, in relation order.
pub open spec fn parents_of(rels: Seq<TypeRelationView>, a: Seq<char>) -> Seq<Seq<char>>
    decreases rels.len(),
{
    if rels.len() == 0 {
        Seq::empty()
    } else if rels.last().child.name == a {
        parents_of(rels.drop_last(), a).push(rels.last().parent.name)
    } else {
        parents_of(rels.drop_last(), a)
    }
}

pub open spec fn name_step(rels: Seq<TypeRelationView>, c: Seq<Seq<char>>, k: int) -> bool {
    is_parent(rels, c[k], c[k + 1])
}

/// `c` walks from `a` to `b`, each step from a type to one of its parents.
pub open spec fn is_chain(rels: Seq<TypeRelationView>, c: Seq<Seq<char>>, a: Seq<char>, b: Seq<char>) -> bool {
    &&& c.len() >= 2
    &&& c[0] == a
    &&& c.last() == b
    &&& forall|k: int| 0 <= k < c.len() - 1 ==> #[trigger] name_step(rels, c, k)
}

/// `b` is an ancestor of `a`: reachable over one or more parent relations.
pub open spec fn inherits(rels: Seq<TypeRelationView>, a: Seq<char>, b: Seq<char>) -> bool {
    exists|c: Seq<Seq<char>>| #[trigger] is_chain(rels, c, a, b)
}

/// Number of entries of `s` that do not occur in `v`.
pub open spec fn count_absent(s: Seq<Seq<char>>, v: Seq<Seq<char>>) -> nat
    decreases s.len(),
{
    if s.len() == 0 {
        0
    } else {
        count_absent(s.drop_last(), v) + if v.contains(s.last()) {
            0nat
        } else {
            1nat
        }
    }
}

pub proof fn lemma_count_absent_push(s: Seq<Seq<char>>, v: Seq<Seq<char>>, x: Seq<char>)
    requires
        !v.contains(x),
    ensures
        count_absent(s, v.push(x)) <= count_absent(s, v),
        s.contains(x) ==> count_absent(s, v.push(x)) < count_absent(s, v),
    decreases s.len(),
{
    if s.len() > 0 {
        let d = s.drop_last();
        lemma_count_absent_push(d, v, x);
        let y = s.last();
        if v.contains(y) {
            let j = choose|j: int| 0 <= j < v.len() && v[j] == y;
            assert(v.push(x)[j] == y);
        }
        if s.contains(x) && !d.contains(x) {
            let j = choose|j: int| 0 <= j < s.len() && s[j] == x;
            if j < s.len() - 1 {
                assert(d[j] == x);
            }
            assert(v.push(x)[v.len() as int] == x);
        }
        if v.push(x).contains(y) && y != x {
            let j = choose|j: int| 0 <= j < v.push(x).len() && v.push(x)[j] == y;
            assert(v[j] == y);
        }
    }
}

proof fn lemma_parents_of(rels: Seq<TypeRelationView>, a: Seq<char>)
    ensures
        forall|b: Seq<char>| #[trigger] parents_of(rels, a).contains(b) <==> is_parent(rels, a, b),
    decreases rels.len(),
{
    if rels.len() > 0 {
        let d = rels.drop_last();
        let last = rels.last();
        lemma_parents_of(d, a);
        assert(rels[rels.len() - 1] == last);
        assert forall|b: Seq<char>| #[trigger] parents_of(rels, a).contains(b) <==> is_parent(rels, a, b) by {
            let pr = parents_of(rels, a);
            let pd = parents_of(d, a);
            if pr.contains(b) {
                if pd.contains(b) {
                    assert(is_parent(d, a, b));
                    let i = choose|i: int| 0 <= i < d.len() && (#[trigger] d[i]).child.name == a && d[i].parent.name == b;
                    assert(rels[i] == d[i]);
                } else {
                    let j = choose|j: int| 0 <= j < pr.len() && pr[j] == b;
                    if last.child.name == a {
                        assert(pr == pd.push(last.parent.name));
                        if j < pd.len() {
                            assert(pd[j] == b);
                        }
                        assert(b == last.parent.name);
                    } else {
                        assert(pr == pd);
                    }
                }
            }
            if is_parent(rels, a, b) {
                let i = choose|i: int| 0 <= i < rels.len() && (#[trigger] rels[i]).child.name == a && rels[i].parent.name == b;
                if i < rels.len() - 1 {
                    assert(d[i] == rels[i]);
                    assert(is_parent(d, a, b));
                    assert(pd.contains(b));
                    let j = choose|j: int| 0 <= j < pd.len() && pd[j] == b;
                    if last.child.name == a {
                        assert(pr == pd.push(last.parent.name));
                        assert(pr[j] == b);
                    }
                } else {
                    assert(pr == pd.push(last.parent.name));
                    assert(pr[pr.len() - 1] == b);
                }
            }
        }
    }
}

fn parents_exec(relations: &Vec<TypeRelation>, name: &String) -> (r: Vec<String>)
    ensures
        r.deep_view() == parents_of(relations.deep_view(), name@),
{
    let ghost rels = relations.deep_view();
    let mut r: Vec<String> = Vec::new();
    let mut i: usize = 0;
    assert(r.deep_view() =~= Seq::<Seq<char>>::empty());
    while i < relations.len()
        invariant
            i <= relations.len(),
            rels == relations.deep_view(),
            r.deep_view() == parents_of(rels.take(i as int), name@),
        decreases relations.len() - i,
    {
        let rel = &relations[i];
        assert(rels[i as int] == rel@);
        assert(rels.take(i + 1).drop_last() == rels.take(i as int));
        assert(rels.take(i + 1).last() == rel@);
        if string_eq(&rel.child.name, name) {
            let ghost before = r.deep_view();
            let p = rel.parent.name.clone();
            r.push(p);
            assert(r.deep_view() =~= before.push(p@));
        }
        i += 1;
    }
    assert(rels.take(relations.len() as int) == rels);
    r
}

fn contains_name(v: &Vec<String>, s: &String) -> (r: bool)
    ensures
        r == v.deep_view().contains(s@),
{
    let mut i: usize = 0;
    while i < v.len()
        invariant
            i <= v.len(),
            forall|j: int| 0 <= j < i ==> v.deep_view()[j] != s@,
        decreases v.len() - i,
    {
        if string_eq(&v[i], s) {
            assert(v.deep_view()[i as int] == s@);
            return true;
        }
        i += 1;
    }
    false
}

/// The parents of each of `vs`, in order.
pub open spec fn flat_parents(rels: Seq<TypeRelationView>, vs: Seq<Seq<char>>) -> Seq<Seq<char>>
    decreases vs.len(),
{
    if vs.len() == 0 {
        Seq::empty()
    } else {
        flat_parents(rels, vs.drop_last()) + parents_of(rels, vs.last())
    }
}

/// `vs` lists `c` and then its ancestors, each once: an order in which a
/// search of the parent relations can visit them.
pub open spec fn ancestry_order(rels: Seq<TypeRelationView>, c: Seq<char>, vs: Seq<Seq<char>>) -> bool {
    &&& vs.len() > 0
    &&& vs[0] == c
    &&& vs.no_duplicates()
    &&& forall|x: Seq<char>| #[trigger] vs.contains(x) <==> (x == c || inherits(rels, c, x))
}

/// The types a search of the parent relations visits, in order, when it
/// keeps a stack of names (`stack`, top last) among the candidates
/// `cands`: it pops the top, skips it if already visited, else visits it and
/// pushes its parents in the order of the relations.
pub open spec fn parent_search(
    rels: Seq<TypeRelationView>,
    cands: Seq<Seq<char>>,
    visited: Seq<Seq<char>>,
    stack: Seq<Seq<char>>,
) -> Seq<Seq<char>>
    decreases count_absent(cands, visited), stack.len(),
{
    if stack.len() == 0 {
        visited
    } else {
        let cur = stack.last();
        if visited.contains(cur) || !cands.contains(cur) {
            parent_search(rels, cands, visited, stack.drop_last())
        } else {
            proof {
                lemma_count_absent_push(cands, visited, cur);
            }
            parent_search(rels, cands, visited.push(cur), stack.drop_last() + parents_of(rels, cur))
        }
    }
}

/// The types the search from `c` visits, `c` first.
pub open spec fn ancestor_visit_order(rels: Seq<TypeRelationView>, c: Seq<char>) -> Seq<Seq<char>> {
    parent_search(rels, seq![c] + rels.map_values(|r: TypeRelationView| r.parent.name), Seq::empty(), seq![c])
}

/// `l` is what the search from `c` collects: the parents of each visited
/// type, in the order it visits them.
pub open spec fn ancestor_list_fits(rels: Seq<TypeRelationView>, c: Seq<char>, l: Seq<Seq<char>>) -> bool {
    &&& exists|vs: Seq<Seq<char>>| #[trigger] ancestry_order(rels, c, vs) && l == flat_parents(rels, vs)
    &&& l == flat_parents(rels, ancestor_visit_order(rels, c))
}

/// Every ancestor of the type named `start_type`, walked depth-first; a
/// type reached along two ways is listed once per way.
fn get_all_parent_types(start_type: &String, relations: &Vec<TypeRelation>) -> (result: Vec<String>)
    ensures
        forall|b: Seq<char>| result.deep_view().contains(b) <==> inherits(relations.deep_view(), start_type@, b),
        ancestor_list_fits(relations.deep_view(), start_type@, result.deep_view()),
{
    let ghost rels = relations.deep_view();
    let ghost cands: Seq<Seq<char>> = seq![start_type@] + rels.map_values(|r: TypeRelationView| r.parent.name);
    let mut result: Vec<String> = Vec::new();
    let mut visited: Vec<String> = Vec::new();
    let mut queue: Vec<String> = Vec::new();
    queue.push(start_type.clone());
    proof {
        assert(queue.deep_view()[0] == start_type@);
        assert(cands[0] == start_type@);
        assert(result.deep_view() =~= flat_parents(rels, visited.deep_view()));
        assert(visited.deep_view() =~= Seq::<Seq<char>>::empty());
        assert(queue.deep_view() =~= seq![start_type@]);
    }
    let ghost target = parent_search(rels, cands, visited.deep_view(), queue.deep_view());
    while queue.len() > 0
        invariant
            parent_search(rels, cands, visited.deep_view(), queue.deep_view()) == target,
            rels == relations.deep_view(),
            cands == seq![start_type@] + rels.map_values(|r: TypeRelationView| r.parent.name),
            forall|k: int| 0 <= k < queue.len() ==> cands.contains(#[trigger] queue.deep_view()[k]),
            forall|k: int| 0 <= k < queue.len() ==> #[trigger] queue.deep_view()[k] == start_type@ || inherits(rels, start_type@, queue.deep_view()[k]),
            forall|k: int| 0 <= k < visited.len() ==> #[trigger] visited.deep_view()[k] == start_type@ || inherits(rels, start_type@, visited.deep_view()[k]),
            forall|k: int| 0 <= k < result.len() ==> inherits(rels, start_type@, #[trigger] result.deep_view()[k]),
            queue.deep_view().contains(start_type@) || visited.deep_view().contains(start_type@),
            forall|x: Seq<char>, y: Seq<char>| visited.deep_view().contains(x) && #[trigger] is_parent(rels, x, y)
                ==> result.deep_view().contains(y) && (queue.deep_view().contains(y) || visited.deep_view().contains(y)),
            visited.deep_view().no_duplicates(),
            result.deep_view() == flat_parents(rels, visited.deep_view()),
            visited.len() > 0 ==> visited.deep_view()[0] == start_type@,
            visited.len() == 0 ==> queue.deep_view() == seq![start_type@],
        decreases count_absent(cands, visited.deep_view()), queue.len(),
    {
        let ghost q0 = queue.deep_view();
        let ghost qv0 = queue@;
        let current = queue.pop().unwrap();
        let ghost qrest = queue.deep_view();
        proof {
            assert(queue@ == qv0.drop_last());
            assert(qrest =~= q0.drop_last());
            assert(current@ == q0.last());
            assert(q0[q0.len() - 1] == current@);
            assert forall|y: Seq<char>| q0.contains(y) <==> (qrest.contains(y) || y == current@) by {
                if q0.contains(y) {
                    let j = choose|j: int| 0 <= j < q0.len() && q0[j] == y;
                    if j < q0.len() - 1 {
                        assert(qrest[j] == y);
                    }
                }
                if qrest.contains(y) {
                    let j = choose|j: int| 0 <= j < qrest.len() && qrest[j] == y;
                    assert(q0[j] == y);
                }
            }
        }
        if contains_name(&visited, &current) {
            assert(parent_search(rels, cands, visited.deep_view(), q0) == parent_search(rels, cands, visited.deep_view(), qrest));
            continue;
        }
        let ghost v0 = visited.deep_view();
        let ghost vv0 = visited@;
        proof {
            lemma_count_absent_push(cands, v0, current@);
        }
        let c2 = current.clone();
        visited.push(c2);
        proof {
            assert(visited@ == vv0.push(c2));
            assert(visited.deep_view() =~= v0.push(current@));
            assert(visited.deep_view()[v0.len() as int] == current@);
        }
        let parents = parents_exec(relations, &current);
        proof {
            lemma_parents_of(rels, current@);
        }
        let ghost r0 = result.deep_view();
        let ghost qb = queue.deep_view();
        let mut k: usize = 0;
        assert(parents.deep_view().take(0) =~= Seq::<Seq<char>>::empty());
        assert(result.deep_view() =~= r0 + parents.deep_view().take(0));
        while k < parents.len()
            invariant
                result.deep_view() == r0 + parents.deep_view().take(k as int),
                queue.deep_view() == qb + parents.deep_view().take(k as int),
                rels == relations.deep_view(),
                cands == seq![start_type@] + rels.map_values(|r: TypeRelationView| r.parent.name),
                parents.deep_view() == parents_of(rels, current@),
                forall|b: Seq<char>| parents_of(rels, current@).contains(b) <==> is_parent(rels, current@, b),
                current@ == start_type@ || inherits(rels, start_type@, current@),
                k <= parents.len(),
                r0.is_prefix_of(result.deep_view()),
                qb.is_prefix_of(queue.deep_view()),
                forall|j: int| 0 <= j < k ==> result.deep_view().contains(#[trigger] parents.deep_view()[j]) && queue.deep_view().contains(parents.deep_view()[j]),
                forall|j: int| 0 <= j < queue.len() ==> cands.contains(#[trigger] queue.deep_view()[j]),
                forall|j: int| 0 <= j < queue.len() ==> #[trigger] queue.deep_view()[j] == start_type@ || inherits(rels, start_type@, queue.deep_view()[j]),
                forall|j: int| 0 <= j < result.len() ==> inherits(rels, start_type@, #[trigger] result.deep_view()[j]),
            decreases parents.len() - k,
        {
            let p = &parents[k];
            let ghost pv = p@;
            assert(parents.deep_view()[k as int] == pv);
            proof {
                assert(parents_of(rels, current@).contains(pv));
                assert(is_parent(rels, current@, pv));
                let i = choose|i: int| 0 <= i < rels.len() && (#[trigger] rels[i]).child.name == current@ && rels[i].parent.name == pv;
                assert(cands[i + 1] == pv);
                if current@ == start_type@ {
                    let c = seq![start_type@, pv];
                    assert(c[0] == start_type@ && c[1] == pv);
                    assert(name_step(rels, c, 0));
                    assert(is_chain(rels, c, start_type@, pv));
                } else {
                    let c0 = choose|c: Seq<Seq<char>>| #[trigger] is_chain(rels, c, start_type@, current@);
                    let c = c0.push(pv);
                    assert forall|t: int| 0 <= t < c.len() - 1 implies #[trigger] name_step(rels, c, t) by {
                        assert(c[t] == c0[t]);
                        if t < c0.len() - 1 {
                            assert(name_step(rels, c0, t));
                            assert(c[t + 1] == c0[t + 1]);
                        } else {
                            assert(c[t] == current@);
                            assert(c[t + 1] == pv);
                        }
                    }
                    assert(is_chain(rels, c, start_type@, pv));
                }
            }
            let ghost rb = result.deep_view();
            let ghost qbb = queue.deep_view();
            let p1 = p.clone();
            let p2 = p.clone();
            result.push(p1);
            queue.push(p2);
            proof {
                assert(result.deep_view() =~= rb.push(pv));
                assert(parents.deep_view().take(k + 1) =~= parents.deep_view().take(k as int).push(pv));
                assert(result.deep_view() =~= r0 + parents.deep_view().take(k + 1));
                assert(queue.deep_view() =~= qbb.push(pv));
                assert(queue.deep_view() =~= qb + parents.deep_view().take(k + 1));
                assert(result.deep_view()[rb.len() as int] == pv);
                assert(queue.deep_view()[qbb.len() as int] == pv);
                assert forall|j: int| 0 <= j < k + 1 implies result.deep_view().contains(#[trigger] parents.deep_view()[j]) && queue.deep_view().contains(parents.deep_view()[j]) by {
                    if j < k {
                        let a = choose|a: int| 0 <= a < rb.len() && rb[a] == parents.deep_view()[j];
                        assert(result.deep_view()[a] == rb[a]);
                        let b = choose|b: int| 0 <= b < qbb.len() && qbb[b] == parents.deep_view()[j];
                        assert(queue.deep_view()[b] == qbb[b]);
                    }
                }
            }
            k += 1;
        }
        proof {
            let vd = visited.deep_view();
            let qd = queue.deep_view();
            let rd = result.deep_view();
            assert(parents.deep_view().take(parents.len() as int) =~= parents.deep_view());
            assert(qb == qrest);
            assert(cands.contains(current@));
            assert(!v0.contains(current@));
            assert(qd =~= qrest + parents_of(rels, current@));
            assert(parent_search(rels, cands, v0, q0) == parent_search(rels, cands, v0.push(current@), qrest + parents_of(rels, current@)));
            assert(vd == v0.push(current@));
            assert(vd.drop_last() =~= v0);
            assert(vd.last() == current@);
            assert(rd =~= flat_parents(rels, vd));
            assert forall|a: int, b: int| 0 <= a < b < vd.len() implies vd[a] != vd[b] by {
                if b == vd.len() - 1 {
                    assert(vd[a] == v0[a]);
                    assert(v0.contains(v0[a]));
                } else {
                    assert(vd[a] == v0[a]);
                    assert(vd[b] == v0[b]);
                }
            }
            if v0.len() == 0 {
                assert(q0 == seq![start_type@]);
                assert(current@ == start_type@);
            } else {
                assert(vd[0] == v0[0]);
            }
            assert forall|y: Seq<char>| qrest.contains(y) implies qd.contains(y) by {
                let j = choose|j: int| 0 <= j < qrest.len() && qrest[j] == y;
                assert(qd[j] == y);
            }
            assert forall|y: Seq<char>| r0.contains(y) implies rd.contains(y) by {
                let j = choose|j: int| 0 <= j < r0.len() && r0[j] == y;
                assert(rd[j] == y);
            }
            assert forall|y: Seq<char>| v0.contains(y) implies vd.contains(y) by {
                let j = choose|j: int| 0 <= j < v0.len() && v0[j] == y;
                assert(vd[j] == y);
            }
            assert forall|x: Seq<char>, y: Seq<char>| vd.contains(x) && #[trigger] is_parent(rels, x, y)
                implies rd.contains(y) && (qd.contains(y) || vd.contains(y)) by {
                if x == current@ {
                    assert(parents_of(rels, current@).contains(y));
                    let j = choose|j: int| 0 <= j < parents.deep_view().len() && parents.deep_view()[j] == y;
                } else {
                    let j = choose|j: int| 0 <= j < vd.len() && vd[j] == x;
                    if j < v0.len() {
                        assert(v0[j] == x);
                    }
                    assert(v0.contains(x));
                    if q0.contains(y) && !qrest.contains(y) {
                        assert(y == current@);
                    }
                }
            }
            assert forall|t: int| 0 <= t < visited.len() implies #[trigger] visited.deep_view()[t] == start_type@ || inherits(rels, start_type@, visited.deep_view()[t]) by {
                if t < v0.len() {
                    assert(vd[t] == v0[t]);
                }
            }
            if qrest.contains(start_type@) {
            } else if v0.contains(start_type@) {
            } else {
                assert(current@ == start_type@);
            }
        }
    }
    proof {
        let vd = visited.deep_view();
        assert(vd.contains(start_type@));
        assert(vd.len() > 0);
        assert forall|b: Seq<char>| inherits(rels, start_type@, b) implies result.deep_view().contains(b) by {
            let c = choose|c: Seq<Seq<char>>| #[trigger] is_chain(rels, c, start_type@, b);
            lemma_chain_visited(rels, c, visited.deep_view(), result.deep_view());
        }
        assert forall|b: Seq<char>| inherits(rels, start_type@, b) implies vd.contains(b) by {
            let c = choose|c: Seq<Seq<char>>| #[trigger] is_chain(rels, c, start_type@, b);
            lemma_chain_visited(rels, c, visited.deep_view(), result.deep_view());
        }
        assert forall|x: Seq<char>| #[trigger] vd.contains(x) <==> (x == start_type@ || inherits(rels, start_type@, x)) by {
            if vd.contains(x) {
                let j = choose|j: int| 0 <= j < vd.len() && vd[j] == x;
                assert(visited.deep_view()[j] == start_type@ || inherits(rels, start_type@, visited.deep_view()[j]));
            }
        }
        assert(ancestry_order(rels, start_type@, vd));
        assert(vd == ancestor_visit_order(rels, start_type@));
        assert forall|b: Seq<char>| result.deep_view().contains(b) implies inherits(rels, start_type@, b) by {
            let j = choose|j: int| 0 <= j < result.deep_view().len() && result.deep_view()[j] == b;
        }
    }
    result
}

proof fn lemma_chain_visited(rels: Seq<TypeRelationView>, c: Seq<Seq<char>>, vd: Seq<Seq<char>>, rd: Seq<Seq<char>>)
    requires
        c.len() >= 2,
        vd.contains(c[0]),
        forall|t: int| 0 <= t < c.len() - 1 ==> #[trigger] name_step(rels, c, t),
        forall|x: Seq<char>, y: Seq<char>| vd.contains(x) && #[trigger] is_parent(rels, x, y) ==> rd.contains(y) && vd.contains(y),
    ensures
        rd.contains(c.last()),
        vd.contains(c.last()),
    decreases c.len(),
{
    if c.len() == 2 {
        assert(name_step(rels, c, 0));
    } else {
        let d = c.drop_last();
        assert forall|t: int| 0 <= t < d.len() - 1 implies #[trigger] name_step(rels, d, t) by {
            assert(name_step(rels, c, t));
        }
        lemma_chain_visited(rels, d, vd, rd);
        assert(name_step(rels, c, c.len() - 2));
    }
}

/// The method of type `t` named `n`; the last one listed wins.
pub open spec fn method_for(methods: Seq<MethodSignatureView>, t: Seq<char>, n: Seq<char>) -> Option<MethodSignatureView>
    decreases methods.len(),
{
    if methods.len() == 0 {
        None
    } else if methods.last().type_id.name == t && methods.last().method_name == n {
        Some(methods.last())
    } else {
        method_for(methods.drop_last(), t, n)
    }
}

fn find_method<'a>(methods: &'a Vec<MethodSignature>, start_type: &String, method_name: &String) -> (r: Option<&'a MethodSignature>)
    ensures
        match r {
            Some(m) => method_for(methods.deep_view(), start_type@, method_name@) == Some(m@),
            None => method_for(methods.deep_view(), start_type@, method_name@) is None,
        },
{
    let ghost ms = methods.deep_view();
    let mut i = methods.len();
    assert(ms.take(i as int) == ms);
    while i > 0
        invariant
            i <= methods.len(),
            ms == methods.deep_view(),
            method_for(ms, start_type@, method_name@) == method_for(ms.take(i as int), start_type@, method_name@),
        decreases i,
    {
        let m = &methods[i - 1];
        assert(ms[i - 1] == m@);
        assert(ms.take(i as int).last() == m@);
        assert(ms.take(i as int).drop_last() == ms.take(i - 1));
        if string_eq(&m.type_id.name, start_type) && string_eq(&m.method_name, method_name) {
            return Some(m);
        }
        i -= 1;
    }
    None
}

/// The ancestor `p` has a method named `n` that allows no throw at all.
pub open spec fn allows_nothing(methods: Seq<MethodSignatureView>, p: Seq<char>, n: Seq<char>) -> bool {
    method_for(methods, p, n) matches Some(ms) && method_declared_types(ms).len() == 0
}

/// Whether a throw of `p`'s type violates a parent that declares
/// `declared`, given whether the resolver accepted a named type.
pub open spec fn illegal_check(p: PropagatedThrowView, declared: Seq<Seq<char>>, accepted: bool) -> Option<ErrorTypeView> {
    match p.error_type {
        ErrorTypeView::Named(_) => if accepted {
            None
        } else {
            Some(p.error_type)
        },
        _ => if declared.len() == 0 {
            Some(p.error_type)
        } else {
            None
        },
    }
}

/// Against a parent method, an untyped throw or a rethrow is illegal
/// exactly when the method declares no throw at all: when it declares
/// something, every throw listed as illegal is of a named type; when it
/// declares nothing, every untyped throw and every rethrow is listed; and
/// a named type is listed exactly when the resolver did not accept it.
pub proof fn law_untyped_throw_is_illegal_only_where_nothing_is_declared(
    ps: Seq<PropagatedThrowView>,
    declared: Seq<Seq<char>>,
    answers: Seq<bool>,
)
    requires
        answers.len() == ps.len(),
    ensures
        declared.len() > 0 ==> forall|k: int| 0 <= k < illegal_all(ps, declared, answers).len()
            ==> (#[trigger] illegal_all(ps, declared, answers)[k]) is Named,
        declared.len() == 0 ==> forall|i: int| 0 <= i < ps.len() && !(#[trigger] ps[i].error_type is Named)
            ==> illegal_all(ps, declared, answers).contains(ps[i].error_type),
        forall|i: int| 0 <= i < ps.len() && (#[trigger] ps[i].error_type is Named) && !answers[i]
            ==> illegal_all(ps, declared, answers).contains(ps[i].error_type),
        forall|k: int| #![trigger illegal_all(ps, declared, answers)[k]] 0 <= k < illegal_all(ps, declared, answers).len()
            ==> exists|i: int| 0 <= i < ps.len() && (#[trigger] ps[i]).error_type == illegal_all(ps, declared, answers)[k]
                && (ps[i].error_type is Named ==> !answers[i]),
    decreases ps.len(),
{
    if ps.len() > 0 {
        let p2 = ps.drop_last();
        let a2 = answers.drop_last();
        law_untyped_throw_is_illegal_only_where_nothing_is_declared(p2, declared, a2);
        let prev = illegal_all(p2, declared, a2);
        let r = illegal_all(ps, declared, answers);
        let n = ps.len() - 1;
        assert(prev.is_prefix_of(r));
        assert(ps.last() == ps[n] && answers.last() == answers[n]);
        assert forall|k: int| #![trigger r[k]] 0 <= k < r.len() implies exists|i: int| 0 <= i < ps.len() && (#[trigger] ps[i]).error_type == r[k]
            && (ps[i].error_type is Named ==> !answers[i]) by {
            if k < prev.len() {
                assert(r[k] == prev[k]);
                let i = choose|i: int| 0 <= i < p2.len() && (#[trigger] p2[i]).error_type == prev[k]
                    && (p2[i].error_type is Named ==> !a2[i]);
                assert(ps[i] == p2[i] && answers[i] == a2[i]);
            } else {
                assert(r[k] == ps[n].error_type);
            }
        }
        if declared.len() > 0 {
            assert forall|k: int| 0 <= k < r.len() implies (#[trigger] r[k]) is Named by {
                if k < prev.len() {
                    assert(r[k] == prev[k]);
                }
            }
        }
        assert forall|i: int| 0 <= i < ps.len() && ((declared.len() == 0 && !(#[trigger] ps[i].error_type is Named))
            || (ps[i].error_type is Named && !answers[i])) implies r.contains(ps[i].error_type) by {
            if i < n {
                assert(ps[i] == p2[i] && answers[i] == a2[i]);
                let w = choose|w: int| 0 <= w < prev.len() && prev[w] == ps[i].error_type;
                assert(r[w] == prev[w]);
            } else {
                assert(r[r.len() - 1] == ps[n].error_type);
            }
        }
    }
}

pub open spec fn illegal_all(ps: Seq<PropagatedThrowView>, declared: Seq<Seq<char>>, answers: Seq<bool>) -> Seq<ErrorTypeView>
    decreases ps.len(),
{
    if ps.len() == 0 || answers.len() != ps.len() {
        Seq::empty()
    } else {
        let rest = illegal_all(ps.drop_last(), declared, answers.drop_last());
        match illegal_check(ps.last(), declared, answers.last()) {
            Some(e) => rest.push(e),
            None => rest,
        }
    }
}

fn method_declared(m: &MethodSignature) -> (r: Vec<String>)
    ensures
        r.deep_view() == method_declared_types(m@),
{
    let mut r: Vec<String> = Vec::new();
    let mut i: usize = 0;
    assert(r.deep_view() =~= method_declared_types(m@).take(0));
    while i < m.declared_throws.len()
        invariant
            i <= m.declared_throws.len(),
            r.deep_view() == method_declared_types(m@).take(i as int),
        decreases m.declared_throws.len() - i,
    {
        let ghost before = r.deep_view();
        let e = m.declared_throws[i].error_type.clone();
        r.push(e);
        proof {
            assert(m@.declared_throws[i as int] == m.declared_throws[i as int]@);
            assert(r.deep_view() =~= before.push(e@));
            assert(r.deep_view() =~= method_declared_types(m@).take(i + 1));
        }
        i += 1;
    }
    assert(method_declared_types(m@).take(m.declared_throws.len() as int) =~= method_declared_types(m@));
    r
}

/// The resolver's answer on whether a throw of `p`'s type is allowed by
/// `declared`, asked in `file`: only named types are asked about.
pub open spec fn lsp_accepts<R: TypeResolver>(r: R, file: Seq<char>, p: PropagatedThrowView, declared: Seq<Seq<char>>) -> bool {
    match p.error_type {
        ErrorTypeView::Named(t) => accepted_by(r, file, t, declared),
        _ => false,
    }
}

/// The types among `propagated` that the parent method does not allow, in
/// order. A named type is allowed when the resolver finds it assignable to
/// a declared one; an untyped throw or a rethrow only when the parent
/// declares something. Holds for whatever the resolver answers.
fn find_illegal_throws<R: TypeResolver>(
    propagated: &Vec<PropagatedThrow>,
    parent_method: &MethodSignature,
    resolver: &mut R,
    file_path: &str,
) -> (result: Vec<ErrorType>)
    ensures
        exists|answers: Seq<bool>|
            answers.len() == propagated.len()
            && (method_declared_types(parent_method@).len() == 0 ==> forall|i: int| 0 <= i < answers.len() ==> !#[trigger] answers[i])
            && (old(resolver).states_answers() ==> forall|i: int| 0 <= i < answers.len()
                ==> #[trigger] answers[i] == lsp_accepts(*old(resolver), file_path@, propagated.deep_view()[i], method_declared_types(parent_method@)))
            && result.deep_view() == illegal_all(propagated.deep_view(), method_declared_types(parent_method@), answers),
        same_answers(*old(resolver), *final(resolver)),
{
    let ghost r0 = *resolver;
    let declared = method_declared(parent_method);
    let ghost ps = propagated.deep_view();
    let ghost dts = method_declared_types(parent_method@);
    let ghost mut answers: Seq<bool> = Seq::empty();
    let mut result: Vec<ErrorType> = Vec::new();
    assert(result.deep_view() =~= Seq::<ErrorTypeView>::empty());
    let mut i: usize = 0;
    while i < propagated.len()
        invariant
            i <= propagated.len(),
            ps == propagated.deep_view(),
            declared.deep_view() == dts,
            answers.len() == i,
            dts.len() == 0 ==> forall|j: int| 0 <= j < answers.len() ==> !#[trigger] answers[j],
            r0 == *old(resolver),
            same_answers(r0, *resolver),
            r0.states_answers() ==> forall|j: int| 0 <= j < answers.len() ==> #[trigger] answers[j] == lsp_accepts(r0, file_path@, ps[j], dts),
            result.deep_view() == illegal_all(ps.take(i as int), dts, answers),
        decreases propagated.len() - i,
    {
        let p = &propagated[i];
        assert(ps[i as int] == p@);
        let mut accepted = false;
        match &p.error_type {
            ErrorType::Named(thrown) => {
                let ghost rb = *resolver;
                accepted = any_assignable(resolver, file_path, thrown.as_str(), &declared);
                proof {
                    if r0.states_answers() {
                        lemma_same_accepted(r0, rb, file_path@, thrown@, dts);
                    }
                    lemma_same_answers_trans(r0, rb, *resolver);
                }
                if !accepted {
                    let ghost before = result.deep_view();
                    let e = p.error_type.clone();
                    result.push(e);
                    assert(result.deep_view() =~= before.push(e@));
                }
            },
            _ => {
                if declared.len() == 0 {
                    let ghost before = result.deep_view();
                    let e = p.error_type.clone();
                    result.push(e);
                    assert(result.deep_view() =~= before.push(e@));
                }
            },
        }
        let ghost a0 = answers;
        proof {
            answers = answers.push(accepted);
            assert(answers.drop_last() =~= a0);
            assert(ps.take(i + 1).drop_last() == ps.take(i as int));
            assert(ps.take(i + 1).last() == p@);
            assert forall|j: int| dts.len() == 0 && 0 <= j < answers.len() implies !#[trigger] answers[j] by {
                if j < a0.len() {
                    assert(answers[j] == a0[j]);
                }
            }
            assert forall|j: int| r0.states_answers() && 0 <= j < answers.len() implies #[trigger] answers[j] == lsp_accepts(r0, file_path@, ps[j], dts) by {
                if j < a0.len() {
                    assert(answers[j] == a0[j]);
                }
            }
        }
        i += 1;
    }
    assert(ps.take(propagated.len() as int) == ps);
    result
}

/// A violation that the analysis may report: some illegal type, a function
/// of the table that belongs to a class, a method of an ancestor of that
/// class with the function's name, and each illegal type the type of an
/// escape route of the function.
pub open spec fn violation_valid(
    m: SignatureMapView,
    g: CallGraphView,
    rels: Seq<TypeRelationView>,
    methods: Seq<MethodSignatureView>,
    v: LspViolationView,
) -> bool {
    &&& v.illegal_throws.len() > 0
    &&& class_of(m, v.implementation) is Some
    &&& exists|p: Seq<char>| #[trigger] inherits(rels, class_of(m, v.implementation)->0, p)
            && method_for(methods, p, v.implementation.name) == Some(v.parent_method)
    &&& forall|e: int| 0 <= e < v.illegal_throws.len() ==> type_escapes(g, m, v.implementation, #[trigger] v.illegal_throws[e])
}

/// Some escape route of `f` carries an error of type `t`.
pub open spec fn type_escapes(g: CallGraphView, m: SignatureMapView, f: FunctionIdView, t: ErrorTypeView) -> bool {
    exists|p: PropagatedThrowView| valid_route(g, m, f, p) && p.error_type == t
}

/// The class of the function `f` of the table, if it is a method.
pub open spec fn class_of(m: SignatureMapView, f: FunctionIdView) -> Option<Seq<char>> {
    match m.get(f) {
        Some(s) => s.class_name,
        None => None,
    }
}

/// `vs` holds a violation of `f` against the method that the ancestor `p`
/// has under `f`'s name.
pub open spec fn reports(vs: Seq<LspViolationView>, methods: Seq<MethodSignatureView>, f: FunctionIdView, p: Seq<char>) -> bool {
    exists|k: int| 0 <= k < vs.len() && (#[trigger] vs[k]).implementation == f
        && method_for(methods, p, f.name) == Some(vs[k].parent_method)
}

/// `f` is a method of class `c`, its ancestor `p` has a method of the same
/// name that allows no throw, and `f` lets a throw escape.
pub open spec fn must_report(
    m: SignatureMapView,
    g: CallGraphView,
    rels: Seq<TypeRelationView>,
    methods: Seq<MethodSignatureView>,
    i: int,
    p: Seq<char>,
) -> bool {
    &&& 0 <= i < m.keys.len()
    &&& m.values[i].class_name matches Some(c) && inherits(rels, c, p)
    &&& allows_nothing(methods, p, m.keys[i].name)
    &&& escapes_somehow(g, m, m.keys[i])
}

/// The violations of `f` found over the ancestor list `pts`, given the
/// throws escaping `f` (`pss`) and the resolver's answers (`ans`) at each
/// ancestor that has a method of `f`'s name.
pub open spec fn violations_for(
    f: FunctionIdView,
    methods: Seq<MethodSignatureView>,
    pts: Seq<Seq<char>>,
    pss: Seq<Seq<PropagatedThrowView>>,
    ans: Seq<Seq<bool>>,
) -> Seq<LspViolationView>
    decreases pts.len(),
{
    if pts.len() == 0 {
        Seq::empty()
    } else {
        let rest = violations_for(f, methods, pts.drop_last(), pss.drop_last(), ans.drop_last());
        match method_for(methods, pts.last(), f.name) {
            None => rest,
            Some(pm) => {
                let ill = illegal_all(pss.last(), method_declared_types(pm), ans.last());
                if ill.len() > 0 {
                    rest.push(LspViolationView { implementation: f, parent_method: pm, illegal_throws: ill })
                } else {
                    rest
                }
            },
        }
    }
}

/// The violations of the first `pts.len()` functions of the table, in
/// table order.
pub open spec fn lsp_all(
    m: SignatureMapView,
    methods: Seq<MethodSignatureView>,
    pts: Seq<Seq<Seq<char>>>,
    pss: Seq<Seq<Seq<PropagatedThrowView>>>,
    ans: Seq<Seq<Seq<bool>>>,
) -> Seq<LspViolationView>
    decreases pts.len(),
{
    if pts.len() == 0 {
        Seq::empty()
    } else {
        lsp_all(m, methods, pts.drop_last(), pss.drop_last(), ans.drop_last())
            + violations_for(m.keys[pts.len() - 1], methods, pts.last(), pss.last(), ans.last())
    }
}

/// What the search of function `j` can be given: the ancestor list of its
/// class (none without a class), and at each ancestor with a method of its
/// name, throws that meet what `compute_propagated_throws` promises and
/// the answers of `r` in the function's file (all refusals when the method
/// allows nothing).
pub open spec fn row_fits<R: TypeResolver>(
    r: R,
    m: SignatureMapView,
    g: CallGraphView,
    rels: Seq<TypeRelationView>,
    methods: Seq<MethodSignatureView>,
    j: int,
    pt: Seq<Seq<char>>,
    ps: Seq<Seq<PropagatedThrowView>>,
    an: Seq<Seq<bool>>,
) -> bool {
    &&& match m.values[j].class_name {
        None => pt.len() == 0,
        Some(c) => ancestor_list_fits(rels, c, pt),
    }
    &&& ps.len() == pt.len()
    &&& an.len() == pt.len()
    &&& forall|k: int| 0 <= k < pt.len() && (#[trigger] method_for(methods, pt[k], m.keys[j].name)) is Some ==> {
        &&& propagation_fits(g, m, m.keys[j], ps[k])
        &&& an[k].len() == ps[k].len()
        &&& method_declared_types(method_for(methods, pt[k], m.keys[j].name)->0).len() == 0
            ==> forall|t: int| 0 <= t < an[k].len() ==> !#[trigger] an[k][t]
        &&& r.states_answers() ==> forall|t: int| 0 <= t < an[k].len() ==> #[trigger] an[k][t] == lsp_accepts(
            r,
            m.values[j].id.file_path,
            ps[k][t],
            method_declared_types(method_for(methods, pt[k], m.keys[j].name)->0),
        )
    }
}

proof fn lemma_same_lsp_accepts<R: TypeResolver>(a: R, b: R, file: Seq<char>, p: PropagatedThrowView, declared: Seq<Seq<char>>)
    requires
        same_answers(a, b),
        a.states_answers(),
    ensures
        lsp_accepts(a, file, p, declared) == lsp_accepts(b, file, p, declared),
{
    if let ErrorTypeView::Named(t) = p.error_type {
        lemma_same_accepted(a, b, file, t, declared);
    }
}

/// The violations of the table's functions, in table order: for each
/// method of a class, for each entry of its class's ancestor list (the
/// parents of each type a search from the class visits, so an ancestor
/// reached twice comes twice) that has a method of the same name, one
/// violation when some escaping throw is not allowed there. This is
/// `lsp_all` over the ancestor lists, the escaping throws and the
/// resolver's answers, asked in the implementation's file with each type
/// the ancestor's method declares (and, for a resolver that states its
/// answers, exactly those answers). Every violation is valid in the sense of
/// `violation_valid`; and when the ancestor's method declares nothing, an
/// implementation that lets a throw escape (see `escapes_somehow`) is
/// reported.
pub fn generate_lsp_violations<R: TypeResolver>(
    signatures: &SignatureMap,
    method_signatures: &Vec<MethodSignature>,
    type_relations: &Vec<TypeRelation>,
    graph: &CallGraph,
    resolver: &mut R,
) -> (result: Vec<LspViolation>)
    requires
        signatures.wf(),
        graph.wf(),
    ensures
        forall|k: int| 0 <= k < result.len() ==> violation_valid(
            signatures@,
            graph@,
            type_relations.deep_view(),
            method_signatures.deep_view(),
            #[trigger] result.deep_view()[k],
        ),
        forall|i: int, p: Seq<char>|
            #[trigger] must_report(signatures@, graph@, type_relations.deep_view(), method_signatures.deep_view(), i, p)
            ==> reports(result.deep_view(), method_signatures.deep_view(), signatures@.keys[i], p),
        exists|pts: Seq<Seq<Seq<char>>>, pss: Seq<Seq<Seq<PropagatedThrowView>>>, ans: Seq<Seq<Seq<bool>>>|
            pts.len() == signatures@.keys.len() && pss.len() == pts.len() && ans.len() == pts.len()
            && (forall|j: int| 0 <= j < pts.len() ==> #[trigger] row_fits(
                *old(resolver),
                signatures@,
                graph@,
                type_relations.deep_view(),
                method_signatures.deep_view(),
                j,
                pts[j],
                pss[j],
                ans[j],
            ))
            && result.deep_view() == lsp_all(signatures@, method_signatures.deep_view(), pts, pss, ans),
        same_answers(*old(resolver), *final(resolver)),
{
    let ghost r0 = *resolver;
    let mut violations: Vec<LspViolation> = Vec::new();
    let ghost m = signatures@;
    let ghost g = graph@;
    let ghost rels = type_relations.deep_view();
    let ghost methods = method_signatures.deep_view();
    let n = signatures.len();
    assert(violations.deep_view() =~= Seq::<LspViolationView>::empty());
    let ghost mut pts: Seq<Seq<Seq<char>>> = Seq::empty();
    let ghost mut pss: Seq<Seq<Seq<PropagatedThrowView>>> = Seq::empty();
    let ghost mut ans: Seq<Seq<Seq<bool>>> = Seq::empty();
    let mut i: usize = 0;
    while i < n
        invariant
            pts.len() == i,
            pss.len() == i,
            ans.len() == i,
            forall|j: int| 0 <= j < i ==> #[trigger] row_fits(r0, m, g, rels, methods, j, pts[j], pss[j], ans[j]),
            r0 == *old(resolver),
            same_answers(r0, *resolver),
            violations.deep_view() == lsp_all(m, methods, pts, pss, ans),
            signatures.wf(),
            graph.wf(),
            m == signatures@,
            g == graph@,
            rels == type_relations.deep_view(),
            methods == method_signatures.deep_view(),
            n == m.len(),
            i <= n,
            forall|k: int| 0 <= k < violations.len() ==> violation_valid(m, g, rels, methods, #[trigger] violations.deep_view()[k]),
            forall|j: int, p: Seq<char>| j < i && #[trigger] must_report(m, g, rels, methods, j, p)
                ==> reports(violations.deep_view(), methods, m.keys[j], p),
        decreases n - i,
    {
        let func_id = signatures.key_at(i);
        let sig = signatures.value_at(i);
        let ghost f = func_id@;
        let ghost viol0 = violations.deep_view();
        let ghost mut row_pt: Seq<Seq<char>> = Seq::empty();
        let ghost mut row_ps: Seq<Seq<PropagatedThrowView>> = Seq::empty();
        let ghost mut row_an: Seq<Seq<bool>> = Seq::empty();
        match &sig.class_name {
            None => {},
            Some(class_name) => {
                let parent_types = get_all_parent_types(class_name, type_relations);
                let ghost c = class_name@;
                let mut k: usize = 0;
                proof {
                    assert(parent_types.deep_view().take(0) =~= Seq::<Seq<char>>::empty());
                    assert(violations.deep_view() =~= viol0 + violations_for(f, methods, parent_types.deep_view().take(0), row_ps, row_an));
                }
                while k < parent_types.len()
                    invariant
                        row_ps.len() == k,
                        row_an.len() == k,
                        violations.deep_view() == viol0 + violations_for(f, methods, parent_types.deep_view().take(k as int), row_ps, row_an),
                        forall|q: int| 0 <= q < k && (#[trigger] method_for(methods, parent_types.deep_view()[q], f.name)) is Some ==> {
                            &&& propagation_fits(g, m, f, row_ps[q])
                            &&& row_an[q].len() == row_ps[q].len()
                            &&& method_declared_types(method_for(methods, parent_types.deep_view()[q], f.name)->0).len() == 0
                                ==> forall|t: int| 0 <= t < row_an[q].len() ==> !#[trigger] row_an[q][t]
                            &&& r0.states_answers() ==> forall|t: int| 0 <= t < row_an[q].len() ==> #[trigger] row_an[q][t] == lsp_accepts(
                                r0,
                                sig@.id.file_path,
                                row_ps[q][t],
                                method_declared_types(method_for(methods, parent_types.deep_view()[q], f.name)->0),
                            )
                        },
                        r0 == *old(resolver),
                        same_answers(r0, *resolver),
                        signatures.wf(),
                        graph.wf(),
                        m == signatures@,
                        g == graph@,
                        rels == type_relations.deep_view(),
                        methods == method_signatures.deep_view(),
                        f == func_id@,
                        m.get(f) == Some(sig@),
                        sig@.class_name == Some(c),
                        f == m.keys[i as int],
                        sig@ == m.values[i as int],
                        k <= parent_types.len(),
                        forall|b: Seq<char>| parent_types.deep_view().contains(b) <==> inherits(rels, c, b),
                        viol0.is_prefix_of(violations.deep_view()),
                        forall|q: int| 0 <= q < violations.len() ==> violation_valid(m, g, rels, methods, #[trigger] violations.deep_view()[q]),
                        forall|q: int| 0 <= q < k && allows_nothing(methods, #[trigger] parent_types.deep_view()[q], f.name)
                            && escapes_somehow(g, m, f) ==> reports(violations.deep_view(), methods, f, parent_types.deep_view()[q]),
                    decreases parent_types.len() - k,
                {
                    let parent_type = &parent_types[k];
                    let ghost pt = parent_type@;
                    assert(parent_types.deep_view()[k as int] == pt);
                    assert(parent_types.deep_view().contains(pt));
                    let ghost vb = violations.deep_view();
                    let ghost ps0 = row_ps;
                    let ghost an0 = row_an;
                    if let Some(parent_method) = find_method(method_signatures, parent_type, &func_id.name) {
                        let propagated = compute_propagated_throws(func_id, signatures, graph);
                        let ghost rb = *resolver;
                        let illegal = find_illegal_throws(&propagated, parent_method, resolver, sig.id.file_path.as_str());
                        proof {
                            let answers = choose|answers: Seq<bool>|
                                answers.len() == propagated.len()
                                && (method_declared_types(parent_method@).len() == 0 ==> forall|t: int| 0 <= t < answers.len() ==> !#[trigger] answers[t])
                                && (rb.states_answers() ==> forall|t: int| 0 <= t < answers.len()
                                    ==> #[trigger] answers[t] == lsp_accepts(rb, sig@.id.file_path, propagated.deep_view()[t], method_declared_types(parent_method@)))
                                && illegal.deep_view() == illegal_all(propagated.deep_view(), method_declared_types(parent_method@), answers);
                            assert forall|t: int| r0.states_answers() && 0 <= t < answers.len() implies #[trigger] answers[t] == lsp_accepts(r0, sig@.id.file_path, propagated.deep_view()[t], method_declared_types(parent_method@)) by {
                                lemma_same_lsp_accepts(r0, rb, sig@.id.file_path, propagated.deep_view()[t], method_declared_types(parent_method@));
                            }
                            lemma_same_answers_trans(r0, rb, *resolver);
                            row_ps = ps0.push(propagated.deep_view());
                            row_an = an0.push(answers);
                            assert(propagation_fits(g, m, f, propagated.deep_view()));
                            assert forall|e: int| 0 <= e < illegal.deep_view().len() implies type_escapes(g, m, f, #[trigger] illegal.deep_view()[e]) by {
                                lemma_illegal_elements(propagated.deep_view(), method_declared_types(parent_method@), answers, e);
                                let t = choose|t: int| 0 <= t < propagated.deep_view().len()
                                    && propagated.deep_view()[t].error_type == #[trigger] illegal_all(propagated.deep_view(), method_declared_types(parent_method@), answers)[e];
                                assert(valid_route(g, m, f, propagated.deep_view()[t]));
                            }
                            if method_declared_types(parent_method@).len() == 0 && escapes_somehow(g, m, f) {
                                lemma_illegal_undeclared(propagated.deep_view(), method_declared_types(parent_method@), answers);
                                if direct_part(m, f).len() > 0 {
                                    assert(direct_part(m, f).is_prefix_of(propagated.deep_view()));
                                } else {
                                    let q = choose|q: PropagatedThrowView| #[trigger] valid_route(g, m, f, q);
                                    assert(complete_for(g, m, f, propagated.deep_view()));
                                    assert(propagated.deep_view().contains(q));
                                }
                            }
                        }
                        if illegal.len() > 0 {
                            let v = LspViolation {
                                implementation: func_id.clone(),
                                parent_method: parent_method.clone(),
                                illegal_throws: illegal,
                            };
                            violations.push(v);
                            proof {
                                let vd = violations.deep_view();
                                assert(vd =~= vb.push(v@));
                                assert(vd[vb.len() as int] == v@);
                                assert(inherits(rels, c, pt));
                                let vv = v@;
                                assert(vv.implementation == f);
                                assert(vv.parent_method == parent_method@);
                                assert(vv.illegal_throws == illegal.deep_view());
                                assert(method_for(methods, pt, f.name) == Some(vv.parent_method));
                                assert(m.get(vv.implementation) == Some(sig@));
                                assert(vv.illegal_throws.len() > 0);
                                assert(exists|p: Seq<char>| #[trigger] inherits(rels, c, p)
                                        && method_for(methods, p, vv.implementation.name) == Some(vv.parent_method));
                                assert(class_of(m, vv.implementation) == Some(c));
                                assert(class_of(m, vv.implementation)->0 == c);
                                assert(exists|p: Seq<char>| #[trigger] inherits(rels, class_of(m, vv.implementation)->0, p)
                                    && method_for(methods, p, vv.implementation.name) == Some(vv.parent_method));
                                assert(forall|e: int| 0 <= e < vv.illegal_throws.len() ==> type_escapes(g, m, vv.implementation, #[trigger] vv.illegal_throws[e]));
                                assert(violation_valid(m, g, rels, methods, v@));
                                assert forall|q: int| 0 <= q < violations.len() implies violation_valid(m, g, rels, methods, #[trigger] vd[q]) by {
                                    if q < vb.len() {
                                        assert(vd[q] == vb[q]);
                                    }
                                }
                                assert(reports(vd, methods, f, pt));
                            }
                        }
                    } else {
                        proof {
                            row_ps = ps0.push(Seq::empty());
                            row_an = an0.push(Seq::empty());
                        }
                    }
                    proof {
                        let vd = violations.deep_view();
                        assert(vb.is_prefix_of(vd));
                        let pk1 = parent_types.deep_view().take(k + 1);
                        assert(pk1.drop_last() =~= parent_types.deep_view().take(k as int));
                        assert(pk1.last() == pt);
                        assert(row_ps.drop_last() =~= ps0);
                        assert(row_an.drop_last() =~= an0);
                        assert(vd =~= viol0 + violations_for(f, methods, pk1, row_ps, row_an));
                        assert forall|q: int| 0 <= q < k + 1 && (#[trigger] method_for(methods, parent_types.deep_view()[q], f.name)) is Some implies {
                            &&& propagation_fits(g, m, f, row_ps[q])
                            &&& row_an[q].len() == row_ps[q].len()
                            &&& method_declared_types(method_for(methods, parent_types.deep_view()[q], f.name)->0).len() == 0
                                ==> forall|t: int| 0 <= t < row_an[q].len() ==> !#[trigger] row_an[q][t]
                        } by {
                            if q < k {
                                assert(row_ps[q] == ps0[q]);
                                assert(row_an[q] == an0[q]);
                            }
                        }
                        assert forall|q: int| 0 <= q < k + 1 && allows_nothing(methods, #[trigger] parent_types.deep_view()[q], f.name)
                            && escapes_somehow(g, m, f) implies reports(vd, methods, f, parent_types.deep_view()[q]) by {
                            if q < k {
                                let w = choose|w: int| 0 <= w < vb.len() && (#[trigger] vb[w]).implementation == f
                                    && method_for(methods, parent_types.deep_view()[q], f.name) == Some(vb[w].parent_method);
                                assert(vd[w] == vb[w]);
                            }
                        }
                    }
                    k += 1;
                }
                proof {
                    let vd = violations.deep_view();
                    assert forall|p: Seq<char>| #[trigger] must_report(m, g, rels, methods, i as int, p) implies reports(vd, methods, f, p) by {
                        assert(parent_types.deep_view().contains(p));
                        let q = choose|q: int| 0 <= q < parent_types.deep_view().len() && parent_types.deep_view()[q] == p;
                    }
                    row_pt = parent_types.deep_view();
                    assert(parent_types.deep_view().take(parent_types.len() as int) =~= row_pt);
                }
            },
        }
        proof {
            let vd = violations.deep_view();
            let pts0 = pts;
            let pss0 = pss;
            let ans0 = ans;
            pts = pts0.push(row_pt);
            pss = pss0.push(row_ps);
            ans = ans0.push(row_an);
            assert(pts.drop_last() =~= pts0);
            assert(pss.drop_last() =~= pss0);
            assert(ans.drop_last() =~= ans0);
            if sig@.class_name is None {
                assert(row_pt.len() == 0);
                assert(violations_for(f, methods, row_pt, row_ps, row_an) =~= Seq::<LspViolationView>::empty());
                assert(vd =~= viol0);
            }
            assert(vd =~= lsp_all(m, methods, pts, pss, ans));
            assert(row_fits(r0, m, g, rels, methods, i as int, row_pt, row_ps, row_an));
            assert forall|j: int| 0 <= j < i + 1 implies #[trigger] row_fits(r0, m, g, rels, methods, j, pts[j], pss[j], ans[j]) by {
                if j < i {
                    assert(pts[j] == pts0[j]);
                    assert(pss[j] == pss0[j]);
                    assert(ans[j] == ans0[j]);
                }
            }
            assert forall|j: int, p: Seq<char>| j < i + 1 && #[trigger] must_report(m, g, rels, methods, j, p)
                implies reports(vd, methods, m.keys[j], p) by {
                if j < i {
                    let k = choose|k: int| 0 <= k < viol0.len() && (#[trigger] viol0[k]).implementation == m.keys[j]
                        && method_for(methods, p, m.keys[j].name) == Some(viol0[k].parent_method);
                    assert(vd[k] == viol0[k]);
                }
            }
        }
        i += 1;
    }
    violations
}

proof fn lemma_illegal_elements(ps: Seq<PropagatedThrowView>, d: Seq<Seq<char>>, answers: Seq<bool>, k: int)
    requires
        answers.len() == ps.len(),
        0 <= k < illegal_all(ps, d, answers).len(),
    ensures
        exists|t: int| 0 <= t < ps.len() && ps[t].error_type == #[trigger] illegal_all(ps, d, answers)[k],
    decreases ps.len(),
{
    let rest = illegal_all(ps.drop_last(), d, answers.drop_last());
    if k < rest.len() {
        lemma_illegal_elements(ps.drop_last(), d, answers.drop_last(), k);
        let t = choose|t: int| 0 <= t < ps.drop_last().len() && ps.drop_last()[t].error_type == #[trigger] rest[k];
        assert(ps[t] == ps.drop_last()[t]);
        assert(illegal_all(ps, d, answers)[k] == rest[k]);
    } else {
        assert(ps[ps.len() - 1] == ps.last());
    }
}

proof fn lemma_illegal_undeclared(ps: Seq<PropagatedThrowView>, d: Seq<Seq<char>>, answers: Seq<bool>)
    requires
        answers.len() == ps.len(),
        d.len() == 0,
        forall|i: int| 0 <= i < answers.len() ==> !#[trigger] answers[i],
    ensures
        illegal_all(ps, d, answers).len() == ps.len(),
    decreases ps.len(),
{
    if ps.len() > 0 {
        assert forall|i: int| 0 <= i < answers.drop_last().len() implies !#[trigger] answers.drop_last()[i] by {
            assert(answers.drop_last()[i] == answers[i]);
        }
        lemma_illegal_undeclared(ps.drop_last(), d, answers.drop_last());
        assert(!answers[answers.len() - 1]);
    }
}

} // verus!
