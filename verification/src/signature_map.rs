//! The table of analysed functions, keyed by function identity.
use crate::call_graph::node_index;
use crate::types::{FunctionId, FunctionIdView, FunctionSignature, FunctionSignatureView};
use vstd::prelude::*;

verus! {

/// Functions and their signatures, in insertion order, each key once.
pub struct SignatureMap {
    keys: Vec<FunctionId>,
    values: Vec<FunctionSignature>,
}

pub struct SignatureMapView {
    pub keys: Seq<FunctionIdView>,
    pub values: Seq<FunctionSignatureView>,
}

impl SignatureMapView {
    /// The signature stored under `id`.
    pub open spec fn get(self, id: FunctionIdView) -> Option<FunctionSignatureView> {
        match node_index(self.keys, id) {
            Some(i) => Some(self.values[i]),
            None => None,
        }
    }

    pub open spec fn len(self) -> nat {
        self.keys.len()
    }
}

impl View for SignatureMap {
    type V = SignatureMapView;

    closed spec fn view(&self) -> SignatureMapView {
        SignatureMapView { keys: self.keys.deep_view(), values: self.values.deep_view() }
    }
}

/// Where a key stands in the table, if it does.
pub proof fn lemma_node_index_spec(keys: Seq<FunctionIdView>, id: FunctionIdView)
    ensures
        match node_index(keys, id) {
            Some(i) => 0 <= i < keys.len() && keys[i] == id && forall|k: int|
                0 <= k < i ==> keys[k] != id,
            None => !keys.contains(id),
        },
    decreases keys.len(),
{
    if keys.len() > 0 {
        let d = keys.drop_last();
        lemma_node_index_spec(d, id);
        match node_index(d, id) {
            Some(i) => {
                assert(d[i] == keys[i]);
                assert forall|k: int| 0 <= k < i implies keys[k] != id by {
                    assert(d[k] == keys[k]);
                }
            },
            None => {
                assert forall|k: int| 0 <= k < keys.len() - 1 implies keys[k] != id by {
                    assert(d[k] == keys[k]);
                    if keys[k] == id {
                        assert(d.contains(id));
                    }
                }
                if keys.last() != id {
                    assert forall|k: int| 0 <= k < keys.len() implies keys[k] != id by {
                        if k == keys.len() - 1 {
                            assert(keys[k] == keys.last());
                        }
                    }
                }
            },
        }
    }
}

impl SignatureMap {
    pub closed spec fn wf(&self) -> bool {
        &&& self.keys@.len() == self.values@.len()
        &&& self@.keys.no_duplicates()
    }

    /// A well-formed table has as many values as keys.
    pub proof fn lemma_wf_len(&self)
        requires
            self.wf(),
        ensures
            self@.keys.len() == self@.values.len(),
            self@.keys.no_duplicates(),
    {
    }

    /// An empty table.
    pub fn new() -> (m: Self)
        ensures
            m.wf(),
            m@.keys == Seq::<FunctionIdView>::empty(),
            forall|id: FunctionIdView| m@.get(id) is None,
    {
        let m = SignatureMap { keys: Vec::new(), values: Vec::new() };
        assert(m@.keys =~= Seq::<FunctionIdView>::empty());
        m
    }

    /// The number of functions in the table.
    pub fn len(&self) -> (n: usize)
        requires
            self.wf(),
        ensures
            n == self@.len(),
    {
        self.keys.len()
    }

    fn position(&self, id: &FunctionId) -> (r: Option<usize>)
        requires
            self.wf(),
        ensures
            match r {
                Some(i) => node_index(self@.keys, id@) == Some(i as int) && i < self@.keys.len(),
                None => node_index(self@.keys, id@) is None,
            },
    {
        proof {
            lemma_node_index_spec(self@.keys, id@);
        }
        let mut i: usize = 0;
        while i < self.keys.len()
            invariant
                self.wf(),
                i <= self.keys.len(),
                forall|k: int| 0 <= k < i ==> self@.keys[k] != id@,
                match node_index(self@.keys, id@) {
                    Some(j) => 0 <= j < self@.keys.len() && self@.keys[j] == id@ && forall|k: int|
                        0 <= k < j ==> self@.keys[k] != id@,
                    None => !self@.keys.contains(id@),
                },
            decreases self.keys.len() - i,
        {
            assert(self@.keys[i as int] == self.keys[i as int]@);
            if self.keys[i].same(id) {
                proof {
                    match node_index(self@.keys, id@) {
                        Some(j) => {
                            if j < i {
                                assert(self@.keys[j] != id@);
                            }
                            if i < j {
                                assert(self@.keys[i as int] != id@);
                            }
                        },
                        None => {
                            assert(self@.keys.contains(id@));
                        },
                    }
                }
                return Some(i);
            }
            i += 1;
        }
        proof {
            if let Some(j) = node_index(self@.keys, id@) {
                assert(self@.keys[j] != id@);
            }
        }
        None
    }

    /// Stores `sig` under `id`, replacing what was stored there.
    pub fn insert(&mut self, id: FunctionId, sig: FunctionSignature)
        requires
            old(self).wf(),
        ensures
            final(self).wf(),
            forall|k: FunctionIdView| #[trigger]
                final(self)@.get(k) == if k == id@ {
                    Some(sig@)
                } else {
                    old(self)@.get(k)
                },
            final(self)@.keys == if old(self)@.get(id@) is Some {
                old(self)@.keys
            } else {
                old(self)@.keys.push(id@)
            },
    {
        let ghost v0 = self@;
        proof {
            lemma_node_index_spec(v0.keys, id@);
        }
        match self.position(&id) {
            Some(i) => {
                let ghost vals0 = self.values@;
                self.values.set(i, sig);
                proof {
                    assert(self.values@ == vals0.update(i as int, sig));
                    assert(self@.values =~= v0.values.update(i as int, sig@));
                    assert(self@.keys == v0.keys);
                    assert forall|k: FunctionIdView| #[trigger]
                        self@.get(k) == if k == id@ {
                            Some(sig@)
                        } else {
                            v0.get(k)
                        } by {
                        lemma_node_index_spec(v0.keys, k);
                        if let Some(j) = node_index(v0.keys, k) {
                            if j == i as int {
                                assert(k == id@);
                            }
                        }
                    }
                }
            },
            None => {
                let ghost keys0 = self.keys@;
                let ghost vals0 = self.values@;
                self.keys.push(id);
                self.values.push(sig);
                proof {
                    assert(self.keys@ == keys0.push(id));
                    assert(self.values@ == vals0.push(sig));
                    assert(self@.keys =~= v0.keys.push(id@));
                    assert(self@.values =~= v0.values.push(sig@));
                    assert forall|a: int, b: int|
                        0 <= a < b < self@.keys.len() implies self@.keys[a] != self@.keys[b] by {
                        if b == v0.keys.len() {
                            assert(v0.keys.contains(v0.keys[a]));
                        } else {
                            assert(v0.keys[a] != v0.keys[b]);
                        }
                    }
                    assert forall|k: FunctionIdView| #[trigger]
                        self@.get(k) == if k == id@ {
                            Some(sig@)
                        } else {
                            v0.get(k)
                        } by {
                        assert(self@.keys.drop_last() == v0.keys);
                        lemma_node_index_spec(v0.keys, k);
                    }
                }
            },
        }
    }

    /// The signature stored under `id`.
    pub fn get(&self, id: &FunctionId) -> (r: Option<&FunctionSignature>)
        requires
            self.wf(),
        ensures
            match r {
                Some(s) => self@.get(id@) == Some(s@),
                None => self@.get(id@) is None,
            },
    {
        match self.position(id) {
            Some(i) => {
                assert(self@.values[i as int] == self.values[i as int]@);
                Some(&self.values[i])
            },
            None => None,
        }
    }

    /// The key of the `i`-th entry, in insertion order.
    pub fn key_at(&self, i: usize) -> (r: &FunctionId)
        requires
            self.wf(),
            i < self@.len(),
        ensures
            r@ == self@.keys[i as int],
    {
        &self.keys[i]
    }

    /// The signature of the `i`-th entry, in insertion order.
    pub fn value_at(&self, i: usize) -> (r: &FunctionSignature)
        requires
            self.wf(),
            i < self@.len(),
        ensures
            r@ == self@.values[i as int],
            self@.get(self@.keys[i as int]) == Some(r@),
    {
        proof {
            lemma_node_index_spec(self@.keys, self@.keys[i as int]);
            if let Some(j) = node_index(self@.keys, self@.keys[i as int]) {
                if j != i as int {
                    assert(self@.keys[j] == self@.keys[i as int]);
                }
            }
        }
        &self.values[i]
    }
}

} // verus!
