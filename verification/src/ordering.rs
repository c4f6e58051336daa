//! Ordering by composite keys made of texts and numbers, compared part by
//! part, and a sort that orders any list by such keys.
use crate::analyzer::{lemma_text_lt_asym, lemma_text_lt_trans, text_less, text_lt};
use vstd::prelude::*;

verus! {

broadcast use {vstd::seq_lib::group_to_multiset_ensures};

/// One part of a sort key.
pub enum KeyPart {
    Text(Vec<char>),
    Num(u64),
}

pub enum KeyPartView {
    Text(Seq<char>),
    Num(int),
}

impl DeepView for KeyPart {
    type V = KeyPartView;

    open spec fn deep_view(&self) -> KeyPartView {
        match self {
            KeyPart::Text(t) => KeyPartView::Text(t@),
            KeyPart::Num(n) => KeyPartView::Num(*n as int),
        }
    }
}

/// Parts compare as texts (by characters) or as numbers; a text comes
/// before a number.
pub open spec fn part_lt(a: KeyPartView, b: KeyPartView) -> bool {
    match (a, b) {
        (KeyPartView::Text(x), KeyPartView::Text(y)) => text_lt(x, y),
        (KeyPartView::Num(x), KeyPartView::Num(y)) => x < y,
        (KeyPartView::Text(_), KeyPartView::Num(_)) => true,
        (KeyPartView::Num(_), KeyPartView::Text(_)) => false,
    }
}

/// Keys compare part by part; a key that is a prefix of another comes first.
pub open spec fn key_lt(a: Seq<KeyPartView>, b: Seq<KeyPartView>) -> bool
    decreases a.len(),
{
    if b.len() == 0 {
        false
    } else if a.len() == 0 {
        true
    } else if part_lt(a[0], b[0]) {
        true
    } else if part_lt(b[0], a[0]) {
        false
    } else {
        key_lt(a.drop_first(), b.drop_first())
    }
}

proof fn lemma_part_order(a: KeyPartView, b: KeyPartView, c: KeyPartView)
    ensures
        part_lt(a, b) ==> !part_lt(b, a),
        part_lt(a, b) && part_lt(b, c) ==> part_lt(a, c),
        !part_lt(a, b) && !part_lt(b, a) ==> a == b,
{
    match (a, b) {
        (KeyPartView::Text(x), KeyPartView::Text(y)) => {
            lemma_text_lt_asym(x, y);
        },
        _ => {},
    }
    match (a, b, c) {
        (KeyPartView::Text(x), KeyPartView::Text(y), KeyPartView::Text(z)) => {
            if text_lt(x, y) && text_lt(y, z) {
                lemma_text_lt_trans(x, y, z);
            }
        },
        _ => {},
    }
}

/// Keys are ordered strictly, and keys neither before the other are equal.
pub proof fn lemma_key_lt_asym(a: Seq<KeyPartView>, b: Seq<KeyPartView>)
    ensures
        key_lt(a, b) ==> !key_lt(b, a),
        !key_lt(a, b) && !key_lt(b, a) ==> a == b,
    decreases a.len(),
{
    if a.len() > 0 && b.len() > 0 {
        lemma_part_order(a[0], b[0], a[0]);
        lemma_key_lt_asym(a.drop_first(), b.drop_first());
        if !key_lt(a, b) && !key_lt(b, a) {
            assert(a =~= seq![a[0]] + a.drop_first());
            assert(b =~= seq![b[0]] + b.drop_first());
        }
    } else if a.len() == 0 && b.len() == 0 {
        assert(a =~= b);
    }
}

proof fn lemma_key_lt_trans(a: Seq<KeyPartView>, b: Seq<KeyPartView>, c: Seq<KeyPartView>)
    requires
        key_lt(a, b),
        key_lt(b, c),
    ensures
        key_lt(a, c),
    decreases a.len(),
{
    if a.len() > 0 {
        lemma_part_order(a[0], b[0], c[0]);
        lemma_part_order(b[0], c[0], a[0]);
        lemma_part_order(c[0], a[0], b[0]);
        lemma_part_order(a[0], c[0], b[0]);
        lemma_part_order(b[0], a[0], c[0]);
        lemma_part_order(c[0], b[0], a[0]);
        if !part_lt(a[0], b[0]) && !part_lt(b[0], c[0]) {
            lemma_key_lt_trans(a.drop_first(), b.drop_first(), c.drop_first());
        }
    }
}

/// Not after, then not after, is not after.
pub proof fn lemma_key_le_trans(a: Seq<KeyPartView>, b: Seq<KeyPartView>, c: Seq<KeyPartView>)
    requires
        !key_lt(b, a),
        !key_lt(c, b),
    ensures
        !key_lt(c, a),
{
    lemma_key_lt_asym(a, b);
    lemma_key_lt_asym(b, c);
    lemma_key_lt_asym(a, c);
    if a != b && b != c {
        lemma_key_lt_trans(a, b, c);
    }
}

fn part_less(a: &KeyPart, b: &KeyPart) -> (r: bool)
    ensures
        r == part_lt(a.deep_view(), b.deep_view()),
{
    match (a, b) {
        (KeyPart::Text(x), KeyPart::Text(y)) => text_less(x, y),
        (KeyPart::Num(x), KeyPart::Num(y)) => *x < *y,
        (KeyPart::Text(_), KeyPart::Num(_)) => true,
        (KeyPart::Num(_), KeyPart::Text(_)) => false,
    }
}

/// Compares two keys.
pub fn key_less(a: &Vec<KeyPart>, b: &Vec<KeyPart>) -> (r: bool)
    ensures
        r == key_lt(a.deep_view(), b.deep_view()),
{
    let ghost av = a.deep_view();
    let ghost bv = b.deep_view();
    let mut i: usize = 0;
    assert(av.skip(0) =~= av);
    assert(bv.skip(0) =~= bv);
    while i < a.len() && i < b.len()
        invariant
            i <= a.len(),
            i <= b.len(),
            av == a.deep_view(),
            bv == b.deep_view(),
            key_lt(av, bv) == key_lt(av.skip(i as int), bv.skip(i as int)),
        decreases a.len() - i,
    {
        assert(av.skip(i as int)[0] == a[i as int].deep_view());
        assert(bv.skip(i as int)[0] == b[i as int].deep_view());
        if part_less(&a[i], &b[i]) {
            return true;
        }
        if part_less(&b[i], &a[i]) {
            return false;
        }
        assert(av.skip(i as int).drop_first() =~= av.skip(i + 1));
        assert(bv.skip(i as int).drop_first() =~= bv.skip(i + 1));
        i += 1;
    }
    i < b.len()
}

/// `s` ordered by the keys `kf` gives its elements.
pub open spec fn sorted_by<T>(s: Seq<T>, kf: spec_fn(T) -> Seq<KeyPartView>) -> bool {
    forall|i: int, j: int| 0 <= i < j < s.len() ==> !key_lt(kf(#[trigger] s[j]), kf(#[trigger] s[i]))
}

/// Where `x` goes among `s` by its key `kx`: before the first element whose
/// key is not below `kx` (after every element with a smaller key).
pub open spec fn insert_point<T>(s: Seq<T>, kx: Seq<KeyPartView>, kf: spec_fn(T) -> Seq<KeyPartView>) -> int {
    choose|k: int| 0 <= k <= s.len() && (forall|j: int| 0 <= j < k ==> key_lt(kf(#[trigger] s[j]), kx))
        && (k < s.len() ==> !key_lt(kf(s[k]), kx))
}

/// `s` ordered by key the way a stable insertion sort orders it: each
/// element, from the last to the first, goes before the first one already
/// placed whose key is not below its own, so elements with equal keys keep
/// their order.
pub open spec fn key_sorted<T>(s: Seq<T>, kf: spec_fn(T) -> Seq<KeyPartView>) -> Seq<T>
    decreases s.len(),
{
    if s.len() == 0 {
        Seq::empty()
    } else {
        let rest = key_sorted(s.drop_first(), kf);
        rest.insert(insert_point(rest, kf(s[0]), kf), s[0])
    }
}

/// `items` ordered by their keys, given alongside as `keys`: a stable
/// insertion sort.
pub fn sort_by_keys<T>(items: Vec<T>, keys: Vec<Vec<KeyPart>>, Ghost(kf): Ghost<spec_fn(T) -> Seq<KeyPartView>>) -> (r: Vec<T>)
    requires
        items.len() == keys.len(),
        forall|i: int| 0 <= i < items.len() ==> #[trigger] keys[i].deep_view() == kf(items[i]),
    ensures
        r@.to_multiset() == items@.to_multiset(),
        sorted_by(r@, kf),
        r@ == key_sorted(items@, kf),
{
    let ghost orig = items@;
    let mut items = items;
    let mut keys = keys;
    let mut out: Vec<T> = Vec::new();
    let mut out_keys: Vec<Vec<KeyPart>> = Vec::new();
    assert(items@ =~= orig);
    assert(orig.take(orig.len() as int) =~= orig);
    assert(orig.skip(orig.len() as int) =~= Seq::<T>::empty());
    assert(out@ =~= Seq::<T>::empty());
    while items.len() > 0
        invariant
            items.len() == keys.len(),
            forall|i: int| 0 <= i < items.len() ==> #[trigger] keys[i].deep_view() == kf(items[i]),
            out.len() == out_keys.len(),
            forall|i: int| 0 <= i < out.len() ==> #[trigger] out_keys[i].deep_view() == kf(out[i]),
            sorted_by(out@, kf),
            out@.to_multiset().add(items@.to_multiset()) == orig.to_multiset(),
            items@ == orig.take(items.len() as int),
            items.len() <= orig.len(),
            out@ == key_sorted(orig.skip(items.len() as int), kf),
        decreases items.len(),
    {
        let ghost items0 = items@;
        let ghost keys0 = keys@;
        let x = items.pop().unwrap();
        let kx = keys.pop().unwrap();
        assert(items0 == items@.push(x));
        assert(kx == keys0[keys0.len() - 1]);
        assert(kx.deep_view() == kf(x));
        let ghost s0 = out@;
        let mut k: usize = 0;
        while k < out.len() && key_less(&out_keys[k], &kx)
            invariant
                k <= out.len(),
                out.len() == out_keys.len(),
                out@ == s0,
                kx.deep_view() == kf(x),
                forall|i: int| 0 <= i < out.len() ==> #[trigger] out_keys[i].deep_view() == kf(out[i]),
                forall|j: int| 0 <= j < k ==> key_lt(kf(#[trigger] s0[j]), kf(x)),
            decreases out.len() - k,
        {
            k += 1;
        }
        proof {
            if k < s0.len() {
                assert(out_keys[k as int].deep_view() == kf(s0[k as int]));
                assert(!key_lt(kf(s0[k as int]), kf(x)));
            }
        }
        let ghost keys_before = out_keys@;
        proof {
            let p = insert_point(s0, kf(x), kf);
            assert(0 <= k <= s0.len() && (forall|j: int| 0 <= j < k ==> key_lt(kf(#[trigger] s0[j]), kf(x)))
                && (k < s0.len() ==> !key_lt(kf(s0[k as int]), kf(x))));
            assert(0 <= p <= s0.len() && (forall|j: int| 0 <= j < p ==> key_lt(kf(#[trigger] s0[j]), kf(x)))
                && (p < s0.len() ==> !key_lt(kf(s0[p]), kf(x))));
            if p < k {
                assert(key_lt(kf(s0[p]), kf(x)));
            }
            if k < p {
                assert(key_lt(kf(s0[k as int]), kf(x)));
            }
            assert(p == k);
            let n = items@.len() as int;
            assert(items0 == orig.take(n + 1));
            assert(x == orig[n]);
            assert(orig.skip(n).drop_first() =~= orig.skip(n + 1));
            assert(orig.skip(n)[0] == x);
        }
        out.insert(k, x);
        out_keys.insert(k, kx);
        proof {
            assert(items@ =~= orig.take(items.len() as int));
            let s1 = out@;
            assert(s1 == s0.insert(k as int, x));
            assert forall|i: int| 0 <= i < out.len() implies #[trigger] out_keys[i].deep_view() == kf(out[i]) by {
                if i < k {
                    assert(out_keys[i] == keys_before[i]);
                } else if i > k {
                    assert(out_keys[i] == keys_before[i - 1]);
                }
            }
            assert forall|i: int, j: int| 0 <= i < j < s1.len() implies !key_lt(kf(#[trigger] s1[j]), kf(#[trigger] s1[i])) by {
                if j == k {
                    lemma_key_lt_asym(kf(s0[i]), kf(x));
                } else if i == k {
                    assert(s1[j] == s0[j - 1]);
                    if j - 1 > k {
                        lemma_key_le_trans(kf(x), kf(s0[k as int]), kf(s0[j - 1]));
                    }
                } else if i < k && j > k {
                    assert(s1[i] == s0[i]);
                    assert(s1[j] == s0[j - 1]);
                } else if i > k {
                    assert(s1[i] == s0[i - 1]);
                    assert(s1[j] == s0[j - 1]);
                } else {
                    assert(s1[i] == s0[i]);
                    assert(s1[j] == s0[j]);
                }
            }
            vstd::seq_lib::to_multiset_insert(s0, k as int, x);
            assert(items0.to_multiset() == items@.to_multiset().insert(x));
        }
    }
    assert(orig.skip(0) =~= orig);
    out
}

/// Rearranging a list rearranges any image of it.
pub proof fn lemma_map_to_multiset<A, B>(s1: Seq<A>, s2: Seq<A>, f: spec_fn(A) -> B)
    requires
        s1.to_multiset() == s2.to_multiset(),
    ensures
        s1.map_values(f).to_multiset() == s2.map_values(f).to_multiset(),
    decreases s1.len(),
{
    vstd::seq_lib::to_multiset_len(s1);
    vstd::seq_lib::to_multiset_len(s2);
    if s1.len() == 0 {
        assert(s2.len() == 0);
        assert(s1.map_values(f) =~= Seq::<B>::empty());
        assert(s2.map_values(f) =~= Seq::<B>::empty());
    } else {
        let x = s1.last();
        let t1 = s1.drop_last();
        assert(s1 == t1.push(x));
        assert(s1.to_multiset() == t1.to_multiset().insert(x));
        vstd::seq_lib::to_multiset_contains(s1, x);
        vstd::seq_lib::to_multiset_contains(s2, x);
        assert(s1[s1.len() - 1] == x);
        assert(s2.contains(x));
        let i = choose|i: int| 0 <= i < s2.len() && s2[i] == x;
        let t2 = s2.remove(i);
        vstd::seq_lib::to_multiset_remove(s2, i);
        assert(t2.to_multiset() == s2.to_multiset().remove(x));
        assert(t1.to_multiset() =~= t2.to_multiset());
        lemma_map_to_multiset(t1, t2, f);
        assert(s1.map_values(f) =~= t1.map_values(f).push(f(x)));
        assert(s2 =~= t2.insert(i, x));
        assert(s2.map_values(f) =~= t2.map_values(f).insert(i, f(x)));
        vstd::seq_lib::to_multiset_insert(t2.map_values(f), i, f(x));
    }
}

proof fn lemma_sorted_subsequence<T>(s: Seq<T>, j: int, kf: spec_fn(T) -> Seq<KeyPartView>)
    requires
        sorted_by(s, kf),
        0 <= j < s.len(),
    ensures
        sorted_by(s.remove(j), kf),
        sorted_by(s.drop_first(), kf),
{
    let r = s.remove(j);
    assert forall|a: int, b: int| 0 <= a < b < r.len() implies !key_lt(kf(#[trigger] r[b]), kf(#[trigger] r[a])) by {
        let a0 = if a < j { a } else { a + 1 };
        let b0 = if b < j { b } else { b + 1 };
        assert(r[a] == s[a0]);
        assert(r[b] == s[b0]);
    }
    let d = s.drop_first();
    assert forall|a: int, b: int| 0 <= a < b < d.len() implies !key_lt(kf(#[trigger] d[b]), kf(#[trigger] d[a])) by {
        assert(d[a] == s[a + 1]);
        assert(d[b] == s[b + 1]);
    }
}

/// Sorting fixes the order of keys: two sorted lists of the same elements
/// list the same keys in the same order, whatever order the elements came
/// in. (Elements with equal keys may still stand in either order.)
pub proof fn law_sorted_lists_agree<T>(s1: Seq<T>, s2: Seq<T>, kf: spec_fn(T) -> Seq<KeyPartView>)
    requires
        s1.to_multiset() == s2.to_multiset(),
        sorted_by(s1, kf),
        sorted_by(s2, kf),
    ensures
        s1.map_values(kf) == s2.map_values(kf),
    decreases s1.len(),
{
    vstd::seq_lib::to_multiset_len(s1);
    vstd::seq_lib::to_multiset_len(s2);
    if s1.len() == 0 {
        assert(s1.map_values(kf) =~= s2.map_values(kf));
    } else {
        let x = s1[0];
        let y = s2[0];
        vstd::seq_lib::to_multiset_contains(s1, x);
        vstd::seq_lib::to_multiset_contains(s2, x);
        vstd::seq_lib::to_multiset_contains(s1, y);
        vstd::seq_lib::to_multiset_contains(s2, y);
        assert(s1.contains(x));
        assert(s2.contains(y));
        let j = choose|j: int| 0 <= j < s2.len() && s2[j] == x;
        let i = choose|i: int| 0 <= i < s1.len() && s1[i] == y;
        if i > 0 {
            assert(!key_lt(kf(s1[i]), kf(s1[0])));
        }
        if j > 0 {
            assert(!key_lt(kf(s2[j]), kf(s2[0])));
        }
        lemma_key_lt_asym(kf(x), kf(y));
        assert(kf(x) == kf(y));
        assert forall|t: int| 0 <= t <= j implies kf(#[trigger] s2[t]) == kf(x) by {
            if 0 < t {
                assert(!key_lt(kf(s2[t]), kf(s2[0])));
            }
            if t < j {
                assert(!key_lt(kf(s2[j]), kf(s2[t])));
            }
            lemma_key_lt_asym(kf(s2[t]), kf(y));
            lemma_key_lt_asym(kf(s2[t]), kf(x));
        }
        let t1 = s1.drop_first();
        let t2 = s2.remove(j);
        assert(s1 =~= seq![x] + t1);
        vstd::seq_lib::to_multiset_remove(s1, 0);
        vstd::seq_lib::to_multiset_remove(s2, j);
        assert(s1.remove(0) =~= t1);
        assert(t1.to_multiset() =~= t2.to_multiset());
        lemma_sorted_subsequence(s1, 0, kf);
        lemma_sorted_subsequence(s2, j, kf);
        law_sorted_lists_agree(t1, t2, kf);
        let m1 = s1.map_values(kf);
        let m2 = s2.map_values(kf);
        assert forall|p: int| 0 <= p < m1.len() implies m1[p] == m2[p] by {
            if p == 0 {
                assert(m2[0] == kf(s2[0]));
            } else {
                assert(m1[p] == t1.map_values(kf)[p - 1]);
                assert(t2.map_values(kf)[p - 1] == kf(t2[p - 1]));
                if p - 1 < j {
                    assert(t2[p - 1] == s2[p - 1]);
                    assert(kf(s2[p - 1]) == kf(x));
                    assert(kf(s2[p]) == kf(x));
                } else {
                    assert(t2[p - 1] == s2[p]);
                }
            }
        }
        assert(m1 =~= m2);
    }
}

} // verus!
