//! Bringing a comment in line twice: the second pass changes nothing.
//!
//! The scan that keeps or drops `@throws` lines is characterised here by a
//! per-line condition (`fine_at`): a list of lines meeting it everywhere is
//! what the scan keeps unchanged, and every scan produces such a list. The
//! comment that syncing writes meets it too, which gives the law.
use crate::fixer::{
    close_line, declaration_after_tag, entry_lines, entry_type, generated_doc, has_content,
    last_closing, leading_ws, names_type, open_doc, parsed_declaration, plain_type_name,
    star_line_prefix, sync_scan, synced, throws_entries, unmatched, ThrowsEntryView,
};
use crate::jsdoc::{comment_close, throws_tag};
use crate::text::{find, find_char_from, find_from, is_ws, occurs_at, rfind, trim, trim_end, trim_start};
use crate::types::PropagatedThrowView;
use vstd::prelude::*;

verus! {

// ---------------------------------------------------------------------------
// Prefixes of a line
// ---------------------------------------------------------------------------
proof fn lemma_find_from_prefix(s: Seq<char>, p: Seq<char>, q: int, i: int)
    requires
        0 <= q <= s.len(),
        find_from(s.take(q), p, i) is Some,
    ensures
        find_from(s, p, i) == find_from(s.take(q), p, i),
    decreases q + 1 - i,
{
    let t = s.take(q);
    if !(i < 0 || i + p.len() > t.len()) {
        assert(t.subrange(i, i + p.len()) =~= s.subrange(i, i + p.len()));
        if !occurs_at(t, p, i) {
            lemma_find_from_prefix(s, p, q, i + 1);
        }
    }
}

proof fn lemma_find_char_prefix(s: Seq<char>, c: char, q: int, i: int)
    requires
        0 <= q <= s.len(),
        find_char_from(s.take(q), c, i) is Some,
    ensures
        find_char_from(s, c, i) == find_char_from(s.take(q), c, i),
    decreases q - i,
{
    let t = s.take(q);
    if !(i < 0 || i >= t.len()) && t[i] != c {
        lemma_find_char_prefix(s, c, q, i + 1);
    }
}

proof fn lemma_trim_start_prefix(s: Seq<char>, q: int)
    requires
        0 <= q <= s.len(),
    ensures
        trim_start(s.take(q)).len() <= trim_start(s).len(),
        trim_start(s.take(q)) == trim_start(s).take(trim_start(s.take(q)).len() as int),
    decreases s.len(),
{
    if q == 0 {
        assert(s.take(0) =~= Seq::<char>::empty());
    } else if is_ws(s[0]) {
        assert(s.take(q).drop_first() =~= s.drop_first().take(q - 1));
        lemma_trim_start_prefix(s.drop_first(), q - 1);
    } else {
        assert(s.take(q)[0] == s[0]);
    }
}

proof fn lemma_trim_end_prefix(s: Seq<char>)
    ensures
        trim_end(s).len() <= s.len(),
        trim_end(s) == s.take(trim_end(s).len() as int),
    decreases s.len(),
{
    if s.len() > 0 && is_ws(s.last()) {
        lemma_trim_end_prefix(s.drop_last());
        assert(s.drop_last().take(trim_end(s).len() as int) =~= s.take(trim_end(s).len() as int));
    } else {
        assert(s.take(s.len() as int) =~= s);
    }
}

proof fn lemma_declaration_prefix(a: Seq<char>, r: int)
    requires
        0 <= r <= a.len(),
        declaration_after_tag(a.take(r)) is Some,
    ensures
        declaration_after_tag(a) is Some,
{
    let at = trim_start(a);
    let at2 = trim_start(a.take(r));
    lemma_trim_start_prefix(a, r);
    assert(at2[0] == at[0]);
    let ts = at.skip(1);
    let ts2 = at2.skip(1);
    assert(ts2 =~= ts.take(ts2.len() as int));
    lemma_find_char_prefix(ts, '}', ts2.len() as int, 0);
    let e = find_char_from(ts2, '}', 0)->0;
    lemma_find_char_in_range(ts2, '}', 0);
    assert(ts2.take(e) =~= ts.take(e));
}

proof fn lemma_find_char_in_range(s: Seq<char>, c: char, i: int)
    requires
        find_char_from(s, c, i) is Some,
    ensures
        i <= find_char_from(s, c, i)->0 < s.len(),
    decreases s.len() - i,
{
    if !(i < 0 || i >= s.len()) && s[i] != c {
        lemma_find_char_in_range(s, c, i + 1);
    }
}

proof fn lemma_find_from_in_range(s: Seq<char>, p: Seq<char>, i: int)
    requires
        find_from(s, p, i) is Some,
    ensures
        i <= find_from(s, p, i)->0,
        find_from(s, p, i)->0 + p.len() <= s.len(),
        s[find_from(s, p, i)->0] == p[0] || p.len() == 0,
    decreases s.len() + 1 - i,
{
    if !(i < 0 || i + p.len() > s.len()) && !occurs_at(s, p, i) {
        lemma_find_from_in_range(s, p, i + 1);
    } else if p.len() > 0 {
        assert(s.subrange(i, i + p.len())[0] == s[i]);
    }
}

/// A line whose every prefix that is a `@throws` declaration makes the line
/// itself one: cutting the end off a line never creates a declaration.
proof fn lemma_parsed_prefix(l: Seq<char>, q: int)
    requires
        0 <= q <= l.len(),
        parsed_declaration(l.take(q)) is Some,
    ensures
        parsed_declaration(l) is Some,
{
    let t = l.take(q);
    lemma_find_from_prefix(l, throws_tag(), q, 0);
    let k = find(t, throws_tag())->0;
    lemma_find_from_in_range(t, throws_tag(), 0);
    assert(t.skip(k + 7) =~= l.skip(k + 7).take(q - (k + 7)));
    lemma_declaration_prefix(l.skip(k + 7), q - (k + 7));
}

/// A line without `@` is no declaration.
proof fn lemma_no_at_no_declaration(l: Seq<char>)
    requires
        forall|i: int| 0 <= i < l.len() ==> #[trigger] l[i] != '@',
    ensures
        parsed_declaration(l) is None,
{
    if find(l, throws_tag()) is Some {
        lemma_find_from_in_range(l, throws_tag(), 0);
    }
}

// ---------------------------------------------------------------------------
// What the scan keeps
// ---------------------------------------------------------------------------
/// `lines[j]` is a tag for the type `n`.
spec fn declares_at(lines: Seq<Seq<char>>, j: int, n: Seq<char>) -> bool {
    parsed_declaration(lines[j]) matches Some((t, _)) && t == n
}

/// Some line of `lines` is a tag for `n`.
spec fn declared_in(lines: Seq<Seq<char>>, n: Seq<char>) -> bool {
    exists|j: int| 0 <= j < lines.len() && #[trigger] declares_at(lines, j, n)
}

/// The scan keeps `lines[k]` whatever comes after it: it is no tag, a
/// manual tag, or a generated tag for a wanted type that no earlier line
/// declares.
spec fn fine_at(lines: Seq<Seq<char>>, desired: Seq<ThrowsEntryView>, k: int) -> bool {
    match parsed_declaration(lines[k]) {
        Some((n, manual)) => manual || (names_type(desired, n) && forall|j: int|
            0 <= j < k ==> !#[trigger] declares_at(lines, j, n)),
        None => true,
    }
}

spec fn all_fine(lines: Seq<Seq<char>>, desired: Seq<ThrowsEntryView>) -> bool {
    forall|k: int| 0 <= k < lines.len() ==> #[trigger] fine_at(lines, desired, k)
}

/// `matched` holds exactly the wanted types that `lines` declares.
spec fn matched_exactly(matched: Seq<Seq<char>>, lines: Seq<Seq<char>>, desired: Seq<ThrowsEntryView>) -> bool {
    forall|n: Seq<char>| #[trigger] matched.contains(n) <==> (names_type(desired, n) && declared_in(lines, n))
}

proof fn lemma_fine_same_prefix(a: Seq<Seq<char>>, b: Seq<Seq<char>>, desired: Seq<ThrowsEntryView>, k: int)
    requires
        0 <= k < a.len(),
        k < b.len(),
        forall|j: int| 0 <= j <= k ==> a[j] == b[j],
    ensures
        fine_at(a, desired, k) == fine_at(b, desired, k),
{
    assert(a[k] == b[k]);
    assert forall|j: int, n: Seq<char>| 0 <= j < k implies declares_at(a, j, n) == declares_at(b, j, n) by {
        assert(a[j] == b[j]);
    }
}

proof fn lemma_declared_push(lines: Seq<Seq<char>>, line: Seq<char>, n: Seq<char>)
    ensures
        declared_in(lines.push(line), n) == (declared_in(lines, n) || (parsed_declaration(line) matches Some((t, _)) && t == n)),
{
    let l2 = lines.push(line);
    if declared_in(lines, n) {
        let j = choose|j: int| 0 <= j < lines.len() && #[trigger] declares_at(lines, j, n);
        assert(l2[j] == lines[j]);
        assert(declares_at(l2, j, n));
    }
    if parsed_declaration(line) matches Some((t, _)) && t == n {
        assert(l2[lines.len() as int] == line);
        assert(declares_at(l2, lines.len() as int, n));
    }
    if declared_in(l2, n) {
        let j = choose|j: int| 0 <= j < l2.len() && #[trigger] declares_at(l2, j, n);
        if j < lines.len() {
            assert(l2[j] == lines[j]);
            assert(declares_at(lines, j, n));
        }
    }
}

/// Every scan keeps a list of fine lines, and finds declared exactly the
/// wanted types those lines declare.
proof fn lemma_scan_output_fine(existing: Seq<Seq<char>>, desired: Seq<ThrowsEntryView>)
    ensures
        all_fine(sync_scan(existing, desired).0, desired),
        matched_exactly(sync_scan(existing, desired).1, sync_scan(existing, desired).0, desired),
    decreases existing.len(),
{
    if existing.len() == 0 {
        assert forall|n: Seq<char>| !#[trigger] declared_in(Seq::<Seq<char>>::empty(), n) by {}
    } else {
        lemma_scan_output_fine(existing.drop_last(), desired);
        let (res0, m0) = sync_scan(existing.drop_last(), desired);
        let (res, m) = sync_scan(existing, desired);
        let line = existing.last();
        if res.len() > res0.len() {
            assert(res == res0.push(line));
            assert forall|k: int| 0 <= k < res.len() implies #[trigger] fine_at(res, desired, k) by {
                if k < res0.len() {
                    lemma_fine_same_prefix(res0, res, desired, k);
                } else {
                    assert(res[k] == line);
                    match parsed_declaration(line) {
                        Some((n, false)) => {
                            assert(!m0.contains(n));
                            assert forall|j: int| 0 <= j < k implies !#[trigger] declares_at(res, j, n) by {
                                assert(res[j] == res0[j]);
                                if declares_at(res, j, n) {
                                    assert(declares_at(res0, j, n));
                                }
                            }
                        },
                        _ => {},
                    }
                }
            }
            assert forall|n: Seq<char>| #[trigger] m.contains(n) <==> (names_type(desired, n) && declared_in(res, n)) by {
                lemma_declared_push(res0, line, n);
                if m.len() > m0.len() {
                    let t = m[m0.len() as int];
                    assert(m == m0.push(t));
                    if m.contains(n) && !m0.contains(n) {
                        let i = choose|i: int| 0 <= i < m.len() && m[i] == n;
                        assert(i == m0.len());
                    }
                    if m0.contains(n) {
                        let i = choose|i: int| 0 <= i < m0.len() && m0[i] == n;
                        assert(m[i] == n);
                    }
                    assert(m[m0.len() as int] == t);
                } else {
                    assert(m == m0);
                }
            }
        } else {
            assert(res == res0);
            assert(m == m0);
        }
    }
}

/// A list of fine lines is kept whole by the scan.
proof fn lemma_fine_scan_keeps(lines: Seq<Seq<char>>, desired: Seq<ThrowsEntryView>)
    requires
        all_fine(lines, desired),
    ensures
        sync_scan(lines, desired).0 == lines,
        matched_exactly(sync_scan(lines, desired).1, lines, desired),
    decreases lines.len(),
{
    if lines.len() == 0 {
        assert forall|n: Seq<char>| !#[trigger] declared_in(lines, n) by {}
    } else {
        let l0 = lines.drop_last();
        assert forall|k: int| 0 <= k < l0.len() implies #[trigger] fine_at(l0, desired, k) by {
            lemma_fine_same_prefix(l0, lines, desired, k);
        }
        lemma_fine_scan_keeps(l0, desired);
        let (res0, m0) = sync_scan(l0, desired);
        let (res, m) = sync_scan(lines, desired);
        let line = lines.last();
        let k = lines.len() - 1;
        assert(fine_at(lines, desired, k));
        assert(lines[k] == line);
        match parsed_declaration(line) {
            Some((n, false)) => {
                if m0.contains(n) {
                    let j = choose|j: int| 0 <= j < l0.len() && #[trigger] declares_at(l0, j, n);
                    assert(l0[j] == lines[j]);
                    assert(declares_at(lines, j, n));
                }
            },
            _ => {},
        }
        assert(res == l0.push(line));
        assert(lines =~= l0.push(line));
        assert forall|n: Seq<char>| #[trigger] m.contains(n) <==> (names_type(desired, n) && declared_in(lines, n)) by {
            lemma_declared_push(l0, line, n);
            if m.len() > m0.len() {
                let t = m[m0.len() as int];
                assert(m == m0.push(t));
                if m.contains(n) && !m0.contains(n) {
                    let i = choose|i: int| 0 <= i < m.len() && m[i] == n;
                    assert(i == m0.len());
                }
                if m0.contains(n) {
                    let i = choose|i: int| 0 <= i < m0.len() && m0[i] == n;
                    assert(m[i] == n);
                }
                assert(m[m0.len() as int] == t);
            } else {
                assert(m == m0);
            }
        }
    }
}

// ---------------------------------------------------------------------------
// The tags that are added
// ---------------------------------------------------------------------------
/// No two entries are for the same type.
spec fn distinct_types(es: Seq<ThrowsEntryView>) -> bool {
    forall|i: int, j: int| 0 <= i < j < es.len() ==> #[trigger] es[i].error_type != #[trigger] es[j].error_type
}

proof fn lemma_entries_distinct(ps: Seq<PropagatedThrowView>)
    ensures
        distinct_types(throws_entries(ps)),
    decreases ps.len(),
{
    if ps.len() > 0 {
        lemma_entries_distinct(ps.drop_last());
        let prev = throws_entries(ps.drop_last());
        let es = throws_entries(ps);
        if es != prev {
            let n = entry_type(ps.last());
            assert forall|i: int, j: int| 0 <= i < j < es.len() implies #[trigger] es[i].error_type != #[trigger] es[j].error_type by {
                assert(es[i] == prev[i]);
                if j < prev.len() {
                    assert(es[j] == prev[j]);
                } else {
                    assert(es[j].error_type == n);
                    if prev[i].error_type == n {
                        assert(names_type(prev, n));
                    }
                }
            }
        }
    }
}

proof fn lemma_unmatched_distinct(desired: Seq<ThrowsEntryView>, matched: Seq<Seq<char>>)
    requires
        distinct_types(desired),
    ensures
        distinct_types(unmatched(desired, matched)),
    decreases desired.len(),
{
    if desired.len() > 0 {
        let d0 = desired.drop_last();
        assert forall|i: int, j: int| 0 <= i < j < d0.len() implies #[trigger] d0[i].error_type != #[trigger] d0[j].error_type by {
            assert(d0[i] == desired[i]);
            assert(d0[j] == desired[j]);
        }
        lemma_unmatched_distinct(d0, matched);
        let r = unmatched(d0, matched);
        let u = unmatched(desired, matched);
        if u != r {
            assert forall|i: int, j: int| 0 <= i < j < u.len() implies #[trigger] u[i].error_type != #[trigger] u[j].error_type by {
                assert(u[i] == r[i]);
                if j < r.len() {
                    assert(u[j] == r[j]);
                } else {
                    assert(u[j] == desired.last());
                    crate::fixer::lemma_unmatched_members(d0, matched, i);
                    let x = choose|x: int| 0 <= x < d0.len() && d0[x] == r[i];
                    assert(desired[x] == r[i]);
                    assert(desired[desired.len() - 1] == desired.last());
                }
            }
        }
    }
}

proof fn lemma_unmatched_not_matched(desired: Seq<ThrowsEntryView>, matched: Seq<Seq<char>>, k: int)
    requires
        0 <= k < unmatched(desired, matched).len(),
    ensures
        !matched.contains(unmatched(desired, matched)[k].error_type),
    decreases desired.len(),
{
    let r = unmatched(desired.drop_last(), matched);
    if k < r.len() {
        assert(unmatched(desired, matched)[k] == r[k]);
        lemma_unmatched_not_matched(desired.drop_last(), matched, k);
    }
}

proof fn lemma_unmatched_same(desired: Seq<ThrowsEntryView>, m1: Seq<Seq<char>>, m2: Seq<Seq<char>>)
    requires
        forall|n: Seq<char>| #[trigger] m1.contains(n) == m2.contains(n),
    ensures
        unmatched(desired, m1) == unmatched(desired, m2),
    decreases desired.len(),
{
    if desired.len() > 0 {
        lemma_unmatched_same(desired.drop_last(), m1, m2);
        assert(m1.contains(desired.last().error_type) == m2.contains(desired.last().error_type));
    }
}

/// The line written for the `i`-th missing entry is a generated tag for a
/// wanted type.
proof fn lemma_missing_line(ps: Seq<PropagatedThrowView>, matched: Seq<Seq<char>>, ind: Seq<char>, i: int)
    requires
        forall|j: int| 0 <= j < ps.len() ==> plain_type_name(#[trigger] entry_type(ps[j])),
        forall|j: int| 0 <= j < ind.len() ==> is_ws(#[trigger] ind[j]),
        0 <= i < unmatched(throws_entries(ps), matched).len(),
    ensures
        parsed_declaration(entry_lines(ind, unmatched(throws_entries(ps), matched))[i])
            == Some((unmatched(throws_entries(ps), matched)[i].error_type, false)),
        names_type(throws_entries(ps), unmatched(throws_entries(ps), matched)[i].error_type),
{
    let desired = throws_entries(ps);
    let missing = unmatched(desired, matched);
    crate::fixer::lemma_unmatched_members(desired, matched, i);
    let x = choose|x: int| 0 <= x < desired.len() && desired[x] == missing[i];
    crate::fixer::lemma_entries_are_generated(ps, x);
    let j = choose|j: int| 0 <= j < ps.len() && #[trigger] throws_entries(ps)[x] == (ThrowsEntryView {
        error_type: entry_type(ps[j]),
        text: crate::fixer::entry_text(entry_type(ps[j]), ps[j].origin_function),
    });
    assert(plain_type_name(entry_type(ps[j])));
    crate::fixer::lemma_generated_line_parses(ind, entry_type(ps[j]), ps[j].origin_function);
    assert(entry_lines(ind, missing)[i] == ind + star_line_prefix() + missing[i].text);
}

proof fn lemma_blank_then_no_at(ind: Seq<char>, t: Seq<char>)
    requires
        forall|j: int| 0 <= j < ind.len() ==> is_ws(#[trigger] ind[j]),
        forall|j: int| 0 <= j < t.len() ==> #[trigger] t[j] != '@',
    ensures
        parsed_declaration(ind + t) is None,
{
    let l = ind + t;
    assert forall|j: int| 0 <= j < l.len() implies #[trigger] l[j] != '@' by {
        if j < ind.len() {
            assert(l[j] == ind[j]);
            assert(is_ws(ind[j]));
            assert(('@' as u32) == 64u32);
        } else {
            assert(l[j] == t[j - ind.len()]);
        }
    }
    lemma_no_at_no_declaration(l);
}

// ---------------------------------------------------------------------------
// The comments that syncing writes
// ---------------------------------------------------------------------------
/// A new comment for the missing entries is fine, and declares each of them.
proof fn lemma_generated_doc_fine(ps: Seq<PropagatedThrowView>, matched: Seq<Seq<char>>, ind: Seq<char>)
    requires
        forall|j: int| 0 <= j < ps.len() ==> plain_type_name(#[trigger] entry_type(ps[j])),
        forall|j: int| 0 <= j < ind.len() ==> is_ws(#[trigger] ind[j]),
    ensures
        all_fine(generated_doc(ind, unmatched(throws_entries(ps), matched)), throws_entries(ps)),
        forall|i: int| 0 <= i < unmatched(throws_entries(ps), matched).len() ==> declares_at(
            generated_doc(ind, unmatched(throws_entries(ps), matched)),
            1 + i,
            #[trigger] unmatched(throws_entries(ps), matched)[i].error_type,
        ),
{
    let desired = throws_entries(ps);
    let missing = unmatched(desired, matched);
    let xs = entry_lines(ind, missing);
    let out = generated_doc(ind, missing);
    lemma_entries_distinct(ps);
    lemma_unmatched_distinct(desired, matched);
    assert(open_doc() =~= seq!['/', '*', '*']);
    assert(close_line() =~= seq![' ', '*', '/']);
    lemma_blank_then_no_at(ind, open_doc());
    lemma_blank_then_no_at(ind, close_line());
    assert(out.len() == missing.len() + 2);
    assert forall|i: int| 0 <= i < missing.len() implies declares_at(out, 1 + i, #[trigger] missing[i].error_type) by {
        assert(out[1 + i] == xs[i]);
        lemma_missing_line(ps, matched, ind, i);
    }
    assert forall|k: int| 0 <= k < out.len() implies #[trigger] fine_at(out, desired, k) by {
        if k == 0 {
            assert(out[0] == ind + open_doc());
        } else if k == out.len() - 1 {
            assert(out[k] == ind + close_line());
        } else {
            let i = k - 1;
            assert(out[k] == xs[i]);
            lemma_missing_line(ps, matched, ind, i);
            let n = missing[i].error_type;
            assert forall|j: int| 0 <= j < k implies !#[trigger] declares_at(out, j, n) by {
                if j == 0 {
                    assert(out[0] == ind + open_doc());
                } else {
                    assert(out[j] == xs[j - 1]);
                    lemma_missing_line(ps, matched, ind, j - 1);
                    assert(missing[j - 1].error_type != missing[i].error_type);
                }
            }
        }
    }
}

/// `res` with the missing entries spliced in where its line `c` was.
spec fn spliced(
    res: Seq<Seq<char>>,
    c: int,
    head: Seq<Seq<char>>,
    ind: Seq<char>,
    missing: Seq<ThrowsEntryView>,
) -> Seq<Seq<char>> {
    res.take(c) + head + entry_lines(ind, missing) + seq![ind + close_line()] + res.skip(c + 1)
}

proof fn lemma_spliced_index(
    res: Seq<Seq<char>>,
    c: int,
    head: Seq<Seq<char>>,
    ind: Seq<char>,
    missing: Seq<ThrowsEntryView>,
)
    requires
        0 <= c < res.len(),
    ensures
        ({
            let out = spliced(res, c, head, ind, missing);
            let h = head.len() as int;
            let x = missing.len() as int;
            &&& out.len() == res.len() + h + x
            &&& forall|j: int| 0 <= j < c ==> out[j] == #[trigger] res[j]
            &&& forall|j: int| 0 <= j < h ==> out[c + j] == #[trigger] head[j]
            &&& forall|j: int| 0 <= j < x ==> out[c + h + j] == #[trigger] entry_lines(ind, missing)[j]
            &&& out[c + h + x] == ind + close_line()
            &&& forall|r: int| c < r < res.len() ==> out[r + h + x] == #[trigger] res[r]
        }),
{
    let out = spliced(res, c, head, ind, missing);
    let h = head.len() as int;
    let x = missing.len() as int;
    let xs = entry_lines(ind, missing);
    let a = res.take(c);
    let b = res.skip(c + 1);
    let cl = seq![ind + close_line()];
    assert(out == (((a + head) + xs) + cl) + b);
    assert forall|j: int| 0 <= j < c implies out[j] == #[trigger] res[j] by {
        assert(a[j] == res[j]);
    }
    assert forall|j: int| 0 <= j < h implies out[c + j] == #[trigger] head[j] by {}
    assert forall|j: int| 0 <= j < x implies out[c + h + j] == #[trigger] xs[j] by {}
    assert forall|r: int| c < r < res.len() implies out[r + h + x] == #[trigger] res[r] by {
        assert(b[r - c - 1] == res[r]);
    }
}

/// Splicing the missing entries into a scanned comment, in place of a line
/// that is no tag and with head lines that are no tags, keeps it fine.
#[verifier::rlimit(40)]
proof fn lemma_spliced_fine(
    ps: Seq<PropagatedThrowView>,
    res: Seq<Seq<char>>,
    matched: Seq<Seq<char>>,
    c: int,
    head: Seq<Seq<char>>,
    ind: Seq<char>,
)
    requires
        forall|j: int| 0 <= j < ps.len() ==> plain_type_name(#[trigger] entry_type(ps[j])),
        forall|j: int| 0 <= j < ind.len() ==> is_ws(#[trigger] ind[j]),
        all_fine(res, throws_entries(ps)),
        matched_exactly(matched, res, throws_entries(ps)),
        0 <= c < res.len(),
        forall|j: int| 0 <= j < head.len() ==> parsed_declaration(#[trigger] head[j]) is None,
    ensures
        all_fine(spliced(res, c, head, ind, unmatched(throws_entries(ps), matched)), throws_entries(ps)),
{
    let desired = throws_entries(ps);
    let missing = unmatched(desired, matched);
    let xs = entry_lines(ind, missing);
    let out = spliced(res, c, head, ind, missing);
    let h = head.len() as int;
    let x = missing.len() as int;
    lemma_spliced_index(res, c, head, ind, missing);
    lemma_entries_distinct(ps);
    lemma_unmatched_distinct(desired, matched);
    assert(close_line() =~= seq![' ', '*', '/']);
    lemma_blank_then_no_at(ind, close_line());
    assert forall|k: int| 0 <= k < out.len() implies #[trigger] fine_at(out, desired, k) by {
        if k < c {
            assert forall|j: int| 0 <= j <= k implies res[j] == out[j] by {}
            lemma_fine_same_prefix(res, out, desired, k);
        } else if k < c + h {
            assert(out[k] == head[k - c]);
        } else if k < c + h + x {
            let i = k - c - h;
            assert(out[k] == xs[i]);
            lemma_missing_line(ps, matched, ind, i);
            lemma_unmatched_not_matched(desired, matched, i);
            let n = missing[i].error_type;
            assert forall|j: int| 0 <= j < k implies !#[trigger] declares_at(out, j, n) by {
                if j < c {
                    assert(out[j] == res[j]);
                    if declares_at(out, j, n) {
                        assert(declares_at(res, j, n));
                        assert(declared_in(res, n));
                    }
                } else if j < c + h {
                    assert(out[j] == head[j - c]);
                } else {
                    assert(out[j] == xs[j - c - h]);
                    lemma_missing_line(ps, matched, ind, j - c - h);
                    assert(missing[j - c - h].error_type != missing[i].error_type);
                }
            }
        } else if k == c + h + x {
        } else {
            let r = k - h - x;
            assert(out[k] == res[r]);
            assert(fine_at(res, desired, r));
            match parsed_declaration(res[r]) {
                Some((n, false)) => {
                    assert(declares_at(res, r, n));
                    assert(declared_in(res, n));
                    assert(matched.contains(n));
                    assert forall|j: int| 0 <= j < k implies !#[trigger] declares_at(out, j, n) by {
                        if j < c {
                            assert(out[j] == res[j]);
                            if declares_at(out, j, n) {
                                assert(declares_at(res, j, n));
                            }
                        } else if j < c + h {
                            assert(out[j] == head[j - c]);
                        } else if j < c + h + x {
                            let i = j - c - h;
                            assert(out[j] == xs[i]);
                            lemma_missing_line(ps, matched, ind, i);
                            lemma_unmatched_not_matched(desired, matched, i);
                        } else if j > c + h + x {
                            assert(out[j] == res[j - h - x]);
                            if declares_at(out, j, n) {
                                assert(declares_at(res, j - h - x, n));
                            }
                        }
                    }
                },
                _ => {},
            }
        }
    }
}

proof fn lemma_last_closing_closes(lines: Seq<Seq<char>>, i: int)
    requires
        last_closing(lines, i) is Some,
    ensures
        0 <= last_closing(lines, i)->0 < lines.len(),
        find(lines[last_closing(lines, i)->0], comment_close()) is Some,
    decreases i,
{
    if !(i <= 0 || i > lines.len()) && find(lines[i - 1], comment_close()) is None {
        lemma_last_closing_closes(lines, i - 1);
    }
}

proof fn lemma_rfind_before_in_range(s: Seq<char>, p: Seq<char>, i: int)
    requires
        crate::text::rfind_before(s, p, i) is Some,
    ensures
        0 <= crate::text::rfind_before(s, p, i)->0 <= s.len(),
    decreases i,
{
    if !(i <= 0 || i > s.len()) && !occurs_at(s, p, i - 1) {
        lemma_rfind_before_in_range(s, p, i - 1);
    }
}

/// The types the scan finds declared among lines with no tag: none.
proof fn lemma_nothing_declared_without_content(lines: Seq<Seq<char>>, n: Seq<char>)
    requires
        !has_content(lines),
    ensures
        !declared_in(lines, n),
{
    if declared_in(lines, n) {
        let j = choose|j: int| 0 <= j < lines.len() && #[trigger] declares_at(lines, j, n);
        crate::fixer::lemma_tag_line_has_content(lines[j]);
        assert(crate::fixer::line_content(lines[j]).len() > 0);
    }
}

/// Syncing is idempotent: a comment brought in line with the tags generated
/// for some throws, brought in line with the same tags once more, stays as
/// the first pass left it. This holds for comments in which no line that
/// holds `*/` is itself a tag, and for type names that the tag grammar
/// reads back unchanged.
pub proof fn law_sync_is_idempotent(existing: Seq<Seq<char>>, ps: Seq<PropagatedThrowView>)
    requires
        forall|j: int| 0 <= j < ps.len() ==> plain_type_name(#[trigger] entry_type(ps[j])),
        forall|i: int| 0 <= i < existing.len() && find(#[trigger] existing[i], comment_close()) is Some
            ==> parsed_declaration(existing[i]) is None,
    ensures
        synced(synced(existing, throws_entries(ps)), throws_entries(ps)) == synced(existing, throws_entries(ps)),
{
    let desired = throws_entries(ps);
    let (res, matched) = sync_scan(existing, desired);
    let missing = unmatched(desired, matched);
    let out = synced(existing, desired);
    lemma_scan_output_fine(existing, desired);
    if missing.len() == 0 {
        if has_content(res) {
            assert(out == res);
            lemma_fine_scan_keeps(res, desired);
            let m2 = sync_scan(res, desired).1;
            lemma_unmatched_same(desired, matched, m2);
        } else {
            assert(out == Seq::<Seq<char>>::empty());
            assert forall|n: Seq<char>| #[trigger] matched.contains(n) == Seq::<Seq<char>>::empty().contains(n) by {
                lemma_nothing_declared_without_content(res, n);
            }
            lemma_unmatched_same(desired, matched, Seq::<Seq<char>>::empty());
            assert(sync_scan(out, desired) == (Seq::<Seq<char>>::empty(), Seq::<Seq<char>>::empty()));
        }
    } else if !has_content(res) {
        let ind = if existing.len() > 0 {
            leading_ws(existing[0])
        } else {
            Seq::empty()
        };
        crate::fixer::lemma_leading_ws_blank(existing[0]);
        assert(out == generated_doc(ind, missing));
        lemma_generated_doc_fine(ps, matched, ind);
        lemma_fine_scan_keeps(out, desired);
        let m2 = sync_scan(out, desired).1;
        assert forall|i: int| 0 <= i < desired.len() implies m2.contains(#[trigger] desired[i].error_type) by {
            let e = desired[i];
            lemma_nothing_declared_without_content(res, e.error_type);
            assert(desired.contains(e));
            crate::fixer::lemma_unmatched_contains(desired, matched, e);
            let q = choose|q: int| 0 <= q < missing.len() && missing[q] == e;
            assert(declares_at(out, 1 + q, missing[q].error_type));
            assert(declared_in(out, e.error_type));
            assert(names_type(desired, e.error_type));
        }
        crate::fixer::lemma_unmatched_empty(desired, m2);
        assert(declares_at(out, 1, missing[0].error_type));
        crate::fixer::lemma_tag_line_has_content(out[1]);
        assert(has_content(out));
    } else {
        match last_closing(res, res.len() as int) {
            None => {
                assert(out == res);
                lemma_fine_scan_keeps(res, desired);
                let m2 = sync_scan(res, desired).1;
                lemma_unmatched_same(desired, matched, m2);
            },
            Some(c) => {
                lemma_last_closing_closes(res, res.len() as int);
                let l = res[c];
                crate::fixer::lemma_scan_keeps_only_existing_lines(existing, desired, c);
                let xi = choose|xi: int| 0 <= xi < existing.len() && existing[xi] == l;
                assert(parsed_declaration(l) is None);
                let ind = leading_ws(l);
                crate::fixer::lemma_leading_ws_blank(l);
                let pos = match rfind(l, comment_close()) {
                    Some(p) => p,
                    None => l.len() as int,
                };
                if rfind(l, comment_close()) is Some {
                    lemma_rfind_before_in_range(l, comment_close(), l.len() as int);
                }
                let before = trim_end(l.take(pos));
                lemma_trim_end_prefix(l.take(pos));
                assert(before =~= l.take(before.len() as int));
                if parsed_declaration(before) is Some {
                    lemma_parsed_prefix(l, before.len() as int);
                }
                let head = if trim(before).len() > 0 && trim(before) != seq!['*'] {
                    seq![before]
                } else {
                    Seq::<Seq<char>>::empty()
                };
                assert(out == spliced(res, c, head, ind, missing));
                lemma_spliced_fine(ps, res, matched, c, head, ind);
                lemma_spliced_index(res, c, head, ind, missing);
                lemma_fine_scan_keeps(out, desired);
                let m2 = sync_scan(out, desired).1;
                let h = head.len() as int;
                let x = missing.len() as int;
                assert forall|i: int| 0 <= i < desired.len() implies m2.contains(#[trigger] desired[i].error_type) by {
                    let e = desired[i];
                    let n = e.error_type;
                    assert(names_type(desired, n));
                    if matched.contains(n) {
                        let r = choose|r: int| 0 <= r < res.len() && #[trigger] declares_at(res, r, n);
                        if r < c {
                            assert(out[r] == res[r]);
                            assert(declares_at(out, r, n));
                        } else {
                            assert(r != c);
                            assert(out[r + h + x] == res[r]);
                            assert(declares_at(out, r + h + x, n));
                        }
                    } else {
                        assert(desired.contains(e));
                        crate::fixer::lemma_unmatched_contains(desired, matched, e);
                        let q = choose|q: int| 0 <= q < missing.len() && missing[q] == e;
                        lemma_missing_line(ps, matched, ind, q);
                        assert(out[c + h + q] == entry_lines(ind, missing)[q]);
                        assert(declares_at(out, c + h + q, n));
                    }
                    assert(declared_in(out, n));
                }
                crate::fixer::lemma_unmatched_empty(desired, m2);
                lemma_missing_line(ps, matched, ind, 0);
                assert(out[c + h] == entry_lines(ind, missing)[0]);
                crate::fixer::lemma_tag_line_has_content(out[c + h]);
                assert(has_content(out));
            },
        }
    }
}

} // verus!
