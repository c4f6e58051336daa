//! What a fix writes: the line breaks and byte-order marks of a rewritten
//! file.
use crate::fixer::{
    apply_edit, apply_edits, bom_char, close_line, diagnostic_edit, entry_lines, entry_text, entry_type,
    file_edits, fixed_text, generated_doc, indent_at, insert_desc, leading_ws, open_doc, sort_desc,
    star_line_prefix, sync_scan, synced, throws_entries, with_missing, ModificationView, ThrowsEntryView,
};
use crate::text::{count_char, find, find_char, find_char_from, join, lines, rfind, strip_cr, trim_end, trim_start, is_ws};
use crate::types::{DiagnosticView, PropagatedThrowView};
use vstd::prelude::*;

verus! {

/// No line of `ls` holds `c`.
pub open spec fn lines_free_of(ls: Seq<Seq<char>>, c: char) -> bool {
    forall|i: int| 0 <= i < ls.len() ==> !(#[trigger] ls[i]).contains(c)
}

/// `c` is none of the characters the tool writes around a tag.
pub open spec fn not_written(c: char) -> bool {
    c != '/' && c != '*' && c != ' '
}

/// Every line feed of `s` ends a `\r\n`.
pub open spec fn crlf_only(s: Seq<char>) -> bool {
    forall|k: int| 0 <= k < s.len() && #[trigger] s[k] == '\n' ==> k > 0 && s[k - 1] == '\r'
}

proof fn lemma_trim_start_shorter(s: Seq<char>)
    ensures
        trim_start(s).len() <= s.len(),
    decreases s.len(),
{
    if s.len() > 0 && is_ws(s[0]) {
        lemma_trim_start_shorter(s.drop_first());
    }
}

proof fn lemma_last_closing_bound(ls: Seq<Seq<char>>, i: int)
    ensures
        crate::fixer::last_closing(ls, i) matches Some(k) ==> 0 <= k < i && i <= ls.len(),
    decreases i,
{
    if i > 0 && i <= ls.len() && find(ls[i - 1], crate::jsdoc::comment_close()) is None {
        lemma_last_closing_bound(ls, i - 1);
    }
}

proof fn lemma_rfind_before_bound(s: Seq<char>, p: Seq<char>, i: int)
    ensures
        crate::text::rfind_before(s, p, i) matches Some(j) ==> 0 <= j < i && i <= s.len(),
    decreases i,
{
    if i > 0 && i <= s.len() && !crate::text::occurs_at(s, p, i - 1) {
        lemma_rfind_before_bound(s, p, i - 1);
    }
}

proof fn lemma_unmatched_within(desired: Seq<ThrowsEntryView>, matched: Seq<Seq<char>>, c: char)
    requires
        texts_free_of(desired, c),
    ensures
        texts_free_of(crate::fixer::unmatched(desired, matched), c),
    decreases desired.len(),
{
    if desired.len() > 0 {
        assert forall|j: int| 0 <= j < desired.drop_last().len() implies !(#[trigger] desired.drop_last()[j]).text.contains(c) by {
            assert(desired.drop_last()[j] == desired[j]);
        }
        lemma_unmatched_within(desired.drop_last(), matched, c);
        let prev = crate::fixer::unmatched(desired.drop_last(), matched);
        let r = crate::fixer::unmatched(desired, matched);
        assert(!desired[desired.len() - 1].text.contains(c));
        assert forall|j: int| 0 <= j < r.len() implies !(#[trigger] r[j]).text.contains(c) by {
            if j < prev.len() {
                assert(r[j] == prev[j]);
            }
        }
    }
}

proof fn lemma_sub_free(s: Seq<char>, a: int, b: int, c: char)
    requires
        0 <= a <= b <= s.len(),
        !s.contains(c),
    ensures
        !s.subrange(a, b).contains(c),
{
    if s.subrange(a, b).contains(c) {
        let k = choose|k: int| 0 <= k < b - a && s.subrange(a, b)[k] == c;
        assert(s[a + k] == c);
    }
}

proof fn lemma_concat_free(x: Seq<char>, y: Seq<char>, c: char)
    requires
        !x.contains(c),
        !y.contains(c),
    ensures
        !(x + y).contains(c),
{
    if (x + y).contains(c) {
        let k = choose|k: int| 0 <= k < (x + y).len() && (x + y)[k] == c;
        if k < x.len() {
            assert(x[k] == c);
        } else {
            assert(y[k - x.len()] == c);
        }
    }
}

proof fn lemma_find_char_from_bounds(s: Seq<char>, c: char, j: int)
    requires
        0 <= j,
    ensures
        match find_char_from(s, c, j) {
            Some(i) => j <= i < s.len() && s[i] == c && forall|k: int| j <= k < i ==> s[k] != c,
            None => forall|k: int| j <= k < s.len() ==> s[k] != c,
        },
    decreases s.len() - j,
{
    if j < s.len() && s[j] != c {
        lemma_find_char_from_bounds(s, c, j + 1);
    }
}

/// The lines of `s` hold no line feed, and no `c` that `s` does not hold.
proof fn lemma_lines_free(s: Seq<char>, c: char)
    requires
        c == '\n' || !s.contains(c),
    ensures
        lines_free_of(lines(s), c),
    decreases s.len(),
{
    if s.len() > 0 {
        lemma_find_char_from_bounds(s, '\n', 0);
        match find_char(s, '\n') {
            None => {
                assert(lines(s) == seq![s]);
                if c == '\n' && s.contains(c) {
                    let k = choose|k: int| 0 <= k < s.len() && s[k] == c;
                }
            },
            Some(i) => {
                let head = s.take(i);
                if c != '\n' {
                    lemma_sub_free(s, 0, i, c);
                    lemma_sub_free(s, i + 1, s.len() as int, c);
                    assert(s.skip(i + 1) =~= s.subrange(i + 1, s.len() as int));
                    assert(head =~= s.subrange(0, i));
                } else if head.contains(c) {
                    let k = choose|k: int| 0 <= k < head.len() && head[k] == c;
                    assert(s[k] == c);
                }
                let h = strip_cr(head);
                if h.contains(c) {
                    let k = choose|k: int| 0 <= k < h.len() && h[k] == c;
                    assert(head[k] == c);
                }
                lemma_lines_free(s.skip(i + 1), c);
                let rest = lines(s.skip(i + 1));
                assert(lines(s) == seq![h] + rest);
                assert forall|j: int| 0 <= j < lines(s).len() implies !(#[trigger] lines(s)[j]).contains(c) by {
                    if j > 0 {
                        assert(lines(s)[j] == rest[j - 1]);
                    }
                }
            },
        }
    }
}

/// The throws' entry texts hold no `c`.
pub open spec fn entries_free_of(ps: Seq<PropagatedThrowView>, c: char) -> bool {
    forall|j: int| 0 <= j < ps.len() ==> !entry_text(entry_type(#[trigger] ps[j]), ps[j].origin_function).contains(c)
}

/// The texts of `es` hold no `c`.
pub open spec fn texts_free_of(es: Seq<ThrowsEntryView>, c: char) -> bool {
    forall|j: int| 0 <= j < es.len() ==> !(#[trigger] es[j]).text.contains(c)
}

proof fn lemma_entries_free(ps: Seq<PropagatedThrowView>, c: char)
    requires
        entries_free_of(ps, c),
    ensures
        texts_free_of(throws_entries(ps), c),
    decreases ps.len(),
{
    if ps.len() > 0 {
        assert forall|j: int| 0 <= j < ps.drop_last().len() implies !entry_text(entry_type(#[trigger] ps.drop_last()[j]), ps.drop_last()[j].origin_function).contains(c) by {
            assert(ps.drop_last()[j] == ps[j]);
        }
        lemma_entries_free(ps.drop_last(), c);
        let prev = throws_entries(ps.drop_last());
        let r = throws_entries(ps);
        assert(!entry_text(entry_type(ps[ps.len() - 1]), ps[ps.len() - 1].origin_function).contains(c));
        assert forall|j: int| 0 <= j < r.len() implies !(#[trigger] r[j]).text.contains(c) by {
            if j < prev.len() {
                assert(r[j] == prev[j]);
            }
        }
    }
}

proof fn lemma_entry_lines_free(ind: Seq<char>, es: Seq<ThrowsEntryView>, c: char)
    requires
        !ind.contains(c),
        texts_free_of(es, c),
        not_written(c),
    ensures
        lines_free_of(entry_lines(ind, es), c),
{
    assert(!star_line_prefix().contains(c));
    assert forall|j: int| 0 <= j < entry_lines(ind, es).len() implies !(#[trigger] entry_lines(ind, es)[j]).contains(c) by {
        lemma_concat_free(ind, star_line_prefix(), c);
        assert(!es[j].text.contains(c));
        lemma_concat_free(ind + star_line_prefix(), es[j].text, c);
    }
}

proof fn lemma_generated_doc_free(ind: Seq<char>, es: Seq<ThrowsEntryView>, c: char)
    requires
        !ind.contains(c),
        texts_free_of(es, c),
        not_written(c),
    ensures
        lines_free_of(generated_doc(ind, es), c),
{
    lemma_entry_lines_free(ind, es, c);
    assert(!open_doc().contains(c));
    assert(!close_line().contains(c));
    lemma_concat_free(ind, open_doc(), c);
    lemma_concat_free(ind, close_line(), c);
    let g = generated_doc(ind, es);
    let el = entry_lines(ind, es);
    assert forall|j: int| 0 <= j < g.len() implies !(#[trigger] g[j]).contains(c) by {
        if j == 0 {
            assert(g[j] == ind + open_doc());
        } else if j <= el.len() {
            assert(g[j] == el[j - 1]);
        } else {
            assert(g[j] == ind + close_line());
        }
    }
}

proof fn lemma_scan_free(existing: Seq<Seq<char>>, desired: Seq<ThrowsEntryView>, c: char)
    requires
        lines_free_of(existing, c),
    ensures
        lines_free_of(sync_scan(existing, desired).0, c),
    decreases existing.len(),
{
    if existing.len() > 0 {
        assert forall|j: int| 0 <= j < existing.drop_last().len() implies !(#[trigger] existing.drop_last()[j]).contains(c) by {
            assert(existing.drop_last()[j] == existing[j]);
        }
        lemma_scan_free(existing.drop_last(), desired, c);
        let prev = sync_scan(existing.drop_last(), desired).0;
        let r = sync_scan(existing, desired).0;
        assert(!existing[existing.len() - 1].contains(c));
        assert forall|j: int| 0 <= j < r.len() implies !(#[trigger] r[j]).contains(c) by {
            if j < prev.len() {
                assert(r[j] == prev[j]);
            } else {
                assert(r[j] == existing.last());
            }
        }
    }
}

proof fn lemma_trim_end_is_head(s: Seq<char>)
    ensures
        trim_end(s).len() <= s.len(),
        trim_end(s) == s.take(trim_end(s).len() as int),
    decreases s.len(),
{
    if s.len() > 0 && is_ws(s.last()) {
        lemma_trim_end_is_head(s.drop_last());
        assert(s.drop_last().take(trim_end(s).len() as int) =~= s.take(trim_end(s).len() as int));
    } else {
        assert(s.take(s.len() as int) =~= s);
    }
}

proof fn lemma_leading_ws_free(l: Seq<char>, c: char)
    requires
        !l.contains(c),
    ensures
        !leading_ws(l).contains(c),
{
    lemma_trim_start_shorter(l);
    lemma_sub_free(l, 0, l.len() - trim_start(l).len(), c);
    assert(leading_ws(l) =~= l.subrange(0, l.len() - trim_start(l).len()));
}

proof fn lemma_with_missing_free(ls: Seq<Seq<char>>, es: Seq<ThrowsEntryView>, c: char)
    requires
        lines_free_of(ls, c),
        texts_free_of(es, c),
        not_written(c),
    ensures
        lines_free_of(with_missing(ls, es), c),
{
    match crate::fixer::last_closing(ls, ls.len() as int) {
        None => {},
        Some(k) => {
            lemma_last_closing_bound(ls, ls.len() as int);
            let l = ls[k];
            assert(!l.contains(c));
            let ind = leading_ws(l);
            lemma_leading_ws_free(l, c);
            let pos = match rfind(l, crate::jsdoc::comment_close()) {
                Some(p) => p,
                None => l.len() as int,
            };
            lemma_rfind_before_bound(l, crate::jsdoc::comment_close(), l.len() as int);
            let t = l.take(pos);
            lemma_sub_free(l, 0, pos, c);
            assert(t =~= l.subrange(0, pos));
            let before = trim_end(t);
            lemma_trim_end_is_head(t);
            lemma_sub_free(t, 0, before.len() as int, c);
            assert(before =~= t.subrange(0, before.len() as int));
            let head = if crate::text::trim(before).len() > 0 && crate::text::trim(before) != seq!['*'] {
                seq![before]
            } else {
                Seq::empty()
            };
            lemma_entry_lines_free(ind, es, c);
            assert(!close_line().contains(c));
            lemma_concat_free(ind, close_line(), c);
            let a = ls.take(k);
            let el = entry_lines(ind, es);
            let tail = ls.skip(k + 1);
            let w = with_missing(ls, es);
            assert(w == a + head + el + seq![ind + close_line()] + tail);
            assert forall|j: int| 0 <= j < w.len() implies !(#[trigger] w[j]).contains(c) by {
                if j < a.len() {
                    assert(w[j] == ls[j]);
                } else if j < a.len() + head.len() {
                    assert(w[j] == before);
                } else if j < a.len() + head.len() + el.len() {
                    assert(w[j] == el[j - a.len() - head.len()]);
                } else if j == a.len() + head.len() + el.len() {
                    assert(w[j] == ind + close_line());
                } else {
                    assert(w[j] == ls[j - a.len() - head.len() - el.len() - 1 + k + 1]);
                }
            }
        },
    }
}

proof fn lemma_synced_free(existing: Seq<Seq<char>>, es: Seq<ThrowsEntryView>, c: char)
    requires
        lines_free_of(existing, c),
        texts_free_of(es, c),
        not_written(c),
    ensures
        lines_free_of(synced(existing, es), c),
{
    lemma_scan_free(existing, es, c);
    let (res, matched) = sync_scan(existing, es);
    let missing = crate::fixer::unmatched(es, matched);
    lemma_unmatched_within(es, matched, c);
    assert(texts_free_of(missing, c));
    if missing.len() > 0 {
        if !crate::fixer::has_content(res) {
            let ind = if existing.len() > 0 {
                leading_ws(existing[0])
            } else {
                Seq::empty()
            };
            if existing.len() > 0 {
                lemma_leading_ws_free(existing[0], c);
            }
            lemma_generated_doc_free(ind, missing, c);
        } else {
            lemma_with_missing_free(res, missing, c);
        }
    }
}

/// The lines an edit writes.
pub open spec fn content_of(m: ModificationView) -> Seq<Seq<char>> {
    match m {
        ModificationView::Insert { content, .. } => content,
        ModificationView::Replace { content, .. } => content,
    }
}

/// No edit of `ms` writes a line holding `c`.
pub open spec fn edits_free_of(ms: Seq<ModificationView>, c: char) -> bool {
    forall|j: int| 0 <= j < ms.len() ==> lines_free_of(content_of(#[trigger] ms[j]), c)
}

/// The diagnostics' entry texts hold no `c`.
pub open spec fn diagnostics_free_of(ds: Seq<DiagnosticView>, c: char) -> bool {
    forall|k: int| 0 <= k < ds.len() ==> entries_free_of((#[trigger] ds[k]).missing_throws, c)
}

proof fn lemma_diagnostic_edit_free(s: Seq<char>, ls: Seq<Seq<char>>, bom: int, d: DiagnosticView, c: char)
    requires
        lines_free_of(ls, c),
        entries_free_of(d.missing_throws, c),
        not_written(c),
    ensures
        diagnostic_edit(s, ls, bom, d) matches Some(m) ==> lines_free_of(content_of(m), c),
{
    match crate::fixer::function_line(s, crate::fixer::sat_sub(d.function.span.start as int, bom)) {
        None => {},
        Some(f) => if f <= ls.len() {
            let es = throws_entries(d.missing_throws);
            lemma_entries_free(d.missing_throws, c);
            match crate::fixer::jsdoc_range(ls, f) {
                Some((a, e)) => {
                    crate::fixer::lemma_jsdoc_end_bound(ls, f);
                    crate::fixer::lemma_jsdoc_start_bound(ls, e);
                    let existing = ls.subrange(a, e + 1);
                    assert forall|j: int| 0 <= j < existing.len() implies !(#[trigger] existing[j]).contains(c) by {
                        assert(existing[j] == ls[a + j]);
                    }
                    lemma_synced_free(existing, es, c);
                },
                None => {
                    lemma_generated_doc_free(Seq::empty(), es, c);
                },
            }
        },
    }
}

proof fn lemma_file_edits_free(s: Seq<char>, ls: Seq<Seq<char>>, bom: int, ds: Seq<DiagnosticView>, c: char)
    requires
        lines_free_of(ls, c),
        diagnostics_free_of(ds, c),
        not_written(c),
    ensures
        edits_free_of(file_edits(s, ls, bom, ds), c),
    decreases ds.len(),
{
    if ds.len() > 0 {
        assert forall|k: int| 0 <= k < ds.drop_last().len() implies entries_free_of((#[trigger] ds.drop_last()[k]).missing_throws, c) by {
            assert(ds.drop_last()[k] == ds[k]);
        }
        lemma_file_edits_free(s, ls, bom, ds.drop_last(), c);
        assert(entries_free_of(ds[ds.len() - 1].missing_throws, c));
        lemma_diagnostic_edit_free(s, ls, bom, ds.last(), c);
        let prev = file_edits(s, ls, bom, ds.drop_last());
        let r = file_edits(s, ls, bom, ds);
        assert forall|j: int| 0 <= j < r.len() implies lines_free_of(content_of(#[trigger] r[j]), c) by {
            if j < prev.len() {
                assert(r[j] == prev[j]);
            }
        }
    }
}

proof fn lemma_insert_desc_free(ms: Seq<ModificationView>, m: ModificationView, c: char)
    requires
        edits_free_of(ms, c),
        lines_free_of(content_of(m), c),
    ensures
        edits_free_of(insert_desc(ms, m), c),
    decreases ms.len(),
{
    if ms.len() > 0 && crate::fixer::mod_line(ms.last()) < crate::fixer::mod_line(m) {
        assert forall|j: int| 0 <= j < ms.drop_last().len() implies lines_free_of(content_of(#[trigger] ms.drop_last()[j]), c) by {
            assert(ms.drop_last()[j] == ms[j]);
        }
        lemma_insert_desc_free(ms.drop_last(), m, c);
        let prev = insert_desc(ms.drop_last(), m);
        let r = insert_desc(ms, m);
        assert(lines_free_of(content_of(ms[ms.len() - 1]), c));
        assert forall|j: int| 0 <= j < r.len() implies lines_free_of(content_of(#[trigger] r[j]), c) by {
            if j < prev.len() {
                assert(r[j] == prev[j]);
            }
        }
    } else if ms.len() > 0 {
        let r = insert_desc(ms, m);
        assert forall|j: int| 0 <= j < r.len() implies lines_free_of(content_of(#[trigger] r[j]), c) by {
            if j < ms.len() {
                assert(r[j] == ms[j]);
            }
        }
    } else {
        assert(insert_desc(ms, m) == seq![m]);
        assert(insert_desc(ms, m)[0] == m);
    }
}

proof fn lemma_sort_desc_free(ms: Seq<ModificationView>, c: char)
    requires
        edits_free_of(ms, c),
    ensures
        edits_free_of(sort_desc(ms), c),
    decreases ms.len(),
{
    if ms.len() > 0 {
        assert forall|j: int| 0 <= j < ms.drop_last().len() implies lines_free_of(content_of(#[trigger] ms.drop_last()[j]), c) by {
            assert(ms.drop_last()[j] == ms[j]);
        }
        lemma_sort_desc_free(ms.drop_last(), c);
        assert(lines_free_of(content_of(ms[ms.len() - 1]), c));
        lemma_insert_desc_free(sort_desc(ms.drop_last()), ms.last(), c);
    }
}

proof fn lemma_apply_edit_free(ls: Seq<Seq<char>>, m: ModificationView, c: char)
    requires
        lines_free_of(ls, c),
        lines_free_of(content_of(m), c),
    ensures
        lines_free_of(apply_edit(ls, m), c),
{
    match m {
        ModificationView::Insert { line, content } => if 0 <= line <= ls.len() {
            let ind = indent_at(ls, line);
            if 0 <= line < ls.len() {
                lemma_leading_ws_free(ls[line], c);
            }
            let mapped = content.map_values(|x: Seq<char>| ind + x);
            let r = apply_edit(ls, m);
            assert(r == ls.take(line) + mapped + ls.skip(line));
            assert forall|j: int| 0 <= j < r.len() implies !(#[trigger] r[j]).contains(c) by {
                if j < line {
                    assert(r[j] == ls[j]);
                } else if j < line + mapped.len() {
                    assert(r[j] == ind + content[j - line]);
                    assert(!content[j - line].contains(c));
                    lemma_concat_free(ind, content[j - line], c);
                } else {
                    assert(r[j] == ls[j - mapped.len()]);
                }
            }
        },
        ModificationView::Replace { start_line, end_line, content } => if 0 <= start_line <= end_line < ls.len() {
            let r = apply_edit(ls, m);
            assert(r == ls.take(start_line) + content + ls.skip(end_line + 1));
            assert forall|j: int| 0 <= j < r.len() implies !(#[trigger] r[j]).contains(c) by {
                if j < start_line {
                    assert(r[j] == ls[j]);
                } else if j < start_line + content.len() {
                    assert(r[j] == content[j - start_line]);
                } else {
                    assert(r[j] == ls[j - start_line - content.len() + end_line + 1]);
                }
            }
        },
    }
}

proof fn lemma_apply_edits_free(ls: Seq<Seq<char>>, ms: Seq<ModificationView>, c: char)
    requires
        lines_free_of(ls, c),
        edits_free_of(ms, c),
    ensures
        lines_free_of(apply_edits(ls, ms), c),
    decreases ms.len(),
{
    if ms.len() > 0 {
        assert(lines_free_of(content_of(ms[0]), c));
        lemma_apply_edit_free(ls, ms[0], c);
        assert forall|j: int| 0 <= j < ms.drop_first().len() implies lines_free_of(content_of(#[trigger] ms.drop_first()[j]), c) by {
            assert(ms.drop_first()[j] == ms[j + 1]);
        }
        lemma_apply_edits_free(apply_edit(ls, ms[0]), ms.drop_first(), c);
    }
}

proof fn lemma_join_free(parts: Seq<Seq<char>>, sep: Seq<char>, c: char)
    requires
        lines_free_of(parts, c),
        !sep.contains(c),
    ensures
        !join(parts, sep).contains(c),
    decreases parts.len(),
{
    if parts.len() > 1 {
        assert forall|j: int| 0 <= j < parts.drop_last().len() implies !(#[trigger] parts.drop_last()[j]).contains(c) by {
            assert(parts.drop_last()[j] == parts[j]);
        }
        lemma_join_free(parts.drop_last(), sep, c);
        assert(!parts[parts.len() - 1].contains(c));
        lemma_concat_free(join(parts.drop_last(), sep), sep, c);
        lemma_concat_free(join(parts.drop_last(), sep) + sep, parts.last(), c);
    } else if parts.len() == 1 {
        assert(!parts[0].contains(c));
    }
}

proof fn lemma_join_crlf(parts: Seq<Seq<char>>)
    requires
        lines_free_of(parts, '\n'),
    ensures
        crlf_only(join(parts, seq!['\r', '\n'])),
    decreases parts.len(),
{
    let nl = seq!['\r', '\n'];
    if parts.len() > 1 {
        assert forall|j: int| 0 <= j < parts.drop_last().len() implies !(#[trigger] parts.drop_last()[j]).contains('\n') by {
            assert(parts.drop_last()[j] == parts[j]);
        }
        lemma_join_crlf(parts.drop_last());
        let x = join(parts.drop_last(), nl);
        let l = parts.last();
        assert(!parts[parts.len() - 1].contains('\n'));
        let y = join(parts, nl);
        assert(y == x + nl + l);
        assert forall|k: int| 0 <= k < y.len() && #[trigger] y[k] == '\n' implies k > 0 && y[k - 1] == '\r' by {
            if k < x.len() {
                assert(y[k] == x[k]);
                assert(y[k - 1] == x[k - 1]);
            } else if k == x.len() {
                assert(y[k] == '\r');
            } else if k == x.len() + 1 {
                assert(y[k - 1] == '\r');
            } else {
                assert(y[k] == l[k - x.len() - 2]);
            }
        }
    } else if parts.len() == 1 {
        let y = join(parts, nl);
        assert(y == parts[0]);
        assert(!parts[0].contains('\n'));
        assert forall|k: int| 0 <= k < y.len() && #[trigger] y[k] == '\n' implies k > 0 && y[k - 1] == '\r' by {
            assert(y[k] == parts[0][k]);
        }
    }
}

proof fn lemma_count_free(s: Seq<char>, c: char)
    requires
        !s.contains(c),
    ensures
        count_char(s, c) == 0,
    decreases s.len(),
{
    if s.len() > 0 {
        assert(s[s.len() - 1] != c);
        if s.drop_last().contains(c) {
            let k = choose|k: int| 0 <= k < s.drop_last().len() && s.drop_last()[k] == c;
            assert(s[k] == c);
        }
        lemma_count_free(s.drop_last(), c);
    }
}

proof fn lemma_count_front(x: Seq<char>, c: char)
    ensures
        count_char(seq![c] + x, c) == count_char(x, c) + 1,
    decreases x.len(),
{
    let y = seq![c] + x;
    if x.len() == 0 {
        assert(y =~= seq![c]);
        assert(y.drop_last() =~= Seq::<char>::empty());
        assert(count_char(y.drop_last(), c) == 0);
        assert(y.last() == c);
        assert(count_char(y, c) == count_char(y.drop_last(), c) + 1);
        assert(count_char(x, c) == 0);
    } else {
        assert(y.drop_last() =~= seq![c] + x.drop_last());
        lemma_count_front(x.drop_last(), c);
        assert(y.last() == x.last());
        assert(count_char(y, c) == count_char(y.drop_last(), c) + (if y.last() == c { 1nat } else { 0nat }));
        assert(count_char(x, c) == count_char(x.drop_last(), c) + (if x.last() == c { 1nat } else { 0nat }));
    }
}

/// The pieces of the text `fixed_text` writes: the mark, the joined lines
/// and the final line break.
proof fn lemma_fixed_parts(raw: Seq<char>, ds: Seq<DiagnosticView>, new: Seq<char>, c: char)
    requires
        fixed_text(raw, ds) == Some(new),
        diagnostics_free_of(ds, c),
        not_written(c),
        c == '\n' || !(if raw.len() > 0 && raw[0] == bom_char() { raw.skip(1) } else { raw }).contains(c),
    ensures
        ({
            let bom = raw.len() > 0 && raw[0] == bom_char();
            let src = if bom { raw.skip(1) } else { raw };
            let nl = if find(src, seq!['\r', '\n']) is Some { seq!['\r', '\n'] } else { seq!['\n'] };
            let trailing = src.len() > 0 && src.last() == '\n';
            exists|out: Seq<Seq<char>>| lines_free_of(out, c)
                && new == (if bom { seq![bom_char()] } else { Seq::<char>::empty() }) + join(out, nl)
                    + (if trailing { nl } else { Seq::<char>::empty() })
        }),
{
    let bom = raw.len() > 0 && raw[0] == bom_char();
    let src = if bom { raw.skip(1) } else { raw };
    let ls = lines(src);
    lemma_lines_free(src, c);
    let ms = file_edits(src, ls, if bom { 3 } else { 0 }, ds);
    lemma_file_edits_free(src, ls, if bom { 3 } else { 0 }, ds, c);
    lemma_sort_desc_free(ms, c);
    let out = apply_edits(ls, sort_desc(ms));
    lemma_apply_edits_free(ls, sort_desc(ms), c);
    assert(lines_free_of(out, c));
}

/// Fixing a file whose text (after a leading byte-order mark) uses `\r\n`
/// writes no bare line feed: every line feed of the new text ends a `\r\n`,
/// as long as the tags it writes hold no line break.
pub proof fn law_fix_of_crlf_file_writes_crlf_only(raw: Seq<char>, ds: Seq<DiagnosticView>, new: Seq<char>)
    requires
        fixed_text(raw, ds) == Some(new),
        diagnostics_free_of(ds, '\n'),
        find(if raw.len() > 0 && raw[0] == bom_char() { raw.skip(1) } else { raw }, seq!['\r', '\n']) is Some,
    ensures
        crlf_only(new),
{
    lemma_fixed_parts(raw, ds, new, '\n');
    let bom = raw.len() > 0 && raw[0] == bom_char();
    let src = if bom { raw.skip(1) } else { raw };
    let nl = seq!['\r', '\n'];
    let trailing = src.len() > 0 && src.last() == '\n';
    let out = choose|out: Seq<Seq<char>>| lines_free_of(out, '\n')
        && new == (if bom { seq![bom_char()] } else { Seq::<char>::empty() }) + join(out, nl)
            + (if trailing { nl } else { Seq::<char>::empty() });
    lemma_join_crlf(out);
    let head = if bom { seq![bom_char()] } else { Seq::<char>::empty() };
    let body = join(out, nl);
    let tail = if trailing { nl } else { Seq::<char>::empty() };
    assert forall|k: int| 0 <= k < new.len() && #[trigger] new[k] == '\n' implies k > 0 && new[k - 1] == '\r' by {
        if k < head.len() {
            assert(new[k] == head[k]);
        } else if k < head.len() + body.len() {
            assert(new[k] == body[k - head.len()]);
            assert(new[k - 1] == body[k - head.len() - 1]);
        } else {
            assert(new[k] == tail[k - head.len() - body.len()]);
            assert(k - head.len() - body.len() == 1);
            assert(new[k - 1] == tail[0]);
        }
    }
}

/// Fixing a file writes no byte-order mark of its own: when the file's text
/// holds none past a leading one and the tags it writes hold none, the new
/// text holds as many as the old one (one at its start exactly when the old
/// text has one there).
pub proof fn law_fix_keeps_the_mark_count(raw: Seq<char>, ds: Seq<DiagnosticView>, new: Seq<char>)
    requires
        fixed_text(raw, ds) == Some(new),
        diagnostics_free_of(ds, bom_char()),
        !(if raw.len() > 0 && raw[0] == bom_char() { raw.skip(1) } else { raw }).contains(bom_char()),
    ensures
        count_char(new, bom_char()) == count_char(raw, bom_char()),
        (new.len() > 0 && new[0] == bom_char()) == (raw.len() > 0 && raw[0] == bom_char()),
{
    let c = bom_char();
    lemma_fixed_parts(raw, ds, new, c);
    let bom = raw.len() > 0 && raw[0] == c;
    let src = if bom { raw.skip(1) } else { raw };
    let nl = if find(src, seq!['\r', '\n']) is Some { seq!['\r', '\n'] } else { seq!['\n'] };
    let trailing = src.len() > 0 && src.last() == '\n';
    let out = choose|out: Seq<Seq<char>>| lines_free_of(out, c)
        && new == (if bom { seq![c] } else { Seq::<char>::empty() }) + join(out, nl)
            + (if trailing { nl } else { Seq::<char>::empty() });
    assert(!nl.contains(c));
    lemma_join_free(out, nl, c);
    let body = join(out, nl);
    let tail = if trailing { nl } else { Seq::<char>::empty() };
    assert(!tail.contains(c));
    lemma_concat_free(body, tail, c);
    lemma_count_free(body + tail, c);
    lemma_count_free(src, c);
    if bom {
        assert(new == seq![c] + (body + tail));
        lemma_count_front(body + tail, c);
        assert(raw =~= seq![c] + src);
        lemma_count_front(src, c);
        assert(new[0] == c);
    } else {
        assert(new =~= body + tail);
        if new.len() > 0 && new[0] == c {
            assert((body + tail)[0] == c);
        }
    }
}

} // verus!
