//! Writing `@throws` tags into documentation comments.
//!
//! For each function that lacks declarations, the comment right above it
//! is brought in line with what the function lets escape: generated tags
//! that are no longer needed go, manual ones stay, missing ones are added,
//! and a comment is created where there was none.
use crate::jsdoc::{
    comment_close, description_and_from, from_word, jsdoc_end_stripped, line_decls, throws_rest,
    throws_tag, union_decls, ThrowsDeclarationView,
};
use crate::text::{
    chars_of, ends_with, find, find_char_exec_from, find_char_from, find_exec, has_prefix,
    has_suffix, push_all, push_all_str, rfind, rfind_exec, seq_eq, slice_of, starts_with,
    string_chars, string_of, trim, trim_end, trim_start, trimmed, trimmed_end, trimmed_start, find_from, occurs_at,
    lines, lines_exec, join, join_exec, count_char, is_ws, strip_leading, split_char,
};
use crate::tsserver::{byte_len, char_index_at};
use crate::types::{
    Diagnostic, DiagnosticView, ErrorType, ErrorTypeView, FunctionId, FunctionIdView,
    PropagatedThrow, PropagatedThrowView,
};
use vstd::prelude::*;

verus! {

broadcast use {vstd::string::group_string_axioms, crate::char_vec::lemma_char_vec_deep_view};

// ---------------------------------------------------------------------------
// Literals
// ---------------------------------------------------------------------------
pub open spec fn open_doc() -> Seq<char> {
    seq!['/', '*', '*']
}

pub open spec fn open_block() -> Seq<char> {
    seq!['/', '*']
}

pub open spec fn star_line_prefix() -> Seq<char> {
    seq![' ', '*', ' ']
}

pub open spec fn close_line() -> Seq<char> {
    seq![' ', '*', '/']
}

fn lit(s: &str) -> (r: Vec<char>)
    ensures
        r@ == s@,
{
    chars_of(s)
}

fn open_doc_exec() -> (r: Vec<char>)
    ensures
        r@ == open_doc(),
{
    let r = lit("/**");
    proof {
        reveal_strlit("/**");
        assert(r@ =~= open_doc());
    }
    r
}

fn open_block_exec() -> (r: Vec<char>)
    ensures
        r@ == open_block(),
{
    let r = lit("/*");
    proof {
        reveal_strlit("/*");
        assert(r@ =~= open_block());
    }
    r
}

fn comment_close_exec() -> (r: Vec<char>)
    ensures
        r@ == comment_close(),
{
    let r = lit("*/");
    proof {
        reveal_strlit("*/");
        assert(r@ =~= comment_close());
    }
    r
}

fn star_line_prefix_exec() -> (r: Vec<char>)
    ensures
        r@ == star_line_prefix(),
{
    let r = lit(" * ");
    proof {
        reveal_strlit(" * ");
        assert(r@ =~= star_line_prefix());
    }
    r
}

fn close_line_exec() -> (r: Vec<char>)
    ensures
        r@ == close_line(),
{
    let r = lit(" */");
    proof {
        reveal_strlit(" */");
        assert(r@ =~= close_line());
    }
    r
}

// ---------------------------------------------------------------------------
// Lines of a comment
// ---------------------------------------------------------------------------
/// The blanks that start `l`.
pub open spec fn leading_ws(l: Seq<char>) -> Seq<char> {
    l.take(l.len() - trim_start(l).len())
}

proof fn lemma_trim_start_suffix(u: Seq<char>)
    ensures
        trim_start(u).len() <= u.len(),
        u.skip(u.len() - trim_start(u).len()) == trim_start(u),
    decreases u.len(),
{
    if u.len() > 0 && crate::text::is_ws(u[0]) {
        lemma_trim_start_suffix(u.drop_first());
        let n = trim_start(u).len() as int;
        assert(u.skip(u.len() - n) =~= u.drop_first().skip(u.drop_first().len() - n));
    } else {
        assert(u.skip(0) =~= u);
    }
}

fn leading_whitespace(line: &Vec<char>) -> (r: Vec<char>)
    ensures
        r@ == leading_ws(line@),
{
    let t = trimmed_start(line);
    proof {
        lemma_trim_start_suffix(line@);
    }
    slice_of(line, 0, line.len() - t.len())
}

/// What a comment line says once its `/**`, `*/` and leading `*` are gone.
pub open spec fn line_content(l: Seq<char>) -> Seq<char> {
    let c0 = trim(l);
    let c1 = if starts_with(c0, open_doc()) {
        trim(c0.skip(3))
    } else {
        c0
    };
    let c2 = if ends_with(c1, comment_close()) {
        trim(c1.take(c1.len() - 2))
    } else {
        c1
    };
    if starts_with(c2, seq!['*']) {
        trim(c2.skip(1))
    } else {
        c2
    }
}

/// Some line of the comment says something.
pub open spec fn has_content(lines: Seq<Seq<char>>) -> bool {
    exists|i: int| 0 <= i < lines.len() && (#[trigger] line_content(lines[i])).len() > 0
}

fn line_content_exec(line: &Vec<char>) -> (r: Vec<char>)
    ensures
        r@ == line_content(line@),
{
    let open = open_doc_exec();
    let close = comment_close_exec();
    let c0 = trimmed(line);
    let c1 = if has_prefix(&c0, &open) {
        let s = slice_of(&c0, 3, c0.len());
        trimmed(&s)
    } else {
        c0
    };
    let c2 = if has_suffix(&c1, &close) {
        let s = slice_of(&c1, 0, c1.len() - 2);
        trimmed(&s)
    } else {
        c1
    };
    let mut star: Vec<char> = Vec::new();
    star.push('*');
    assert(star@ =~= seq!['*']);
    if has_prefix(&c2, &star) {
        let s = slice_of(&c2, 1, c2.len());
        trimmed(&s)
    } else {
        c2
    }
}

fn has_jsdoc_content(lines: &Vec<Vec<char>>) -> (r: bool)
    ensures
        r == has_content(lines.deep_view()),
{
    let ghost lv = lines.deep_view();
    let mut i: usize = 0;
    while i < lines.len()
        invariant
            i <= lines.len(),
            lv == lines.deep_view(),
            forall|j: int| 0 <= j < i ==> (#[trigger] line_content(lv[j])).len() == 0,
        decreases lines.len() - i,
    {
        let c = line_content_exec(&lines[i]);
        assert(lv[i as int] == lines[i as int]@);
        if c.len() > 0 {
            return true;
        }
        i += 1;
    }
    false
}

/// What follows a `{T}` type: whether a maintainer wrote it (it says more
/// than a generated `from file:function`).
pub open spec fn manual_remark(after_type: Seq<char>) -> bool {
    let rest = trim(after_type);
    let remainder = trim(
        if ends_with(rest, comment_close()) {
            rest.take(rest.len() - 2)
        } else {
            rest
        },
    );
    remainder.len() > 0 && !starts_with(remainder, from_word())
}

/// The declaration in the text after a `@throws` tag: its type and whether
/// it is manual.
pub open spec fn declaration_after_tag(after: Seq<char>) -> Option<(Seq<char>, bool)> {
    let after_tag = trim_start(after);
    if after_tag.len() > 0 && after_tag[0] == '{' {
        let type_start = after_tag.skip(1);
        match find_char_from(type_start, '}', 0) {
            Some(e) => {
                let name = trim(type_start.take(e));
                if name.len() == 0 {
                    None
                } else {
                    Some((name, manual_remark(type_start.skip(e + 1))))
                }
            },
            None => None,
        }
    } else {
        None
    }
}

/// A `@throws {T}` line: its type, and whether a maintainer wrote it.
pub open spec fn parsed_declaration(line: Seq<char>) -> Option<(Seq<char>, bool)> {
    match find(line, throws_tag()) {
        Some(tag) => declaration_after_tag(line.skip(tag + 7)),
        None => None,
    }
}

fn parse_throws_declaration(line: &Vec<char>) -> (r: Option<(Vec<char>, bool)>)
    ensures
        match r {
            Some((n, m)) => parsed_declaration(line@) == Some((n@, m)),
            None => parsed_declaration(line@) is None,
        },
{
    let mut tag: Vec<char> = Vec::new();
    tag.push('@');
    tag.push('t');
    tag.push('h');
    tag.push('r');
    tag.push('o');
    tag.push('w');
    tag.push('s');
    assert(tag@ =~= throws_tag());
    let tag_start = match find_exec(line, &tag) {
        Some(t) => t,
        None => return None,
    };
    let after0 = slice_of(line, tag_start + 7, line.len());
    assert(after0@ =~= line@.skip(tag_start + 7));
    let after_tag = trimmed_start(&after0);
    if !(after_tag.len() > 0 && after_tag[0] == '{') {
        return None;
    }
    let type_start = slice_of(&after_tag, 1, after_tag.len());
    assert(type_start@ =~= after_tag@.skip(1));
    let e = match find_char_exec_from(&type_start, '}', 0) {
        Some(e) => e,
        None => return None,
    };
    let n0 = slice_of(&type_start, 0, e);
    assert(n0@ =~= type_start@.take(e as int));
    let name = trimmed(&n0);
    if name.len() == 0 {
        return None;
    }
    let r0 = slice_of(&type_start, e + 1, type_start.len());
    assert(r0@ =~= type_start@.skip(e + 1));
    let rest = trimmed(&r0);
    let close = comment_close_exec();
    let rem0 = if has_suffix(&rest, &close) {
        slice_of(&rest, 0, rest.len() - 2)
    } else {
        slice_of(&rest, 0, rest.len())
    };
    assert(rem0@ =~= (if ends_with(rest@, comment_close()) {
        rest@.take(rest@.len() - 2)
    } else {
        rest@
    }));
    let remainder = trimmed(&rem0);
    let mut from: Vec<char> = Vec::new();
    from.push('f');
    from.push('r');
    from.push('o');
    from.push('m');
    from.push(' ');
    assert(from@ =~= from_word());
    let manual = remainder.len() > 0 && !has_prefix(&remainder, &from);
    Some((name, manual))
}


// ---------------------------------------------------------------------------
// Entries to declare
// ---------------------------------------------------------------------------
/// A tag to declare: the type and the whole `@throws {T} from f.ts:g` text.
#[derive(Debug, PartialEq, Eq)]
pub struct ThrowsEntry {
    pub error_type: String,
    pub text: String,
}

pub struct ThrowsEntryView {
    pub error_type: Seq<char>,
    pub text: Seq<char>,
}

impl DeepView for ThrowsEntry {
    type V = ThrowsEntryView;

    open spec fn deep_view(&self) -> ThrowsEntryView {
        ThrowsEntryView { error_type: self.error_type@, text: self.text@ }
    }
}

impl View for ThrowsEntry {
    type V = ThrowsEntryView;

    open spec fn view(&self) -> ThrowsEntryView {
        self.deep_view()
    }
}

/// The last component of a path, as `Path::file_name` gives it.
pub uninterp spec fn path_file_name(path: Seq<char>) -> Option<Seq<char>>;

/// `std::path::Path::file_name` of `path`, as text; the result is a
/// function of the path alone.
#[verifier::external_body]
fn file_name_of(path: &str) -> (r: Option<String>)
    ensures
        r.deep_view() == path_file_name(path@),
{
    std::path::Path::new(path).file_name().and_then(|s| s.to_str()).map(|s| s.to_string())
}

pub open spec fn unknown_word() -> Seq<char> {
    seq!['u', 'n', 'k', 'n', 'o', 'w', 'n']
}

/// `file.ts:function` for the function a throw comes from.
pub open spec fn from_info_text(f: FunctionIdView) -> Seq<char> {
    (match path_file_name(f.file_path) {
        Some(n) => n,
        None => unknown_word(),
    }) + seq![':'] + f.name
}

/// The type a propagated throw is declared under.
pub open spec fn entry_type(p: PropagatedThrowView) -> Seq<char> {
    match p.error_type {
        ErrorTypeView::Named(n) => n,
        ErrorTypeView::Rethrow(n) => n,
        ErrorTypeView::Unknown => unknown_word(),
    }
}

pub open spec fn entry_text(name: Seq<char>, origin: FunctionIdView) -> Seq<char> {
    throws_tag() + seq![' ', '{'] + name + seq!['}', ' '] + from_word() + from_info_text(origin)
}

/// Some entry of `es` is for the type `n`.
pub open spec fn names_type(es: Seq<ThrowsEntryView>, n: Seq<char>) -> bool {
    exists|i: int| 0 <= i < es.len() && (#[trigger] es[i]).error_type == n
}

/// One entry per type, in order of first appearance.
pub open spec fn throws_entries(ps: Seq<PropagatedThrowView>) -> Seq<ThrowsEntryView>
    decreases ps.len(),
{
    if ps.len() == 0 {
        Seq::empty()
    } else {
        let prev = throws_entries(ps.drop_last());
        let n = entry_type(ps.last());
        if names_type(prev, n) {
            prev
        } else {
            prev.push(ThrowsEntryView { error_type: n, text: entry_text(n, ps.last().origin_function) })
        }
    }
}

/// The tags wanted for a list of throws: one per type, no type twice, every
/// throw's type among them, and each written for a throw of its type.
pub proof fn law_one_entry_per_type(ps: Seq<PropagatedThrowView>)
    ensures
        forall|a: int, b: int| 0 <= a < b < throws_entries(ps).len()
            ==> (#[trigger] throws_entries(ps)[a]).error_type != (#[trigger] throws_entries(ps)[b]).error_type,
        forall|i: int| 0 <= i < ps.len() ==> names_type(throws_entries(ps), entry_type(#[trigger] ps[i])),
        forall|k: int| #![trigger throws_entries(ps)[k]] 0 <= k < throws_entries(ps).len() ==> exists|i: int|
            0 <= i < ps.len() && throws_entries(ps)[k] == (ThrowsEntryView {
                error_type: entry_type(#[trigger] ps[i]),
                text: entry_text(entry_type(ps[i]), ps[i].origin_function),
            }),
    decreases ps.len(),
{
    if ps.len() > 0 {
        let p2 = ps.drop_last();
        law_one_entry_per_type(p2);
        let prev = throws_entries(p2);
        let r = throws_entries(ps);
        let n = ps.len() - 1;
        assert(ps.last() == ps[n]);
        assert(prev.is_prefix_of(r));
        assert forall|a: int, b: int| 0 <= a < b < r.len() implies (#[trigger] r[a]).error_type != (#[trigger] r[b]).error_type by {
            assert(r[a] == prev[a]);
            if b < prev.len() {
                assert(r[b] == prev[b]);
            } else {
                assert(r[b].error_type == entry_type(ps[n]));
                if prev[a].error_type == entry_type(ps[n]) {
                    assert(names_type(prev, entry_type(ps[n])));
                }
            }
        }
        assert forall|i: int| 0 <= i < ps.len() implies names_type(r, entry_type(#[trigger] ps[i])) by {
            if i < n {
                assert(p2[i] == ps[i]);
                assert(names_type(prev, entry_type(p2[i])));
                let w = choose|w: int| 0 <= w < prev.len() && (#[trigger] prev[w]).error_type == entry_type(p2[i]);
                assert(r[w] == prev[w]);
            } else if names_type(prev, entry_type(ps[n])) {
                let w = choose|w: int| 0 <= w < prev.len() && (#[trigger] prev[w]).error_type == entry_type(ps[n]);
                assert(r[w] == prev[w]);
            } else {
                assert(r[r.len() - 1].error_type == entry_type(ps[n]));
            }
        }
        assert forall|k: int| #![trigger r[k]] 0 <= k < r.len() implies exists|i: int|
            0 <= i < ps.len() && r[k] == (ThrowsEntryView {
                error_type: entry_type(#[trigger] ps[i]),
                text: entry_text(entry_type(ps[i]), ps[i].origin_function),
            }) by {
            if k < prev.len() {
                assert(r[k] == prev[k]);
                let i = choose|i: int| 0 <= i < p2.len() && prev[k] == (ThrowsEntryView {
                    error_type: entry_type(#[trigger] p2[i]),
                    text: entry_text(entry_type(p2[i]), p2[i].origin_function),
                });
                assert(p2[i] == ps[i]);
            } else {
                assert(r[k] == ThrowsEntryView { error_type: entry_type(ps[n]), text: entry_text(entry_type(ps[n]), ps[n].origin_function) });
            }
        }
    }
}

fn format_from_info(origin_function: &FunctionId) -> (r: Vec<char>)
    ensures
        r@ == from_info_text(origin_function@),
{
    let mut out: Vec<char> = match file_name_of(origin_function.file_path.as_str()) {
        Some(n) => string_chars(&n),
        None => {
            let u = lit("unknown");
            proof {
                reveal_strlit("unknown");
                assert(u@ =~= unknown_word());
            }
            u
        },
    };
    out.push(':');
    let name = string_chars(&origin_function.name);
    push_all(&mut out, &name);
    out
}

fn names_type_exec(es: &Vec<ThrowsEntry>, n: &Vec<char>) -> (r: bool)
    ensures
        r == names_type(es.deep_view(), n@),
{
    let mut i: usize = 0;
    while i < es.len()
        invariant
            i <= es.len(),
            forall|j: int| 0 <= j < i ==> (#[trigger] es.deep_view()[j]).error_type != n@,
        decreases es.len() - i,
    {
        let t = string_chars(&es[i].error_type);
        if seq_eq(&t, n) {
            assert(es.deep_view()[i as int].error_type == n@);
            return true;
        }
        i += 1;
    }
    false
}

/// The tags that `required_throws` call for: one per type, first one
/// first, each naming where its first throw comes from.
pub fn generate_throws_entries(required_throws: &[PropagatedThrow]) -> (r: Vec<ThrowsEntry>)
    ensures
        r.deep_view() == throws_entries(required_throws.deep_view()),
{
    let ghost ps = required_throws.deep_view();
    let mut out: Vec<ThrowsEntry> = Vec::new();
    assert(out.deep_view() =~= Seq::<ThrowsEntryView>::empty());
    assert(ps.take(0) =~= Seq::<PropagatedThrowView>::empty());
    let mut i: usize = 0;
    while i < required_throws.len()
        invariant
            i <= required_throws.len(),
            ps == required_throws.deep_view(),
            out.deep_view() == throws_entries(ps.take(i as int)),
        decreases required_throws.len() - i,
    {
        let p = &required_throws[i];
        assert(ps[i as int] == p.deep_view());
        assert(ps.take(i + 1).drop_last() =~= ps.take(i as int));
        assert(ps.take(i + 1).last() == p.deep_view());
        let name: Vec<char> = match &p.error_type {
            ErrorType::Named(n) => string_chars(n),
            ErrorType::Rethrow(n) => string_chars(n),
            ErrorType::Unknown => {
                let u = lit("unknown");
                proof {
                    reveal_strlit("unknown");
                    assert(u@ =~= unknown_word());
                }
                u
            },
        };
        if !names_type_exec(&out, &name) {
            let mut text = lit("@throws {");
            proof {
                reveal_strlit("@throws {");
            }
            push_all(&mut text, &name);
            push_all_str(&mut text, "} ");
            proof {
                reveal_strlit("} ");
            }
            let mut fw: Vec<char> = Vec::new();
            fw.push('f');
            fw.push('r');
            fw.push('o');
            fw.push('m');
            fw.push(' ');
            push_all(&mut text, &fw);
            let fi = format_from_info(&p.origin_function);
            push_all(&mut text, &fi);
            proof {
                assert(text@ =~= entry_text(name@, p.origin_function@));
            }
            let e = ThrowsEntry { error_type: string_of(&name), text: string_of(&text) };
            let ghost before = out.deep_view();
            out.push(e);
            assert(out.deep_view() =~= before.push(e.deep_view()));
        }
        i += 1;
    }
    assert(ps.take(required_throws.len() as int) =~= ps);
    out
}


// ---------------------------------------------------------------------------
// Bringing a comment in line
// ---------------------------------------------------------------------------
/// The comment lines kept by a scan of `existing`, and the types found
/// declared: lines that are no tag stay; manual tags stay; a generated tag
/// stays only for a type still wanted and not declared before.
pub open spec fn sync_scan(existing: Seq<Seq<char>>, desired: Seq<ThrowsEntryView>) -> (Seq<Seq<char>>, Seq<Seq<char>>)
    decreases existing.len(),
{
    if existing.len() == 0 {
        (Seq::empty(), Seq::empty())
    } else {
        let (res, matched) = sync_scan(existing.drop_last(), desired);
        let line = existing.last();
        match parsed_declaration(line) {
            None => (res.push(line), matched),
            Some((n, manual)) => {
                let wanted = names_type(desired, n);
                if manual {
                    (res.push(line), if wanted {
                        matched.push(n)
                    } else {
                        matched
                    })
                } else if wanted && !matched.contains(n) {
                    (res.push(line), matched.push(n))
                } else {
                    (res, matched)
                }
            },
        }
    }
}

/// The entries whose type was not found declared.
pub open spec fn unmatched(desired: Seq<ThrowsEntryView>, matched: Seq<Seq<char>>) -> Seq<ThrowsEntryView>
    decreases desired.len(),
{
    if desired.len() == 0 {
        Seq::empty()
    } else {
        let r = unmatched(desired.drop_last(), matched);
        if matched.contains(desired.last().error_type) {
            r
        } else {
            r.push(desired.last())
        }
    }
}

/// ` * @throws ...` lines, each after `indent`.
pub open spec fn entry_lines(indent: Seq<char>, es: Seq<ThrowsEntryView>) -> Seq<Seq<char>> {
    es.map_values(|e: ThrowsEntryView| indent + star_line_prefix() + e.text)
}

/// A new comment holding `es`.
pub open spec fn generated_doc(indent: Seq<char>, es: Seq<ThrowsEntryView>) -> Seq<Seq<char>> {
    seq![indent + open_doc()] + entry_lines(indent, es) + seq![indent + close_line()]
}

/// Index of the last of the first `i` lines that holds `*/`.
pub open spec fn last_closing(lines: Seq<Seq<char>>, i: int) -> Option<int>
    decreases i,
{
    if i <= 0 || i > lines.len() {
        None
    } else if find(lines[i - 1], comment_close()) is Some {
        Some(i - 1)
    } else {
        last_closing(lines, i - 1)
    }
}

/// `lines` with `es` added before the comment's closing `*/`.
pub open spec fn with_missing(lines: Seq<Seq<char>>, es: Seq<ThrowsEntryView>) -> Seq<Seq<char>> {
    match last_closing(lines, lines.len() as int) {
        None => lines,
        Some(c) => {
            let l = lines[c];
            let ind = leading_ws(l);
            let pos = match rfind(l, comment_close()) {
                Some(p) => p,
                None => l.len() as int,
            };
            let before = trim_end(l.take(pos));
            let head = if trim(before).len() > 0 && trim(before) != seq!['*'] {
                seq![before]
            } else {
                Seq::empty()
            };
            lines.take(c) + head + entry_lines(ind, es) + seq![ind + close_line()] + lines.skip(c + 1)
        },
    }
}

/// The comment `existing` brought in line with the tags `desired`.
pub open spec fn synced(existing: Seq<Seq<char>>, desired: Seq<ThrowsEntryView>) -> Seq<Seq<char>> {
    let (res, matched) = sync_scan(existing, desired);
    let missing = unmatched(desired, matched);
    if missing.len() == 0 {
        if has_content(res) {
            res
        } else {
            Seq::empty()
        }
    } else if !has_content(res) {
        generated_doc(
            if existing.len() > 0 {
                leading_ws(existing[0])
            } else {
                Seq::empty()
            },
            missing,
        )
    } else {
        with_missing(res, missing)
    }
}

/// A tag line written by the tool rather than by a maintainer.
pub open spec fn is_generated_tag(line: Seq<char>) -> bool {
    parsed_declaration(line) matches Some((_, manual)) && !manual
}

proof fn lemma_scan_without_desired(existing: Seq<Seq<char>>)
    ensures
        sync_scan(existing, Seq::empty()) == (existing.filter(|l: Seq<char>| !is_generated_tag(l)), Seq::<Seq<char>>::empty()),
    decreases existing.len(),
{
    reveal(Seq::filter);
    if existing.len() > 0 {
        lemma_scan_without_desired(existing.drop_last());
        let line = existing.last();
        match parsed_declaration(line) {
            Some((n, manual)) => {
                assert(!names_type(Seq::<ThrowsEntryView>::empty(), n));
            },
            None => {},
        }
    }
}

/// With no tags wanted, bringing a comment in line removes exactly the
/// generated tags: every other line stays, in order, and a comment left
/// with nothing to say goes entirely.
pub proof fn law_sync_without_desired_drops_generated(existing: Seq<Seq<char>>)
    ensures
        synced(existing, Seq::empty()) == ({
            let kept = existing.filter(|l: Seq<char>| !is_generated_tag(l));
            if has_content(kept) {
                kept
            } else {
                Seq::empty()
            }
        }),
{
    lemma_scan_without_desired(existing);
    assert(unmatched(Seq::<ThrowsEntryView>::empty(), Seq::<Seq<char>>::empty()).len() == 0);
}

pub(crate) proof fn lemma_unmatched_contains(desired: Seq<ThrowsEntryView>, matched: Seq<Seq<char>>, e: ThrowsEntryView)
    requires
        desired.contains(e),
        !matched.contains(e.error_type),
    ensures
        unmatched(desired, matched).contains(e),
    decreases desired.len(),
{
    let k = choose|k: int| 0 <= k < desired.len() && desired[k] == e;
    let r = unmatched(desired.drop_last(), matched);
    if k == desired.len() - 1 {
        assert(unmatched(desired, matched) == r.push(e));
        assert(r.push(e)[r.len() as int] == e);
    } else {
        assert(desired.drop_last()[k] == e);
        lemma_unmatched_contains(desired.drop_last(), matched, e);
        let j = choose|j: int| 0 <= j < r.len() && r[j] == e;
        if !matched.contains(desired.last().error_type) {
            assert(r.push(desired.last())[j] == e);
        }
    }
}

proof fn lemma_scan_keeps_plain(existing: Seq<Seq<char>>, desired: Seq<ThrowsEntryView>, i: int)
    requires
        0 <= i < existing.len(),
        parsed_declaration(existing[i]) is None,
    ensures
        sync_scan(existing, desired).0.contains(existing[i]),
    decreases existing.len(),
{
    let (res, matched) = sync_scan(existing.drop_last(), desired);
    if i == existing.len() - 1 {
        assert(sync_scan(existing, desired).0 == res.push(existing[i]));
        assert(res.push(existing[i])[res.len() as int] == existing[i]);
    } else {
        assert(existing.drop_last()[i] == existing[i]);
        lemma_scan_keeps_plain(existing.drop_last(), desired, i);
        let j = choose|j: int| 0 <= j < res.len() && res[j] == existing[i];
        let out = sync_scan(existing, desired).0;
        if out.len() > res.len() {
            assert(out == res.push(existing.last()));
            assert(out[j] == existing[i]);
        } else {
            assert(out == res);
        }
    }
}

proof fn lemma_last_closing_found(lines: Seq<Seq<char>>, i: int, j: int)
    requires
        0 <= j < i <= lines.len(),
        find(lines[j], comment_close()) is Some,
    ensures
        last_closing(lines, i) matches Some(c) && 0 <= c < lines.len() && find(lines[c], comment_close()) is Some,
    decreases i,
{
    if find(lines[i - 1], comment_close()) is None {
        lemma_last_closing_found(lines, i - 1, j);
    }
}

/// Bringing a comment in line declares every wanted type: either a tag the
/// comment keeps already declares it, or the wanted tag's text now stands
/// on a line of its own. This holds for every comment that has a closing
/// `*/` on a line that is no tag.
pub proof fn law_sync_declares_every_wanted_type(
    existing: Seq<Seq<char>>,
    desired: Seq<ThrowsEntryView>,
    e: ThrowsEntryView,
    close: int,
)
    requires
        desired.contains(e),
        0 <= close < existing.len(),
        find(existing[close], comment_close()) is Some,
        parsed_declaration(existing[close]) is None,
    ensures
        sync_scan(existing, desired).1.contains(e.error_type)
            || exists|ind: Seq<char>| synced(existing, desired).contains(ind + star_line_prefix() + e.text),
{
    let (res, matched) = sync_scan(existing, desired);
    if !matched.contains(e.error_type) {
        let missing = unmatched(desired, matched);
        lemma_unmatched_contains(desired, matched, e);
        let k = choose|k: int| 0 <= k < missing.len() && missing[k] == e;
        if !has_content(res) {
            let ind = if existing.len() > 0 {
                leading_ws(existing[0])
            } else {
                Seq::empty()
            };
            let out = generated_doc(ind, missing);
            assert(out[1 + k] == entry_lines(ind, missing)[k]);
            assert(out.contains(ind + star_line_prefix() + e.text));
        } else {
            lemma_scan_keeps_plain(existing, desired, close);
            let j = choose|j: int| 0 <= j < res.len() && res[j] == existing[close];
            lemma_last_closing_found(res, res.len() as int, j);
            let c = last_closing(res, res.len() as int)->0;
            let l = res[c];
            let ind = leading_ws(l);
            let pos = match rfind(l, comment_close()) {
                Some(p) => p,
                None => l.len() as int,
            };
            let before = trim_end(l.take(pos));
            let head = if trim(before).len() > 0 && trim(before) != seq!['*'] {
                seq![before]
            } else {
                Seq::<Seq<char>>::empty()
            };
            let out = res.take(c) + head + entry_lines(ind, missing) + seq![ind + close_line()] + res.skip(c + 1);
            assert(synced(existing, desired) == out);
            assert(out[c + head.len() + k] == entry_lines(ind, missing)[k]);
            assert(out.contains(ind + star_line_prefix() + e.text));
        }
    }
}

proof fn lemma_trim_start_after_blanks(w: Seq<char>, t: Seq<char>)
    requires
        forall|i: int| 0 <= i < w.len() ==> is_ws(#[trigger] w[i]),
    ensures
        trim_start(w + t) == trim_start(t),
    decreases w.len(),
{
    if w.len() > 0 {
        assert((w + t).drop_first() =~= w.drop_first() + t);
        lemma_trim_start_after_blanks(w.drop_first(), t);
    } else {
        assert(w + t =~= t);
    }
}

proof fn lemma_trim_end_keeps_head(a: Seq<char>, y: Seq<char>)
    requires
        a.len() > 0,
        !is_ws(a.last()),
    ensures
        exists|z: Seq<char>| trim_end(a + y) == a + z,
    decreases y.len(),
{
    if y.len() == 0 {
        assert(a + y =~= a);
        assert(trim_end(a + y) == a + y);
    } else if is_ws((a + y).last()) {
        assert((a + y).drop_last() =~= a + y.drop_last());
        lemma_trim_end_keeps_head(a, y.drop_last());
    } else {
        assert(trim_end(a + y) == a + y);
    }
}

proof fn lemma_find_char_first(s: Seq<char>, c: char, i: int, k: int)
    requires
        0 <= i <= k < s.len(),
        s[k] == c,
        forall|j: int| i <= j < k ==> s[j] != c,
    ensures
        find_char_from(s, c, i) == Some(k),
    decreases k - i,
{
    if i < k {
        lemma_find_char_first(s, c, i + 1, k);
    }
}

proof fn lemma_find_char_absent(s: Seq<char>, c: char, i: int)
    requires
        0 <= i,
        forall|j: int| 0 <= j < s.len() ==> s[j] != c,
    ensures
        find_char_from(s, c, i) is None,
    decreases s.len() - i,
{
    if i < s.len() {
        lemma_find_char_absent(s, c, i + 1);
    }
}

/// A type name the tag grammar reads back unchanged: not blank at either
/// end, and holding no `}` and no `|`.
pub open spec fn plain_type_name(n: Seq<char>) -> bool {
    &&& n.len() > 0
    &&& !is_ws(n[0])
    &&& !is_ws(n.last())
    &&& forall|i: int| 0 <= i < n.len() ==> #[trigger] n[i] != '}' && n[i] != '|'
}

/// A tag line written for an entry reads back, through the `@throws`
/// grammar of the checker, as exactly one declaration of the entry's type.
pub proof fn law_written_tag_reads_back(ind: Seq<char>, n: Seq<char>, origin: FunctionIdView)
    requires
        forall|i: int| 0 <= i < ind.len() ==> is_ws(#[trigger] ind[i]),
        plain_type_name(n),
    ensures
        line_decls(ind + star_line_prefix() + entry_text(n, origin)).len() == 1,
        line_decls(ind + star_line_prefix() + entry_text(n, origin))[0].error_type == n,
{
    let line = ind + star_line_prefix() + entry_text(n, origin);
    let head = seq!['@', 't', 'h', 'r', 'o', 'w', 's', ' ', '{'] + n + seq!['}'];
    let tail = seq![' '] + from_word() + from_info_text(origin);
    assert(entry_text(n, origin) =~= head + tail);
    let q = seq!['*', ' '] + head;
    assert(line =~= (ind + seq![' ']) + (q + tail));
    assert forall|i: int| 0 <= i < (ind + seq![' ']).len() implies is_ws(#[trigger] (ind + seq![' '])[i]) by {
        if i < ind.len() {
            assert((ind + seq![' '])[i] == ind[i]);
        }
    }
    lemma_trim_start_after_blanks(ind + seq![' '], q + tail);
    assert(!is_ws((q + tail)[0]));
    assert(trim_start(q + tail) == q + tail);
    assert(q.last() == '}');
    lemma_trim_end_keeps_head(q, tail);
    let z1 = choose|z: Seq<char>| trim_end(q + tail) == q + z;
    let t0 = q + z1;
    assert(trim(line) == t0);
    assert(strip_leading(t0, '/') == t0);
    let q1 = seq![' '] + head;
    assert(t0.drop_first() =~= q1 + z1);
    assert(strip_leading(q1 + z1, '*') == q1 + z1);
    assert(strip_leading(t0, '*') == q1 + z1);
    assert((q1 + z1).drop_first() =~= head + z1);
    assert(trim_start(head + z1) == head + z1);
    assert(trim_start(q1 + z1) == head + z1);
    assert(head.last() == '}');
    lemma_trim_end_keeps_head(head, z1);
    let z2 = choose|z: Seq<char>| trim_end(head + z1) == head + z;
    let t = head + z2;
    assert(t.take(7) =~= throws_tag());
    let brace = seq!['{'] + n + seq!['}'];
    assert(t.skip(7) =~= seq![' '] + (brace + z2));
    lemma_trim_start_after_blanks(seq![' '], brace + z2);
    assert(trim_start(brace + z2) == brace + z2);
    assert(brace.last() == '}');
    lemma_trim_end_keeps_head(brace, z2);
    let z3 = choose|z: Seq<char>| trim_end(brace + z2) == brace + z;
    let rest = brace + z3;
    assert(throws_rest(line) == Some(rest));
    assert(rest[0] == '{');
    assert forall|j: int| 0 <= j < n.len() + 1 implies rest[j] != '}' by {
        if j > 0 {
            assert(rest[j] == n[j - 1]);
        }
    }
    assert(rest[n.len() as int + 1] == '}');
    lemma_find_char_first(rest, '}', 0, n.len() as int + 1);
    assert(rest.subrange(1, n.len() as int + 1) =~= n);
    lemma_find_char_absent(n, '|', 0);
    assert(split_char(n, '|') == seq![n]);
    assert(trim_start(n) == n);
    assert(trim_end(n) == n);
    assert(trim(n) == n);
    let (d, f) = description_and_from(jsdoc_end_stripped(trim(rest.skip(n.len() as int + 2))));
    assert(seq![n].drop_last() =~= Seq::<Seq<char>>::empty());
    assert(seq![n].last() == n);
    assert(union_decls(Seq::<Seq<char>>::empty(), d, f) =~= Seq::<ThrowsDeclarationView>::empty());
    assert(union_decls(seq![n], d, f) =~= seq![ThrowsDeclarationView { error_type: n, description: d, from: f }]);
    assert(line_decls(line) == union_decls(split_char(rest.subrange(1, n.len() as int + 1), '|'), d, f));
}

proof fn lemma_find_from_first(s: Seq<char>, p: Seq<char>, i: int, k: int)
    requires
        0 <= i <= k,
        occurs_at(s, p, k),
        forall|j: int| i <= j < k ==> !occurs_at(s, p, j),
    ensures
        find_from(s, p, i) == Some(k),
    decreases k - i,
{
    if i < k {
        lemma_find_from_first(s, p, i + 1, k);
    }
}

pub(crate) proof fn lemma_leading_ws_blank(l: Seq<char>)
    ensures
        forall|i: int| 0 <= i < leading_ws(l).len() ==> is_ws(#[trigger] leading_ws(l)[i]),
    decreases l.len(),
{
    lemma_trim_start_suffix(l);
    if l.len() > 0 && is_ws(l[0]) {
        lemma_leading_ws_blank(l.drop_first());
        lemma_trim_start_suffix(l.drop_first());
        assert forall|i: int| 0 <= i < leading_ws(l).len() implies is_ws(#[trigger] leading_ws(l)[i]) by {
            if i > 0 {
                assert(leading_ws(l)[i] == leading_ws(l.drop_first())[i - 1]);
            }
        }
    } else {
        assert(leading_ws(l).len() == 0);
    }
}

proof fn lemma_tag_found(ind: Seq<char>, rest: Seq<char>)
    requires
        forall|i: int| 0 <= i < ind.len() ==> is_ws(#[trigger] ind[i]),
    ensures
        find(ind + star_line_prefix() + throws_tag() + rest, throws_tag()) == Some(ind.len() as int + 3),
{
    let w = ind + star_line_prefix();
    let t = throws_tag() + rest;
    let line = w + t;
    assert(ind + star_line_prefix() + throws_tag() + rest =~= line);
    let k: int = w.len() as int;
    assert forall|j: int| 0 <= j < k implies w[j] != '@' by {
        if j < ind.len() {
            assert(w[j] == ind[j]);
            assert(is_ws(ind[j]));
        } else {
            assert(w[j] == star_line_prefix()[j - ind.len()]);
        }
    }
    assert(line.subrange(k, k + 7) =~= throws_tag()) by {
        assert forall|i: int| 0 <= i < 7 implies line.subrange(k, k + 7)[i] == throws_tag()[i] by {
            assert(line[k + i] == t[i]);
        }
    }
    assert forall|j: int| 0 <= j < k implies !occurs_at(line, throws_tag(), j) by {
        if occurs_at(line, throws_tag(), j) {
            assert(line.subrange(j, j + 7)[0] == line[j]);
            assert(line[j] == w[j]);
            assert(throws_tag()[0] == '@');
        }
    }
    lemma_find_from_first(line, throws_tag(), 0, k);
}

/// The text a generated tag has after its type is no manual remark.
proof fn lemma_generated_remark(fname: Seq<char>, name: Seq<char>)
    ensures
        !manual_remark(seq![' '] + (from_word() + fname + seq![':'] + name)),
{
    let a = from_word() + fname + seq![':'];
    let tail = a + name;
    lemma_trim_start_after_blanks(seq![' '], tail);
    assert(trim_start(tail) == tail);
    assert(a.last() == ':');
    lemma_trim_end_keeps_head(a, name);
    let z = choose|z: Seq<char>| trim_end(a + name) == a + z;
    let rest = a + z;
    assert(trim(seq![' '] + tail) == rest);
    let z2 = if ends_with(rest, comment_close()) {
        assert(z.len() >= 2) by {
            if z.len() < 2 {
                let t = rest.skip(rest.len() - 2);
                if z.len() == 0 {
                    assert(t[1] == a.last());
                } else {
                    assert(t[0] == a.last());
                }
            }
        }
        z.take(z.len() - 2)
    } else {
        z
    };
    let cut = if ends_with(rest, comment_close()) {
        rest.take(rest.len() - 2)
    } else {
        rest
    };
    assert(cut =~= a + z2);
    assert(trim_start(cut) == cut);
    lemma_trim_end_keeps_head(a, z2);
    let z3 = choose|z: Seq<char>| trim_end(a + z2) == a + z;
    let remainder = a + z3;
    assert(trim(cut) == remainder);
    assert(remainder.take(5) =~= from_word());
}

proof fn lemma_declaration_after_type(n: Seq<char>, tail: Seq<char>)
    requires
        plain_type_name(n),
    ensures
        declaration_after_tag(seq![' '] + (seq!['{'] + n + seq!['}'] + (seq![' '] + tail)))
            == Some((n, manual_remark(seq![' '] + tail))),
{
    let brace = seq!['{'] + n + seq!['}'];
    let after_tag = brace + (seq![' '] + tail);
    lemma_trim_start_after_blanks(seq![' '], after_tag);
    assert(trim_start(after_tag) == after_tag);
    let type_start = after_tag.skip(1);
    assert(type_start =~= n + (seq!['}'] + (seq![' '] + tail)));
    assert forall|j: int| 0 <= j < n.len() implies type_start[j] != '}' by {
        assert(type_start[j] == n[j]);
    }
    assert(type_start[n.len() as int] == '}');
    lemma_find_char_first(type_start, '}', 0, n.len() as int);
    assert(type_start.take(n.len() as int) =~= n);
    assert(trim_start(n) == n);
    assert(trim_end(n) == n);
    assert(type_start.skip(n.len() as int + 1) =~= seq![' '] + tail);
}

/// The tag line written for an entry is read back by the fixer's own tag
/// parser as a generated declaration of the entry's type.
pub(crate) proof fn lemma_generated_line_parses(ind: Seq<char>, n: Seq<char>, origin: FunctionIdView)
    requires
        forall|i: int| 0 <= i < ind.len() ==> is_ws(#[trigger] ind[i]),
        plain_type_name(n),
    ensures
        parsed_declaration(ind + star_line_prefix() + entry_text(n, origin)) == Some((n, false)),
{
    let fname = match path_file_name(origin.file_path) {
        Some(x) => x,
        None => unknown_word(),
    };
    let tail = from_word() + fname + seq![':'] + origin.name;
    assert(from_info_text(origin) =~= fname + seq![':'] + origin.name);
    let after = seq![' '] + (seq!['{'] + n + seq!['}'] + (seq![' '] + tail));
    assert(entry_text(n, origin) =~= throws_tag() + after);
    let line = ind + star_line_prefix() + entry_text(n, origin);
    assert(line =~= ind + star_line_prefix() + throws_tag() + after);
    lemma_tag_found(ind, after);
    assert(line.skip(ind.len() as int + 3 + 7) =~= after);
    lemma_declaration_after_type(n, tail);
    lemma_generated_remark(fname, origin.name);
}

proof fn lemma_find_occurs(s: Seq<char>, p: Seq<char>, i: int)
    requires
        find_from(s, p, i) is Some,
    ensures
        occurs_at(s, p, find_from(s, p, i)->0),
        find_from(s, p, i)->0 >= i,
    decreases s.len() + 1 - i,
{
    if !(i < 0 || i + p.len() > s.len()) && !occurs_at(s, p, i) {
        lemma_find_occurs(s, p, i + 1);
    }
}

pub open spec fn has_at_sign(s: Seq<char>) -> bool {
    exists|i: int| 0 <= i < s.len() && s[i] == '@'
}

proof fn lemma_trim_start_keeps_at_sign(s: Seq<char>)
    requires
        has_at_sign(s),
    ensures
        has_at_sign(trim_start(s)),
    decreases s.len(),
{
    let i = choose|i: int| 0 <= i < s.len() && s[i] == '@';
    if s.len() > 0 && is_ws(s[0]) {
        assert(i > 0);
        assert(s.drop_first()[i - 1] == '@');
        lemma_trim_start_keeps_at_sign(s.drop_first());
    }
}

proof fn lemma_trim_end_keeps_at_sign(s: Seq<char>)
    requires
        has_at_sign(s),
    ensures
        has_at_sign(trim_end(s)),
    decreases s.len(),
{
    let i = choose|i: int| 0 <= i < s.len() && s[i] == '@';
    if s.len() > 0 && is_ws(s.last()) {
        assert(i < s.len() - 1);
        assert(s.drop_last()[i] == '@');
        lemma_trim_end_keeps_at_sign(s.drop_last());
    }
}

proof fn lemma_trim_keeps_at_sign(s: Seq<char>)
    requires
        has_at_sign(s),
    ensures
        has_at_sign(trim(s)),
{
    lemma_trim_start_keeps_at_sign(s);
    lemma_trim_end_keeps_at_sign(trim_start(s));
}

proof fn lemma_at_sign_after(s: Seq<char>, k: int)
    requires
        has_at_sign(s),
        0 <= k <= s.len(),
        forall|j: int| 0 <= j < k ==> s[j] != '@',
    ensures
        has_at_sign(s.skip(k)),
{
    let i = choose|i: int| 0 <= i < s.len() && s[i] == '@';
    assert(s.skip(k)[i - k] == '@');
}

proof fn lemma_at_sign_before(s: Seq<char>, k: int)
    requires
        has_at_sign(s),
        0 <= k <= s.len(),
        forall|j: int| k <= j < s.len() ==> s[j] != '@',
    ensures
        has_at_sign(s.take(k)),
{
    let i = choose|i: int| 0 <= i < s.len() && s[i] == '@';
    assert(s.take(k)[i] == '@');
}

/// A tag line always has something to say.
pub(crate) proof fn lemma_tag_line_has_content(l: Seq<char>)
    requires
        parsed_declaration(l) is Some,
    ensures
        line_content(l).len() > 0,
{
    let t = find(l, throws_tag())->0;
    lemma_find_occurs(l, throws_tag(), 0);
    assert(l.subrange(t, t + 7)[0] == l[t]);
    assert(has_at_sign(l));
    let c0 = trim(l);
    lemma_trim_keeps_at_sign(l);
    let c1 = if starts_with(c0, open_doc()) {
        assert forall|j: int| 0 <= j < 3 implies c0[j] != '@' by {
            assert(c0[j] == c0.take(3)[j]);
        }
        lemma_at_sign_after(c0, 3);
        lemma_trim_keeps_at_sign(c0.skip(3));
        trim(c0.skip(3))
    } else {
        c0
    };
    assert(has_at_sign(c1));
    let c2 = if ends_with(c1, comment_close()) {
        assert forall|j: int| c1.len() - 2 <= j < c1.len() implies c1[j] != '@' by {
            assert(c1[j] == c1.skip(c1.len() - 2)[j - (c1.len() - 2)]);
        }
        lemma_at_sign_before(c1, c1.len() - 2);
        lemma_trim_keeps_at_sign(c1.take(c1.len() - 2));
        trim(c1.take(c1.len() - 2))
    } else {
        c1
    };
    assert(has_at_sign(c2));
    if starts_with(c2, seq!['*']) {
        assert(c2[0] == c2.take(1)[0]);
        lemma_at_sign_after(c2, 1);
        lemma_trim_keeps_at_sign(c2.skip(1));
    }
}

pub(crate) proof fn lemma_scan_keeps_only_existing_lines(existing: Seq<Seq<char>>, desired: Seq<ThrowsEntryView>, k: int)
    requires
        0 <= k < sync_scan(existing, desired).0.len(),
    ensures
        existing.contains(sync_scan(existing, desired).0[k]),
    decreases existing.len(),
{
    let (res, matched) = sync_scan(existing.drop_last(), desired);
    let out = sync_scan(existing, desired).0;
    if k < res.len() {
        assert(out[k] == res[k]);
        lemma_scan_keeps_only_existing_lines(existing.drop_last(), desired, k);
        let j = choose|j: int| 0 <= j < existing.drop_last().len() && existing.drop_last()[j] == res[k];
        assert(existing[j] == res[k]);
    } else {
        assert(out[k] == existing.last());
        assert(existing[existing.len() - 1] == existing.last());
    }
}

proof fn lemma_scan_matched_grows(existing: Seq<Seq<char>>, desired: Seq<ThrowsEntryView>, n: Seq<char>)
    requires
        existing.len() > 0,
        sync_scan(existing.drop_last(), desired).1.contains(n),
    ensures
        sync_scan(existing, desired).1.contains(n),
{
    let m0 = sync_scan(existing.drop_last(), desired).1;
    let j = choose|j: int| 0 <= j < m0.len() && m0[j] == n;
    let m = sync_scan(existing, desired).1;
    if m.len() > m0.len() {
        assert(m[j] == n);
    }
}

/// A tag line for a wanted type makes the scan find that type declared.
proof fn lemma_scan_finds_declared(lines: Seq<Seq<char>>, desired: Seq<ThrowsEntryView>, j: int, n: Seq<char>)
    requires
        0 <= j < lines.len(),
        parsed_declaration(lines[j]) matches Some((t, _)) && t == n,
        names_type(desired, n),
    ensures
        sync_scan(lines, desired).1.contains(n),
    decreases lines.len(),
{
    if j == lines.len() - 1 {
        let m0 = sync_scan(lines.drop_last(), desired).1;
        let m = sync_scan(lines, desired).1;
        assert(lines.last() == lines[j]);
        if !m0.contains(n) {
            assert(m == m0.push(n));
            assert(m[m0.len() as int] == n);
        } else {
            lemma_scan_matched_grows(lines, desired, n);
        }
    } else {
        assert(lines.drop_last()[j] == lines[j]);
        lemma_scan_finds_declared(lines.drop_last(), desired, j, n);
        lemma_scan_matched_grows(lines, desired, n);
    }
}

/// A type the scan finds declared has a tag line among the kept lines.
proof fn lemma_scan_matched_has_line(existing: Seq<Seq<char>>, desired: Seq<ThrowsEntryView>, n: Seq<char>)
    requires
        sync_scan(existing, desired).1.contains(n),
    ensures
        exists|k: int| 0 <= k < sync_scan(existing, desired).0.len()
            && (parsed_declaration(#[trigger] sync_scan(existing, desired).0[k]) matches Some((t, _)) && t == n),
    decreases existing.len(),
{
    let (res, m0) = sync_scan(existing.drop_last(), desired);
    let (out, m) = sync_scan(existing, desired);
    if m0.contains(n) {
        lemma_scan_matched_has_line(existing.drop_last(), desired, n);
        let k = choose|k: int| 0 <= k < res.len() && (parsed_declaration(#[trigger] res[k]) matches Some((t, _)) && t == n);
        assert(out[k] == res[k]);
    } else {
        let j = choose|j: int| 0 <= j < m.len() && m[j] == n;
        assert(m != m0);
        assert(m[m0.len() as int] == n);
        assert(out[res.len() as int] == existing.last());
    }
}

pub(crate) proof fn lemma_unmatched_empty(desired: Seq<ThrowsEntryView>, matched: Seq<Seq<char>>)
    requires
        forall|i: int| 0 <= i < desired.len() ==> matched.contains(#[trigger] desired[i].error_type),
    ensures
        unmatched(desired, matched).len() == 0,
    decreases desired.len(),
{
    if desired.len() > 0 {
        assert forall|i: int| 0 <= i < desired.drop_last().len() implies matched.contains(#[trigger] desired.drop_last()[i].error_type) by {
            assert(desired.drop_last()[i] == desired[i]);
        }
        lemma_unmatched_empty(desired.drop_last(), matched);
        assert(matched.contains(desired[desired.len() - 1].error_type));
    }
}

pub(crate) proof fn lemma_unmatched_members(desired: Seq<ThrowsEntryView>, matched: Seq<Seq<char>>, k: int)
    requires
        0 <= k < unmatched(desired, matched).len(),
    ensures
        desired.contains(unmatched(desired, matched)[k]),
    decreases desired.len(),
{
    let r = unmatched(desired.drop_last(), matched);
    if k < r.len() {
        assert(unmatched(desired, matched)[k] == r[k]);
        lemma_unmatched_members(desired.drop_last(), matched, k);
        let j = choose|j: int| 0 <= j < desired.drop_last().len() && desired.drop_last()[j] == r[k];
        assert(desired[j] == r[k]);
    } else {
        assert(unmatched(desired, matched)[k] == desired.last());
        assert(desired[desired.len() - 1] == desired.last());
    }
}

/// Each entry `generate_throws_entries` makes is the generated tag of one
/// of the throws.
pub(crate) proof fn lemma_entries_are_generated(ps: Seq<PropagatedThrowView>, k: int)
    requires
        0 <= k < throws_entries(ps).len(),
    ensures
        exists|j: int| 0 <= j < ps.len() && #[trigger] throws_entries(ps)[k] == (ThrowsEntryView {
            error_type: entry_type(ps[j]),
            text: entry_text(entry_type(ps[j]), ps[j].origin_function),
        }),
    decreases ps.len(),
{
    let prev = throws_entries(ps.drop_last());
    if k < prev.len() {
        lemma_entries_are_generated(ps.drop_last(), k);
        let j = choose|j: int| 0 <= j < ps.drop_last().len() && #[trigger] prev[k] == (ThrowsEntryView {
            error_type: entry_type(ps.drop_last()[j]),
            text: entry_text(entry_type(ps.drop_last()[j]), ps.drop_last()[j].origin_function),
        });
        assert(ps.drop_last()[j] == ps[j]);
        assert(throws_entries(ps)[k] == prev[k]);
    } else {
        let j = ps.len() - 1;
        assert(ps[j] == ps.last());
    }
}

/// Comments on which syncing is well behaved: a line that closes the
/// comment is no tag, and some line closes it.
pub open spec fn closed_comment(existing: Seq<Seq<char>>) -> bool {
    &&& exists|i: int| 0 <= i < existing.len() && find(#[trigger] existing[i], comment_close()) is Some
    &&& forall|i: int| 0 <= i < existing.len() && find(#[trigger] existing[i], comment_close()) is Some
        ==> parsed_declaration(existing[i]) is None
}

proof fn lemma_second_scan_finds(existing: Seq<Seq<char>>, ps: Seq<PropagatedThrowView>, i: int)
    requires
        forall|j: int| 0 <= j < ps.len() ==> plain_type_name(#[trigger] entry_type(ps[j])),
        closed_comment(existing),
        0 <= i < throws_entries(ps).len(),
    ensures
        sync_scan(synced(existing, throws_entries(ps)), throws_entries(ps)).1.contains(throws_entries(ps)[i].error_type),
{
    let desired = throws_entries(ps);
    let (res, matched) = sync_scan(existing, desired);
    let missing = unmatched(desired, matched);
    let out = synced(existing, desired);
    let e = desired[i];
    let n = e.error_type;
    assert(names_type(desired, n));
    let close = choose|c: int| 0 <= c < existing.len() && find(#[trigger] existing[c], comment_close()) is Some;
    lemma_scan_keeps_plain(existing, desired, close);
    let jc = choose|j: int| 0 <= j < res.len() && res[j] == existing[close];
    if matched.contains(n) {
        lemma_scan_matched_has_line(existing, desired, n);
        let k = choose|k: int| 0 <= k < res.len() && (parsed_declaration(#[trigger] res[k]) matches Some((t, _)) && t == n);
        lemma_tag_line_has_content(res[k]);
        assert(has_content(res));
        lemma_scan_keeps_only_existing_lines(existing, desired, k);
        let x = choose|x: int| 0 <= x < existing.len() && existing[x] == res[k];
        assert(find(res[k], comment_close()) is None);
        if missing.len() == 0 {
            assert(out == res);
            lemma_scan_finds_declared(out, desired, k, n);
        } else {
            lemma_last_closing_found(res, res.len() as int, jc);
            let c = last_closing(res, res.len() as int)->0;
            let l = res[c];
            let ind = leading_ws(l);
            let pos = match rfind(l, comment_close()) {
                Some(p) => p,
                None => l.len() as int,
            };
            let before = trim_end(l.take(pos));
            let head = if trim(before).len() > 0 && trim(before) != seq!['*'] {
                seq![before]
            } else {
                Seq::<Seq<char>>::empty()
            };
            assert(out == res.take(c) + head + entry_lines(ind, missing) + seq![ind + close_line()] + res.skip(c + 1));
            assert(k != c);
            if k < c {
                assert(out[k] == res[k]);
                lemma_scan_finds_declared(out, desired, k, n);
            } else {
                let q = c + head.len() + missing.len() + 1 + (k - c - 1);
                assert(out[q] == res[k]);
                lemma_scan_finds_declared(out, desired, q, n);
            }
        }
    } else {
        lemma_unmatched_contains(desired, matched, e);
        let m = choose|m: int| 0 <= m < missing.len() && missing[m] == e;
        lemma_entries_are_generated(ps, i);
        let j = choose|j: int| 0 <= j < ps.len() && #[trigger] throws_entries(ps)[i] == (ThrowsEntryView {
            error_type: entry_type(ps[j]),
            text: entry_text(entry_type(ps[j]), ps[j].origin_function),
        });
        assert(plain_type_name(entry_type(ps[j])));
        if !has_content(res) {
            let ind0 = if existing.len() > 0 {
                leading_ws(existing[0])
            } else {
                Seq::empty()
            };
            lemma_leading_ws_blank(existing[0]);
            assert(out == generated_doc(ind0, missing));
            assert(out[1 + m] == entry_lines(ind0, missing)[m]);
            lemma_generated_line_parses(ind0, n, ps[j].origin_function);
            lemma_scan_finds_declared(out, desired, 1 + m, n);
        } else {
            lemma_last_closing_found(res, res.len() as int, jc);
            let c = last_closing(res, res.len() as int)->0;
            let l = res[c];
            let ind = leading_ws(l);
            let pos = match rfind(l, comment_close()) {
                Some(p) => p,
                None => l.len() as int,
            };
            let before = trim_end(l.take(pos));
            let head = if trim(before).len() > 0 && trim(before) != seq!['*'] {
                seq![before]
            } else {
                Seq::<Seq<char>>::empty()
            };
            assert(out == res.take(c) + head + entry_lines(ind, missing) + seq![ind + close_line()] + res.skip(c + 1));
            let q = c + head.len() + m;
            assert(out[q] == entry_lines(ind, missing)[m]);
            lemma_leading_ws_blank(l);
            lemma_generated_line_parses(ind, n, ps[j].origin_function);
            lemma_scan_finds_declared(out, desired, q, n);
        }
    }
}

/// Syncing is stable: after a comment is brought in line with the tags
/// generated for some throws, bringing it in line again finds every one of
/// them declared and adds nothing. This holds for comments whose closing
/// `*/` stands on a line that is no tag, and for type names that the tag
/// grammar reads back unchanged.
pub proof fn law_second_sync_adds_nothing(existing: Seq<Seq<char>>, ps: Seq<PropagatedThrowView>)
    requires
        forall|j: int| 0 <= j < ps.len() ==> plain_type_name(#[trigger] entry_type(ps[j])),
        closed_comment(existing),
    ensures
        unmatched(
            throws_entries(ps),
            sync_scan(synced(existing, throws_entries(ps)), throws_entries(ps)).1,
        ).len() == 0,
{
    let desired = throws_entries(ps);
    let m2 = sync_scan(synced(existing, desired), desired).1;
    assert forall|i: int| 0 <= i < desired.len() implies m2.contains(#[trigger] desired[i].error_type) by {
        lemma_second_scan_finds(existing, ps, i);
    }
    lemma_unmatched_empty(desired, m2);
}

fn contains_line(v: &Vec<Vec<char>>, s: &Vec<char>) -> (r: bool)
    ensures
        r == v.deep_view().contains(s@),
{
    let mut i: usize = 0;
    while i < v.len()
        invariant
            i <= v.len(),
            forall|j: int| 0 <= j < i ==> v.deep_view()[j] != s@,
        decreases v.len() - i,
    {
        if seq_eq(&v[i], s) {
            assert(v.deep_view()[i as int] == s@);
            return true;
        }
        i += 1;
    }
    false
}

fn copy_chars(v: &Vec<char>) -> (r: Vec<char>)
    ensures
        r@ == v@,
{
    let r = slice_of(v, 0, v.len());
    assert(r@ =~= v@);
    r
}

fn entry_line(indent: &Vec<char>, e: &ThrowsEntry) -> (r: Vec<char>)
    ensures
        r@ == indent@ + star_line_prefix() + e.text@,
{
    let mut out = copy_chars(indent);
    let p = star_line_prefix_exec();
    push_all(&mut out, &p);
    let t = string_chars(&e.text);
    push_all(&mut out, &t);
    assert(out@ =~= indent@ + star_line_prefix() + e.text@);
    out
}

fn push_entry_lines(out: &mut Vec<Vec<char>>, indent: &Vec<char>, es: &Vec<ThrowsEntry>)
    ensures
        final(out).deep_view() == old(out).deep_view() + entry_lines(indent@, es.deep_view()),
{
    let ghost o0 = out.deep_view();
    let mut i: usize = 0;
    while i < es.len()
        invariant
            i <= es.len(),
            out.deep_view() == o0 + entry_lines(indent@, es.deep_view().take(i as int)),
        decreases es.len() - i,
    {
        let l = entry_line(indent, &es[i]);
        let ghost before = out.deep_view();
        out.push(l);
        assert(out.deep_view() =~= before.push(l@));
        assert(entry_lines(indent@, es.deep_view().take(i + 1)) =~= entry_lines(indent@, es.deep_view().take(i as int)).push(l@));
        i += 1;
    }
    assert(es.deep_view().take(es.len() as int) =~= es.deep_view());
}

fn generated_jsdoc(indent: &Vec<char>, entries: &Vec<ThrowsEntry>) -> (r: Vec<Vec<char>>)
    ensures
        r.deep_view() == generated_doc(indent@, entries.deep_view()),
{
    let mut result: Vec<Vec<char>> = Vec::new();
    let mut first = copy_chars(indent);
    let o = open_doc_exec();
    push_all(&mut first, &o);
    result.push(first);
    assert(result.deep_view() =~= seq![indent@ + open_doc()]);
    push_entry_lines(&mut result, indent, entries);
    let mut last = copy_chars(indent);
    let c = close_line_exec();
    push_all(&mut last, &c);
    let ghost before = result.deep_view();
    result.push(last);
    assert(result.deep_view() =~= before.push(last@));
    assert(result.deep_view() =~= generated_doc(indent@, entries.deep_view()));
    result
}

fn insert_missing_throws(lines: Vec<Vec<char>>, entries: &Vec<ThrowsEntry>) -> (r: Vec<Vec<char>>)
    ensures
        r.deep_view() == with_missing(lines.deep_view(), entries.deep_view()),
{
    let ghost lv = lines.deep_view();
    let close = comment_close_exec();
    let mut i = lines.len();
    let mut c: usize = 0;
    loop
        invariant_except_break
            i <= lines.len(),
            last_closing(lv, lines.len() as int) == last_closing(lv, i as int),
        invariant
            lv == lines.deep_view(),
            close@ == comment_close(),
        ensures
            c < lines.len(),
            last_closing(lv, lines.len() as int) == Some(c as int),
        decreases i,
    {
        if i == 0 {
            return lines;
        }
        assert(lv[i - 1] == lines[i - 1]@);
        if find_exec(&lines[i - 1], &close).is_some() {
            c = i - 1;
            break;
        }
        i -= 1;
    }
    let l = &lines[c];
    assert(lv[c as int] == l@);
    let indent = leading_whitespace(l);
    let pos = match rfind_exec(l, &close) {
        Some(p) => {
            proof {
                lemma_rfind_bound(l@, close@);
            }
            p
        },
        None => l.len(),
    };
    let b0 = slice_of(l, 0, pos);
    assert(b0@ =~= l@.take(pos as int));
    let before = trimmed_end(&b0);
    let bt = trimmed(&before);
    let mut star: Vec<char> = Vec::new();
    star.push('*');
    assert(star@ =~= seq!['*']);
    let mut result: Vec<Vec<char>> = Vec::new();
    let mut k: usize = 0;
    while k < c
        invariant
            k <= c < lines.len(),
            lv == lines.deep_view(),
            result.deep_view() == lv.take(k as int),
        decreases c - k,
    {
        let x = copy_chars(&lines[k]);
        assert(lv[k as int] == lines[k as int]@);
        let ghost before_r = result.deep_view();
        result.push(x);
        assert(result.deep_view() =~= before_r.push(x@));
        assert(lv.take(k + 1) =~= lv.take(k as int).push(lines[k as int]@));
        k += 1;
    }
    if bt.len() > 0 && !seq_eq(&bt, &star) {
        let ghost before_r = result.deep_view();
        result.push(before);
        assert(result.deep_view() =~= before_r.push(before@));
    }
    push_entry_lines(&mut result, &indent, entries);
    let mut last = copy_chars(&indent);
    let cl = close_line_exec();
    push_all(&mut last, &cl);
    let ghost before_r = result.deep_view();
    result.push(last);
    assert(result.deep_view() =~= before_r.push(last@));
    let ghost mid = result.deep_view();
    let mut k = c + 1;
    while k < lines.len()
        invariant
            c < k <= lines.len(),
            lv == lines.deep_view(),
            result.deep_view() == mid + lv.subrange(c + 1, k as int),
        decreases lines.len() - k,
    {
        let x = copy_chars(&lines[k]);
        assert(lv[k as int] == lines[k as int]@);
        let ghost before_r = result.deep_view();
        result.push(x);
        assert(result.deep_view() =~= before_r.push(x@));
        assert(lv.subrange(c + 1, k + 1) =~= lv.subrange(c + 1, k as int).push(lines[k as int]@));
        k += 1;
    }
    assert(lv.subrange(c + 1, lines.len() as int) =~= lv.skip(c + 1));
    proof {
        let ind = leading_ws(l@);
        let head = if trim(before@).len() > 0 && trim(before@) != seq!['*'] {
            seq![before@]
        } else {
            Seq::<Seq<char>>::empty()
        };
        assert(result.deep_view() =~= lv.take(c as int) + head + entry_lines(ind, entries.deep_view()) + seq![ind + close_line()] + lv.skip(c + 1));
    }
    result
}

proof fn lemma_rfind_bound(s: Seq<char>, p: Seq<char>)
    ensures
        rfind(s, p) matches Some(i) ==> 0 <= i < s.len(),
{
    lemma_rfind_before_bound(s, p, s.len() as int);
}

proof fn lemma_rfind_before_bound(s: Seq<char>, p: Seq<char>, i: int)
    ensures
        crate::text::rfind_before(s, p, i) matches Some(j) ==> 0 <= j < i && i <= s.len(),
    decreases i,
{
    if i > 0 && i <= s.len() && !crate::text::occurs_at(s, p, i - 1) {
        lemma_rfind_before_bound(s, p, i - 1);
    }
}


impl Clone for ThrowsEntry {
    fn clone(&self) -> (r: Self)
        ensures
            r == *self,
    {
        ThrowsEntry { error_type: self.error_type.clone(), text: self.text.clone() }
    }
}

fn names_type_slice(es: &[ThrowsEntry], n: &Vec<char>) -> (r: bool)
    ensures
        r == names_type(es.deep_view(), n@),
{
    let mut i: usize = 0;
    while i < es.len()
        invariant
            i <= es.len(),
            forall|j: int| 0 <= j < i ==> (#[trigger] es.deep_view()[j]).error_type != n@,
        decreases es.len() - i,
    {
        let t = string_chars(&es[i].error_type);
        if seq_eq(&t, n) {
            assert(es.deep_view()[i as int].error_type == n@);
            return true;
        }
        i += 1;
    }
    false
}

fn to_strings(lines: &Vec<Vec<char>>) -> (r: Vec<String>)
    ensures
        r.deep_view() == lines.deep_view(),
{
    let mut out: Vec<String> = Vec::new();
    let mut i: usize = 0;
    while i < lines.len()
        invariant
            i <= lines.len(),
            out.deep_view() == lines.deep_view().take(i as int),
        decreases lines.len() - i,
    {
        let s = string_of(&lines[i]);
        let ghost before = out.deep_view();
        out.push(s);
        assert(out.deep_view() =~= before.push(s@));
        assert(lines.deep_view().take(i + 1) =~= lines.deep_view().take(i as int).push(lines[i as int]@));
        i += 1;
    }
    assert(lines.deep_view().take(lines.len() as int) =~= lines.deep_view());
    out
}

/// The comment `existing` brought in line with the tags `desired`: stale
/// generated tags go, manual tags and other text stay, a generated tag
/// declared twice is kept once, and missing tags are added before the
/// closing `*/` (or as a new comment when nothing else is left). A comment
/// left with nothing to say is removed (an empty result).
pub fn sync_jsdoc(existing: &[String], desired: &[ThrowsEntry]) -> (r: Vec<String>)
    ensures
        r.deep_view() == synced(existing.deep_view(), desired.deep_view()),
{
    let ghost ex = existing.deep_view();
    let ghost des = desired.deep_view();
    let mut res: Vec<Vec<char>> = Vec::new();
    let mut matched: Vec<Vec<char>> = Vec::new();
    assert(ex.take(0) =~= Seq::<Seq<char>>::empty());
    assert(res.deep_view() =~= Seq::<Seq<char>>::empty());
    assert(matched.deep_view() =~= Seq::<Seq<char>>::empty());
    let mut i: usize = 0;
    while i < existing.len()
        invariant
            i <= existing.len(),
            ex == existing.deep_view(),
            des == desired.deep_view(),
            (res.deep_view(), matched.deep_view()) == sync_scan(ex.take(i as int), des),
        decreases existing.len() - i,
    {
        assert(ex.take(i + 1).drop_last() =~= ex.take(i as int));
        assert(ex.take(i + 1).last() == existing[i as int]@);
        let line = string_chars(&existing[i]);
        let ghost r0 = res.deep_view();
        let ghost m0 = matched.deep_view();
        match parse_throws_declaration(&line) {
            None => {
                res.push(line);
                assert(res.deep_view() =~= r0.push(line@));
            },
            Some((n, manual)) => {
                let wanted = names_type_slice(desired, &n);
                if manual {
                    let l2 = copy_chars(&line);
                    res.push(l2);
                    assert(res.deep_view() =~= r0.push(line@));
                    if wanted {
                        matched.push(n);
                        assert(matched.deep_view() =~= m0.push(n@));
                    }
                } else if wanted && !contains_line(&matched, &n) {
                    let l2 = copy_chars(&line);
                    res.push(l2);
                    assert(res.deep_view() =~= r0.push(line@));
                    matched.push(n);
                    assert(matched.deep_view() =~= m0.push(n@));
                }
            },
        }
        i += 1;
    }
    assert(ex.take(existing.len() as int) =~= ex);
    let ghost mv = matched.deep_view();
    let mut missing: Vec<ThrowsEntry> = Vec::new();
    assert(des.take(0) =~= Seq::<ThrowsEntryView>::empty());
    assert(missing.deep_view() =~= Seq::<ThrowsEntryView>::empty());
    let mut j: usize = 0;
    while j < desired.len()
        invariant
            j <= desired.len(),
            des == desired.deep_view(),
            mv == matched.deep_view(),
            missing.deep_view() == unmatched(des.take(j as int), mv),
        decreases desired.len() - j,
    {
        assert(des.take(j + 1).drop_last() =~= des.take(j as int));
        assert(des.take(j + 1).last() == desired[j as int].deep_view());
        let t = string_chars(&desired[j].error_type);
        if !contains_line(&matched, &t) {
            let e = desired[j].clone();
            let ghost before = missing.deep_view();
            missing.push(e);
            assert(missing.deep_view() =~= before.push(e.deep_view()));
        }
        j += 1;
    }
    assert(des.take(desired.len() as int) =~= des);
    if missing.len() == 0 {
        if has_jsdoc_content(&res) {
            to_strings(&res)
        } else {
            let out: Vec<String> = Vec::new();
            assert(out.deep_view() =~= Seq::<Seq<char>>::empty());
            out
        }
    } else if !has_jsdoc_content(&res) {
        let indent = if existing.len() > 0 {
            let first = string_chars(&existing[0]);
            leading_whitespace(&first)
        } else {
            Vec::new()
        };
        assert(indent@ == (if ex.len() > 0 {
            leading_ws(ex[0])
        } else {
            Seq::<char>::empty()
        }));
        let g = generated_jsdoc(&indent, &missing);
        to_strings(&g)
    } else {
        let w = insert_missing_throws(res, &missing);
        to_strings(&w)
    }
}


// ---------------------------------------------------------------------------
// Where the comment of a function is
// ---------------------------------------------------------------------------
/// The 0-based line holding byte `off` of `s` (the number of line feeds
/// before it); `None` past the end.
pub open spec fn function_line(s: Seq<char>, off: int) -> Option<int> {
    if off > byte_len(s) {
        None
    } else {
        Some(count_char(s.take(char_index_at(s, off, 0)), '\n') as int)
    }
}

fn find_function_line(source: &Vec<char>, byte_offset: u32) -> (r: Option<usize>)
    ensures
        match r {
            Some(n) => function_line(source@, byte_offset as int) == Some(n as int),
            None => function_line(source@, byte_offset as int) is None,
        },
        r matches Some(n) ==> n <= source.len(),
{
    let ghost s = source@;
    let mut k: usize = 0;
    let mut pos: u64 = 0;
    let mut count: usize = 0;
    proof {
        assert(s.take(0) =~= Seq::<char>::empty());
    }
    while k < source.len() && pos < byte_offset as u64
        invariant
            s == source@,
            k <= s.len(),
            pos == byte_len(s.take(k as int)),
            pos <= byte_offset + 4,
            count == count_char(s.take(k as int), '\n'),
            count <= k,
            char_index_at(s, byte_offset as int, 0) == char_index_at(s, byte_offset as int, k as int),
        decreases s.len() - k,
    {
        proof {
            crate::tsserver::lemma_byte_len_push(s.take(k as int), s[k as int]);
            assert(s.take(k + 1) =~= s.take(k as int).push(s[k as int]));
            assert(s.take(k + 1).drop_last() =~= s.take(k as int));
        }
        let w = crate::tsserver::utf8_width(source[k]);
        pos = pos + w as u64;
        if source[k] == '\n' {
            count += 1;
        }
        k += 1;
    }
    if k < source.len() {
        assert(char_index_at(s, byte_offset as int, k as int) == k);
        proof {
            crate::tsserver::lemma_byte_len_take(s, k as int);
        }
        Some(count)
    } else {
        assert(s.take(k as int) =~= s);
        assert(char_index_at(s, byte_offset as int, k as int) == k);
        if pos < byte_offset as u64 {
            None
        } else {
            Some(count)
        }
    }
}

/// Scanning up from line `i - 1` past blank lines: the line that closes a
/// comment, if the first non-blank one does.
pub open spec fn jsdoc_end_from(lines: Seq<Seq<char>>, i: int) -> Option<int>
    decreases i,
{
    if i <= 0 || i > lines.len() {
        None
    } else if trim(lines[i - 1]).len() == 0 {
        jsdoc_end_from(lines, i - 1)
    } else if ends_with(trim(lines[i - 1]), comment_close()) {
        Some(i - 1)
    } else {
        None
    }
}

/// Scanning up from line `i`: the line that opens a `/**` comment, unless a
/// plain `/*` comment opens first.
pub open spec fn jsdoc_start_from(lines: Seq<Seq<char>>, i: int) -> Option<int>
    decreases i + 1,
{
    if i < 0 || i >= lines.len() {
        None
    } else if starts_with(trim(lines[i]), open_doc()) {
        Some(i)
    } else if starts_with(trim(lines[i]), open_block()) {
        None
    } else {
        jsdoc_start_from(lines, i - 1)
    }
}

/// The lines of the documentation comment right above line `f`.
pub open spec fn jsdoc_range(lines: Seq<Seq<char>>, f: int) -> Option<(int, int)> {
    if f == 0 {
        None
    } else {
        match jsdoc_end_from(lines, f) {
            Some(e) => match jsdoc_start_from(lines, e) {
                Some(a) => Some((a, e)),
                None => None,
            },
            None => None,
        }
    }
}

pub(crate) proof fn lemma_jsdoc_end_bound(lines: Seq<Seq<char>>, i: int)
    ensures
        jsdoc_end_from(lines, i) matches Some(e) ==> 0 <= e < i && i <= lines.len(),
    decreases i,
{
    if i > 0 && i <= lines.len() && trim(lines[i - 1]).len() == 0 {
        lemma_jsdoc_end_bound(lines, i - 1);
    }
}

pub(crate) proof fn lemma_jsdoc_start_bound(lines: Seq<Seq<char>>, i: int)
    ensures
        jsdoc_start_from(lines, i) matches Some(a) ==> 0 <= a <= i < lines.len(),
    decreases i + 1,
{
    if 0 <= i < lines.len() && !starts_with(trim(lines[i]), open_doc()) && !starts_with(trim(lines[i]), open_block()) {
        lemma_jsdoc_start_bound(lines, i - 1);
    }
}

proof fn lemma_jsdoc_start_shape(lines: Seq<Seq<char>>, i: int)
    ensures
        jsdoc_start_from(lines, i) matches Some(a) ==> 0 <= a <= i < lines.len()
            && starts_with(trim(lines[a]), open_doc())
            && forall|j: int| a < j <= i ==> !starts_with(trim(#[trigger] lines[j]), open_block()),
    decreases i + 1,
{
    if 0 <= i < lines.len() && !starts_with(trim(lines[i]), open_doc()) && !starts_with(trim(lines[i]), open_block()) {
        lemma_jsdoc_start_shape(lines, i - 1);
    }
}

proof fn lemma_jsdoc_end_shape(lines: Seq<Seq<char>>, i: int)
    ensures
        jsdoc_end_from(lines, i) matches Some(e) ==> 0 <= e < i <= lines.len()
            && ends_with(trim(lines[e]), comment_close())
            && forall|j: int| e < j < i ==> trim(#[trigger] lines[j]).len() == 0,
    decreases i,
{
    if i > 0 && i <= lines.len() && trim(lines[i - 1]).len() == 0 {
        lemma_jsdoc_end_shape(lines, i - 1);
    }
}

/// The comment found above line `f` is a `/**` comment that ends on a line
/// ending in `*/`, with only blank lines between it and line `f`, and no line
/// after its first opens a comment: the scan up from the closing line stops
/// at the first line opening `/*`, and a plain `/*` comment there is no
/// documentation comment.
pub proof fn law_comment_range_is_the_doc_comment_just_above(lines: Seq<Seq<char>>, f: int)
    ensures
        jsdoc_range(lines, f) matches Some((a, e)) ==> {
            &&& 0 <= a <= e < f <= lines.len()
            &&& starts_with(trim(lines[a]), open_doc())
            &&& ends_with(trim(lines[e]), comment_close())
            &&& forall|j: int| a < j <= e ==> !starts_with(trim(#[trigger] lines[j]), open_block())
            &&& forall|j: int| e < j < f ==> trim(#[trigger] lines[j]).len() == 0
        },
        jsdoc_end_from(lines, f) matches Some(e) && (forall|j: int| 0 <= j <= e ==> !starts_with(trim(#[trigger] lines[j]), open_doc()))
            ==> jsdoc_range(lines, f) is None,
{
    lemma_jsdoc_end_shape(lines, f);
    if let Some(e) = jsdoc_end_from(lines, f) {
        lemma_jsdoc_start_shape(lines, e);
    }
}

fn find_jsdoc_range(lines: &Vec<Vec<char>>, func_line: usize) -> (r: Option<(usize, usize)>)
    requires
        func_line <= lines.len(),
    ensures
        match r {
            Some((a, e)) => jsdoc_range(lines.deep_view(), func_line as int) == Some((a as int, e as int)),
            None => jsdoc_range(lines.deep_view(), func_line as int) is None,
        },
        r matches Some((a, e)) ==> a <= e < lines.len(),
{
    let ghost lv = lines.deep_view();
    proof {
        lemma_jsdoc_end_bound(lv, func_line as int);
    }
    if func_line == 0 {
        return None;
    }
    let close = comment_close_exec();
    let open = open_doc_exec();
    let block = open_block_exec();
    let mut i = func_line;
    let mut end_line: usize = 0;
    loop
        invariant_except_break
            i <= func_line,
            jsdoc_end_from(lv, func_line as int) == jsdoc_end_from(lv, i as int),
        invariant
            func_line <= lines.len(),
            func_line > 0,
            lv == lines.deep_view(),
            close@ == comment_close(),
        ensures
            jsdoc_end_from(lv, func_line as int) == Some(end_line as int),
            end_line < func_line,
        decreases i,
    {
        if i == 0 {
            return None;
        }
        assert(lv[i - 1] == lines[i - 1]@);
        let t = trimmed(&lines[i - 1]);
        if t.len() == 0 {
            i -= 1;
            continue;
        }
        if has_suffix(&t, &close) {
            end_line = i - 1;
            break;
        }
        return None;
    }
    proof {
        lemma_jsdoc_start_bound(lv, end_line as int);
    }
    let mut j: usize = end_line + 1;
    while j > 0
        invariant
            j <= end_line + 1,
            end_line < func_line <= lines.len(),
            lv == lines.deep_view(),
            open@ == open_doc(),
            block@ == open_block(),
            jsdoc_start_from(lv, end_line as int) == jsdoc_start_from(lv, j - 1),
            jsdoc_end_from(lv, func_line as int) == Some(end_line as int),
            func_line > 0,
        decreases j,
    {
        assert(lv[j - 1] == lines[j - 1]@);
        let t = trimmed(&lines[j - 1]);
        if has_prefix(&t, &open) {
            return Some((j - 1, end_line));
        }
        if has_prefix(&t, &block) {
            return None;
        }
        j -= 1;
    }
    None
}


// ---------------------------------------------------------------------------
// Edits of a file
// ---------------------------------------------------------------------------
/// An edit of a file's lines: new lines inserted before line `line`, or the
/// lines `start_line..=end_line` replaced.
pub enum Modification {
    Insert { line: usize, content: Vec<Vec<char>> },
    Replace { start_line: usize, end_line: usize, content: Vec<Vec<char>> },
}

pub enum ModificationView {
    Insert { line: int, content: Seq<Seq<char>> },
    Replace { start_line: int, end_line: int, content: Seq<Seq<char>> },
}

impl DeepView for Modification {
    type V = ModificationView;

    open spec fn deep_view(&self) -> ModificationView {
        match self {
            Modification::Insert { line, content } => ModificationView::Insert {
                line: *line as int,
                content: content.deep_view(),
            },
            Modification::Replace { start_line, end_line, content } => ModificationView::Replace {
                start_line: *start_line as int,
                end_line: *end_line as int,
                content: content.deep_view(),
            },
        }
    }
}

/// The line an edit starts at.
pub open spec fn mod_line(m: ModificationView) -> int {
    match m {
        ModificationView::Insert { line, .. } => line,
        ModificationView::Replace { start_line, .. } => start_line,
    }
}

pub open spec fn sat_sub(a: int, b: int) -> int {
    if a >= b {
        a - b
    } else {
        0
    }
}

/// The edit that the diagnostic `d` calls for in a file of text `s` and
/// lines `ls` (from which a byte-order mark of `bom` bytes was removed).
pub open spec fn diagnostic_edit(s: Seq<char>, ls: Seq<Seq<char>>, bom: int, d: DiagnosticView) -> Option<ModificationView> {
    match function_line(s, sat_sub(d.function.span.start as int, bom)) {
        None => None,
        Some(f) => if f > ls.len() {
            None
        } else {
            let es = throws_entries(d.missing_throws);
            match jsdoc_range(ls, f) {
                Some((a, e)) => {
                    let existing = ls.subrange(a, e + 1);
                    let content = synced(existing, es);
                    if content != existing {
                        Some(ModificationView::Replace { start_line: a, end_line: e, content })
                    } else {
                        None
                    }
                },
                None => if es.len() > 0 {
                    Some(ModificationView::Insert { line: f, content: generated_doc(Seq::empty(), es) })
                } else {
                    None
                },
            }
        },
    }
}

/// The edits of all diagnostics, in order.
pub open spec fn file_edits(s: Seq<char>, ls: Seq<Seq<char>>, bom: int, ds: Seq<DiagnosticView>) -> Seq<ModificationView>
    decreases ds.len(),
{
    if ds.len() == 0 {
        Seq::empty()
    } else {
        let prev = file_edits(s, ls, bom, ds.drop_last());
        match diagnostic_edit(s, ls, bom, ds.last()) {
            Some(m) => prev.push(m),
            None => prev,
        }
    }
}

fn lines_equal(a: &Vec<Vec<char>>, b: &Vec<Vec<char>>) -> (r: bool)
    ensures
        r == (a.deep_view() == b.deep_view()),
{
    if a.len() != b.len() {
        assert(a.deep_view().len() != b.deep_view().len());
        return false;
    }
    let mut i: usize = 0;
    while i < a.len()
        invariant
            i <= a.len(),
            a.len() == b.len(),
            forall|j: int| 0 <= j < i ==> a.deep_view()[j] == b.deep_view()[j],
        decreases a.len() - i,
    {
        if !seq_eq(&a[i], &b[i]) {
            assert(a.deep_view()[i as int] != b.deep_view()[i as int]);
            return false;
        }
        i += 1;
    }
    assert(a.deep_view() =~= b.deep_view());
    true
}

fn sub_lines(lines: &Vec<Vec<char>>, a: usize, b: usize) -> (r: Vec<Vec<char>>)
    requires
        a <= b <= lines.len(),
    ensures
        r.deep_view() == lines.deep_view().subrange(a as int, b as int),
{
    let mut out: Vec<Vec<char>> = Vec::new();
    let mut k = a;
    assert(out.deep_view() =~= lines.deep_view().subrange(a as int, a as int));
    while k < b
        invariant
            a <= k <= b <= lines.len(),
            out.deep_view() == lines.deep_view().subrange(a as int, k as int),
        decreases b - k,
    {
        let x = copy_chars(&lines[k]);
        let ghost before = out.deep_view();
        out.push(x);
        assert(out.deep_view() =~= before.push(x@));
        assert(lines.deep_view().subrange(a as int, k + 1) =~= lines.deep_view().subrange(a as int, k as int).push(lines[k as int]@));
        k += 1;
    }
    out
}

fn strings_to_lines(v: &Vec<String>) -> (r: Vec<Vec<char>>)
    ensures
        r.deep_view() == v.deep_view(),
{
    let mut out: Vec<Vec<char>> = Vec::new();
    let mut i: usize = 0;
    while i < v.len()
        invariant
            i <= v.len(),
            out.deep_view() == v.deep_view().take(i as int),
        decreases v.len() - i,
    {
        let x = string_chars(&v[i]);
        let ghost before = out.deep_view();
        out.push(x);
        assert(out.deep_view() =~= before.push(x@));
        assert(v.deep_view().take(i + 1) =~= v.deep_view().take(i as int).push(v[i as int]@));
        i += 1;
    }
    assert(v.deep_view().take(v.len() as int) =~= v.deep_view());
    out
}

fn collect_modifications(
    source: &Vec<char>,
    lines: &Vec<Vec<char>>,
    bom_len: u32,
    contracts: &[Diagnostic],
) -> (r: Vec<Modification>)
    ensures
        r.deep_view() == file_edits(source@, lines.deep_view(), bom_len as int, contracts.deep_view()),
{
    let ghost ds = contracts.deep_view();
    let mut modifications: Vec<Modification> = Vec::new();
    assert(ds.take(0) =~= Seq::<DiagnosticView>::empty());
    assert(modifications.deep_view() =~= Seq::<ModificationView>::empty());
    let mut i: usize = 0;
    while i < contracts.len()
        invariant
            i <= contracts.len(),
            ds == contracts.deep_view(),
            modifications.deep_view() == file_edits(source@, lines.deep_view(), bom_len as int, ds.take(i as int)),
        decreases contracts.len() - i,
    {
        assert(ds.take(i + 1).drop_last() =~= ds.take(i as int));
        assert(ds.take(i + 1).last() == contracts[i as int].deep_view());
        let contract = &contracts[i];
        let start = contract.function.span.start;
        let off = if start >= bom_len {
            start - bom_len
        } else {
            0
        };
        let ghost m0 = modifications.deep_view();
        if let Some(func_line) = find_function_line(source, off) {
            if func_line <= lines.len() {
                let entries = generate_throws_entries(contract.missing_throws.as_slice());
                match find_jsdoc_range(lines, func_line) {
                    Some((a, e)) => {
                        let existing_lines = sub_lines(lines, a, e + 1);
                        let existing = to_strings(&existing_lines);
                        let synced_lines = sync_jsdoc(existing.as_slice(), entries.as_slice());
                        let content = strings_to_lines(&synced_lines);
                        if !lines_equal(&content, &existing_lines) {
                            let m = Modification::Replace { start_line: a, end_line: e, content };
                            modifications.push(m);
                            assert(modifications.deep_view() =~= m0.push(m.deep_view()));
                        }
                    },
                    None => {
                        if entries.len() > 0 {
                            let empty: Vec<char> = Vec::new();
                            let content = generated_jsdoc(&empty, &entries);
                            assert(empty@ =~= Seq::<char>::empty());
                            let m = Modification::Insert { line: func_line, content };
                            modifications.push(m);
                            assert(modifications.deep_view() =~= m0.push(m.deep_view()));
                        }
                    },
                }
            }
        }
        i += 1;
    }
    assert(ds.take(contracts.len() as int) =~= ds);
    modifications
}


/// `m` placed into `s` (ordered by descending line) after every edit at
/// the same line or below it: a stable sort step.
pub open spec fn insert_desc(s: Seq<ModificationView>, m: ModificationView) -> Seq<ModificationView>
    decreases s.len(),
{
    if s.len() == 0 {
        seq![m]
    } else if mod_line(s.last()) >= mod_line(m) {
        s.push(m)
    } else {
        insert_desc(s.drop_last(), m).push(s.last())
    }
}

/// The edits ordered by descending line, equal lines in their first order.
pub open spec fn sort_desc(ms: Seq<ModificationView>) -> Seq<ModificationView>
    decreases ms.len(),
{
    if ms.len() == 0 {
        Seq::empty()
    } else {
        insert_desc(sort_desc(ms.drop_last()), ms.last())
    }
}

/// Indentation of line `idx`, nothing past the end.
pub open spec fn indent_at(lines: Seq<Seq<char>>, idx: int) -> Seq<char> {
    if idx >= lines.len() || idx < 0 {
        Seq::empty()
    } else {
        leading_ws(lines[idx])
    }
}

/// One edit applied.
pub open spec fn apply_edit(lines: Seq<Seq<char>>, m: ModificationView) -> Seq<Seq<char>> {
    match m {
        ModificationView::Insert { line, content } => if 0 <= line <= lines.len() {
            let ind = indent_at(lines, line);
            lines.take(line) + content.map_values(|c: Seq<char>| ind + c) + lines.skip(line)
        } else {
            lines
        },
        ModificationView::Replace { start_line, end_line, content } => if 0 <= start_line <= end_line < lines.len() {
            lines.take(start_line) + content + lines.skip(end_line + 1)
        } else {
            lines
        },
    }
}

/// The edits applied first to last.
pub open spec fn apply_edits(lines: Seq<Seq<char>>, ms: Seq<ModificationView>) -> Seq<Seq<char>>
    decreases ms.len(),
{
    if ms.len() == 0 {
        lines
    } else {
        apply_edits(apply_edit(lines, ms[0]), ms.drop_first())
    }
}

pub open spec fn bom_char() -> char {
    '\u{FEFF}'
}

/// The new text of a file of text `raw` after the edits that the
/// diagnostics `ds` call for; `None` when none is needed. A leading
/// byte-order mark, the line ending style and a final line ending are
/// kept.
pub open spec fn fixed_text(raw: Seq<char>, ds: Seq<DiagnosticView>) -> Option<Seq<char>> {
    let bom = raw.len() > 0 && raw[0] == bom_char();
    let src = if bom {
        raw.skip(1)
    } else {
        raw
    };
    let nl = if find(src, seq!['\r', '\n']) is Some {
        seq!['\r', '\n']
    } else {
        seq!['\n']
    };
    let trailing = src.len() > 0 && src.last() == '\n';
    let ls = lines(src);
    let ms = file_edits(src, ls, if bom {
        3
    } else {
        0
    }, ds);
    if ms.len() == 0 {
        None
    } else {
        let out = apply_edits(ls, sort_desc(ms));
        Some((if bom {
            seq![bom_char()]
        } else {
            Seq::empty()
        }) + join(out, nl) + (if trailing {
            nl
        } else {
            Seq::empty()
        }))
    }
}

/// Fixing a file keeps a leading byte-order mark and a final line break, and
/// that break is `\r\n` when the file's text (after the mark) holds one.
pub proof fn law_fix_keeps_bom_and_final_line_break(raw: Seq<char>, ds: Seq<DiagnosticView>, new: Seq<char>)
    requires
        fixed_text(raw, ds) == Some(new),
    ensures
        raw.len() > 0 && raw[0] == bom_char() ==> new.len() > 0 && new[0] == bom_char(),
        raw.len() > 0 && raw.last() == '\n' ==> new.len() > 0 && new.last() == '\n',
        ({
            let src = if raw.len() > 0 && raw[0] == bom_char() {
                raw.skip(1)
            } else {
                raw
            };
            raw.len() > 0 && raw.last() == '\n' && find(src, seq!['\r', '\n']) is Some
                ==> new.len() >= 2 && new[new.len() - 2] == '\r'
        }),
{
    let bom = raw.len() > 0 && raw[0] == bom_char();
    let src = if bom {
        raw.skip(1)
    } else {
        raw
    };
    let nl = if find(src, seq!['\r', '\n']) is Some {
        seq!['\r', '\n']
    } else {
        seq!['\n']
    };
    let trailing = src.len() > 0 && src.last() == '\n';
    let ls = lines(src);
    let ms = file_edits(src, ls, if bom {
        3
    } else {
        0
    }, ds);
    let out = apply_edits(ls, sort_desc(ms));
    let head = if bom {
        seq![bom_char()]
    } else {
        Seq::<char>::empty()
    };
    let body = join(out, nl);
    let tail = if trailing {
        nl
    } else {
        Seq::<char>::empty()
    };
    assert(new == head + body + tail);
    if bom {
        assert(new[0] == head[0]);
    }
    if raw.len() > 0 && raw.last() == '\n' {
        if bom {
            assert(raw.len() > 1);
            assert(src.last() == raw.last());
        }
        assert(trailing);
        assert(new.last() == tail.last());
        if find(src, seq!['\r', '\n']) is Some {
            assert(new[new.len() - 2] == tail[0]);
        }
    }
}

fn mod_line_exec(m: &Modification) -> (r: usize)
    ensures
        r == mod_line(m.deep_view()),
{
    match m {
        Modification::Insert { line, .. } => *line,
        Modification::Replace { start_line, .. } => *start_line,
    }
}

fn sort_modifications(ms: Vec<Modification>) -> (r: Vec<Modification>)
    ensures
        r.deep_view() == sort_desc(ms.deep_view()),
{
    let ghost mv = ms.deep_view();
    let mut sorted: Vec<Modification> = Vec::new();
    let ghost n = mv.len();
    assert(mv.len() == ms.len());
    let mut rest = ms;
    // Reverse the edits, then take them out front to back into `sorted`.
    let mut rev: Vec<Modification> = Vec::new();
    while rest.len() > 0
        invariant
            rev.deep_view().len() + rest.deep_view().len() == n,
            rest.deep_view() == mv.take(rest.len() as int),
            forall|j: int| 0 <= j < rev.len() ==> #[trigger] rev.deep_view()[j] == mv[n - 1 - j],
            rest.len() <= n,
            n == mv.len(),
        decreases rest.len(),
    {
        let ghost r0 = rest.deep_view();
        let ghost v0 = rev.deep_view();
        let m = rest.pop().unwrap();
        proof {
            assert(rest.deep_view() =~= r0.drop_last());
            assert(m.deep_view() == r0.last());
            assert(rest.deep_view() =~= mv.take(rest.len() as int));
        }
        rev.push(m);
        proof {
            assert(rev.deep_view() =~= v0.push(m.deep_view()));
            assert forall|j: int| 0 <= j < rev.len() implies #[trigger] rev.deep_view()[j] == mv[n - 1 - j] by {
                if j < v0.len() {
                    assert(rev.deep_view()[j] == v0[j]);
                }
            }
        }
    }
    assert(sorted.deep_view() =~= sort_desc(mv.take(0)));
    let mut k: usize = 0;
    while rev.len() > 0
        invariant
            k + rev.len() == n,
            n == mv.len(),
            n <= usize::MAX,
            sorted.deep_view() == sort_desc(mv.take(k as int)),
            forall|j: int| 0 <= j < rev.len() ==> #[trigger] rev.deep_view()[j] == mv[n - 1 - j],
        decreases rev.len(),
    {
        let ghost v0 = rev.deep_view();
        let m = rev.pop().unwrap();
        proof {
            assert(rev.deep_view() =~= v0.drop_last());
            assert(m.deep_view() == v0[v0.len() - 1]);
            assert(m.deep_view() == mv[k as int]);
            assert(mv.take(k + 1).drop_last() =~= mv.take(k as int));
            assert forall|j: int| 0 <= j < rev.len() implies #[trigger] rev.deep_view()[j] == mv[n - 1 - j] by {
                assert(rev.deep_view()[j] == v0[j]);
            }
        }
        sorted = insert_sorted(sorted, m);
        k += 1;
    }
    assert(mv.take(n as int) =~= mv);
    sorted
}

fn insert_sorted(s: Vec<Modification>, m: Modification) -> (r: Vec<Modification>)
    ensures
        r.deep_view() == insert_desc(s.deep_view(), m.deep_view()),
    decreases s.len(),
{
    let ghost sv = s.deep_view();
    let mut s = s;
    if s.len() == 0 {
        s.push(m);
        assert(s.deep_view() =~= seq![m.deep_view()]);
        return s;
    }
    let last_line = mod_line_exec(&s[s.len() - 1]);
    assert(s.deep_view()[s.len() - 1] == sv.last());
    if last_line >= mod_line_exec(&m) {
        s.push(m);
        assert(s.deep_view() =~= sv.push(m.deep_view()));
        s
    } else {
        let last = s.pop().unwrap();
        assert(s.deep_view() =~= sv.drop_last());
        let mut r = insert_sorted(s, m);
        let ghost r0 = r.deep_view();
        r.push(last);
        assert(r.deep_view() =~= r0.push(last.deep_view()));
        r
    }
}

fn apply_modification(lines: Vec<Vec<char>>, m: Modification) -> (r: Vec<Vec<char>>)
    ensures
        r.deep_view() == apply_edit(lines.deep_view(), m.deep_view()),
{
    let ghost lv = lines.deep_view();
    match m {
        Modification::Insert { line, content } => {
            if line > lines.len() {
                return lines;
            }
            let indent = if line >= lines.len() {
                Vec::new()
            } else {
                leading_whitespace(&lines[line])
            };
            proof {
                if line < lines.len() {
                    assert(lv[line as int] == lines[line as int]@);
                }
                assert(indent@ =~= indent_at(lv, line as int));
            }
            let mut out = sub_lines(&lines, 0, line);
            let ghost o0 = out.deep_view();
            let ghost cv = content.deep_view();
            let mut i: usize = 0;
            while i < content.len()
                invariant
                    i <= content.len(),
                    cv == content.deep_view(),
                    out.deep_view() == o0 + cv.take(i as int).map_values(|c: Seq<char>| indent@ + c),
                decreases content.len() - i,
            {
                let mut l = copy_chars(&indent);
                push_all(&mut l, &content[i]);
                let ghost before = out.deep_view();
                out.push(l);
                assert(out.deep_view() =~= before.push(l@));
                assert(cv.take(i + 1).map_values(|c: Seq<char>| indent@ + c) =~= cv.take(i as int).map_values(|c: Seq<char>| indent@ + c).push(indent@ + content[i as int]@));
                i += 1;
            }
            assert(cv.take(content.len() as int) =~= cv);
            let tail = sub_lines(&lines, line, lines.len());
            let ghost o1 = out.deep_view();
            append_lines(&mut out, &tail);
            assert(lv.subrange(0, line as int) =~= lv.take(line as int));
            assert(lv.subrange(line as int, lv.len() as int) =~= lv.skip(line as int));
            out
        },
        Modification::Replace { start_line, end_line, content } => {
            if !(start_line <= end_line && end_line < lines.len()) {
                return lines;
            }
            let mut out = sub_lines(&lines, 0, start_line);
            append_lines(&mut out, &content);
            let tail = sub_lines(&lines, end_line + 1, lines.len());
            append_lines(&mut out, &tail);
            assert(lv.subrange(0, start_line as int) =~= lv.take(start_line as int));
            assert(lv.subrange(end_line + 1, lv.len() as int) =~= lv.skip(end_line + 1));
            out
        },
    }
}

fn append_lines(out: &mut Vec<Vec<char>>, more: &Vec<Vec<char>>)
    ensures
        final(out).deep_view() == old(out).deep_view() + more.deep_view(),
{
    let ghost o0 = out.deep_view();
    let mut i: usize = 0;
    while i < more.len()
        invariant
            i <= more.len(),
            out.deep_view() == o0 + more.deep_view().take(i as int),
        decreases more.len() - i,
    {
        let x = copy_chars(&more[i]);
        let ghost before = out.deep_view();
        out.push(x);
        assert(out.deep_view() =~= before.push(x@));
        assert(more.deep_view().take(i + 1) =~= more.deep_view().take(i as int).push(more[i as int]@));
        i += 1;
    }
    assert(more.deep_view().take(more.len() as int) =~= more.deep_view());
}


/// The new text of a file of text `raw` once the documentation comments of
/// the functions in `contracts` declare what they let escape; `None` when
/// the file needs no change.
pub fn apply_fixes(raw: &str, contracts: &[Diagnostic]) -> (r: Option<String>)
    ensures
        r.deep_view() == fixed_text(raw@, contracts.deep_view()),
{
    let all = chars_of(raw);
    let bom = all.len() > 0 && all[0] == '\u{FEFF}';
    let source = if bom {
        slice_of(&all, 1, all.len())
    } else {
        all
    };
    proof {
        if bom {
            assert(source@ =~= raw@.skip(1));
        }
    }
    let mut crlf: Vec<char> = Vec::new();
    crlf.push('\r');
    crlf.push('\n');
    assert(crlf@ =~= seq!['\r', '\n']);
    let newline: Vec<char> = if find_exec(&source, &crlf).is_some() {
        crlf
    } else {
        let mut lf: Vec<char> = Vec::new();
        lf.push('\n');
        assert(lf@ =~= seq!['\n']);
        lf
    };
    let had_trailing_newline = source.len() > 0 && source[source.len() - 1] == '\n';
    let lines = lines_exec(&source);
    let bom_len: u32 = if bom {
        3
    } else {
        0
    };
    let modifications = collect_modifications(&source, &lines, bom_len, contracts);
    if modifications.len() == 0 {
        return None;
    }
    let sorted = sort_modifications(modifications);
    let ghost sv = sorted.deep_view();
    assert(sv.len() == sorted.len());
    let mut result_lines = lines;
    let mut rest = sorted;
    // Apply front to back: reverse so that popping yields the first edit.
    let mut queue: Vec<Modification> = Vec::new();
    let ghost n = sv.len();
    assert(rest.deep_view() =~= sv.take(n as int));
    while rest.len() > 0
        invariant
            queue.len() + rest.len() == n,
            n == sv.len(),
            n <= usize::MAX,
            rest.deep_view() == sv.take(rest.len() as int),
            forall|j: int| 0 <= j < queue.len() ==> #[trigger] queue.deep_view()[j] == sv[n - 1 - j],
        decreases rest.len(),
    {
        let ghost r0 = rest.deep_view();
        let ghost q0 = queue.deep_view();
        let m = rest.pop().unwrap();
        proof {
            assert(rest.deep_view() =~= r0.drop_last());
            assert(m.deep_view() == r0.last());
            assert(rest.deep_view() =~= sv.take(rest.len() as int));
        }
        queue.push(m);
        proof {
            assert(queue.deep_view() =~= q0.push(m.deep_view()));
            assert forall|j: int| 0 <= j < queue.len() implies #[trigger] queue.deep_view()[j] == sv[n - 1 - j] by {
                if j < q0.len() {
                    assert(queue.deep_view()[j] == q0[j]);
                }
            }
        }
    }
    let ghost lv0 = result_lines.deep_view();
    let ghost target = apply_edits(lv0, sv);
    let mut k: usize = 0;
    while queue.len() > 0
        invariant
            k + queue.len() == n,
            n == sv.len(),
            n <= usize::MAX,
            apply_edits(result_lines.deep_view(), sv.skip(k as int)) == target,
            forall|j: int| 0 <= j < queue.len() ==> #[trigger] queue.deep_view()[j] == sv[n - 1 - j],
        decreases queue.len(),
    {
        let ghost q0 = queue.deep_view();
        let m = queue.pop().unwrap();
        proof {
            assert(queue.deep_view() =~= q0.drop_last());
            assert(m.deep_view() == q0[q0.len() - 1]);
            assert(m.deep_view() == sv[k as int]);
            assert(sv.skip(k as int)[0] == sv[k as int]);
            assert(sv.skip(k as int).drop_first() =~= sv.skip(k + 1));
            assert forall|j: int| 0 <= j < queue.len() implies #[trigger] queue.deep_view()[j] == sv[n - 1 - j] by {
                assert(queue.deep_view()[j] == q0[j]);
            }
        }
        result_lines = apply_modification(result_lines, m);
        k += 1;
    }
    assert(sv.skip(n as int) =~= Seq::<ModificationView>::empty());
    let mut output: Vec<char> = Vec::new();
    if bom {
        output.push('\u{FEFF}');
    }
    let body = join_exec(&result_lines, &newline);
    push_all(&mut output, &body);
    if had_trailing_newline {
        push_all(&mut output, &newline);
    }
    proof {
        let pre = if bom {
            seq![bom_char()]
        } else {
            Seq::<char>::empty()
        };
        let post = if had_trailing_newline {
            newline@
        } else {
            Seq::<char>::empty()
        };
        assert(output@ =~= pre + body@ + post);
    }
    Some(string_of(&output))
}

/// The files named by `ds`, each once, in order of first mention.
pub open spec fn files_of(ds: Seq<DiagnosticView>) -> Seq<Seq<char>>
    decreases ds.len(),
{
    if ds.len() == 0 {
        Seq::empty()
    } else {
        let prev = files_of(ds.drop_last());
        if prev.contains(ds.last().function.file_path) {
            prev
        } else {
            prev.push(ds.last().function.file_path)
        }
    }
}

/// The diagnostics of the file `f`, in order.
pub open spec fn diagnostics_of(ds: Seq<DiagnosticView>, f: Seq<char>) -> Seq<DiagnosticView> {
    ds.filter(|d: DiagnosticView| d.function.file_path == f)
}

/// The text that `sources` holds for the file `f`, the first one listed.
pub open spec fn source_of(sources: Seq<(Seq<char>, Seq<char>)>, f: Seq<char>) -> Option<Seq<char>>
    decreases sources.len(),
{
    if sources.len() == 0 {
        None
    } else if sources[0].0 == f {
        Some(sources[0].1)
    } else {
        source_of(sources.drop_first(), f)
    }
}

/// For each file of `files`, in order, its new text when it has a text in
/// `sources` and its diagnostics call for a change.
pub open spec fn fixed_files(
    files: Seq<Seq<char>>,
    ds: Seq<DiagnosticView>,
    sources: Seq<(Seq<char>, Seq<char>)>,
) -> Seq<(Seq<char>, Seq<char>)>
    decreases files.len(),
{
    if files.len() == 0 {
        Seq::empty()
    } else {
        let prev = fixed_files(files.drop_last(), ds, sources);
        let f = files.last();
        match source_of(sources, f) {
            Some(text) => match fixed_text(text, diagnostics_of(ds, f)) {
                Some(t) => prev.push((f, t)),
                None => prev,
            },
            None => prev,
        }
    }
}

/// A fix of file `f`: its text in `sources` and what fixing it with its own
/// diagnostics of `ds` gives.
pub open spec fn fixes_file(ds: Seq<DiagnosticView>, sources: Seq<(Seq<char>, Seq<char>)>, f: Seq<char>, t: Seq<char>) -> bool {
    source_of(sources, f) matches Some(text) && fixed_text(text, diagnostics_of(ds, f)) == Some(t)
}

proof fn lemma_files_of_distinct(ds: Seq<DiagnosticView>)
    ensures
        files_of(ds).no_duplicates(),
        forall|f: Seq<char>| #[trigger] files_of(ds).contains(f) <==> exists|i: int| 0 <= i < ds.len() && ds[i].function.file_path == f,
    decreases ds.len(),
{
    if ds.len() > 0 {
        let prev = files_of(ds.drop_last());
        lemma_files_of_distinct(ds.drop_last());
        let f0 = ds.last().function.file_path;
        assert forall|f: Seq<char>| #[trigger] files_of(ds).contains(f) <==> exists|i: int| 0 <= i < ds.len() && ds[i].function.file_path == f by {
            if files_of(ds).contains(f) {
                if prev.contains(f) {
                    let i = choose|i: int| 0 <= i < ds.drop_last().len() && ds.drop_last()[i].function.file_path == f;
                    assert(ds[i] == ds.drop_last()[i]);
                } else {
                    let j = choose|j: int| 0 <= j < files_of(ds).len() && files_of(ds)[j] == f;
                    if j < prev.len() {
                        assert(prev[j] == f);
                    }
                    assert(f == f0);
                    assert(ds[ds.len() - 1].function.file_path == f);
                }
            }
            if exists|i: int| 0 <= i < ds.len() && ds[i].function.file_path == f {
                let i = choose|i: int| 0 <= i < ds.len() && ds[i].function.file_path == f;
                if i < ds.len() - 1 {
                    assert(ds.drop_last()[i] == ds[i]);
                    assert(prev.contains(f));
                    let j = choose|j: int| 0 <= j < prev.len() && prev[j] == f;
                    assert(files_of(ds)[j] == f);
                } else if !prev.contains(f) {
                    assert(files_of(ds)[prev.len() as int] == f);
                }
            }
        }
    }
}

proof fn lemma_fixed_files_members(files: Seq<Seq<char>>, ds: Seq<DiagnosticView>, sources: Seq<(Seq<char>, Seq<char>)>)
    ensures
        forall|k: int| 0 <= k < fixed_files(files, ds, sources).len()
            ==> files.contains((#[trigger] fixed_files(files, ds, sources)[k]).0)
                && fixes_file(ds, sources, fixed_files(files, ds, sources)[k].0, fixed_files(files, ds, sources)[k].1),
        forall|f: Seq<char>, t: Seq<char>| files.contains(f) && #[trigger] fixes_file(ds, sources, f, t)
            ==> fixed_files(files, ds, sources).contains((f, t)),
        files.no_duplicates() ==> fixed_files(files, ds, sources).map_values(|e: (Seq<char>, Seq<char>)| e.0).no_duplicates(),
    decreases files.len(),
{
    if files.len() > 0 {
        let d = files.drop_last();
        let f0 = files.last();
        lemma_fixed_files_members(d, ds, sources);
        let prev = fixed_files(d, ds, sources);
        let r = fixed_files(files, ds, sources);
        assert(prev.is_prefix_of(r));
        assert forall|k: int| 0 <= k < r.len() implies files.contains((#[trigger] r[k]).0) && fixes_file(ds, sources, r[k].0, r[k].1) by {
            if k < prev.len() {
                assert(r[k] == prev[k]);
                let j = choose|j: int| 0 <= j < d.len() && d[j] == prev[k].0;
                assert(files[j] == d[j]);
            } else {
                assert(files[files.len() - 1] == f0);
            }
        }
        assert forall|f: Seq<char>, t: Seq<char>| files.contains(f) && #[trigger] fixes_file(ds, sources, f, t) implies r.contains((f, t)) by {
            let j = choose|j: int| 0 <= j < files.len() && files[j] == f;
            if j < files.len() - 1 {
                assert(d[j] == f);
                assert(d.contains(f));
                let w = choose|w: int| 0 <= w < prev.len() && prev[w] == (f, t);
                assert(r[w] == prev[w]);
            } else {
                assert(f == f0);
                assert(r[r.len() - 1] == (f, t));
            }
        }
        if files.no_duplicates() {
            assert(d.no_duplicates()) by {
                assert forall|a: int, b: int| 0 <= a < b < d.len() implies d[a] != d[b] by {
                    assert(files[a] == d[a]);
                    assert(files[b] == d[b]);
                }
            }
            let pm = prev.map_values(|e: (Seq<char>, Seq<char>)| e.0);
            let rm = r.map_values(|e: (Seq<char>, Seq<char>)| e.0);
            assert forall|a: int, b: int| 0 <= a < b < rm.len() implies rm[a] != rm[b] by {
                if b < prev.len() {
                    assert(rm[a] == pm[a]);
                    assert(rm[b] == pm[b]);
                } else {
                    assert(rm[b] == f0);
                    assert(r[a] == prev[a]);
                    assert(d.contains(prev[a].0));
                    let j = choose|j: int| 0 <= j < d.len() && d[j] == prev[a].0;
                    assert(files[j] == d[j]);
                    assert(files[files.len() - 1] == f0);
                }
            }
        }
    }
}

/// Fixing files rewrites each named file at most once: every listed file is
/// one the diagnostics name, listed once, with what fixing its text with its
/// own diagnostics gives; and every named file for which that gives a new
/// text is listed. A file for which it gives none is not listed, so the
/// number of files listed is the number of named files given a new text.
pub proof fn law_each_file_fixed_once(ds: Seq<DiagnosticView>, sources: Seq<(Seq<char>, Seq<char>)>)
    ensures
        ({
            let r = fixed_files(files_of(ds), ds, sources);
            &&& r.map_values(|e: (Seq<char>, Seq<char>)| e.0).no_duplicates()
            &&& forall|k: int| 0 <= k < r.len() ==> (exists|i: int| 0 <= i < ds.len() && ds[i].function.file_path == (#[trigger] r[k]).0)
                && fixes_file(ds, sources, r[k].0, r[k].1)
            &&& forall|i: int, t: Seq<char>| 0 <= i < ds.len() && #[trigger] fixes_file(ds, sources, ds[i].function.file_path, t)
                ==> r.contains((ds[i].function.file_path, t))
        }),
{
    lemma_files_of_distinct(ds);
    lemma_fixed_files_members(files_of(ds), ds, sources);
    let fs = files_of(ds);
    assert forall|i: int, t: Seq<char>| 0 <= i < ds.len() && #[trigger] fixes_file(ds, sources, ds[i].function.file_path, t)
        implies fixed_files(fs, ds, sources).contains((ds[i].function.file_path, t)) by {
        assert(fs.contains(ds[i].function.file_path));
    }
}

fn contains_path(v: &Vec<String>, s: &String) -> (r: bool)
    ensures
        r == v.deep_view().contains(s@),
{
    let mut i: usize = 0;
    while i < v.len()
        invariant
            i <= v.len(),
            forall|j: int| 0 <= j < i ==> v.deep_view()[j] != s@,
        decreases v.len() - i,
    {
        if crate::text::string_eq(&v[i], s) {
            assert(v.deep_view()[i as int] == s@);
            return true;
        }
        i += 1;
    }
    false
}

/// The files of `contracts`, each once, in order of first mention.
pub fn group_by_file(contracts: &[Diagnostic]) -> (r: Vec<String>)
    ensures
        r.deep_view() == files_of(contracts.deep_view()),
{
    let ghost ds = contracts.deep_view();
    let mut out: Vec<String> = Vec::new();
    assert(ds.take(0) =~= Seq::<DiagnosticView>::empty());
    assert(out.deep_view() =~= Seq::<Seq<char>>::empty());
    let mut i: usize = 0;
    while i < contracts.len()
        invariant
            i <= contracts.len(),
            ds == contracts.deep_view(),
            out.deep_view() == files_of(ds.take(i as int)),
        decreases contracts.len() - i,
    {
        assert(ds.take(i + 1).drop_last() =~= ds.take(i as int));
        assert(ds.take(i + 1).last() == contracts[i as int].deep_view());
        let p = &contracts[i].function.file_path;
        if !contains_path(&out, p) {
            let ghost before = out.deep_view();
            out.push(p.clone());
            assert(out.deep_view() =~= before.push(p@));
        }
        i += 1;
    }
    assert(ds.take(contracts.len() as int) =~= ds);
    out
}

fn diagnostics_for(contracts: &[Diagnostic], file: &String) -> (r: Vec<Diagnostic>)
    ensures
        r.deep_view() == diagnostics_of(contracts.deep_view(), file@),
{
    let ghost ds = contracts.deep_view();
    let mut out: Vec<Diagnostic> = Vec::new();
    assert(ds.take(0) =~= Seq::<DiagnosticView>::empty());
    assert(out.deep_view() =~= ds.take(0).filter(|d: DiagnosticView| d.function.file_path == file@));
    let mut i: usize = 0;
    while i < contracts.len()
        invariant
            i <= contracts.len(),
            ds == contracts.deep_view(),
            out.deep_view() == ds.take(i as int).filter(|d: DiagnosticView| d.function.file_path == file@),
        decreases contracts.len() - i,
    {
        let ghost before = out.deep_view();
        assert(ds.take(i + 1) =~= ds.take(i as int).push(contracts[i as int].deep_view()));
        reveal(Seq::filter);
        assert(ds.take(i + 1).drop_last() =~= ds.take(i as int));
        if crate::text::string_eq(&contracts[i].function.file_path, file) {
            let d = contracts[i].clone();
            out.push(d);
            assert(out.deep_view() =~= before.push(d.deep_view()));
        }
        i += 1;
    }
    assert(ds.take(contracts.len() as int) =~= ds);
    out
}

fn source_for<'a>(sources: &'a [(String, String)], file: &String) -> (r: Option<&'a String>)
    ensures
        match r {
            Some(t) => source_of(sources.deep_view(), file@) == Some(t@),
            None => source_of(sources.deep_view(), file@) is None,
        },
{
    let ghost sv = sources.deep_view();
    assert(sv.skip(0) =~= sv);
    let mut i: usize = 0;
    while i < sources.len()
        invariant
            i <= sources.len(),
            sv == sources.deep_view(),
            source_of(sv, file@) == source_of(sv.skip(i as int), file@),
        decreases sources.len() - i,
    {
        assert(sv.skip(i as int)[0] == sources[i as int].deep_view());
        assert(sv.skip(i as int).drop_first() =~= sv.skip(i + 1));
        if crate::text::string_eq(&sources[i].0, file) {
            return Some(&sources[i].1);
        }
        i += 1;
    }
    None
}

/// The files whose documentation comments change, with their new text:
/// for each file that `contracts` name (in order of first mention) and
/// whose text `sources` holds, the result of `apply_fixes` on it with the
/// file's own diagnostics, when that is a change.
pub fn fix_files(contracts: &[Diagnostic], sources: &[(String, String)]) -> (r: Vec<(String, String)>)
    ensures
        r.deep_view() == fixed_files(files_of(contracts.deep_view()), contracts.deep_view(), sources.deep_view()),
{
    let files = group_by_file(contracts);
    let ghost fv = files.deep_view();
    let mut out: Vec<(String, String)> = Vec::new();
    assert(fv.take(0) =~= Seq::<Seq<char>>::empty());
    assert(out.deep_view() =~= Seq::<(Seq<char>, Seq<char>)>::empty());
    let mut i: usize = 0;
    while i < files.len()
        invariant
            i <= files.len(),
            fv == files.deep_view(),
            out.deep_view() == fixed_files(fv.take(i as int), contracts.deep_view(), sources.deep_view()),
        decreases files.len() - i,
    {
        assert(fv.take(i + 1).drop_last() =~= fv.take(i as int));
        assert(fv.take(i + 1).last() == files[i as int]@);
        let file = &files[i];
        match source_for(sources, file) {
            Some(text) => {
                let ds = diagnostics_for(contracts, file);
                match apply_fixes(text.as_str(), ds.as_slice()) {
                    Some(t) => {
                        let ghost before = out.deep_view();
                        let entry = (file.clone(), t);
                        out.push(entry);
                        assert(out.deep_view() =~= before.push(entry.deep_view()));
                    },
                    None => {},
                }
            },
            None => {},
        }
        i += 1;
    }
    assert(fv.take(files.len() as int) =~= fv);
    out
}

} // verus!
