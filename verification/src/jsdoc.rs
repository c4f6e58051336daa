//! `@throws` tags of documentation comments.
//!
//! A tag reads `@throws {A | B} description from file.ts:func` or
//! `@throws A description`; the description and the `from` origin are both
//! optional, and a `from` that does not name `file:function` is part of the
//! description.
use crate::text::{
    find_char_exec_from, find_char_from, find_exec_from, find_from, find_ws_exec_from,
    find_ws_from, has_prefix, rfind_char, rfind_char_exec, slice_of, split_char, split_char_exec,
    starts_with, string_of, strip_leading, strip_leading_char, strip_trailing, strip_trailing_char,
    strip_trailing_pat, strip_trailing_pat_exec, trim, trim_start, trim_end, is_ws, trimmed, trimmed_start, lines,
    lines_exec, chars_of,
};
use vstd::prelude::*;

verus! {

broadcast use {vstd::string::group_string_axioms, crate::char_vec::lemma_char_vec_deep_view};

/// Where a documented throw comes from: `file_path:func_name`.
#[derive(Debug, PartialEq, Eq)]
pub struct FromInfo {
    pub file_path: String,
    pub func_name: String,
}

pub struct FromInfoView {
    pub file_path: Seq<char>,
    pub func_name: Seq<char>,
}

impl DeepView for FromInfo {
    type V = FromInfoView;

    open spec fn deep_view(&self) -> FromInfoView {
        FromInfoView { file_path: self.file_path@, func_name: self.func_name@ }
    }
}

impl View for FromInfo {
    type V = FromInfoView;

    open spec fn view(&self) -> FromInfoView {
        self.deep_view()
    }
}

impl Clone for FromInfo {
    fn clone(&self) -> (r: Self)
        ensures
            r == *self,
    {
        FromInfo { file_path: self.file_path.clone(), func_name: self.func_name.clone() }
    }
}

/// One type named by an `@throws` tag, with the tag's description and origin.
#[derive(Debug, PartialEq, Eq)]
pub struct ThrowsDeclaration {
    pub error_type: String,
    pub description: Option<String>,
    pub from: Option<FromInfo>,
}

pub struct ThrowsDeclarationView {
    pub error_type: Seq<char>,
    pub description: Option<Seq<char>>,
    pub from: Option<FromInfoView>,
}

impl DeepView for ThrowsDeclaration {
    type V = ThrowsDeclarationView;

    open spec fn deep_view(&self) -> ThrowsDeclarationView {
        ThrowsDeclarationView {
            error_type: self.error_type@,
            description: self.description.deep_view(),
            from: self.from.deep_view(),
        }
    }
}

impl View for ThrowsDeclaration {
    type V = ThrowsDeclarationView;

    open spec fn view(&self) -> ThrowsDeclarationView {
        self.deep_view()
    }
}

impl Clone for ThrowsDeclaration {
    fn clone(&self) -> (r: Self)
        ensures
            r == *self,
    {
        ThrowsDeclaration {
            error_type: self.error_type.clone(),
            description: clone_text(&self.description),
            from: clone_from(&self.from),
        }
    }
}

fn clone_text(t: &Option<String>) -> (r: Option<String>)
    ensures
        r == *t,
{
    match t {
        Some(s) => Some(s.clone()),
        None => None,
    }
}

fn clone_from(f: &Option<FromInfo>) -> (r: Option<FromInfo>)
    ensures
        r == *f,
{
    match f {
        Some(x) => Some(x.clone()),
        None => None,
    }
}

// ---------------------------------------------------------------------------
// The grammar, as spec functions over characters
// ---------------------------------------------------------------------------
pub open spec fn throws_tag() -> Seq<char> {
    seq!['@', 't', 'h', 'r', 'o', 'w', 's']
}

pub open spec fn from_word() -> Seq<char> {
    seq!['f', 'r', 'o', 'm', ' ']
}

pub open spec fn comment_close() -> Seq<char> {
    seq!['*', '/']
}

/// Text with a closing `*/`, trailing stars and surrounding blanks removed.
pub open spec fn jsdoc_end_stripped(t: Seq<char>) -> Seq<char> {
    trim(strip_trailing(strip_trailing_pat(t, comment_close()), '*'))
}

/// The first whitespace-separated word of `t` (or the blank `t` itself).
pub open spec fn first_word(t: Seq<char>) -> Seq<char> {
    let u = trim_start(t);
    match find_ws_from(u, 0) {
        Some(i) => u.take(i),
        None => u,
    }
}

/// `file:function` read from the first word of `t`, split at its last colon;
/// neither side may be empty.
pub open spec fn from_info_of(t: Seq<char>) -> Option<FromInfoView> {
    let w = first_word(t);
    match rfind_char(w, ':') {
        Some(c) => if c == 0 || c == w.len() - 1 {
            None
        } else {
            Some(FromInfoView { file_path: w.take(c), func_name: w.skip(c + 1) })
        },
        None => None,
    }
}

/// Description and origin, trying each `from ` at or after `i` in turn: the
/// first one followed by a valid origin splits the text.
pub open spec fn from_clause_at(t: Seq<char>, i: int) -> (Option<Seq<char>>, Option<FromInfoView>)
    decreases t.len() - i,
{
    match find_from(t, from_word(), i) {
        Some(j) => if i <= j && j + 5 <= t.len() {
            match from_info_of(trim(t.skip(j + 5))) {
                Some(fi) => {
                    let before = trim(t.take(j));
                    (if before.len() == 0 {
                        None
                    } else {
                        Some(before)
                    }, Some(fi))
                },
                None => from_clause_at(t, j + 5),
            }
        } else {
            (Some(t), None)
        },
        None => (Some(t), None),
    }
}

/// Description and origin of the text that follows the type of a tag.
pub open spec fn description_and_from(t: Seq<char>) -> (Option<Seq<char>>, Option<FromInfoView>) {
    if t.len() == 0 {
        (None, None)
    } else {
        from_clause_at(t, 0)
    }
}

/// The text after `@throws` on a comment line, if the line is such a tag.
pub open spec fn throws_rest(line: Seq<char>) -> Option<Seq<char>> {
    let t = trim(strip_leading(strip_leading(trim(line), '/'), '*'));
    if starts_with(t, throws_tag()) {
        Some(trim(t.skip(7)))
    } else {
        None
    }
}

/// One declaration per non-blank member of a `|`-separated type list.
pub open spec fn union_decls(
    parts: Seq<Seq<char>>,
    d: Option<Seq<char>>,
    f: Option<FromInfoView>,
) -> Seq<ThrowsDeclarationView>
    decreases parts.len(),
{
    if parts.len() == 0 {
        Seq::empty()
    } else {
        let rest = union_decls(parts.drop_last(), d, f);
        let name = trim(parts.last());
        if name.len() > 0 {
            rest.push(ThrowsDeclarationView { error_type: name, description: d, from: f })
        } else {
            rest
        }
    }
}

/// The declarations of one comment line.
pub open spec fn line_decls(line: Seq<char>) -> Seq<ThrowsDeclarationView> {
    match throws_rest(line) {
        None => Seq::empty(),
        Some(rest) => if rest.len() > 0 && rest[0] == '{' {
            match find_char_from(rest, '}', 0) {
                Some(e) => {
                    let (d, f) = description_and_from(jsdoc_end_stripped(trim(rest.skip(e + 1))));
                    union_decls(split_char(rest.subrange(1, e), '|'), d, f)
                },
                None => Seq::empty(),
            }
        } else {
            let (w, tail) = match find_ws_from(rest, 0) {
                Some(i) => (rest.take(i), rest.skip(i + 1)),
                None => (rest, Seq::<char>::empty()),
            };
            if w.len() > 0 {
                let (d, f) = description_and_from(jsdoc_end_stripped(trim(tail)));
                seq![ThrowsDeclarationView { error_type: w, description: d, from: f }]
            } else {
                Seq::empty()
            }
        },
    }
}

/// The declarations of the lines `ls`, in order.
pub open spec fn decls_of_lines(ls: Seq<Seq<char>>) -> Seq<ThrowsDeclarationView>
    decreases ls.len(),
{
    if ls.len() == 0 {
        Seq::empty()
    } else {
        decls_of_lines(ls.drop_last()) + line_decls(ls.last())
    }
}

/// Every declaration of a comment, line by line.
pub open spec fn jsdoc_throws(comment: Seq<char>) -> Seq<ThrowsDeclarationView> {
    decls_of_lines(lines(comment))
}

// ---------------------------------------------------------------------------
// The shape of what the grammar reads
// ---------------------------------------------------------------------------
/// A declaration as the grammar can give one: a non-empty type name with
/// no whitespace at either end, no empty description, and an origin whose file and function are both
/// non-empty.
pub open spec fn declaration_shaped(d: ThrowsDeclarationView) -> bool {
    &&& d.error_type.len() > 0
    &&& d.error_type == trim(d.error_type)
    &&& d.description != Some(Seq::<char>::empty())
    &&& d.from matches Some(fi) ==> fi.file_path.len() > 0 && fi.func_name.len() > 0
}

/// A description and origin as the grammar can give them.
pub open spec fn tail_shaped(d: Option<Seq<char>>, f: Option<FromInfoView>) -> bool {
    &&& d != Some(Seq::<char>::empty())
    &&& f matches Some(fi) ==> fi.file_path.len() > 0 && fi.func_name.len() > 0
}

proof fn lemma_trim_start_shape(s: Seq<char>)
    ensures
        trim_start(s).len() == 0 || !is_ws(trim_start(s)[0]),
    decreases s.len(),
{
    if s.len() > 0 && is_ws(s[0]) {
        lemma_trim_start_shape(s.drop_first());
    }
}

proof fn lemma_trim_end_shape(s: Seq<char>)
    ensures
        trim_end(s).len() <= s.len(),
        trim_end(s) == s.take(trim_end(s).len() as int),
        trim_end(s).len() == 0 || !is_ws(trim_end(s).last()),
    decreases s.len(),
{
    if s.len() > 0 && is_ws(s.last()) {
        lemma_trim_end_shape(s.drop_last());
        assert(s.drop_last().take(trim_end(s).len() as int) =~= s.take(trim_end(s).len() as int));
    } else {
        assert(s.take(s.len() as int) =~= s);
    }
}

/// Text with no whitespace at either end is its own trim.
proof fn lemma_trim_of_bare(s: Seq<char>)
    requires
        s.len() == 0 || (!is_ws(s[0]) && !is_ws(s.last())),
    ensures
        trim(s) == s,
{
    assert(trim_start(s) == s);
    assert(trim_end(s) == s);
}

/// Trimming twice trims once.
proof fn lemma_trim_trimmed(s: Seq<char>)
    ensures
        trim(trim(s)) == trim(s),
{
    let u = trim_start(s);
    lemma_trim_start_shape(s);
    lemma_trim_end_shape(u);
    let t = trim_end(u);
    if t.len() > 0 {
        assert(t[0] == u[0]);
    }
    lemma_trim_of_bare(t);
}

proof fn lemma_find_ws_from_bare(s: Seq<char>, j: int)
    requires
        0 <= j,
    ensures
        match find_ws_from(s, j) {
            Some(i) => j <= i < s.len() && forall|k: int| j <= k < i ==> !is_ws(#[trigger] s[k]),
            None => forall|k: int| j <= k < s.len() ==> !is_ws(#[trigger] s[k]),
        },
    decreases s.len() - j,
{
    if j < s.len() && !is_ws(s[j]) {
        lemma_find_ws_from_bare(s, j + 1);
    }
}

proof fn lemma_rfind_char_before_in_range(s: Seq<char>, c: char, i: int)
    ensures
        crate::text::rfind_char_before(s, c, i) matches Some(k) ==> 0 <= k < i && k < s.len(),
    decreases i,
{
    if i > 0 && i <= s.len() && s[i - 1] != c {
        lemma_rfind_char_before_in_range(s, c, i - 1);
    }
}

proof fn lemma_from_info_shaped(t: Seq<char>)
    ensures
        from_info_of(t) matches Some(fi) ==> fi.file_path.len() > 0 && fi.func_name.len() > 0,
{
    let w = first_word(t);
    lemma_rfind_char_before_in_range(w, ':', w.len() as int);
}

proof fn lemma_from_clause_shaped(t: Seq<char>, i: int)
    requires
        t.len() > 0,
    ensures
        ({
            let (d, f) = from_clause_at(t, i);
            tail_shaped(d, f)
        }),
    decreases t.len() - i,
{
    match find_from(t, from_word(), i) {
        Some(j) => if i <= j && j + 5 <= t.len() {
            lemma_from_info_shaped(trim(t.skip(j + 5)));
            if from_info_of(trim(t.skip(j + 5))) is None {
                lemma_from_clause_shaped(t, j + 5);
            }
        },
        None => {},
    }
}

proof fn lemma_description_shaped(t: Seq<char>)
    ensures
        ({
            let (d, f) = description_and_from(t);
            tail_shaped(d, f)
        }),
{
    if t.len() > 0 {
        lemma_from_clause_shaped(t, 0);
    }
}

proof fn lemma_union_shaped(parts: Seq<Seq<char>>, d: Option<Seq<char>>, f: Option<FromInfoView>)
    requires
        tail_shaped(d, f),
    ensures
        forall|k: int| 0 <= k < union_decls(parts, d, f).len() ==> declaration_shaped(#[trigger] union_decls(parts, d, f)[k]),
    decreases parts.len(),
{
    if parts.len() > 0 {
        lemma_union_shaped(parts.drop_last(), d, f);
        lemma_trim_trimmed(parts.last());
        let rest = union_decls(parts.drop_last(), d, f);
        assert forall|k: int| 0 <= k < union_decls(parts, d, f).len() implies declaration_shaped(#[trigger] union_decls(parts, d, f)[k]) by {
            if k < rest.len() {
                assert(union_decls(parts, d, f)[k] == rest[k]);
            }
        }
    }
}

proof fn lemma_line_shaped(line: Seq<char>)
    ensures
        forall|k: int| 0 <= k < line_decls(line).len() ==> declaration_shaped(#[trigger] line_decls(line)[k]),
{
    match throws_rest(line) {
        None => {},
        Some(rest) => if rest.len() > 0 && rest[0] == '{' {
            match find_char_from(rest, '}', 0) {
                Some(e) => {
                    let tail = jsdoc_end_stripped(trim(rest.skip(e + 1)));
                    lemma_description_shaped(tail);
                    let (d, f) = description_and_from(tail);
                    lemma_union_shaped(split_char(rest.subrange(1, e), '|'), d, f);
                },
                None => {},
            }
        } else {
            let (w, tail) = match find_ws_from(rest, 0) {
                Some(i) => (rest.take(i), rest.skip(i + 1)),
                None => (rest, Seq::<char>::empty()),
            };
            lemma_description_shaped(jsdoc_end_stripped(trim(tail)));
            lemma_find_ws_from_bare(rest, 0);
            if w.len() > 0 {
                assert(!is_ws(w[0]));
                assert(!is_ws(w[w.len() - 1]));
            }
            lemma_trim_of_bare(w);
        },
    }
}

proof fn lemma_lines_shaped(ls: Seq<Seq<char>>)
    ensures
        forall|k: int| 0 <= k < decls_of_lines(ls).len() ==> declaration_shaped(#[trigger] decls_of_lines(ls)[k]),
    decreases ls.len(),
{
    if ls.len() > 0 {
        lemma_lines_shaped(ls.drop_last());
        lemma_line_shaped(ls.last());
        let a = decls_of_lines(ls.drop_last());
        let b = line_decls(ls.last());
        assert forall|k: int| 0 <= k < decls_of_lines(ls).len() implies declaration_shaped(#[trigger] decls_of_lines(ls)[k]) by {
            if k < a.len() {
                assert(decls_of_lines(ls)[k] == a[k]);
            } else {
                assert(decls_of_lines(ls)[k] == b[k - a.len()]);
            }
        }
    }
}

/// Every declaration read from a comment names a non-empty type, carries no
/// empty description, and, when it names an origin, names a non-empty file
/// and a non-empty function.
pub proof fn law_declarations_are_shaped(comment: Seq<char>)
    ensures
        forall|k: int| 0 <= k < jsdoc_throws(comment).len() ==> declaration_shaped(#[trigger] jsdoc_throws(comment)[k]),
{
    lemma_lines_shaped(lines(comment));
}

proof fn lemma_no_tag_lines(ls: Seq<Seq<char>>)
    requires
        forall|k: int| 0 <= k < ls.len() ==> throws_rest(#[trigger] ls[k]) is None,
    ensures
        decls_of_lines(ls).len() == 0,
    decreases ls.len(),
{
    if ls.len() > 0 {
        assert forall|k: int| 0 <= k < ls.drop_last().len() implies throws_rest(#[trigger] ls.drop_last()[k]) is None by {
            assert(ls.drop_last()[k] == ls[k]);
        }
        lemma_no_tag_lines(ls.drop_last());
        assert(throws_rest(ls[ls.len() - 1]) is None);
    }
}

/// A comment none of whose lines, once stripped of whitespace, leading `/`
/// and `*` and whitespace again, starts with `@throws` declares nothing.
pub proof fn law_no_tag_no_declarations(comment: Seq<char>)
    requires
        forall|k: int| 0 <= k < lines(comment).len() ==> throws_rest(#[trigger] lines(comment)[k]) is None,
    ensures
        jsdoc_throws(comment).len() == 0,
{
    lemma_no_tag_lines(lines(comment));
}

// ---------------------------------------------------------------------------
// Executable parser
// ---------------------------------------------------------------------------
fn throws_tag_exec() -> (r: Vec<char>)
    ensures
        r@ == throws_tag(),
{
    let mut r: Vec<char> = Vec::new();
    r.push('@');
    r.push('t');
    r.push('h');
    r.push('r');
    r.push('o');
    r.push('w');
    r.push('s');
    assert(r@ =~= throws_tag());
    r
}

fn from_word_exec() -> (r: Vec<char>)
    ensures
        r@ == from_word(),
{
    let mut r: Vec<char> = Vec::new();
    r.push('f');
    r.push('r');
    r.push('o');
    r.push('m');
    r.push(' ');
    assert(r@ =~= from_word());
    r
}

fn strip_jsdoc_end(text: &Vec<char>) -> (r: Vec<char>)
    ensures
        r@ == jsdoc_end_stripped(text@),
{
    let mut close: Vec<char> = Vec::new();
    close.push('*');
    close.push('/');
    assert(close@ =~= comment_close());
    let a = strip_trailing_pat_exec(text, &close);
    let b = strip_trailing_char(&a, '*');
    trimmed(&b)
}

fn parse_from_info(text: &Vec<char>) -> (r: Option<FromInfo>)
    ensures
        r.deep_view() == from_info_of(text@),
{
    let u = trimmed_start(text);
    let w = match find_ws_exec_from(&u, 0) {
        Some(i) => slice_of(&u, 0, i),
        None => u,
    };
    assert(w@ == first_word(text@));
    match rfind_char_exec(&w, ':') {
        None => None,
        Some(c) => {
            if c == 0 || c == w.len() - 1 {
                None
            } else {
                let fp = slice_of(&w, 0, c);
                let fname = slice_of(&w, c + 1, w.len());
                assert(fname@ == w@.skip(c + 1));
                Some(FromInfo { file_path: string_of(&fp), func_name: string_of(&fname) })
            }
        },
    }
}

fn parse_description_and_from(text: &Vec<char>) -> (r: (Option<String>, Option<FromInfo>))
    ensures
        (r.0.deep_view(), r.1.deep_view()) == description_and_from(text@),
{
    if text.len() == 0 {
        return (None, None);
    }
    let pat = from_word_exec();
    let mut i: usize = 0;
    loop
        invariant
            i <= text.len(),
            text.len() > 0,
            pat@ == from_word(),
            description_and_from(text@) == from_clause_at(text@, i as int),
        decreases text.len() - i,
    {
        match find_exec_from(text, &pat, i) {
            None => {
                return (Some(string_of(text)), None);
            },
            Some(j) => {
                let after0 = slice_of(text, j + 5, text.len());
                let after = trimmed(&after0);
                match parse_from_info(&after) {
                    Some(fi) => {
                        let b0 = slice_of(text, 0, j);
                        let before = trimmed(&b0);
                        let description = if before.len() == 0 {
                            None
                        } else {
                            Some(string_of(&before))
                        };
                        return (description, Some(fi));
                    },
                    None => {
                        i = j + 5;
                    },
                }
            },
        }
    }
}

fn line_declarations(line: &Vec<char>) -> (r: Vec<ThrowsDeclaration>)
    ensures
        r.deep_view() == line_decls(line@),
{
    let mut out: Vec<ThrowsDeclaration> = Vec::new();
    assert(out.deep_view() =~= Seq::<ThrowsDeclarationView>::empty());
    let t0 = trimmed(line);
    let t1 = strip_leading_char(&t0, '/');
    let t2 = strip_leading_char(&t1, '*');
    let t = trimmed(&t2);
    let tag = throws_tag_exec();
    if !has_prefix(&t, &tag) {
        return out;
    }
    let after = slice_of(&t, 7, t.len());
    let rest = trimmed(&after);
    assert(throws_rest(line@) == Some(rest@));
    if rest.len() > 0 && rest[0] == '{' {
        match find_char_exec_from(&rest, '}', 0) {
            None => out,
            Some(e) => {
                let content = slice_of(&rest, 1, e);
                let tail0 = slice_of(&rest, e + 1, rest.len());
                let tail = trimmed(&tail0);
                let after_type = strip_jsdoc_end(&tail);
                let (description, from) = parse_description_and_from(&after_type);
                let parts = split_char_exec(&content, '|');
                let ghost pv = parts.deep_view();
                let ghost d = description.deep_view();
                let ghost f = from.deep_view();
                let mut k: usize = 0;
                assert(pv.take(0) =~= Seq::<Seq<char>>::empty());
                while k < parts.len()
                    invariant
                        k <= parts.len(),
                        pv == parts.deep_view(),
                        d == description.deep_view(),
                        f == from.deep_view(),
                        out.deep_view() == union_decls(pv.take(k as int), d, f),
                    decreases parts.len() - k,
                {
                    assert(pv.take(k + 1).drop_last() == pv.take(k as int));
                    assert(pv.take(k + 1).last() == parts[k as int]@);
                    let name = trimmed(&parts[k]);
                    if name.len() > 0 {
                        let decl = ThrowsDeclaration {
                            error_type: string_of(&name),
                            description: clone_text(&description),
                            from: clone_from(&from),
                        };
                        let ghost before = out.deep_view();
                        out.push(decl);
                        assert(out.deep_view() =~= before.push(decl.deep_view()));
                    }
                    k += 1;
                }
                assert(pv.take(parts.len() as int) == pv);
                out
            },
        }
    } else {
        let (word, tail) = match find_ws_exec_from(&rest, 0) {
            Some(i) => (slice_of(&rest, 0, i), slice_of(&rest, i + 1, rest.len())),
            None => (rest, Vec::new()),
        };
        if word.len() > 0 {
            let tail_trimmed = trimmed(&tail);
            let after_type = strip_jsdoc_end(&tail_trimmed);
            let (description, from) = parse_description_and_from(&after_type);
            let decl = ThrowsDeclaration { error_type: string_of(&word), description, from };
            out.push(decl);
            assert(out.deep_view() =~= seq![decl.deep_view()]);
        }
        out
    }
}

/// Every `@throws` declaration of a documentation comment, in order: one
/// per type of a tag, with the tag's description and origin.
pub fn extract_throws_from_jsdoc(comment: &str) -> (result: Vec<ThrowsDeclaration>)
    ensures
        result.deep_view() == jsdoc_throws(comment@),
{
    let chars = chars_of(comment);
    let ls = lines_exec(&chars);
    let ghost lv = ls.deep_view();
    let mut results: Vec<ThrowsDeclaration> = Vec::new();
    assert(lv.take(0) =~= Seq::<Seq<char>>::empty());
    assert(results.deep_view() =~= Seq::<ThrowsDeclarationView>::empty());
    let mut i: usize = 0;
    while i < ls.len()
        invariant
            i <= ls.len(),
            lv == ls.deep_view(),
            lv == lines(comment@),
            results.deep_view() == decls_of_lines(lv.take(i as int)),
        decreases ls.len() - i,
    {
        assert(lv.take(i + 1).drop_last() == lv.take(i as int));
        assert(lv.take(i + 1).last() == ls[i as int]@);
        let ds = line_declarations(&ls[i]);
        let ghost r0 = results.deep_view();
        let mut k: usize = 0;
        while k < ds.len()
            invariant
                k <= ds.len(),
                results.deep_view() == r0 + ds.deep_view().take(k as int),
            decreases ds.len() - k,
        {
            let ghost before = results.deep_view();
            let d = ds[k].clone();
            results.push(d);
            assert(results.deep_view() =~= before.push(d.deep_view()));
            assert(ds.deep_view().take(k + 1) =~= ds.deep_view().take(k as int).push(ds.deep_view()[k as int]));
            k += 1;
        }
        assert(ds.deep_view().take(ds.len() as int) == ds.deep_view());
        i += 1;
    }
    assert(lv.take(ls.len() as int) == lv);
    results
}

} // verus!
