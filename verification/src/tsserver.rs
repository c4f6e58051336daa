//! The computing side of the conversation with `tsserver`: positions,
//! the place to ask about a thrown expression, reading a quick-info answer
//! and deciding what a response line means. Sending and receiving happen
//! elsewhere.
use crate::text::{
    chars_of, find_char, find_char_exec_from, has_prefix, push_all_str,
    rfind_char, rfind_char_exec, slice_of, starts_with, string_of, strip_trailing,
    strip_trailing_char, trim, trimmed, count_char,
};
use crate::types::Span;
use vstd::prelude::*;
use vstd::utf8::{encode_scalar, encode_utf8, char_is_scalar};

verus! {

broadcast use {vstd::string::group_string_axioms, crate::char_vec::lemma_char_vec_deep_view};

/// A position as tsserver reports it: 1-based line and column.
#[derive(Debug, Clone, Copy, PartialEq, Eq)]
pub struct Position {
    pub line: u32,
    pub offset: u32,
}

/// A range of a file as tsserver reports it.
#[derive(Debug, Clone, PartialEq, Eq)]
pub struct FileSpan {
    pub file: String,
    pub start: Position,
    pub end: Position,
}

// ---------------------------------------------------------------------------
// UTF-8 byte offsets
// ---------------------------------------------------------------------------
/// Number of UTF-8 bytes of `s`.
pub open spec fn byte_len(s: Seq<char>) -> nat {
    encode_utf8(s).len()
}

/// The UTF-8 bytes of two texts together are the bytes of each, in turn.
pub proof fn lemma_encode_concat(a: Seq<char>, b: Seq<char>)
    ensures
        encode_utf8(a + b) == encode_utf8(a) + encode_utf8(b),
    decreases a.len(),
{
    if a.len() == 0 {
        assert(a + b =~= b);
        assert(encode_utf8(a) + encode_utf8(b) =~= encode_utf8(b));
    } else {
        assert((a + b)[0] == a[0]);
        assert((a + b).drop_first() =~= a.drop_first() + b);
        lemma_encode_concat(a.drop_first(), b);
        assert(encode_utf8(a + b) =~= encode_scalar(a[0] as u32) + encode_utf8(a.drop_first() + b));
    }
}

pub(crate) proof fn lemma_byte_len_push(a: Seq<char>, c: char)
    ensures
        byte_len(a.push(c)) == byte_len(a) + encode_scalar(c as u32).len(),
        1 <= encode_scalar(c as u32).len() <= 4,
{
    lemma_width(c);
    lemma_encode_concat(a, seq![c]);
    assert(a + seq![c] =~= a.push(c));
    assert(seq![c].drop_first() =~= Seq::<char>::empty());
    assert(encode_utf8(seq![c]) =~= encode_scalar(c as u32) + encode_utf8(Seq::<char>::empty()));
}

pub(crate) proof fn lemma_byte_len_take(s: Seq<char>, k: int)
    requires
        0 <= k <= s.len(),
    ensures
        byte_len(s.take(k)) <= byte_len(s),
        k < s.len() ==> byte_len(s.take(k)) < byte_len(s.take(k + 1)),
        s.len() <= byte_len(s),
    decreases s.len() - k,
{
    lemma_encode_concat(s.take(k), s.skip(k));
    assert(s.take(k) + s.skip(k) =~= s);
    lemma_len_at_least(s);
    if k < s.len() {
        assert(s.take(k + 1) =~= s.take(k).push(s[k]));
        lemma_byte_len_push(s.take(k), s[k]);
        lemma_width(s[k]);
    }
}

proof fn lemma_len_at_least(s: Seq<char>)
    ensures
        s.len() <= byte_len(s),
    decreases s.len(),
{
    if s.len() > 0 {
        lemma_len_at_least(s.drop_first());
        lemma_width(s[0]);
    }
}

proof fn lemma_width(c: char)
    ensures
        1 <= encode_scalar(c as u32).len() <= 4,
        encode_scalar(c as u32).len() == utf8_width_of(c),
{
    char_is_scalar(c);
}

/// Bytes that `c` takes in UTF-8.
pub open spec fn utf8_width_of(c: char) -> nat {
    let u = c as u32;
    if u < 0x80 {
        1
    } else if u < 0x800 {
        2
    } else if u < 0x10000 {
        3
    } else {
        4
    }
}

pub(crate) fn utf8_width(c: char) -> (w: u32)
    ensures
        w == encode_scalar(c as u32).len(),
        1 <= w <= 4,
{
    proof {
        lemma_width(c);
    }
    let u = c as u32;
    if u < 0x80 {
        1
    } else if u < 0x800 {
        2
    } else if u < 0x10000 {
        3
    } else {
        4
    }
}

/// Index of the first character of `s`, from `k` on, that starts at byte
/// `offset` or later; `s.len()` when none does.
pub open spec fn char_index_at(s: Seq<char>, offset: int, k: int) -> int
    decreases s.len() - k,
{
    if k >= s.len() || byte_len(s.take(k)) >= offset {
        k
    } else {
        char_index_at(s, offset, k + 1)
    }
}

/// 1-based line of the position just after `p`.
pub open spec fn line_after(p: Seq<char>) -> int {
    1 + count_char(p, '\n') as int
}

/// 1-based column of the position just after `p`.
pub open spec fn col_after(p: Seq<char>) -> int {
    match rfind_char(p, '\n') {
        Some(i) => p.len() - i,
        None => p.len() + 1int,
    }
}

proof fn lemma_rfind_push(p: Seq<char>, c: char)
    ensures
        rfind_char(p.push(c), '\n') == if c == '\n' {
            Some(p.len() as int)
        } else {
            rfind_char(p, '\n')
        },
{
    let q = p.push(c);
    if c != '\n' {
        lemma_rfind_prefix(q, p, p.len() as int);
    }
}

proof fn lemma_rfind_prefix(q: Seq<char>, p: Seq<char>, i: int)
    requires
        0 <= i <= p.len(),
        p.len() < q.len(),
        forall|j: int| 0 <= j < p.len() ==> q[j] == p[j],
    ensures
        crate::text::rfind_char_before(q, '\n', i) == crate::text::rfind_char_before(p, '\n', i),
    decreases i,
{
    if i > 0 {
        lemma_rfind_prefix(q, p, i - 1);
    }
}

/// The 1-based (line, column) of byte `offset` of `source`, counting
/// columns in characters; an offset past the end gives the position after
/// the last character. Offsets are 32-bit, so the source is shorter than
/// `u32::MAX` bytes.
pub fn byte_offset_to_line_col(source: &str, offset: u32) -> (r: (u32, u32))
    requires
        byte_len(source@) < u32::MAX,
    ensures
        ({
            let p = source@.take(char_index_at(source@, offset as int, 0));
            r.0 == line_after(p) && r.1 == col_after(p)
        }),
{
    let chars = chars_of(source);
    let ghost s = source@;
    let mut line: u32 = 1;
    let mut col: u32 = 1;
    let mut pos: u32 = 0;
    let mut k: usize = 0;
    proof {
        lemma_byte_len_take(s, 0);
        assert(s.take(0) =~= Seq::<char>::empty());
    }
    while k < chars.len()
        invariant
            chars@ == s,
            s == source@,
            byte_len(s) < u32::MAX,
            k <= s.len(),
            pos == byte_len(s.take(k as int)),
            line == line_after(s.take(k as int)),
            col == col_after(s.take(k as int)),
            line <= k + 1,
            col <= k + 1,
            char_index_at(s, offset as int, 0) == char_index_at(s, offset as int, k as int),
        decreases chars.len() - k,
    {
        if pos >= offset {
            assert(char_index_at(s, offset as int, k as int) == k);
            return (line, col);
        }
        let ch = chars[k];
        proof {
            lemma_byte_len_take(s, k as int);
            lemma_byte_len_take(s, k + 1);
            lemma_byte_len_push(s.take(k as int), ch);
            assert(s.take(k + 1) =~= s.take(k as int).push(ch));
            assert(s.take(k + 1).drop_last() =~= s.take(k as int));
            lemma_rfind_push(s.take(k as int), ch);
        }
        let w = utf8_width(ch);
        pos = pos + w;
        if ch == '\n' {
            line += 1;
            col = 1;
        } else {
            col += 1;
        }
        k += 1;
    }
    assert(s.take(s.len() as int) =~= s);
    (line, col)
}

// ---------------------------------------------------------------------------
// Asking about a thrown expression
// ---------------------------------------------------------------------------
/// Index of the character of `s` that starts at byte `b`, or `s.len()`
/// when `b` is the byte length; `None` when `b` falls inside a character
/// or past the end.
pub open spec fn boundary_from(s: Seq<char>, b: int, k: int) -> Option<int>
    decreases s.len() + 1 - k,
{
    if k < 0 || k > s.len() || byte_len(s.take(k)) > b {
        None
    } else if byte_len(s.take(k)) == b {
        Some(k)
    } else {
        boundary_from(s, b, k + 1)
    }
}

pub open spec fn throw_word() -> Seq<char> {
    seq!['t', 'h', 'r', 'o', 'w', ' ']
}

/// The text of `source` between byte offsets `start` and `end`, as
/// `str::get` gives it.
pub open spec fn byte_slice(s: Seq<char>, start: int, end: int) -> Option<Seq<char>> {
    match (boundary_from(s, start, 0), boundary_from(s, end, 0)) {
        (Some(a), Some(b)) => if a <= b {
            Some(s.subrange(a, b))
        } else {
            None
        },
        _ => None,
    }
}

/// The expression of a `throw ` statement's text: after the keyword,
/// without trailing semicolons and surrounding blanks.
pub open spec fn thrown_expression(text: Seq<char>) -> Seq<char> {
    trim(strip_trailing(text.skip(6), ';'))
}

/// The byte offset at which to ask for the type of what a throw statement
/// spanning `start..end` throws: the last byte before the call's `(` for a
/// call, the last byte of the expression otherwise.
pub open spec fn query_offset(s: Seq<char>, start: int, end: int) -> Option<int> {
    match byte_slice(s, start, end) {
        Some(text) => if starts_with(text, throw_word()) {
            let expr = thrown_expression(text);
            match find_char(expr, '(') {
                Some(p) => Some(start + 6 + byte_len(expr.take(p)) - 1),
                None => Some(start + 6 + byte_len(expr) - 1),
            }
        } else {
            None
        },
        None => None,
    }
}

pub(crate) fn char_at_byte(chars: &Vec<char>, b: u32) -> (r: Option<usize>)
    requires
        byte_len(chars@) < u32::MAX,
    ensures
        match r {
            Some(k) => boundary_from(chars@, b as int, 0) == Some(k as int),
            None => boundary_from(chars@, b as int, 0) is None,
        },
        r matches Some(k) ==> k <= chars.len() && byte_len(chars@.take(k as int)) == b,
{
    let ghost s = chars@;
    let mut k: usize = 0;
    let mut pos: u32 = 0;
    proof {
        lemma_byte_len_take(s, 0);
        assert(s.take(0) =~= Seq::<char>::empty());
    }
    loop
        invariant
            k <= s.len(),
            chars@ == s,
            byte_len(s) < u32::MAX,
            pos == byte_len(s.take(k as int)),
            boundary_from(s, b as int, 0) == boundary_from(s, b as int, k as int),
        decreases s.len() - k,
    {
        if pos > b {
            return None;
        }
        if pos == b {
            return Some(k);
        }
        if k == chars.len() {
            assert(boundary_from(s, b as int, k + 1) is None);
            return None;
        }
        proof {
            lemma_byte_len_take(s, k as int);
            lemma_byte_len_take(s, k + 1);
            lemma_byte_len_push(s.take(k as int), s[k as int]);
            assert(s.take(k + 1) =~= s.take(k as int).push(s[k as int]));
        }
        let w = utf8_width(chars[k]);
        pos = pos + w;
        k += 1;
    }
}

/// Where to ask tsserver for the type of what the throw statement at
/// `span` throws: `None` when the span is not a `throw ` statement of
/// `source`.
pub fn throw_query_offset(source: &str, span: Span) -> (r: Option<u32>)
    requires
        byte_len(source@) < u32::MAX,
    ensures
        match r {
            Some(q) => query_offset(source@, span.start as int, span.end as int) == Some(q as int),
            None => query_offset(source@, span.start as int, span.end as int) is None,
        },
{
    let chars = chars_of(source);
    let ghost s = source@;
    let a = match char_at_byte(&chars, span.start) {
        Some(a) => a,
        None => return None,
    };
    let b = match char_at_byte(&chars, span.end) {
        Some(b) => b,
        None => return None,
    };
    if a > b {
        return None;
    }
    let text = slice_of(&chars, a, b);
    let mut word: Vec<char> = Vec::new();
    push_all_str(&mut word, "throw ");
    proof {
        reveal_strlit("throw ");
        assert(word@ =~= throw_word());
    }
    if !has_prefix(&text, &word) {
        return None;
    }
    let after = slice_of(&text, 6, text.len());
    assert(after@ =~= text@.skip(6));
    let stripped = strip_trailing_char(&after, ';');
    let expr = trimmed(&stripped);
    proof {
        lemma_byte_len_take(s, b as int);
        assert(s.take(b as int) =~= s.take(a as int) + text@);
        lemma_encode_concat(s.take(a as int), text@);
        assert(text@ =~= text@.take(6) + after@);
        lemma_encode_concat(text@.take(6), after@);
        lemma_len_at_least(text@.take(6));
        lemma_sub_byte_len(after@, expr@);
    }
    match find_char_exec_from(&expr, '(', 0) {
        Some(p) => {
            proof {
                lemma_byte_len_take(expr@, p as int);
            }
            let bp = byte_count(&expr, p);
            Some(span.start + 6 + bp - 1)
        },
        None => {
            assert(expr@.take(expr.len() as int) =~= expr@);
            let be = byte_count(&expr, expr.len());
            Some(span.start + 6 + be - 1)
        },
    }
}

/// `t`, a piece of `s` between blanks and trailing `;`s, has no more bytes
/// than `s`.
proof fn lemma_sub_byte_len(s: Seq<char>, t: Seq<char>)
    requires
        t == trim(strip_trailing(s, ';')),
    ensures
        byte_len(t) <= byte_len(s),
{
    let u = strip_trailing(s, ';');
    lemma_strip_trailing_prefix(s, ';');
    lemma_trim_infix(u);
    let (i, j) = choose|i: int, j: int| 0 <= i <= j <= u.len() && u.subrange(i, j) == t;
    lemma_subrange_byte_len(u, i, j);
    let k = u.len() as int;
    assert(s.take(k) == u);
    lemma_byte_len_take(s, k);
}

proof fn lemma_subrange_byte_len(s: Seq<char>, i: int, j: int)
    requires
        0 <= i <= j <= s.len(),
    ensures
        byte_len(s.subrange(i, j)) <= byte_len(s),
{
    assert(s =~= s.take(i) + (s.subrange(i, j) + s.skip(j)));
    lemma_encode_concat(s.take(i), s.subrange(i, j) + s.skip(j));
    lemma_encode_concat(s.subrange(i, j), s.skip(j));
}

proof fn lemma_strip_trailing_prefix(s: Seq<char>, c: char)
    ensures
        strip_trailing(s, c).len() <= s.len(),
        s.take(strip_trailing(s, c).len() as int) == strip_trailing(s, c),
    decreases s.len(),
{
    if s.len() > 0 && s.last() == c {
        lemma_strip_trailing_prefix(s.drop_last(), c);
        let n = strip_trailing(s, c).len() as int;
        assert(s.take(n) =~= s.drop_last().take(n));
    } else {
        assert(s.take(s.len() as int) =~= s);
    }
}

proof fn lemma_trim_infix(u: Seq<char>)
    ensures
        exists|i: int, j: int| 0 <= i <= j <= u.len() && u.subrange(i, j) == trim(u),
{
    lemma_trim_start_suffix(u);
    let a = crate::text::trim_start(u);
    let i = u.len() - a.len();
    lemma_trim_end_prefix(a);
    let b = crate::text::trim_end(a);
    assert(u.subrange(i, i + b.len()) =~= b);
}

proof fn lemma_trim_start_suffix(u: Seq<char>)
    ensures
        crate::text::trim_start(u).len() <= u.len(),
        u.skip(u.len() - crate::text::trim_start(u).len()) == crate::text::trim_start(u),
    decreases u.len(),
{
    if u.len() > 0 && crate::text::is_ws(u[0]) {
        lemma_trim_start_suffix(u.drop_first());
        let n = crate::text::trim_start(u).len() as int;
        assert(u.skip(u.len() - n) =~= u.drop_first().skip(u.drop_first().len() - n));
    } else {
        assert(u.skip(0) =~= u);
    }
}

proof fn lemma_trim_end_prefix(u: Seq<char>)
    ensures
        crate::text::trim_end(u).len() <= u.len(),
        u.take(crate::text::trim_end(u).len() as int) == crate::text::trim_end(u),
    decreases u.len(),
{
    if u.len() > 0 && crate::text::is_ws(u.last()) {
        lemma_trim_end_prefix(u.drop_last());
        let n = crate::text::trim_end(u).len() as int;
        assert(u.take(n) =~= u.drop_last().take(n));
    } else {
        assert(u.take(u.len() as int) =~= u);
    }
}

/// Number of UTF-8 bytes of the first `n` characters of `s`.
fn byte_count(s: &Vec<char>, n: usize) -> (r: u32)
    requires
        n <= s.len(),
        byte_len(s@) < u32::MAX,
    ensures
        r == byte_len(s@.take(n as int)),
{
    let mut k: usize = 0;
    let mut pos: u32 = 0;
    proof {
        assert(s@.take(0) =~= Seq::<char>::empty());
    }
    while k < n
        invariant
            k <= n <= s.len(),
            byte_len(s@) < u32::MAX,
            pos == byte_len(s@.take(k as int)),
        decreases n - k,
    {
        proof {
            lemma_byte_len_take(s@, k + 1);
            lemma_byte_len_push(s@.take(k as int), s@[k as int]);
            assert(s@.take(k + 1) =~= s@.take(k as int).push(s@[k as int]));
        }
        let w = utf8_width(s[k]);
        pos = pos + w;
        k += 1;
    }
    pos
}

/// The type that a quick-info display string names: what follows its last
/// colon, trimmed.
pub open spec fn displayed_type(d: Seq<char>) -> Option<Seq<char>> {
    match rfind_char(d, ':') {
        Some(i) => Some(trim(d.skip(i + 1))),
        None => None,
    }
}

/// The type a `quickinfo` display text shows, if any.
pub fn type_from_quick_info(display: &str) -> (r: Option<String>)
    ensures
        r.deep_view() == displayed_type(display@),
{
    let d = chars_of(display);
    match rfind_char_exec(&d, ':') {
        Some(i) => {
            let rest = slice_of(&d, i + 1, d.len());
            let t = trimmed(&rest);
            Some(string_of(&t))
        },
        None => None,
    }
}


/// The UTF-8 length of `s` when it is below `u32::MAX`.
pub fn byte_length_below_u32_max(s: &str) -> (r: Option<u32>)
    ensures
        match r {
            Some(n) => n == byte_len(s@) && n < u32::MAX,
            None => byte_len(s@) >= u32::MAX,
        },
{
    let chars = chars_of(s);
    let ghost v = s@;
    let mut k: usize = 0;
    let mut pos: u64 = 0;
    proof {
        assert(v.take(0) =~= Seq::<char>::empty());
    }
    while k < chars.len()
        invariant
            chars@ == v,
            v == s@,
            k <= v.len(),
            pos == byte_len(v.take(k as int)),
            pos < u32::MAX,
        decreases v.len() - k,
    {
        proof {
            lemma_byte_len_push(v.take(k as int), v[k as int]);
            lemma_width(v[k as int]);
            assert(v.take(k + 1) =~= v.take(k as int).push(v[k as int]));
        }
        let w = utf8_width(chars[k]);
        pos = pos + w as u64;
        if pos >= 0xffff_ffff {
            proof {
                lemma_byte_len_take(v, k + 1);
            }
            return None;
        }
        k += 1;
    }
    assert(v.take(v.len() as int) =~= v);
    Some(pos as u32)
}




// ---------------------------------------------------------------------------
// Reading responses
// ---------------------------------------------------------------------------
/// A line of tsserver's output carries a message unless it is blank or a
/// `Content-Length:` header; the message is the trimmed line.
pub open spec fn message_of_line(line: Seq<char>) -> Option<Seq<char>> {
    let t = trim(line);
    if t.len() == 0 || starts_with(t, "Content-Length:"@) {
        None
    } else {
        Some(t)
    }
}

/// The JSON message a line of `tsserver` output carries, if any.
pub fn response_line(line: &str) -> (r: Option<String>)
    ensures
        r.deep_view() == message_of_line(line@),
{
    let c = chars_of(line);
    let t = trimmed(&c);
    let header = chars_of("Content-Length:");
    if t.len() == 0 || has_prefix(&t, &header) {
        None
    } else {
        Some(string_of(&t))
    }
}

/// What to do with a parsed message while waiting for the answer to
/// request `expected_seq`.
#[derive(Debug, PartialEq, Eq)]
pub enum ResponseStep {
    /// Not the awaited answer: read on.
    Skip,
    /// The awaited answer, successful.
    Accept,
    /// The awaited answer reports a failure, with this message.
    Fail(String),
}

/// The awaited answer is a `response` to `expected_seq`; it fails when it
/// says `success: false`, with its message or `Unknown error`.
pub open spec fn response_outcome(
    msg_type: Seq<char>,
    request_seq: Option<u32>,
    success: Option<bool>,
    message: Option<Seq<char>>,
    expected_seq: u32,
) -> Option<Option<Seq<char>>> {
    if msg_type == "response"@ && request_seq == Some(expected_seq) {
        if success == Some(false) {
            Some(Some(match message {
                Some(m) => m,
                None => "Unknown error"@,
            }))
        } else {
            Some(None)
        }
    } else {
        None
    }
}

/// One step of reading a `tsserver` response: what a line read means.
pub fn response_step(
    msg_type: &str,
    request_seq: Option<u32>,
    success: Option<bool>,
    message: Option<String>,
    expected_seq: u32,
) -> (r: ResponseStep)
    ensures
        match response_outcome(msg_type@, request_seq, success, message.deep_view(), expected_seq) {
            None => r == ResponseStep::Skip,
            Some(None) => r == ResponseStep::Accept,
            Some(Some(m)) => r matches ResponseStep::Fail(x) && x@ == m,
        },
{
    let is_response = crate::text::str_eq(msg_type, "response");
    let matches_seq = match request_seq {
        Some(s) => s == expected_seq,
        None => false,
    };
    if is_response && matches_seq {
        if success == Some(false) {
            let m = match message {
                Some(m) => m,
                None => crate::text::str_to_string("Unknown error"),
            };
            ResponseStep::Fail(m)
        } else {
            ResponseStep::Accept
        }
    } else {
        ResponseStep::Skip
    }
}

/// The line appended to a file to ask whether `thrown` is assignable to
/// `declared`.
pub fn type_check_code(declared_type: &str, thrown_type: &str) -> (r: String)
    ensures
        r@ == "const _typeCheck: "@ + declared_type@ + " = null! as "@ + thrown_type@ + ";\n"@,
{
    let mut v = chars_of("const _typeCheck: ");
    push_all_str(&mut v, declared_type);
    push_all_str(&mut v, " = null! as ");
    push_all_str(&mut v, thrown_type);
    push_all_str(&mut v, ";\n");
    string_of(&v)
}

} // verus!
