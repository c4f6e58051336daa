//! Character-sequence utilities used by the comment parser, the fixer and
//! the reporter. Every function works on `Vec<char>` copies of strings and is
//! specified over `Seq<char>`.
use vstd::prelude::*;

verus! {

broadcast use {vstd::string::group_string_axioms, crate::char_vec::lemma_char_vec_deep_view};

pub assume_specification[ String::push ](s: &mut String, ch: char)
    ensures
        final(s)@ == old(s)@.push(ch),
;

/// Unicode `White_Space` property, as `char::is_whitespace` documents it.
pub open spec fn is_ws(c: char) -> bool {
    let u = c as u32;
    (0x9 <= u && u <= 0xd) || u == 0x20 || u == 0x85 || u == 0xa0 || u == 0x1680 || (0x2000 <= u
        && u <= 0x200a) || u == 0x2028 || u == 0x2029 || u == 0x202f || u == 0x205f || u == 0x3000
}

/// Whether `c` is whitespace (`char::is_whitespace`).
pub fn is_whitespace(c: char) -> (b: bool)
    ensures
        b == is_ws(c),
{
    let u = c as u32;
    (0x9 <= u && u <= 0xd) || u == 0x20 || u == 0x85 || u == 0xa0 || u == 0x1680 || (0x2000 <= u
        && u <= 0x200a) || u == 0x2028 || u == 0x2029 || u == 0x202f || u == 0x205f || u == 0x3000
}

/// Removes leading whitespace.
pub open spec fn trim_start(s: Seq<char>) -> Seq<char>
    decreases s.len(),
{
    if s.len() > 0 && is_ws(s[0]) {
        trim_start(s.drop_first())
    } else {
        s
    }
}

/// Removes trailing whitespace.
pub open spec fn trim_end(s: Seq<char>) -> Seq<char>
    decreases s.len(),
{
    if s.len() > 0 && is_ws(s.last()) {
        trim_end(s.drop_last())
    } else {
        s
    }
}

/// Removes whitespace on both ends, as `str::trim` does.
pub open spec fn trim(s: Seq<char>) -> Seq<char> {
    trim_end(trim_start(s))
}

/// Removes every leading occurrence of `c` (`str::trim_start_matches` with a char).
pub open spec fn strip_leading(s: Seq<char>, c: char) -> Seq<char>
    decreases s.len(),
{
    if s.len() > 0 && s[0] == c {
        strip_leading(s.drop_first(), c)
    } else {
        s
    }
}

/// Removes every trailing occurrence of `c` (`str::trim_end_matches` with a char).
pub open spec fn strip_trailing(s: Seq<char>, c: char) -> Seq<char>
    decreases s.len(),
{
    if s.len() > 0 && s.last() == c {
        strip_trailing(s.drop_last(), c)
    } else {
        s
    }
}

pub open spec fn starts_with(s: Seq<char>, p: Seq<char>) -> bool {
    p.len() <= s.len() && s.take(p.len() as int) == p
}

pub open spec fn ends_with(s: Seq<char>, p: Seq<char>) -> bool {
    p.len() <= s.len() && s.skip(s.len() - p.len()) == p
}

/// Removes every trailing occurrence of the pattern `p`
/// (`str::trim_end_matches` with a non-empty string pattern).
pub open spec fn strip_trailing_pat(s: Seq<char>, p: Seq<char>) -> Seq<char>
    decreases s.len(),
{
    if p.len() > 0 && ends_with(s, p) {
        strip_trailing_pat(s.take(s.len() - p.len()), p)
    } else {
        s
    }
}

/// `p` occurs in `s` starting at index `i`.
pub open spec fn occurs_at(s: Seq<char>, p: Seq<char>, i: int) -> bool {
    0 <= i && i + p.len() <= s.len() && s.subrange(i, i + p.len()) == p
}

/// First index `>= i` at which `p` occurs in `s`.
pub open spec fn find_from(s: Seq<char>, p: Seq<char>, i: int) -> Option<int>
    decreases s.len() + 1 - i,
{
    if i < 0 || i + p.len() > s.len() {
        None
    } else if occurs_at(s, p, i) {
        Some(i)
    } else {
        find_from(s, p, i + 1)
    }
}

/// First index at which `p` occurs in `s` (`str::find`).
pub open spec fn find(s: Seq<char>, p: Seq<char>) -> Option<int> {
    find_from(s, p, 0)
}

/// First index `>= i` holding the character `c`.
pub open spec fn find_char_from(s: Seq<char>, c: char, i: int) -> Option<int>
    decreases s.len() - i,
{
    if i < 0 || i >= s.len() {
        None
    } else if s[i] == c {
        Some(i)
    } else {
        find_char_from(s, c, i + 1)
    }
}

pub open spec fn find_char(s: Seq<char>, c: char) -> Option<int> {
    find_char_from(s, c, 0)
}

/// Last index `< i` holding the character `c`.
pub open spec fn rfind_char_before(s: Seq<char>, c: char, i: int) -> Option<int>
    decreases i,
{
    if i <= 0 || i > s.len() {
        None
    } else if s[i - 1] == c {
        Some(i - 1)
    } else {
        rfind_char_before(s, c, i - 1)
    }
}

/// Last index holding `c` (`str::rfind` with a char).
pub open spec fn rfind_char(s: Seq<char>, c: char) -> Option<int> {
    rfind_char_before(s, c, s.len() as int)
}

/// Last index `< i` at which `p` starts an occurrence.
pub open spec fn rfind_before(s: Seq<char>, p: Seq<char>, i: int) -> Option<int>
    decreases i,
{
    if i <= 0 || i > s.len() {
        None
    } else if occurs_at(s, p, i - 1) {
        Some(i - 1)
    } else {
        rfind_before(s, p, i - 1)
    }
}

/// Last index at which `p` occurs (`str::rfind` with a string pattern).
pub open spec fn rfind(s: Seq<char>, p: Seq<char>) -> Option<int> {
    rfind_before(s, p, s.len() as int)
}

/// First index `>= i` holding a whitespace character.
pub open spec fn find_ws_from(s: Seq<char>, i: int) -> Option<int>
    decreases s.len() - i,
{
    if i < 0 || i >= s.len() {
        None
    } else if is_ws(s[i]) {
        Some(i)
    } else {
        find_ws_from(s, i + 1)
    }
}

/// The pieces of `s` between occurrences of `c` (`str::split` with a char).
pub open spec fn split_char(s: Seq<char>, c: char) -> Seq<Seq<char>>
    decreases s.len(),
{
    match find_char(s, c) {
        None => seq![s],
        Some(i) => if 0 <= i < s.len() {
            seq![s.take(i)] + split_char(s.skip(i + 1), c)
        } else {
            seq![s]
        },
    }
}

/// Removes one trailing carriage return.
pub open spec fn strip_cr(l: Seq<char>) -> Seq<char> {
    if l.len() > 0 && l.last() == '\r' {
        l.drop_last()
    } else {
        l
    }
}

/// The lines of `s`, as `str::lines` yields them: split at `\n`, a `\r`
/// right before the `\n` removed, and no final empty line.
pub open spec fn lines(s: Seq<char>) -> Seq<Seq<char>>
    decreases s.len(),
{
    if s.len() == 0 {
        Seq::empty()
    } else {
        match find_char(s, '\n') {
            None => seq![s],
            Some(i) => if 0 <= i < s.len() {
                seq![strip_cr(s.take(i))] + lines(s.skip(i + 1))
            } else {
                seq![s]
            },
        }
    }
}

/// Number of occurrences of `c`.
pub open spec fn count_char(s: Seq<char>, c: char) -> nat
    decreases s.len(),
{
    if s.len() == 0 {
        0
    } else {
        count_char(s.drop_last(), c) + if s.last() == c {
            1nat
        } else {
            0nat
        }
    }
}

/// Concatenation of `parts` with `sep` between consecutive parts (`join`).
pub open spec fn join(parts: Seq<Seq<char>>, sep: Seq<char>) -> Seq<char>
    decreases parts.len(),
{
    if parts.len() == 0 {
        Seq::empty()
    } else if parts.len() == 1 {
        parts[0]
    } else {
        join(parts.drop_last(), sep) + sep + parts.last()
    }
}

// ---------------------------------------------------------------------------
// Conversions
// ---------------------------------------------------------------------------
/// The characters of `s`.
pub fn chars_of(s: &str) -> (r: Vec<char>)
    ensures
        r@ == s@,
{
    let mut r: Vec<char> = Vec::new();
    for c in it: s.chars()
        invariant
            r@ == it.seq().take(it.index() as int),
            it.seq() == s@,
    {
        r.push(c);
    }
    r
}

/// The characters of `s`.
pub fn string_chars(s: &String) -> (r: Vec<char>)
    ensures
        r@ == s@,
{
    chars_of(s.as_str())
}

/// The string of the characters `v`.
pub fn string_of(v: &Vec<char>) -> (r: String)
    ensures
        r@ == v@,
{
    let mut r = String::new();
    let mut i: usize = 0;
    while i < v.len()
        invariant
            i <= v.len(),
            r@ == v@.take(i as int),
        decreases v.len() - i,
    {
        r.push(v[i]);
        assert(v@.take(i + 1) == v@.take(i as int).push(v@[i as int]));
        i += 1;
    }
    assert(v@.take(v.len() as int) == v@);
    r
}

/// `s` as an owned string.
pub fn str_to_string(s: &str) -> (r: String)
    ensures
        r@ == s@,
{
    let v = chars_of(s);
    string_of(&v)
}

/// Copy of `s[lo..hi]`.
pub fn slice_of(s: &Vec<char>, lo: usize, hi: usize) -> (r: Vec<char>)
    requires
        lo <= hi <= s.len(),
    ensures
        r@ == s@.subrange(lo as int, hi as int),
{
    let mut r: Vec<char> = Vec::new();
    let mut i = lo;
    while i < hi
        invariant
            lo <= i <= hi <= s.len(),
            r@ == s@.subrange(lo as int, i as int),
        decreases hi - i,
    {
        r.push(s[i]);
        i += 1;
    }
    r
}

/// Appends the characters of `b` to `a`.
pub fn push_all(a: &mut Vec<char>, b: &Vec<char>)
    ensures
        final(a)@ == old(a)@ + b@,
{
    let mut i: usize = 0;
    let ghost a0 = a@;
    while i < b.len()
        invariant
            i <= b.len(),
            a@ == a0 + b@.take(i as int),
        decreases b.len() - i,
    {
        a.push(b[i]);
        assert(b@.take(i + 1) == b@.take(i as int).push(b@[i as int]));
        i += 1;
    }
    assert(b@.take(b.len() as int) == b@);
}

/// Appends the characters of `b` to `a`.
pub fn push_all_str(a: &mut Vec<char>, b: &str)
    ensures
        final(a)@ == old(a)@ + b@,
{
    let v = chars_of(b);
    push_all(a, &v);
}

/// Whether the two hold the same characters.
pub fn seq_eq(a: &Vec<char>, b: &Vec<char>) -> (r: bool)
    ensures
        r == (a@ == b@),
{
    if a.len() != b.len() {
        return false;
    }
    let mut i: usize = 0;
    while i < a.len()
        invariant
            a.len() == b.len(),
            i <= a.len(),
            forall|j: int| 0 <= j < i ==> a@[j] == b@[j],
        decreases a.len() - i,
    {
        if a[i] != b[i] {
            return false;
        }
        i += 1;
    }
    assert(a@ =~= b@);
    true
}

/// Whether the two hold the same characters.
pub fn str_eq(a: &str, b: &str) -> (r: bool)
    ensures
        r == (a@ == b@),
{
    let x = chars_of(a);
    let y = chars_of(b);
    seq_eq(&x, &y)
}

/// Whether the two hold the same characters.
pub fn string_eq(a: &String, b: &String) -> (r: bool)
    ensures
        r == (a@ == b@),
{
    a.eq(b)
}


// ---------------------------------------------------------------------------
// Trimming
// ---------------------------------------------------------------------------
proof fn lemma_trim_start_skip(s: Seq<char>, i: int)
    requires
        0 <= i <= s.len(),
        forall|j: int| 0 <= j < i ==> is_ws(s[j]),
    ensures
        trim_start(s) == trim_start(s.skip(i)),
    decreases i,
{
    if i > 0 {
        assert(s.skip(1) == s.drop_first());
        lemma_trim_start_skip(s.drop_first(), i - 1);
        assert(s.drop_first().skip(i - 1) == s.skip(i));
    } else {
        assert(s.skip(0) == s);
    }
}

proof fn lemma_trim_end_take(s: Seq<char>, i: int)
    requires
        0 <= i <= s.len(),
        forall|j: int| i <= j < s.len() ==> is_ws(s[j]),
    ensures
        trim_end(s) == trim_end(s.take(i)),
    decreases s.len() - i,
{
    if i < s.len() {
        assert(s.take(s.len() - 1) == s.drop_last());
        lemma_trim_end_take(s.drop_last(), i);
        assert(s.drop_last().take(i) == s.take(i));
    } else {
        assert(s.take(i) == s);
    }
}

/// Bounds `(lo, hi)` with `s[lo..hi] == trim(s)`.
pub fn trim_bounds(s: &Vec<char>) -> (r: (usize, usize))
    ensures
        r.0 <= r.1 <= s.len(),
        s@.subrange(r.0 as int, r.1 as int) == trim(s@),
        trim_start(s@) == s@.skip(r.0 as int),
{
    let mut lo: usize = 0;
    while lo < s.len() && is_whitespace(s[lo])
        invariant
            lo <= s.len(),
            forall|j: int| 0 <= j < lo ==> is_ws(s@[j]),
        decreases s.len() - lo,
    {
        lo += 1;
    }
    proof {
        lemma_trim_start_skip(s@, lo as int);
        if lo < s.len() {
            assert(s@.skip(lo as int)[0] == s@[lo as int]);
        }
    }
    let ghost t = s@.skip(lo as int);
    assert(trim_start(s@) == t);
    let mut hi: usize = s.len();
    while hi > lo && is_whitespace(s[hi - 1])
        invariant
            lo <= hi <= s.len(),
            forall|j: int| hi - lo <= j < t.len() ==> is_ws(t[j]),
            t == s@.skip(lo as int),
        decreases hi,
    {
        hi -= 1;
    }
    proof {
        lemma_trim_end_take(t, hi - lo);
        if hi > lo {
            assert(t.take(hi - lo).last() == s@[hi - 1]);
        }
        assert(t.take(hi - lo) == s@.subrange(lo as int, hi as int));
    }
    (lo, hi)
}

/// `s` without whitespace at either end.
pub fn trimmed(s: &Vec<char>) -> (r: Vec<char>)
    ensures
        r@ == trim(s@),
{
    let (lo, hi) = trim_bounds(s);
    slice_of(s, lo, hi)
}

/// `s` without leading whitespace.
pub fn trimmed_start(s: &Vec<char>) -> (r: Vec<char>)
    ensures
        r@ == trim_start(s@),
{
    let (lo, _hi) = trim_bounds(s);
    slice_of(s, lo, s.len())
}

/// `s` without trailing whitespace.
pub fn trimmed_end(s: &Vec<char>) -> (r: Vec<char>)
    ensures
        r@ == trim_end(s@),
{
    let mut hi: usize = s.len();
    while hi > 0 && is_whitespace(s[hi - 1])
        invariant
            hi <= s.len(),
            forall|j: int| hi <= j < s.len() ==> is_ws(s@[j]),
        decreases hi,
    {
        hi -= 1;
    }
    proof {
        lemma_trim_end_take(s@, hi as int);
        if hi > 0 {
            assert(s@.take(hi as int).last() == s@[hi - 1]);
        }
    }
    slice_of(s, 0, hi)
}

/// `s` without the copies of `c` it starts with.
pub fn strip_leading_char(s: &Vec<char>, c: char) -> (r: Vec<char>)
    ensures
        r@ == strip_leading(s@, c),
{
    let mut lo: usize = 0;
    assert(s@.skip(0) == s@);
    while lo < s.len() && s[lo] == c
        invariant
            lo <= s.len(),
            strip_leading(s@, c) == strip_leading(s@.skip(lo as int), c),
        decreases s.len() - lo,
    {
        proof {
            let t = s@.skip(lo as int);
            assert(t.drop_first() == s@.skip(lo + 1));
        }
        lo += 1;
    }
    proof {
        if lo < s.len() {
            assert(s@.skip(lo as int)[0] == s@[lo as int]);
        }
    }
    slice_of(s, lo, s.len())
}

/// `s` without the copies of `c` it ends with.
pub fn strip_trailing_char(s: &Vec<char>, c: char) -> (r: Vec<char>)
    ensures
        r@ == strip_trailing(s@, c),
{
    let mut hi: usize = s.len();
    assert(s@.take(s.len() as int) == s@);
    while hi > 0 && s[hi - 1] == c
        invariant
            hi <= s.len(),
            strip_trailing(s@, c) == strip_trailing(s@.take(hi as int), c),
        decreases hi,
    {
        proof {
            let t = s@.take(hi as int);
            assert(t.drop_last() == s@.take(hi - 1));
        }
        hi -= 1;
    }
    proof {
        if hi > 0 {
            assert(s@.take(hi as int).last() == s@[hi - 1]);
        }
        assert(s@.take(hi as int) == s@.subrange(0, hi as int));
    }
    slice_of(s, 0, hi)
}

/// Whether `s` starts with `p`.
pub fn has_prefix(s: &Vec<char>, p: &Vec<char>) -> (r: bool)
    ensures
        r == starts_with(s@, p@),
{
    if p.len() > s.len() {
        return false;
    }
    let mut i: usize = 0;
    while i < p.len()
        invariant
            p.len() <= s.len(),
            i <= p.len(),
            forall|j: int| 0 <= j < i ==> s@[j] == p@[j],
        decreases p.len() - i,
    {
        if s[i] != p[i] {
            assert(s@.take(p.len() as int)[i as int] != p@[i as int]);
            return false;
        }
        i += 1;
    }
    assert(s@.take(p.len() as int) =~= p@);
    true
}

/// Whether `s` ends with `p`.
pub fn has_suffix(s: &Vec<char>, p: &Vec<char>) -> (r: bool)
    ensures
        r == ends_with(s@, p@),
{
    if p.len() > s.len() {
        return false;
    }
    let off = s.len() - p.len();
    let mut i: usize = 0;
    while i < p.len()
        invariant
            p.len() <= s.len(),
            off == s.len() - p.len(),
            i <= p.len(),
            forall|j: int| 0 <= j < i ==> s@[off + j] == p@[j],
        decreases p.len() - i,
    {
        if s[off + i] != p[i] {
            assert(s@.skip(off as int)[i as int] != p@[i as int]);
            return false;
        }
        i += 1;
    }
    assert(s@.skip(off as int) =~= p@);
    true
}

/// Does `p` occur at index `i` of `s`?
pub fn occurs_at_exec(s: &Vec<char>, p: &Vec<char>, i: usize) -> (r: bool)
    ensures
        r == occurs_at(s@, p@, i as int),
{
    if i > s.len() || p.len() > s.len() - i {
        return false;
    }
    let mut k: usize = 0;
    while k < p.len()
        invariant
            i + p.len() <= s.len(),
            k <= p.len(),
            forall|j: int| 0 <= j < k ==> s@[i + j] == p@[j],
        decreases p.len() - k,
    {
        if s[i + k] != p[k] {
            assert(s@.subrange(i as int, i + p.len())[k as int] != p@[k as int]);
            return false;
        }
        k += 1;
    }
    assert(s@.subrange(i as int, i + p.len()) =~= p@);
    true
}

/// First occurrence of `p` at or after `from`.
pub fn find_exec_from(s: &Vec<char>, p: &Vec<char>, from: usize) -> (r: Option<usize>)
    ensures
        match r {
            Some(i) => find_from(s@, p@, from as int) == Some(i as int),
            None => find_from(s@, p@, from as int) is None,
        },
        r matches Some(i) ==> from <= i && i + p.len() <= s.len(),
{
    let mut i = from;
    loop
        invariant
            from <= i,
            find_from(s@, p@, from as int) == find_from(s@, p@, i as int),
        decreases s.len() + 1 - i,
    {
        if i > s.len() || p.len() > s.len() - i {
            return None;
        }
        if occurs_at_exec(s, p, i) {
            return Some(i);
        }
        if i >= s.len() {
            proof {
                assert(s@.subrange(i as int, i as int) =~= p@);
            }
            return None;
        }
        i += 1;
    }
}

/// The first index at which `p` occurs in `s`.
pub fn find_exec(s: &Vec<char>, p: &Vec<char>) -> (r: Option<usize>)
    ensures
        match r {
            Some(i) => find(s@, p@) == Some(i as int),
            None => find(s@, p@) is None,
        },
        r matches Some(i) ==> i + p.len() <= s.len(),
{
    find_exec_from(s, p, 0)
}

/// The first index from `from` on that holds `c`.
pub fn find_char_exec_from(s: &Vec<char>, c: char, from: usize) -> (r: Option<usize>)
    ensures
        match r {
            Some(i) => find_char_from(s@, c, from as int) == Some(i as int),
            None => find_char_from(s@, c, from as int) is None,
        },
        r matches Some(i) ==> from <= i < s.len() && s@[i as int] == c,
{
    let mut i = from;
    while i < s.len()
        invariant
            from <= i,
            find_char_from(s@, c, from as int) == find_char_from(s@, c, i as int),
        decreases s.len() - i,
    {
        if s[i] == c {
            return Some(i);
        }
        i += 1;
    }
    None
}

/// The last index that holds `c`.
pub fn rfind_char_exec(s: &Vec<char>, c: char) -> (r: Option<usize>)
    ensures
        match r {
            Some(i) => rfind_char(s@, c) == Some(i as int),
            None => rfind_char(s@, c) is None,
        },
        r matches Some(i) ==> i < s.len() && s@[i as int] == c,
{
    let mut i = s.len();
    while i > 0
        invariant
            i <= s.len(),
            rfind_char(s@, c) == rfind_char_before(s@, c, i as int),
        decreases i,
    {
        if s[i - 1] == c {
            return Some(i - 1);
        }
        i -= 1;
    }
    None
}

/// The last index at which `p` occurs in `s`.
pub fn rfind_exec(s: &Vec<char>, p: &Vec<char>) -> (r: Option<usize>)
    ensures
        match r {
            Some(i) => rfind(s@, p@) == Some(i as int),
            None => rfind(s@, p@) is None,
        },
{
    let mut i = s.len();
    while i > 0
        invariant
            i <= s.len(),
            rfind(s@, p@) == rfind_before(s@, p@, i as int),
        decreases i,
    {
        if occurs_at_exec(s, p, i - 1) {
            return Some(i - 1);
        }
        i -= 1;
    }
    None
}

/// The first index from `from` on that holds whitespace.
pub fn find_ws_exec_from(s: &Vec<char>, from: usize) -> (r: Option<usize>)
    ensures
        match r {
            Some(i) => find_ws_from(s@, from as int) == Some(i as int),
            None => find_ws_from(s@, from as int) is None,
        },
        r matches Some(i) ==> from <= i < s.len(),
{
    let mut i = from;
    while i < s.len()
        invariant
            from <= i,
            find_ws_from(s@, from as int) == find_ws_from(s@, i as int),
        decreases s.len() - i,
    {
        if is_whitespace(s[i]) {
            return Some(i);
        }
        i += 1;
    }
    None
}

/// `s` without the copies of `p` it ends with.
pub fn strip_trailing_pat_exec(s: &Vec<char>, p: &Vec<char>) -> (r: Vec<char>)
    requires
        p.len() > 0,
    ensures
        r@ == strip_trailing_pat(s@, p@),
{
    let mut cur = slice_of(s, 0, s.len());
    assert(cur@ == s@);
    while has_suffix(&cur, p)
        invariant
            p.len() > 0,
            strip_trailing_pat(s@, p@) == strip_trailing_pat(cur@, p@),
        decreases cur.len(),
    {
        let n = cur.len() - p.len();
        cur = slice_of(&cur, 0, n);
    }
    cur
}

// ---------------------------------------------------------------------------
// Splitting
// ---------------------------------------------------------------------------
proof fn lemma_find_char_from_skip(s: Seq<char>, c: char, k: int, i: int)
    requires
        0 <= k <= i,
        k <= s.len(),
    ensures
        find_char_from(s, c, i) == match find_char_from(s.skip(k), c, i - k) {
            Some(j) => Some(j + k),
            None => None,
        },
    decreases s.len() - i,
{
    if i < s.len() {
        if s[i] != c {
            lemma_find_char_from_skip(s, c, k, i + 1);
        }
    }
}

/// The parts of `s` between occurrences of `c`.
pub fn split_char_exec(s: &Vec<char>, c: char) -> (r: Vec<Vec<char>>)
    ensures
        r.deep_view() == split_char(s@, c),
{
    let mut out: Vec<Vec<char>> = Vec::new();
    let mut start: usize = 0;
    assert(s@.skip(0) == s@);
    assert(out.deep_view() =~= Seq::<Seq<char>>::empty());
    loop
        invariant
            start <= s.len(),
            out.deep_view() + split_char(s@.skip(start as int), c) == split_char(s@, c),
        decreases s.len() - start,
    {
        let ghost t = s@.skip(start as int);
        proof {
            lemma_find_char_from_skip(s@, c, start as int, start as int);
        }
        match find_char_exec_from(s, c, start) {
            None => {
                let piece = slice_of(s, start, s.len());
                proof {
                    assert(find_char(t, c) is None);
                    assert(piece@ == t);
                }
                let ghost before = out.deep_view();
                out.push(piece);
                assert(out.deep_view() =~= before + seq![t]);
                return out;
            },
            Some(i) => {
                let piece = slice_of(s, start, i);
                proof {
                    assert(find_char(t, c) == Some(i - start));
                    assert(piece@ == t.take(i - start));
                    assert(t.skip(i - start + 1) == s@.skip(i + 1));
                }
                let ghost before = out.deep_view();
                out.push(piece);
                assert(out.deep_view() =~= before + seq![t.take(i - start)]);
                start = i + 1;
            },
        }
    }
}

/// A line without its trailing carriage return.
pub fn strip_cr_exec(l: Vec<char>) -> (r: Vec<char>)
    ensures
        r@ == strip_cr(l@),
{
    if l.len() > 0 && l[l.len() - 1] == '\r' {
        let n = l.len() - 1;
        slice_of(&l, 0, n)
    } else {
        l
    }
}

/// The lines of `s`, as `str::lines` gives them.
pub fn lines_exec(s: &Vec<char>) -> (r: Vec<Vec<char>>)
    ensures
        r.deep_view() == lines(s@),
{
    let mut out: Vec<Vec<char>> = Vec::new();
    let mut start: usize = 0;
    assert(s@.skip(0) == s@);
    assert(out.deep_view() =~= Seq::<Seq<char>>::empty());
    loop
        invariant
            start <= s.len(),
            out.deep_view() + lines(s@.skip(start as int)) == lines(s@),
        decreases s.len() - start,
    {
        let ghost t = s@.skip(start as int);
        if start == s.len() {
            assert(t.len() == 0);
            assert(out.deep_view() + lines(t) == out.deep_view());
            return out;
        }
        proof {
            lemma_find_char_from_skip(s@, '\n', start as int, start as int);
        }
        match find_char_exec_from(s, '\n', start) {
            None => {
                let piece = slice_of(s, start, s.len());
                let ghost before = out.deep_view();
                out.push(piece);
                assert(out.deep_view() =~= before + seq![t]);
                return out;
            },
            Some(i) => {
                let piece = slice_of(s, start, i);
                let piece = strip_cr_exec(piece);
                proof {
                    assert(t.take(i - start) == s@.subrange(start as int, i as int));
                    assert(t.skip(i - start + 1) == s@.skip(i + 1));
                }
                let ghost before = out.deep_view();
                out.push(piece);
                assert(out.deep_view() =~= before + seq![strip_cr(t.take(i - start))]);
                start = i + 1;
            },
        }
    }
}

/// The parts joined with `sep` between them.
pub fn join_exec(parts: &Vec<Vec<char>>, sep: &Vec<char>) -> (r: Vec<char>)
    ensures
        r@ == join(parts.deep_view(), sep@),
{
    let mut out: Vec<char> = Vec::new();
    let mut i: usize = 0;
    while i < parts.len()
        invariant
            i <= parts.len(),
            out@ == join(parts.deep_view().take(i as int), sep@),
        decreases parts.len() - i,
    {
        let ghost pv = parts.deep_view();
        assert(pv.take(i + 1).drop_last() == pv.take(i as int));
        if i > 0 {
            push_all(&mut out, sep);
        }
        push_all(&mut out, &parts[i]);
        assert(pv.take(i + 1).last() == parts[i as int]@);
        i += 1;
    }
    assert(parts.deep_view().take(parts.len() as int) == parts.deep_view());
    out
}

} // verus!
