//! Character-level text utilities: conversions between `String` and
//! `Vec<char>`, trimming, searching, splitting, and decimal parsing and
//! formatting, each with an exact specification over `Seq<char>`.

use vstd::prelude::*;

verus! {

use vstd::string::StrSliceExecFns;

/// Appends one character to a `String`.  Relies on `String::push` from std:
/// it appends the given character to the end of the string.
pub assume_specification[ String::push ](s: &mut String, c: char)
    ensures
        final(s)@ == old(s)@.push(c),
;

// ---------------------------------------------------------------------------
// character classes
// ---------------------------------------------------------------------------

/// ASCII whitespace, the separators this library recognises.
pub open spec fn is_space(c: char) -> bool {
    c == ' ' || c == '\t' || c == '\n' || c == '\r' || c == '\u{b}' || c == '\u{c}'
}

pub open spec fn is_digit(c: char) -> bool {
    48 <= c as int <= 57
}

pub open spec fn digit_val(c: char) -> int {
    c as int - 48
}

pub open spec fn digit_char(d: int) -> char {
    ((48 + d) as u8) as char
}

pub fn is_space_c(c: char) -> (r: bool)
    ensures
        r == is_space(c),
{
    c == ' ' || c == '\t' || c == '\n' || c == '\r' || c == '\u{b}' || c == '\u{c}'
}

pub fn is_digit_c(c: char) -> (r: bool)
    ensures
        r == is_digit(c),
{
    let u = c as u32;
    48 <= u && u <= 57
}

// ---------------------------------------------------------------------------
// String <-> Vec<char>
// ---------------------------------------------------------------------------

/// Collects the characters of a string slice.
pub fn str_to_chars(s: &str) -> (r: Vec<char>)
    ensures
        r@ == s@,
{
    let n = s.unicode_len();
    let mut v: Vec<char> = Vec::new();
    let mut i: usize = 0;
    while i < n
        invariant
            n == s@.len(),
            i <= n,
            v@ == s@.take(i as int),
        decreases n - i,
    {
        v.push(s.get_char(i));
        i = i + 1;
        proof {
            assert(v@ =~= s@.take(i as int));
        }
    }
    proof {
        assert(s@.take(n as int) =~= s@);
    }
    v
}

/// Builds a `String` from a sequence of characters.
pub fn chars_to_string(v: &Vec<char>) -> (r: String)
    ensures
        r@ == v@,
{
    let mut s = String::new();
    let n = v.len();
    let mut i: usize = 0;
    while i < n
        invariant
            n == v@.len(),
            i <= n,
            s@ == v@.subrange(0, i as int),
        decreases n - i,
    {
        s.push(v[i]);
        i = i + 1;
        proof {
            assert(s@ =~= v@.subrange(0, i as int));
        }
    }
    proof {
        assert(v@.subrange(0, n as int) =~= v@);
    }
    s
}

// ---------------------------------------------------------------------------
// comparison, prefixes, subranges
// ---------------------------------------------------------------------------

pub fn chars_eq(a: &Vec<char>, b: &Vec<char>) -> (r: bool)
    ensures
        r == (a@ == b@),
{
    if a.len() != b.len() {
        proof {
            assert(a@ != b@);
        }
        return false;
    }
    let n = a.len();
    let mut i: usize = 0;
    while i < n
        invariant
            n == a@.len() && n == b@.len(),
            i <= n,
            forall|k: int| 0 <= k < i ==> a@[k] == b@[k],
        decreases n - i,
    {
        if a[i] != b[i] {
            proof {
                assert(a@ != b@);
            }
            return false;
        }
        i = i + 1;
    }
    proof {
        assert(a@ =~= b@);
    }
    true
}

pub open spec fn has_prefix(s: Seq<char>, p: Seq<char>) -> bool {
    p.len() <= s.len() && s.take(p.len() as int) == p
}

pub fn starts_with(v: &Vec<char>, p: &Vec<char>) -> (r: bool)
    ensures
        r == has_prefix(v@, p@),
{
    if p.len() > v.len() {
        proof {
            assert(!has_prefix(v@, p@));
        }
        return false;
    }
    let n = p.len();
    let mut i: usize = 0;
    while i < n
        invariant
            n == p@.len(),
            n <= v@.len(),
            i <= n,
            forall|k: int| 0 <= k < i ==> v@[k] == p@[k],
        decreases n - i,
    {
        if v[i] != p[i] {
            proof {
                assert(v@.take(p@.len() as int)[i as int] != p@[i as int]);
            }
            return false;
        }
        i = i + 1;
    }
    proof {
        assert(v@.take(p@.len() as int) =~= p@);
    }
    true
}

/// Copies the characters of `v` with indices in `i..j`.
pub fn subvec(v: &Vec<char>, i: usize, j: usize) -> (r: Vec<char>)
    requires
        i <= j <= v@.len(),
    ensures
        r@ == v@.subrange(i as int, j as int),
{
    let mut out: Vec<char> = Vec::new();
    let mut k: usize = i;
    while k < j
        invariant
            i <= k <= j <= v@.len(),
            out@ == v@.subrange(i as int, k as int),
        decreases j - k,
    {
        out.push(v[k]);
        k = k + 1;
        proof {
            assert(out@ =~= v@.subrange(i as int, k as int));
        }
    }
    out
}

// ---------------------------------------------------------------------------
// trimming
// ---------------------------------------------------------------------------

pub open spec fn spec_trim_start(s: Seq<char>) -> Seq<char>
    decreases s.len(),
{
    if s.len() > 0 && is_space(s[0]) {
        spec_trim_start(s.drop_first())
    } else {
        s
    }
}

pub open spec fn spec_trim_end(s: Seq<char>) -> Seq<char>
    decreases s.len(),
{
    if s.len() > 0 && is_space(s.last()) {
        spec_trim_end(s.drop_last())
    } else {
        s
    }
}

pub open spec fn spec_trim(s: Seq<char>) -> Seq<char> {
    spec_trim_end(spec_trim_start(s))
}

/// Removes leading and trailing ASCII whitespace.
pub fn trim(v: &Vec<char>) -> (r: Vec<char>)
    ensures
        r@ == spec_trim(v@),
{
    let n = v.len();
    let mut i: usize = 0;
    proof {
        assert(v@.skip(0) =~= v@);
    }
    while i < n && is_space_c(v[i])
        invariant
            i <= n,
            n == v@.len(),
            spec_trim_start(v@) == spec_trim_start(v@.skip(i as int)),
        decreases n - i,
    {
        proof {
            assert(v@.skip(i as int).drop_first() =~= v@.skip(i as int + 1));
        }
        i = i + 1;
    }
    proof {
        if i < n {
            assert(spec_trim_start(v@.skip(i as int)) == v@.skip(i as int));
        } else {
            assert(v@.skip(i as int) =~= Seq::<char>::empty());
            assert(spec_trim_start(v@.skip(i as int)) == v@.skip(i as int));
        }
        assert(v@.skip(i as int) =~= v@.subrange(i as int, n as int));
    }
    let mut j: usize = n;
    while j > i && is_space_c(v[j - 1])
        invariant
            i <= j <= n,
            n == v@.len(),
            spec_trim_start(v@) == v@.skip(i as int),
            spec_trim_end(v@.skip(i as int)) == spec_trim_end(v@.subrange(i as int, j as int)),
        decreases j,
    {
        proof {
            assert(v@.subrange(i as int, j as int).last() == v@[j - 1]);
            assert(v@.subrange(i as int, j as int).drop_last() =~= v@.subrange(
                i as int,
                j as int - 1,
            ));
        }
        j = j - 1;
    }
    proof {
        let sub = v@.subrange(i as int, j as int);
        if j > i {
            assert(sub.last() == v@[j - 1]);
            assert(spec_trim_end(sub) == sub);
        } else {
            assert(sub =~= Seq::<char>::empty());
            assert(spec_trim_end(sub) == sub);
        }
        assert(v@.skip(i as int) =~= v@.subrange(i as int, n as int));
    }
    subvec(v, i, j)
}

// ---------------------------------------------------------------------------
// searching
// ---------------------------------------------------------------------------

/// Index of the first occurrence of `c` in `s` at or after `from`.
pub open spec fn spec_find_char(s: Seq<char>, c: char, from: int) -> Option<int>
    decreases s.len() - from,
{
    if from < 0 || from >= s.len() {
        None
    } else if s[from] == c {
        Some(from)
    } else {
        spec_find_char(s, c, from + 1)
    }
}

pub fn find_char(v: &Vec<char>, c: char, from: usize) -> (r: Option<usize>)
    ensures
        r matches Some(i) ==> spec_find_char(v@, c, from as int) == Some(i as int),
        r is None ==> spec_find_char(v@, c, from as int) is None,
{
    let n = v.len();
    let mut i: usize = from;
    while i < n
        invariant
            from <= i,
            n == v@.len(),
            spec_find_char(v@, c, from as int) == spec_find_char(v@, c, i as int),
        decreases n - i,
    {
        if v[i] == c {
            return Some(i);
        }
        i = i + 1;
    }
    None
}

/// Index of the start of the first occurrence of `p` in `s` at or after `from`.
pub open spec fn spec_find_sub(s: Seq<char>, p: Seq<char>, from: int) -> Option<int>
    decreases s.len() - from,
    via spec_find_sub_dec
{
    if from < 0 || from + p.len() > s.len() {
        None
    } else if s.subrange(from, from + p.len() as int) == p {
        Some(from)
    } else {
        spec_find_sub(s, p, from + 1)
    }
}

#[via_fn]
proof fn spec_find_sub_dec(s: Seq<char>, p: Seq<char>, from: int) {
    if 0 <= from && from + p.len() <= s.len() && p.len() == 0 {
        assert(s.subrange(from, from + p.len() as int) =~= p);
    }
}

/// True when `p` occurs somewhere in `s`.
pub open spec fn spec_contains(s: Seq<char>, p: Seq<char>) -> bool {
    spec_find_sub(s, p, 0) is Some
}

/// Whether `p` occurs in `v` starting exactly at `at`.
pub fn match_at(v: &Vec<char>, p: &Vec<char>, at: usize) -> (r: bool)
    requires
        at + p@.len() <= v@.len(),
    ensures
        r == (v@.subrange(at as int, at as int + p@.len() as int) == p@),
{
    let n = v.len();
    let m = p.len();
    let mut k: usize = 0;
    while k < m
        invariant
            m == p@.len(),
            n == v@.len(),
            at + m <= n,
            k <= m,
            forall|t: int| 0 <= t < k ==> v@[at + t] == p@[t],
        decreases m - k,
    {
        if v[at + k] != p[k] {
            proof {
                let sub = v@.subrange(at as int, at as int + p@.len() as int);
                assert(sub[k as int] != p@[k as int]);
            }
            return false;
        }
        k = k + 1;
    }
    proof {
        assert(v@.subrange(at as int, at as int + p@.len() as int) =~= p@);
    }
    true
}

pub fn find_sub(v: &Vec<char>, p: &Vec<char>, from: usize) -> (r: Option<usize>)
    ensures
        r matches Some(i) ==> spec_find_sub(v@, p@, from as int) == Some(i as int),
        r is None ==> spec_find_sub(v@, p@, from as int) is None,
{
    let n = v.len();
    let m = p.len();
    if m > n || from > n - m {
        return None;
    }
    let mut i: usize = from;
    loop
        invariant
            from <= i,
            i + m <= n,
            m <= n,
            n == v@.len(),
            m == p@.len(),
            spec_find_sub(v@, p@, from as int) == spec_find_sub(v@, p@, i as int),
        decreases n - i,
    {
        if match_at(v, p, i) {
            return Some(i);
        }
        if i == n - m {
            proof {
                assert(spec_find_sub(v@, p@, i as int + 1) is None);
                assert(spec_find_sub(v@, p@, i as int) is None);
            }
            return None;
        }
        i = i + 1;
    }
}

pub fn contains_sub(v: &Vec<char>, p: &Vec<char>) -> (r: bool)
    ensures
        r == spec_contains(v@, p@),
{
    find_sub(v, p, 0).is_some()
}

/// A found occurrence begins at or after `from` and fits in the text.
pub proof fn lemma_find_sub_bounds(s: Seq<char>, p: Seq<char>, from: int)
    ensures
        spec_find_sub(s, p, from) matches Some(i) ==> from <= i && i + p.len() <= s.len(),
    decreases s.len() - from,
{
    if !(from < 0 || from + p.len() > s.len()) {
        if p.len() == 0 {
            assert(s.subrange(from, from + p.len() as int) =~= p);
        } else if s.subrange(from, from + p.len() as int) != p {
            lemma_find_sub_bounds(s, p, from + 1);
        }
    }
}

/// Index of the start of the last occurrence of `p` in `s` that begins at or
/// before `upto`.
pub open spec fn spec_rfind_sub_before(s: Seq<char>, p: Seq<char>, upto: int) -> Option<int>
    decreases upto + 1,
{
    if upto < 0 {
        None
    } else if upto + p.len() <= s.len() && s.subrange(upto, upto + p.len() as int) == p {
        Some(upto)
    } else {
        spec_rfind_sub_before(s, p, upto - 1)
    }
}

/// Index of the start of the last occurrence of `p` in `s`.
pub open spec fn spec_rfind_sub(s: Seq<char>, p: Seq<char>) -> Option<int> {
    spec_rfind_sub_before(s, p, s.len() - p.len())
}

/// A found occurrence lies inside the text.
pub proof fn lemma_rfind_bounds(s: Seq<char>, p: Seq<char>)
    ensures
        spec_rfind_sub(s, p) matches Some(i) ==> 0 <= i && i + p.len() <= s.len(),
{
    lemma_rfind_before_bounds(s, p, s.len() - p.len());
}

proof fn lemma_rfind_before_bounds(s: Seq<char>, p: Seq<char>, upto: int)
    ensures
        spec_rfind_sub_before(s, p, upto) matches Some(i) ==> 0 <= i && i + p.len() <= s.len(),
    decreases upto + 1,
{
    if upto >= 0 {
        if !(upto + p.len() <= s.len() && s.subrange(upto, upto + p.len() as int) == p) {
            lemma_rfind_before_bounds(s, p, upto - 1);
        }
    }
}

pub fn rfind_sub(v: &Vec<char>, p: &Vec<char>) -> (r: Option<usize>)
    ensures
        r matches Some(i) ==> spec_rfind_sub(v@, p@) == Some(i as int),
        r is None ==> spec_rfind_sub(v@, p@) is None,
{
    let n = v.len();
    let m = p.len();
    if m > n {
        proof {
            lemma_rfind_none_when_high(v@, p@, n as int - m as int);
        }
        return None;
    }
    let mut i: usize = n - m;
    loop
        invariant
            i <= n - m,
            n == v@.len(),
            m == p@.len(),
            m <= n,
            spec_rfind_sub(v@, p@) == spec_rfind_sub_before(v@, p@, i as int),
        decreases i + 1,
    {
        if match_at(v, p, i) {
            return Some(i);
        }
        if i == 0 {
            proof {
                assert(spec_rfind_sub_before(v@, p@, -1) is None);
                assert(spec_rfind_sub_before(v@, p@, 0) is None);
            }
            return None;
        }
        i = i - 1;
    }
}

proof fn lemma_rfind_none_when_high(s: Seq<char>, p: Seq<char>, upto: int)
    requires
        upto < 0,
    ensures
        spec_rfind_sub_before(s, p, upto) is None,
{
}

// ---------------------------------------------------------------------------
// splitting
// ---------------------------------------------------------------------------

/// The pieces of `s` from `from` on, split at every occurrence of `c`.
pub open spec fn spec_split_from(s: Seq<char>, c: char, from: int) -> Seq<Seq<char>>
    decreases s.len() - from,
    via spec_split_from_dec
{
    match spec_find_char(s, c, from) {
        Some(i) => seq![s.subrange(from, i)] + spec_split_from(s, c, i + 1),
        None => seq![s.subrange(from, s.len() as int)],
    }
}

#[via_fn]
proof fn spec_split_from_dec(s: Seq<char>, c: char, from: int) {
    lemma_find_char_ge(s, c, from);
}

/// The pieces of `s` split at every occurrence of `c`, as `str::split` yields
/// them.
pub open spec fn spec_split(s: Seq<char>, c: char) -> Seq<Seq<char>> {
    spec_split_from(s, c, 0)
}

pub proof fn lemma_find_char_ge(s: Seq<char>, c: char, from: int)
    ensures
        spec_find_char(s, c, from) matches Some(i) ==> from <= i < s.len() && s[i] == c,
    decreases s.len() - from,
{
    if from < 0 || from >= s.len() {
    } else if s[from] == c {
    } else {
        lemma_find_char_ge(s, c, from + 1);
    }
}

pub fn split_char(v: &Vec<char>, c: char) -> (r: Vec<Vec<char>>)
    ensures
        r.deep_view() == spec_split(v@, c),
        r@.len() >= 1,
{
    let n = v.len();
    let mut parts: Vec<Vec<char>> = Vec::new();
    let mut cur: usize = 0;
    loop
        invariant
            cur <= n,
            n == v@.len(),
            parts.deep_view() + spec_split_from(v@, c, cur as int) == spec_split(v@, c),
        decreases n - cur,
    {
        proof {
            lemma_find_char_ge(v@, c, cur as int);
        }
        match find_char(v, c, cur) {
            Some(i) => {
                let piece = subvec(v, cur, i);
                parts.push(piece);
                proof {
                    assert(parts.deep_view() =~~= (parts.deep_view().drop_last()).push(
                        v@.subrange(cur as int, i as int),
                    ));
                }
                cur = i + 1;
            },
            None => {
                let piece = subvec(v, cur, n);
                parts.push(piece);
                proof {
                    assert(parts.deep_view() =~~= (parts.deep_view().drop_last()).push(
                        v@.subrange(cur as int, n as int),
                    ));
                    assert(parts.deep_view() =~~= spec_split(v@, c));
                }
                return parts;
            },
        }
    }
}

// ---------------------------------------------------------------------------
// lines, as str::lines yields them
// ---------------------------------------------------------------------------

/// Drops one trailing carriage return, as `str::lines` does at a `\r\n`.
pub open spec fn strip_cr(l: Seq<char>) -> Seq<char> {
    if l.len() > 0 && l.last() == '\r' {
        l.drop_last()
    } else {
        l
    }
}

/// The lines of `s` from `from` on: pieces terminated by `\n` (a trailing
/// piece without a terminator counts, an empty one does not), each with one
/// trailing `\r` removed.
pub open spec fn spec_lines_from(s: Seq<char>, from: int) -> Seq<Seq<char>>
    decreases s.len() - from,
    via spec_lines_from_dec
{
    if from >= s.len() {
        Seq::empty()
    } else {
        match spec_find_char(s, '\n', from) {
            Some(i) => seq![strip_cr(s.subrange(from, i))] + spec_lines_from(s, i + 1),
            None => seq![s.subrange(from, s.len() as int)],
        }
    }
}

#[via_fn]
proof fn spec_lines_from_dec(s: Seq<char>, from: int) {
    lemma_find_char_ge(s, '\n', from);
}

pub open spec fn spec_lines(s: Seq<char>) -> Seq<Seq<char>> {
    spec_lines_from(s, 0)
}

// ---------------------------------------------------------------------------
// whitespace tokens
// ---------------------------------------------------------------------------

/// The first index at or after `from` that holds whitespace, or the length.
pub open spec fn spec_ws_end(s: Seq<char>, from: int) -> int
    decreases s.len() - from,
{
    if from < 0 || from >= s.len() || is_space(s[from]) {
        from
    } else {
        spec_ws_end(s, from + 1)
    }
}

pub proof fn lemma_ws_end_bounds(s: Seq<char>, from: int)
    requires
        0 <= from <= s.len(),
    ensures
        from <= spec_ws_end(s, from) <= s.len(),
        from < s.len() && !is_space(s[from]) ==> spec_ws_end(s, from) > from,
        forall|k: int| from <= k < spec_ws_end(s, from) ==> !is_space(s[k]),
        spec_ws_end(s, from) < s.len() ==> is_space(s[spec_ws_end(s, from)]),
    decreases s.len() - from,
{
    if from >= s.len() || is_space(s[from]) {
    } else {
        lemma_ws_end_bounds(s, from + 1);
    }
}

/// The whitespace-separated tokens of `s` from `from` on, as
/// `str::split_whitespace` yields them.
pub open spec fn spec_tokens_from(s: Seq<char>, from: int) -> Seq<Seq<char>>
    decreases s.len() - from,
    via spec_tokens_from_dec
{
    if from < 0 || from >= s.len() {
        Seq::empty()
    } else if is_space(s[from]) {
        spec_tokens_from(s, from + 1)
    } else {
        seq![s.subrange(from, spec_ws_end(s, from))] + spec_tokens_from(s, spec_ws_end(s, from))
    }
}

#[via_fn]
proof fn spec_tokens_from_dec(s: Seq<char>, from: int) {
    if 0 <= from < s.len() && !is_space(s[from]) {
        lemma_ws_end_bounds(s, from);
    }
}

pub open spec fn spec_tokens(s: Seq<char>) -> Seq<Seq<char>> {
    spec_tokens_from(s, 0)
}

fn ws_end(v: &Vec<char>, from: usize) -> (r: usize)
    requires
        from <= v@.len(),
    ensures
        r == spec_ws_end(v@, from as int),
        from <= r <= v@.len(),
{
    let n = v.len();
    let mut i: usize = from;
    while i < n && !is_space_c(v[i])
        invariant
            from <= i <= n,
            n == v@.len(),
            spec_ws_end(v@, from as int) == spec_ws_end(v@, i as int),
        decreases n - i,
    {
        i = i + 1;
    }
    i
}

/// Splits on runs of whitespace, as `str::split_whitespace` does.
pub fn split_ws(v: &Vec<char>) -> (r: Vec<Vec<char>>)
    ensures
        r.deep_view() == spec_tokens(v@),
{
    let n = v.len();
    let mut parts: Vec<Vec<char>> = Vec::new();
    let mut cur: usize = 0;
    while cur < n
        invariant
            cur <= n,
            n == v@.len(),
            parts.deep_view() + spec_tokens_from(v@, cur as int) == spec_tokens(v@),
        decreases n - cur,
    {
        if is_space_c(v[cur]) {
            cur = cur + 1;
        } else {
            let e = ws_end(v, cur);
            proof {
                lemma_ws_end_bounds(v@, cur as int);
            }
            let piece = subvec(v, cur, e);
            parts.push(piece);
            proof {
                assert(parts.deep_view() =~~= (parts.deep_view().drop_last()).push(
                    v@.subrange(cur as int, e as int),
                ));
            }
            cur = e;
        }
    }
    proof {
        assert(parts.deep_view() =~~= spec_tokens(v@));
    }
    parts
}

// ---------------------------------------------------------------------------
// joining
// ---------------------------------------------------------------------------

/// The pieces joined with a single separating character between them.
pub open spec fn spec_join(parts: Seq<Seq<char>>, sep: char) -> Seq<char>
    decreases parts.len(),
{
    if parts.len() == 0 {
        Seq::empty()
    } else if parts.len() == 1 {
        parts[0]
    } else {
        parts[0] + seq![sep] + spec_join(parts.drop_first(), sep)
    }
}

/// Appends a copy of `src` to `dst`.
pub fn push_all(dst: &mut Vec<char>, src: &Vec<char>)
    ensures
        final(dst)@ == old(dst)@ + src@,
{
    let n = src.len();
    let mut i: usize = 0;
    while i < n
        invariant
            i <= n,
            n == src@.len(),
            dst@ == old(dst)@ + src@.take(i as int),
        decreases n - i,
    {
        dst.push(src[i]);
        i = i + 1;
        proof {
            assert(old(dst)@ + src@.take(i as int) =~= (old(dst)@ + src@.take(i as int - 1)).push(
                src@[i as int - 1],
            ));
        }
    }
    proof {
        assert(src@.take(n as int) =~= src@);
    }
}

/// Appends the characters of a string slice to `dst`.
pub fn push_str_chars(dst: &mut Vec<char>, s: &str)
    ensures
        final(dst)@ == old(dst)@ + s@,
{
    let cs = str_to_chars(s);
    push_all(dst, &cs);
}

/// Joining one more piece appends a separator and that piece.
pub proof fn lemma_join_snoc(parts: Seq<Seq<char>>, sep: char, k: int)
    requires
        1 <= k < parts.len(),
    ensures
        spec_join(parts.take(k + 1), sep) == spec_join(parts.take(k), sep) + seq![sep]
            + parts[k],
    decreases k,
{
    if k == 1 {
        assert(parts.take(2).drop_first() =~= seq![parts[1]]);
        assert(spec_join(seq![parts[1]], sep) == parts[1]);
        assert(spec_join(parts.take(1), sep) == parts.take(1)[0]);
        assert(spec_join(parts.take(2), sep) =~= spec_join(parts.take(1), sep) + seq![sep]
            + parts[1]);
    } else {
        lemma_join_snoc(parts.drop_first(), sep, k - 1);
        assert(parts.take(k + 1).drop_first() =~= parts.drop_first().take(k));
        assert(parts.take(k).drop_first() =~= parts.drop_first().take(k - 1));
        assert(parts.drop_first()[k - 1] == parts[k]);
        assert(spec_join(parts.take(k + 1), sep) =~= spec_join(parts.take(k), sep) + seq![sep]
            + parts[k]);
    }
}

/// Joins the pieces with `sep` between them.
pub fn join_with(parts: &Vec<Vec<char>>, sep: char) -> (r: Vec<char>)
    ensures
        r@ == spec_join(parts.deep_view(), sep),
{
    let mut out: Vec<char> = Vec::new();
    let n = parts.len();
    if n == 0 {
        return out;
    }
    let mut i: usize = 0;
    while i < n
        invariant
            i <= n,
            n >= 1,
            n == parts@.len(),
            n == parts.deep_view().len(),
            i == 0 ==> out@.len() == 0,
            i >= 1 ==> out@ == spec_join(parts.deep_view().take(i as int), sep),
        decreases n - i,
    {
        if i > 0 {
            out.push(sep);
        }
        push_all(&mut out, &parts[i]);
        proof {
            let dv = parts.deep_view();
            assert(parts@[i as int]@ == dv[i as int]);
            if i == 0 {
                assert(dv.take(1)[0] == dv[0]);
                assert(spec_join(dv.take(1), sep) == dv[0]);
                assert(out@ =~= dv[0]);
            } else {
                lemma_join_snoc(dv, sep, i as int);
                assert(out@ =~= spec_join(dv.take(i as int), sep) + seq![sep] + dv[i as int]);
            }
        }
        i = i + 1;
    }
    proof {
        assert(parts.deep_view().take(n as int) =~= parts.deep_view());
    }
    out
}

// ---------------------------------------------------------------------------
// decimal numbers
// ---------------------------------------------------------------------------

pub open spec fn all_digits(s: Seq<char>) -> bool {
    forall|i: int| 0 <= i < s.len() ==> is_digit(#[trigger] s[i])
}

/// The value of a digit string, most significant digit first.
pub open spec fn spec_dec_val(s: Seq<char>) -> int
    decreases s.len(),
{
    if s.len() == 0 {
        0
    } else {
        spec_dec_val(s.drop_last()) * 10 + digit_val(s.last())
    }
}

/// What `str::parse::<u32>` accepts of a plain digit string: nonempty, all
/// digits, and within range.  (A leading `+` is not accepted here; this
/// library never writes one.)
pub open spec fn spec_parse_u32(s: Seq<char>) -> Option<u32> {
    if s.len() > 0 && all_digits(s) && spec_dec_val(s) <= u32::MAX {
        Some(spec_dec_val(s) as u32)
    } else {
        None
    }
}

pub proof fn lemma_dec_val_nonneg(s: Seq<char>)
    requires
        all_digits(s),
    ensures
        spec_dec_val(s) >= 0,
    decreases s.len(),
{
    if s.len() > 0 {
        assert(all_digits(s.drop_last())) by {
            assert(forall|i: int|
                0 <= i < s.len() - 1 ==> s.drop_last()[i] == #[trigger] s[i]);
        }
        lemma_dec_val_nonneg(s.drop_last());
    }
}

/// Extending a digit string cannot shrink its value.
proof fn lemma_dec_val_extend(s: Seq<char>, k: int)
    requires
        all_digits(s),
        0 <= k <= s.len(),
    ensures
        spec_dec_val(s.take(k)) <= spec_dec_val(s),
    decreases s.len() - k,
{
    if k < s.len() {
        lemma_dec_val_extend(s, k + 1);
        let t = s.take(k + 1);
        assert(t.drop_last() =~= s.take(k));
        assert(all_digits(s.take(k))) by {
            assert(forall|i: int| 0 <= i < k ==> s.take(k)[i] == #[trigger] s[i]);
        }
        lemma_dec_val_nonneg(s.take(k));
        assert(spec_dec_val(t) == spec_dec_val(s.take(k)) * 10 + digit_val(t.last()));
        assert(spec_dec_val(s.take(k)) * 10 >= spec_dec_val(s.take(k))) by (nonlinear_arith)
            requires
                spec_dec_val(s.take(k)) >= 0,
        ;
        assert(digit_val(t.last()) >= 0);
    } else {
        assert(s.take(k) =~= s);
    }
}

/// Parses a digit string as `str::parse::<u32>` would.
pub fn parse_u32(v: &Vec<char>) -> (r: Option<u32>)
    ensures
        r == spec_parse_u32(v@),
{
    let n = v.len();
    if n == 0 {
        return None;
    }
    let mut acc: u32 = 0;
    let mut i: usize = 0;
    while i < n
        invariant
            i <= n,
            n == v@.len(),
            n > 0,
            all_digits(v@.take(i as int)),
            acc == spec_dec_val(v@.take(i as int)),
        decreases n - i,
    {
        let c = v[i];
        if !is_digit_c(c) {
            proof {
                assert(!all_digits(v@));
            }
            return None;
        }
        let d: u32 = (c as u32) - 48;
        proof {
            assert(v@.take(i as int + 1).drop_last() =~= v@.take(i as int));
            assert(v@.take(i as int + 1).last() == v@[i as int]);
        }
        if acc > (u32::MAX - d) / 10 {
            proof {
                let t = v@.take(i as int + 1);
                assert(all_digits(t));
                assert(spec_dec_val(t) == acc * 10 + d);
                assert(acc * 10 + d > u32::MAX) by (nonlinear_arith)
                    requires
                        acc > (u32::MAX - d) / 10,
                        0 <= d <= 9,
                ;
                if all_digits(v@) {
                    lemma_dec_val_extend(v@, i as int + 1);
                    assert(spec_dec_val(v@) > u32::MAX);
                }
            }
            return None;
        }
        proof {
            assert(acc * 10 + d <= u32::MAX) by (nonlinear_arith)
                requires
                    acc <= (u32::MAX - d) / 10,
                    0 <= d <= 9,
            ;
        }
        acc = acc * 10 + d;
        i = i + 1;
    }
    proof {
        assert(v@.take(n as int) =~= v@);
    }
    Some(acc)
}

/// The decimal digits of `n`, most significant first, no leading zeros.
pub open spec fn spec_dec_digits(n: int) -> Seq<char>
    decreases n,
{
    if n <= 0 {
        seq![digit_char(if n < 0 { 0 } else { n })]
    } else if n < 10 {
        seq![digit_char(n)]
    } else {
        spec_dec_digits(n / 10).push(digit_char(n % 10))
    }
}

pub proof fn lemma_dec_digits_ok(n: int)
    requires
        n >= 0,
    ensures
        all_digits(spec_dec_digits(n)),
        spec_dec_val(spec_dec_digits(n)) == n,
        spec_dec_digits(n).len() >= 1,
    decreases n,
{
    if n < 10 {
        let s = spec_dec_digits(n);
        assert(s.len() == 1);
        assert(s.last() == digit_char(n));
        assert(((48 + n) as u8) as int == 48 + n);
        assert((((48 + n) as u8) as char) as int == 48 + n);
        assert(is_digit(digit_char(n)));
        assert(digit_val(digit_char(n)) == n);
        assert(s.drop_last() =~= Seq::<char>::empty());
        assert(spec_dec_val(Seq::<char>::empty()) == 0);
        assert(spec_dec_val(s) == spec_dec_val(s.drop_last()) * 10 + digit_val(s.last()));
    } else {
        assert(0 <= n / 10 < n) by (nonlinear_arith)
            requires
                n >= 10,
        ;
        lemma_dec_digits_ok(n / 10);
        let s = spec_dec_digits(n);
        let d = n % 10;
        assert(0 <= d <= 9);
        assert(((48 + d) as u8) as int == 48 + d);
        assert((((48 + d) as u8) as char) as int == 48 + d);
        assert(is_digit(digit_char(d)));
        assert(digit_val(digit_char(d)) == d);
        assert(s.drop_last() =~= spec_dec_digits(n / 10));
        assert(s.last() == digit_char(d));
        assert(spec_dec_val(s) == (n / 10) * 10 + d);
        assert((n / 10) * 10 + n % 10 == n) by (nonlinear_arith)
            requires
                n >= 0,
        ;
        assert(forall|i: int|
            0 <= i < s.len() ==> is_digit(#[trigger] s[i])) by {
            assert(forall|i: int|
                0 <= i < s.len() - 1 ==> s[i] == #[trigger] spec_dec_digits(n / 10)[i]);
        }
    }
}

/// Formats `n` in decimal.
pub fn u32_digits(n: u32) -> (r: Vec<char>)
    ensures
        r@ == spec_dec_digits(n as int),
    decreases n,
{
    if n < 10 {
        let c: char = ((48 + n) as u8) as char;
        let mut v: Vec<char> = Vec::new();
        v.push(c);
        proof {
            assert(v@ =~= seq![digit_char(n as int)]);
        }
        v
    } else {
        proof {
            assert(0 <= n / 10 < n) by (nonlinear_arith)
                requires
                    n >= 10,
            ;
        }
        let mut v = u32_digits(n / 10);
        let d: u32 = n % 10;
        let c: char = ((48 + d) as u8) as char;
        v.push(c);
        proof {
            assert(d == n as int % 10);
            assert(c == digit_char(n as int % 10));
            assert(v@ =~= spec_dec_digits(n as int / 10).push(digit_char(n as int % 10)));
        }
        v
    }
}

/// The digits of `n` left-padded with zeros to at least `width` characters.
pub open spec fn spec_pad_digits(n: int, width: int) -> Seq<char> {
    let d = spec_dec_digits(n);
    if d.len() >= width {
        d
    } else {
        Seq::new((width - d.len()) as nat, |i: int| '0') + d
    }
}

/// Formats `n` in decimal, zero-padded to at least `width` characters.
pub fn u32_padded(n: u32, width: usize) -> (r: Vec<char>)
    ensures
        r@ == spec_pad_digits(n as int, width as int),
{
    let d = u32_digits(n);
    if d.len() >= width {
        return d;
    }
    let k = width - d.len();
    let mut out: Vec<char> = Vec::new();
    let mut i: usize = 0;
    while i < k
        invariant
            i <= k,
            out@ =~= Seq::new(i as nat, |t: int| '0'),
        decreases k - i,
    {
        out.push('0');
        i = i + 1;
        proof {
            assert(out@ =~= Seq::new(i as nat, |t: int| '0'));
        }
    }
    push_all(&mut out, &d);
    out
}

/// Leading zeros do not change a digit string's value.
pub proof fn lemma_dec_val_zero_prefix(z: int, d: Seq<char>)
    requires
        z >= 0,
    ensures
        spec_dec_val(Seq::new(z as nat, |i: int| '0') + d) == spec_dec_val(d),
    decreases d.len(),
{
    let zs = Seq::new(z as nat, |i: int| '0');
    if d.len() == 0 {
        assert(zs + d =~= zs);
        lemma_dec_val_all_zeros(z);
    } else {
        lemma_dec_val_zero_prefix(z, d.drop_last());
        assert((zs + d).drop_last() =~= zs + d.drop_last());
        assert((zs + d).last() == d.last());
    }
}

proof fn lemma_dec_val_all_zeros(z: int)
    requires
        z >= 0,
    ensures
        spec_dec_val(Seq::new(z as nat, |i: int| '0')) == 0,
    decreases z,
{
    let zs = Seq::new(z as nat, |i: int| '0');
    if z > 0 {
        lemma_dec_val_all_zeros(z - 1);
        assert(zs.drop_last() =~= Seq::new((z - 1) as nat, |i: int| '0'));
        assert(zs.last() == '0');
        assert(digit_val('0') == 0);
    }
}

/// A formatted and possibly zero-padded number parses back to itself.
pub proof fn lemma_parse_of_padded(n: u32, width: int)
    ensures
        spec_parse_u32(spec_pad_digits(n as int, width)) == Some(n),
        all_digits(spec_pad_digits(n as int, width)),
        spec_pad_digits(n as int, width).len() >= 1,
{
    lemma_dec_digits_ok(n as int);
    let d = spec_dec_digits(n as int);
    if d.len() >= width {
        assert(spec_pad_digits(n as int, width) == d);
    } else {
        let z = width - d.len();
        let zs = Seq::new(z as nat, |i: int| '0');
        lemma_dec_val_zero_prefix(z, d);
        assert(is_digit('0'));
        assert(forall|i: int|
            0 <= i < (zs + d).len() ==> is_digit(#[trigger] (zs + d)[i])) by {
            assert(forall|i: int| 0 <= i < z ==> (zs + d)[i] == '0');
            assert(forall|i: int| z <= i < z + d.len() ==> (zs + d)[i] == d[i - z]);
        }
    }
}

// ---------------------------------------------------------------------------
// ASCII case
// ---------------------------------------------------------------------------

pub open spec fn ascii_lower_char(c: char) -> char {
    if 65 <= c as int <= 90 {
        ((c as u8) + 32) as char
    } else {
        c
    }
}

pub open spec fn spec_ascii_lower(s: Seq<char>) -> Seq<char> {
    s.map_values(|c: char| ascii_lower_char(c))
}

fn ascii_lower_c(c: char) -> (r: char)
    ensures
        r == ascii_lower_char(c),
{
    let u = c as u32;
    if 65 <= u && u <= 90 {
        ((u + 32) as u8) as char
    } else {
        c
    }
}

/// ASCII-case-insensitive equality, as `str::eq_ignore_ascii_case` decides
/// it.
pub fn eq_ignore_ascii_case(a: &Vec<char>, b: &Vec<char>) -> (r: bool)
    ensures
        r == (spec_ascii_lower(a@) == spec_ascii_lower(b@)),
{
    let n = a.len();
    if n != b.len() {
        proof {
            assert(spec_ascii_lower(a@).len() != spec_ascii_lower(b@).len());
        }
        return false;
    }
    let mut i: usize = 0;
    while i < n
        invariant
            i <= n,
            n == a@.len() && n == b@.len(),
            forall|k: int|
                0 <= k < i ==> ascii_lower_char(a@[k]) == ascii_lower_char(b@[k]),
        decreases n - i,
    {
        if ascii_lower_c(a[i]) != ascii_lower_c(b[i]) {
            proof {
                assert(spec_ascii_lower(a@)[i as int] != spec_ascii_lower(b@)[i as int]);
            }
            return false;
        }
        i = i + 1;
    }
    proof {
        assert(spec_ascii_lower(a@) =~= spec_ascii_lower(b@));
    }
    true
}

fn strip_cr_exec(l: Vec<char>) -> (r: Vec<char>)
    ensures
        r@ == strip_cr(l@),
{
    let mut l = l;
    if l.len() > 0 && l[l.len() - 1] == '\r' {
        let _ = l.pop();
    }
    l
}

/// Splits text into lines, as `str::lines` does.
pub fn lines_of(v: &Vec<char>) -> (r: Vec<Vec<char>>)
    ensures
        r.deep_view() == spec_lines(v@),
{
    let n = v.len();
    let mut parts: Vec<Vec<char>> = Vec::new();
    let mut cur: usize = 0;
    loop
        invariant
            cur <= n,
            n == v@.len(),
            parts.deep_view() + spec_lines_from(v@, cur as int) == spec_lines(v@),
        decreases n - cur + 1,
    {
        if cur >= n {
            proof {
                assert(parts.deep_view() =~~= spec_lines(v@));
            }
            return parts;
        }
        proof {
            lemma_find_char_ge(v@, '\n', cur as int);
        }
        match find_char(v, '\n', cur) {
            Some(i) => {
                let piece = strip_cr_exec(subvec(v, cur, i));
                parts.push(piece);
                proof {
                    assert(parts.deep_view() =~~= (parts.deep_view().drop_last()).push(
                        strip_cr(v@.subrange(cur as int, i as int)),
                    ));
                }
                cur = i + 1;
            },
            None => {
                let piece = subvec(v, cur, n);
                parts.push(piece);
                proof {
                    assert(parts.deep_view() =~~= (parts.deep_view().drop_last()).push(
                        v@.subrange(cur as int, n as int),
                    ));
                    assert(parts.deep_view() =~~= spec_lines(v@));
                }
                return parts;
            },
        }
    }
}


// ---------------------------------------------------------------------------
// lemmas about searching and splitting concatenations
// ---------------------------------------------------------------------------

pub open spec fn no_char(s: Seq<char>, c: char) -> bool {
    forall|i: int| 0 <= i < s.len() ==> #[trigger] s[i] != c
}

pub proof fn lemma_find_char_none(s: Seq<char>, c: char, from: int)
    requires
        no_char(s, c),
        from >= 0,
    ensures
        spec_find_char(s, c, from) is None,
    decreases s.len() - from,
{
    if from < s.len() {
        lemma_find_char_none(s, c, from + 1);
    }
}

/// In `s + [c] + t` with no `c` inside `s`, the first `c` at or after `from`
/// within the prefix stands right after `s`.
pub proof fn lemma_find_char_concat(s: Seq<char>, t: Seq<char>, c: char, from: int)
    requires
        no_char(s, c),
        0 <= from <= s.len(),
    ensures
        spec_find_char(s + seq![c] + t, c, from) == Some(s.len() as int),
    decreases s.len() - from,
{
    let u = s + seq![c] + t;
    if from < s.len() {
        assert(u[from] == s[from]);
        lemma_find_char_concat(s, t, c, from + 1);
    } else {
        assert(u[from] == c);
    }
}

pub proof fn lemma_find_shift(s: Seq<char>, c: char, k: int, from: int)
    requires
        0 <= k <= s.len(),
        from >= 0,
    ensures
        spec_find_char(s, c, k + from) == match spec_find_char(s.skip(k), c, from) {
            Some(i) => Some(i + k),
            None => None,
        },
    decreases s.len() - k - from,
{
    if k + from < s.len() {
        assert(s.skip(k)[from] == s[k + from]);
        if s[k + from] != c {
            lemma_find_shift(s, c, k, from + 1);
        }
    }
}

pub proof fn lemma_split_shift(s: Seq<char>, c: char, k: int)
    requires
        0 <= k <= s.len(),
    ensures
        spec_split_from(s, c, k) == spec_split(s.skip(k), c),
    decreases s.len() - k,
{
    lemma_find_shift(s, c, k, 0);
    lemma_find_char_ge(s, c, k);
    match spec_find_char(s, c, k) {
        Some(i) => {
            assert(s.subrange(k, i) =~= s.skip(k).subrange(0, i - k));
            lemma_split_shift(s, c, i + 1);
            lemma_find_char_ge(s.skip(k), c, 0);
            assert(s.skip(i + 1) =~= s.skip(k).skip(i - k + 1));
            assert(spec_split(s.skip(k), c) == seq![s.skip(k).subrange(0, i - k)] + spec_split_from(
                s.skip(k),
                c,
                i - k + 1,
            ));
            lemma_split_shift(s.skip(k), c, i - k + 1);
        },
        None => {
            assert(s.subrange(k, s.len() as int) =~= s.skip(k).subrange(
                0,
                s.skip(k).len() as int,
            ));
        },
    }
}

/// Splitting a piece without the separator yields that piece alone.
pub proof fn lemma_split_single(a: Seq<char>, c: char)
    requires
        no_char(a, c),
    ensures
        spec_split(a, c) == seq![a],
{
    lemma_find_char_none(a, c, 0);
    assert(a.subrange(0, a.len() as int) =~= a);
}

/// Splitting `a + [c] + t` peels off `a` and splits the rest.
pub proof fn lemma_split_concat(a: Seq<char>, t: Seq<char>, c: char)
    requires
        no_char(a, c),
    ensures
        spec_split(a + seq![c] + t, c) == seq![a] + spec_split(t, c),
{
    let u = a + seq![c] + t;
    lemma_find_char_concat(a, t, c, 0);
    assert(u.subrange(0, a.len() as int) =~= a);
    lemma_split_shift(u, c, a.len() as int + 1);
    assert(u.skip(a.len() as int + 1) =~= t);
}

pub proof fn lemma_lines_shift(s: Seq<char>, k: int)
    requires
        0 <= k <= s.len(),
    ensures
        spec_lines_from(s, k) == spec_lines(s.skip(k)),
    decreases s.len() - k,
{
    if k >= s.len() {
        assert(s.skip(k) =~= Seq::<char>::empty());
    } else {
        lemma_find_shift(s, '\n', k, 0);
        lemma_find_char_ge(s, '\n', k);
        match spec_find_char(s, '\n', k) {
            Some(i) => {
                assert(s.subrange(k, i) =~= s.skip(k).subrange(0, i - k));
                lemma_find_char_ge(s.skip(k), '\n', 0);
                assert(s.skip(i + 1) =~= s.skip(k).skip(i - k + 1));
                lemma_lines_shift(s, i + 1);
                lemma_lines_shift(s.skip(k), i - k + 1);
            },
            None => {
                assert(s.subrange(k, s.len() as int) =~= s.skip(k).subrange(
                    0,
                    s.skip(k).len() as int,
                ));
            },
        }
    }
}

/// A nonempty text without a newline is a single line.
pub proof fn lemma_lines_single(a: Seq<char>)
    requires
        no_char(a, '\n'),
        a.len() > 0,
    ensures
        spec_lines(a) == seq![a],
{
    lemma_find_char_none(a, '\n', 0);
    assert(a.subrange(0, a.len() as int) =~= a);
}

/// The lines of `a + "\n" + t` are the line `a` and then the lines of `t`.
pub proof fn lemma_lines_concat(a: Seq<char>, t: Seq<char>)
    requires
        no_char(a, '\n'),
        !(a.len() > 0 && a.last() == '\r'),
    ensures
        spec_lines(a + seq!['\n'] + t) == seq![a] + spec_lines(t),
{
    let u = a + seq!['\n'] + t;
    lemma_find_char_concat(a, t, '\n', 0);
    assert(u.len() > 0);
    assert(u.subrange(0, a.len() as int) =~= a);
    assert(strip_cr(a) == a);
    lemma_lines_shift(u, a.len() as int + 1);
    assert(u.skip(a.len() as int + 1) =~= t);
}


/// The pieces joined with a separating string between them.
pub open spec fn spec_join_seq(parts: Seq<Seq<char>>, sep: Seq<char>) -> Seq<char>
    decreases parts.len(),
{
    if parts.len() == 0 {
        Seq::empty()
    } else if parts.len() == 1 {
        parts[0]
    } else {
        parts[0] + sep + spec_join_seq(parts.drop_first(), sep)
    }
}

/// Joining one more piece appends the separator and that piece.
pub proof fn lemma_join_seq_snoc(parts: Seq<Seq<char>>, sep: Seq<char>, k: int)
    requires
        1 <= k < parts.len(),
    ensures
        spec_join_seq(parts.take(k + 1), sep) == spec_join_seq(parts.take(k), sep) + sep
            + parts[k],
    decreases k,
{
    if k == 1 {
        assert(parts.take(2).drop_first() =~= seq![parts[1]]);
        assert(spec_join_seq(seq![parts[1]], sep) == parts[1]);
        assert(spec_join_seq(parts.take(1), sep) == parts.take(1)[0]);
        assert(spec_join_seq(parts.take(2), sep) =~= spec_join_seq(parts.take(1), sep) + sep
            + parts[1]);
    } else {
        lemma_join_seq_snoc(parts.drop_first(), sep, k - 1);
        assert(parts.take(k + 1).drop_first() =~= parts.drop_first().take(k));
        assert(parts.take(k).drop_first() =~= parts.drop_first().take(k - 1));
        assert(parts.drop_first()[k - 1] == parts[k]);
        assert(spec_join_seq(parts.take(k + 1), sep) =~= spec_join_seq(parts.take(k), sep) + sep
            + parts[k]);
    }
}

/// Joins the pieces with the separating string between them.
pub fn join_with_seq(parts: &Vec<Vec<char>>, sep: &Vec<char>) -> (r: Vec<char>)
    ensures
        r@ == spec_join_seq(parts.deep_view(), sep@),
{
    let mut out: Vec<char> = Vec::new();
    let n = parts.len();
    if n == 0 {
        return out;
    }
    let mut i: usize = 0;
    while i < n
        invariant
            i <= n,
            n >= 1,
            n == parts@.len(),
            n == parts.deep_view().len(),
            i == 0 ==> out@.len() == 0,
            i >= 1 ==> out@ == spec_join_seq(parts.deep_view().take(i as int), sep@),
        decreases n - i,
    {
        if i > 0 {
            push_all(&mut out, sep);
        }
        push_all(&mut out, &parts[i]);
        proof {
            let dv = parts.deep_view();
            assert(parts@[i as int]@ == dv[i as int]);
            if i == 0 {
                assert(dv.take(1)[0] == dv[0]);
                assert(spec_join_seq(dv.take(1), sep@) == dv[0]);
                assert(out@ =~= dv[0]);
            } else {
                lemma_join_seq_snoc(dv, sep@, i as int);
                assert(out@ =~= spec_join_seq(dv.take(i as int), sep@) + sep@ + dv[i as int]);
            }
        }
        i = i + 1;
    }
    proof {
        assert(parts.deep_view().take(n as int) =~= parts.deep_view());
    }
    out
}


/// Formats `n` in decimal.
pub fn u64_digits(n: u64) -> (r: Vec<char>)
    ensures
        r@ == spec_dec_digits(n as int),
    decreases n,
{
    if n < 10 {
        let c: char = ((48 + n) as u8) as char;
        let mut v: Vec<char> = Vec::new();
        v.push(c);
        proof {
            assert(v@ =~= seq![digit_char(n as int)]);
        }
        v
    } else {
        proof {
            assert(0 <= n / 10 < n) by (nonlinear_arith)
                requires
                    n >= 10,
            ;
        }
        let mut v = u64_digits(n / 10);
        let d: u64 = n % 10;
        let c: char = ((48 + d) as u8) as char;
        v.push(c);
        proof {
            assert(d == n as int % 10);
            assert(c == digit_char(n as int % 10));
            assert(v@ =~= spec_dec_digits(n as int / 10).push(digit_char(n as int % 10)));
        }
        v
    }
}


/// What `str::parse::<u64>` accepts of a plain digit string.
pub open spec fn spec_parse_u64(s: Seq<char>) -> Option<u64> {
    if s.len() > 0 && all_digits(s) && spec_dec_val(s) <= u64::MAX {
        Some(spec_dec_val(s) as u64)
    } else {
        None
    }
}

/// Parses a digit string as `str::parse::<u64>` would.
pub fn parse_u64(v: &Vec<char>) -> (r: Option<u64>)
    ensures
        r == spec_parse_u64(v@),
{
    let n = v.len();
    if n == 0 {
        return None;
    }
    let mut acc: u64 = 0;
    let mut i: usize = 0;
    while i < n
        invariant
            i <= n,
            n == v@.len(),
            n > 0,
            all_digits(v@.take(i as int)),
            acc == spec_dec_val(v@.take(i as int)),
        decreases n - i,
    {
        let c = v[i];
        if !is_digit_c(c) {
            proof {
                assert(!all_digits(v@));
            }
            return None;
        }
        let d: u64 = (c as u64) - 48;
        proof {
            assert(v@.take(i as int + 1).drop_last() =~= v@.take(i as int));
            assert(v@.take(i as int + 1).last() == v@[i as int]);
        }
        if acc > (u64::MAX - d) / 10 {
            proof {
                let t = v@.take(i as int + 1);
                assert(all_digits(t));
                assert(spec_dec_val(t) == acc * 10 + d);
                assert(acc * 10 + d > u64::MAX) by (nonlinear_arith)
                    requires
                        acc > (u64::MAX - d) / 10,
                        0 <= d <= 9,
                ;
                if all_digits(v@) {
                    lemma_dec_val_take_extend(v@, i as int + 1);
                    assert(spec_dec_val(v@) > u64::MAX);
                }
            }
            return None;
        }
        proof {
            assert(acc * 10 + d <= u64::MAX) by (nonlinear_arith)
                requires
                    acc <= (u64::MAX - d) / 10,
                    0 <= d <= 9,
            ;
        }
        acc = acc * 10 + d;
        i = i + 1;
    }
    proof {
        assert(v@.take(n as int) =~= v@);
    }
    Some(acc)
}

/// Extending a digit string cannot shrink its value.
pub proof fn lemma_dec_val_take_extend(s: Seq<char>, k: int)
    requires
        all_digits(s),
        0 <= k <= s.len(),
    ensures
        spec_dec_val(s.take(k)) <= spec_dec_val(s),
    decreases s.len() - k,
{
    if k < s.len() {
        lemma_dec_val_take_extend(s, k + 1);
        let t = s.take(k + 1);
        assert(t.drop_last() =~= s.take(k));
        assert(all_digits(s.take(k))) by {
            assert(forall|i: int| 0 <= i < k ==> s.take(k)[i] == #[trigger] s[i]);
        }
        lemma_dec_val_nonneg(s.take(k));
        assert(spec_dec_val(t) == spec_dec_val(s.take(k)) * 10 + digit_val(t.last()));
        assert(spec_dec_val(s.take(k)) * 10 >= spec_dec_val(s.take(k))) by (nonlinear_arith)
            requires
                spec_dec_val(s.take(k)) >= 0,
        ;
        assert(digit_val(t.last()) >= 0);
    } else {
        assert(s.take(k) =~= s);
    }
}


// ---------------------------------------------------------------------------
// inversion lemmas: splitting what was joined
// ---------------------------------------------------------------------------

/// A line of output: no newline inside, no carriage return at the end.
pub open spec fn line_ok(l: Seq<char>) -> bool {
    no_char(l, '\n') && !(l.len() > 0 && l.last() == '\r')
}

pub proof fn lemma_ws_end_shift(s: Seq<char>, k: int, from: int)
    requires
        0 <= k <= s.len(),
        from >= 0,
    ensures
        spec_ws_end(s, k + from) == k + spec_ws_end(s.skip(k), from),
    decreases s.len() - k - from,
{
    if k + from < s.len() {
        assert(s.skip(k)[from] == s[k + from]);
        if !is_space(s[k + from]) {
            lemma_ws_end_shift(s, k, from + 1);
        }
    }
}

pub proof fn lemma_tokens_shift(s: Seq<char>, k: int)
    requires
        0 <= k <= s.len(),
    ensures
        spec_tokens_from(s, k) == spec_tokens(s.skip(k)),
    decreases s.len() - k,
{
    if k >= s.len() {
        assert(s.skip(k) =~= Seq::<char>::empty());
    } else {
        assert(s.skip(k)[0] == s[k]);
        if is_space(s[k]) {
            lemma_tokens_shift(s, k + 1);
            assert(s.skip(k).drop_first() =~= s.skip(k + 1));
            lemma_tokens_shift(s.skip(k), 1);
            assert(s.skip(k).skip(1) =~= s.skip(k + 1));
        } else {
            lemma_ws_end_shift(s, k, 0);
            lemma_ws_end_bounds(s, k);
            let e = spec_ws_end(s, k);
            assert(spec_ws_end(s.skip(k), 0) == e - k);
            assert(s.subrange(k, e) =~= s.skip(k).subrange(0, e - k));
            lemma_tokens_shift(s, e);
            lemma_ws_end_bounds(s.skip(k), 0);
            lemma_tokens_shift(s.skip(k), e - k);
            assert(s.skip(k).skip(e - k) =~= s.skip(e));
        }
    }
}

pub proof fn lemma_ws_end_all_nonspace(s: Seq<char>, from: int)
    requires
        0 <= from <= s.len(),
        forall|i: int| from <= i < s.len() ==> !is_space(#[trigger] s[i]),
    ensures
        spec_ws_end(s, from) == s.len(),
    decreases s.len() - from,
{
    if from < s.len() {
        lemma_ws_end_all_nonspace(s, from + 1);
    }
}

pub proof fn lemma_ws_end_concat(a: Seq<char>, t: Seq<char>, from: int)
    requires
        0 <= from <= a.len(),
        forall|i: int| 0 <= i < a.len() ==> !is_space(#[trigger] a[i]),
        t.len() > 0,
        is_space(t[0]),
    ensures
        spec_ws_end(a + t, from) == a.len(),
    decreases a.len() - from,
{
    let s = a + t;
    if from < a.len() {
        assert(s[from] == a[from]);
        lemma_ws_end_concat(a, t, from + 1);
    } else {
        assert(s[from] == t[0]);
    }
}

/// The pieces of a single-space join are exactly its tokens, when each
/// piece is nonempty and free of whitespace.
pub proof fn lemma_tokens_of_join(parts: Seq<Seq<char>>)
    requires
        forall|k: int|
            0 <= k < parts.len() ==> (#[trigger] parts[k]).len() > 0 && (forall|i: int|
                0 <= i < parts[k].len() ==> !is_space(#[trigger] parts[k][i])),
    ensures
        spec_tokens(spec_join(parts, ' ')) == parts,
    decreases parts.len(),
{
    if parts.len() == 0 {
        assert(spec_tokens(Seq::<char>::empty()) =~= Seq::<Seq<char>>::empty());
        assert(spec_tokens(spec_join(parts, ' ')) =~= parts);
    } else if parts.len() == 1 {
        let s = parts[0];
        lemma_ws_end_all_nonspace(s, 0);
        assert(s.subrange(0, s.len() as int) =~= s);
        assert(spec_tokens(s) =~= seq![s] + spec_tokens_from(s, s.len() as int));
        assert(spec_tokens_from(s, s.len() as int) =~= Seq::<Seq<char>>::empty());
        assert(spec_tokens(spec_join(parts, ' ')) =~= parts);
    } else {
        let p0 = parts[0];
        let rest = spec_join(parts.drop_first(), ' ');
        let s = p0 + seq![' '] + rest;
        assert(spec_join(parts, ' ') =~= s);
        lemma_join_nonempty(parts.drop_first(), ' ');
        assert(rest.len() > 0);
        lemma_ws_end_concat(p0, seq![' '] + rest, 0);
        assert(spec_ws_end(s, 0) == p0.len()) by {
            assert(s =~= p0 + (seq![' '] + rest));
            assert((seq![' '] + rest)[0] == ' ');
        }
        assert(!is_space(s[0]));
        assert(s.subrange(0, p0.len() as int) =~= p0);
        lemma_tokens_shift(s, p0.len() as int);
        assert(s.skip(p0.len() as int)[0] == ' ');
        assert(spec_tokens(s.skip(p0.len() as int)) == spec_tokens_from(
            s.skip(p0.len() as int),
            0,
        ));
        lemma_tokens_shift(s.skip(p0.len() as int), 1);
        assert(s.skip(p0.len() as int).skip(1) =~= rest);
        lemma_tokens_of_join(parts.drop_first());
        assert(spec_tokens(s) =~= seq![p0] + parts.drop_first());
        assert(seq![p0] + parts.drop_first() =~= parts);
    }
}

/// A nonempty join of nonempty pieces is nonempty.
pub proof fn lemma_join_nonempty(parts: Seq<Seq<char>>, sep: char)
    requires
        parts.len() > 0,
        forall|k: int| 0 <= k < parts.len() ==> (#[trigger] parts[k]).len() > 0,
    ensures
        spec_join(parts, sep).len() > 0,
    decreases parts.len(),
{
    if parts.len() > 1 {
        lemma_join_nonempty(parts.drop_first(), sep);
    }
}

/// Joining the concatenation of two nonempty piece lists splices them with
/// one separator.
pub proof fn lemma_join_concat(a: Seq<Seq<char>>, b: Seq<Seq<char>>, sep: char)
    requires
        a.len() > 0,
        b.len() > 0,
    ensures
        spec_join(a + b, sep) == spec_join(a, sep) + seq![sep] + spec_join(b, sep),
    decreases a.len(),
{
    if a.len() == 1 {
        assert((a + b).drop_first() =~= b);
        assert((a + b)[0] == a[0]);
        assert((a + b).len() >= 2);
        assert(spec_join(a + b, sep) =~= spec_join(a, sep) + seq![sep] + spec_join(b, sep));
    } else {
        lemma_join_concat(a.drop_first(), b, sep);
        assert((a + b).drop_first() =~= a.drop_first() + b);
        assert((a + b)[0] == a[0]);
        assert(spec_join(a + b, sep) =~= spec_join(a, sep) + seq![sep] + spec_join(b, sep));
    }
}

/// Unlining peels from the front as well.
pub proof fn lemma_unlines_cons(ls: Seq<Seq<char>>)
    requires
        ls.len() > 0,
    ensures
        crate::todo_text::spec_unlines(ls) == ls[0] + seq!['\n'] + crate::todo_text::spec_unlines(
            ls.drop_first(),
        ),
    decreases ls.len(),
{
    if ls.len() == 1 {
        assert(ls.drop_last() =~= Seq::<Seq<char>>::empty());
        assert(ls.drop_first() =~= Seq::<Seq<char>>::empty());
        assert(crate::todo_text::spec_unlines(ls) =~= ls[0] + seq!['\n']
            + crate::todo_text::spec_unlines(ls.drop_first()));
    } else {
        lemma_unlines_cons(ls.drop_last());
        assert(ls.drop_last()[0] == ls[0]);
        assert(ls.drop_last().drop_first() =~= ls.drop_first().drop_last());
        assert(ls.drop_first().last() == ls.last());
        assert(crate::todo_text::spec_unlines(ls) =~= ls[0] + seq!['\n']
            + crate::todo_text::spec_unlines(ls.drop_first()));
    }
}

/// Splitting freshly unlined lines gives the lines back, provided each is
/// a proper line.
pub proof fn lemma_lines_unlines(ls: Seq<Seq<char>>)
    requires
        forall|k: int| 0 <= k < ls.len() ==> line_ok(#[trigger] ls[k]),
    ensures
        spec_lines(crate::todo_text::spec_unlines(ls)) == ls,
    decreases ls.len(),
{
    if ls.len() == 0 {
        assert(spec_lines(crate::todo_text::spec_unlines(ls)) =~= ls);
    } else {
        lemma_unlines_cons(ls);
        lemma_lines_concat(ls[0], crate::todo_text::spec_unlines(ls.drop_first()));
        assert(forall|k: int|
            0 <= k < ls.drop_first().len() ==> line_ok(#[trigger] ls.drop_first()[k]));
        lemma_lines_unlines(ls.drop_first());
        assert(spec_lines(crate::todo_text::spec_unlines(ls)) =~= ls);
    }
}

/// The last occurrence, characterized: a match at `k` and none later.
pub proof fn lemma_rfind_exact(s: Seq<char>, p: Seq<char>, k: int)
    requires
        0 <= k,
        k + p.len() <= s.len(),
        s.subrange(k, k + p.len() as int) == p,
        forall|j: int|
            k < j && j + p.len() <= s.len() ==> #[trigger] s.subrange(j, j + p.len() as int)
                != p,
    ensures
        spec_rfind_sub(s, p) == Some(k),
{
    lemma_rfind_exact_from(s, p, k, s.len() - p.len());
}

proof fn lemma_rfind_exact_from(s: Seq<char>, p: Seq<char>, k: int, upto: int)
    requires
        0 <= k <= upto,
        k + p.len() <= s.len(),
        upto + p.len() <= s.len(),
        s.subrange(k, k + p.len() as int) == p,
        forall|j: int|
            k < j && j + p.len() <= s.len() ==> #[trigger] s.subrange(j, j + p.len() as int)
                != p,
    ensures
        spec_rfind_sub_before(s, p, upto) == Some(k),
    decreases upto,
{
    if upto == k {
    } else {
        lemma_rfind_exact_from(s, p, k, upto - 1);
    }
}


/// A visible occurrence makes the text contain the pattern.
pub proof fn lemma_contains_witness(s: Seq<char>, p: Seq<char>, k: int)
    requires
        0 <= k,
        k + p.len() <= s.len(),
        s.subrange(k, k + p.len() as int) == p,
    ensures
        spec_contains(s, p),
{
    lemma_find_from_witness(s, p, k, 0);
}

proof fn lemma_find_from_witness(s: Seq<char>, p: Seq<char>, k: int, j: int)
    requires
        0 <= j <= k,
        k + p.len() <= s.len(),
        s.subrange(k, k + p.len() as int) == p,
    ensures
        spec_find_sub(s, p, j) is Some,
    decreases k - j,
{
    if j == k {
    } else {
        if s.subrange(j, j + p.len() as int) == p {
        } else {
            lemma_find_from_witness(s, p, k, j + 1);
        }
    }
}

} // verus!
