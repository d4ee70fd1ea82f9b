//! Character-level text helpers shared by the detectors.
//!
//! Strings are modelled by their views, sequences of Unicode scalar values.
//! Every separator and pattern the detectors look for is ASCII, so working on
//! characters gives the same answers as the byte-level string API would.

use vstd::prelude::*;

verus! {

// ---------------------------------------------------------------------------
// Characters
// ---------------------------------------------------------------------------

/// ASCII lower-casing of one character; every other character is unchanged.
pub open spec fn lower_char(c: char) -> char {
    if 'A' <= c && c <= 'Z' {
        ((c as u32) + 32) as char
    } else {
        c
    }
}

/// ASCII lower-casing of a whole sequence.
pub open spec fn lower(s: Seq<char>) -> Seq<char> {
    s.map_values(|c: char| lower_char(c))
}

/// Equality up to ASCII case, as `str::eq_ignore_ascii_case` decides it.
pub open spec fn eq_ic(a: Seq<char>, b: Seq<char>) -> bool {
    &&& a.len() == b.len()
    &&& forall|i: int| 0 <= i < a.len() ==> lower_char(#[trigger] a[i]) == lower_char(b[i])
}

pub open spec fn is_ascii_digit(c: char) -> bool {
    '0' <= c && c <= '9'
}

pub open spec fn is_ascii_hexdigit(c: char) -> bool {
    ||| '0' <= c && c <= '9'
    ||| 'a' <= c && c <= 'f'
    ||| 'A' <= c && c <= 'F'
}

/// The characters that carry Unicode's `White_Space` property.
pub open spec fn is_white_space(c: char) -> bool {
    ||| '\t' <= c && c <= '\r'
    ||| c == ' '
    ||| c == '\u{85}'
    ||| c == '\u{a0}'
    ||| c == '\u{1680}'
    ||| '\u{2000}' <= c && c <= '\u{200a}'
    ||| c == '\u{2028}'
    ||| c == '\u{2029}'
    ||| c == '\u{202f}'
    ||| c == '\u{205f}'
    ||| c == '\u{3000}'
}

pub fn ascii_lower(c: char) -> (r: char)
    ensures
        r == lower_char(c),
{
    if 'A' <= c && c <= 'Z' {
        ((c as u8) + 32) as char
    } else {
        c
    }
}

pub fn ascii_digit(c: char) -> (r: bool)
    ensures
        r == is_ascii_digit(c),
{
    '0' <= c && c <= '9'
}

pub fn ascii_hexdigit(c: char) -> (r: bool)
    ensures
        r == is_ascii_hexdigit(c),
{
    ('0' <= c && c <= '9') || ('a' <= c && c <= 'f') || ('A' <= c && c <= 'F')
}

/// Whether a character carries Unicode's `White_Space` property (what
/// `char::is_whitespace` answers).
pub fn char_is_whitespace(c: char) -> (r: bool)
    ensures
        r == is_white_space(c),
{
    ('\t' <= c && c <= '\r') || c == ' ' || c == '\u{85}' || c == '\u{a0}' || c == '\u{1680}' || (
    '\u{2000}' <= c && c <= '\u{200a}') || c == '\u{2028}' || c == '\u{2029}' || c == '\u{202f}'
        || c == '\u{205f}' || c == '\u{3000}'
}

// ---------------------------------------------------------------------------
// Strings and character vectors
// ---------------------------------------------------------------------------

/// Copies the characters of a string slice into a vector.
pub fn chars_of(s: &str) -> (v: Vec<char>)
    ensures
        v@ == s@,
{
    let mut v: Vec<char> = Vec::new();
    for c in it: s.chars()
        invariant
            v@ == it.seq().take(it.index()),
    {
        v.push(c);
    }
    v
}

/// `String::push`: appends one character.
#[verifier::external_body]
fn push_char(s: &mut String, c: char)
    ensures
        final(s)@ == old(s)@.push(c),
{
    s.push(c);
}

/// The string made of `v[start..end]`.
pub fn string_of_range(v: &Vec<char>, start: usize, end: usize) -> (s: String)
    requires
        start <= end <= v@.len(),
    ensures
        s@ == v@.subrange(start as int, end as int),
{
    let mut s = String::new();
    let mut i = start;
    while i < end
        invariant
            start <= i <= end <= v@.len(),
            s@ == v@.subrange(start as int, i as int),
        decreases end - i,
    {
        push_char(&mut s, v[i]);
        assert(v@.subrange(start as int, i + 1) == v@.subrange(start as int, i as int).push(v@[i as int]));
        i += 1;
    }
    s
}

/// The string made of all of `v`.
pub fn string_of(v: &Vec<char>) -> (s: String)
    ensures
        s@ == v@,
{
    let s = string_of_range(v, 0, v.len());
    assert(v@.subrange(0, v@.len() as int) == v@);
    s
}

/// `a` followed by `b`.
pub fn concat_str(a: &str, b: &str) -> (s: String)
    ensures
        s@ == a@ + b@,
{
    let av = chars_of(a);
    let bv = chars_of(b);
    let mut s = string_of(&av);
    let mut i: usize = 0;
    while i < bv.len()
        invariant
            0 <= i <= bv@.len(),
            bv@ == b@,
            s@ == a@ + bv@.subrange(0, i as int),
        decreases bv.len() - i,
    {
        push_char(&mut s, bv[i]);
        assert(bv@.subrange(0, i + 1) == bv@.subrange(0, i as int).push(bv@[i as int]));
        i += 1;
    }
    assert(bv@.subrange(0, bv@.len() as int) == bv@);
    s
}

/// The views of a sequence of strings.
pub open spec fn strs_view(v: Seq<String>) -> Seq<Seq<char>> {
    v.map_values(|s: String| s@)
}

/// A copy of `v[start..end]`.
pub fn slice_vec(v: &Vec<char>, start: usize, end: usize) -> (r: Vec<char>)
    requires
        start <= end <= v@.len(),
    ensures
        r@ == v@.subrange(start as int, end as int),
{
    let mut r: Vec<char> = Vec::new();
    let mut i = start;
    while i < end
        invariant
            start <= i <= end <= v@.len(),
            r@ == v@.subrange(start as int, i as int),
        decreases end - i,
    {
        r.push(v[i]);
        assert(v@.subrange(start as int, i + 1) == v@.subrange(start as int, i as int).push(v@[i as int]));
        i += 1;
    }
    r
}

/// A copy of `v`.
pub fn copy_vec(v: &Vec<char>) -> (r: Vec<char>)
    ensures
        r@ == v@,
{
    let r = slice_vec(v, 0, v.len());
    assert(v@.subrange(0, v@.len() as int) == v@);
    r
}

/// ASCII lower-cased copy of `v`.
pub fn lower_vec(v: &Vec<char>) -> (r: Vec<char>)
    ensures
        r@ == lower(v@),
{
    let mut r: Vec<char> = Vec::new();
    let mut i: usize = 0;
    while i < v.len()
        invariant
            0 <= i <= v@.len(),
            r@ == lower(v@.subrange(0, i as int)),
        decreases v.len() - i,
    {
        r.push(ascii_lower(v[i]));
        assert(lower(v@.subrange(0, i + 1)) == lower(v@.subrange(0, i as int)).push(
            lower_char(v@[i as int]),
        ));
        i += 1;
    }
    assert(v@.subrange(0, v@.len() as int) == v@);
    r
}

/// Whether `v[start..end]` equals `lit` up to ASCII case.
pub fn range_eq_ic(v: &Vec<char>, start: usize, end: usize, lit: &str) -> (r: bool)
    requires
        start <= end <= v@.len(),
    ensures
        r == eq_ic(v@.subrange(start as int, end as int), lit@),
{
    let l = chars_of(lit);
    if end - start != l.len() {
        return false;
    }
    let mut i: usize = 0;
    while i < l.len()
        invariant
            0 <= i <= l@.len(),
            end - start == l@.len(),
            start <= end <= v@.len(),
            l@ == lit@,
            forall|k: int| 0 <= k < i ==> lower_char(v@[start + k]) == lower_char(l@[k]),
        decreases l.len() - i,
    {
        if ascii_lower(v[start + i]) != ascii_lower(l[i]) {
            assert(lower_char(v@.subrange(start as int, end as int)[i as int]) != lower_char(
                l@[i as int],
            ));
            return false;
        }
        i += 1;
    }
    true
}

/// Whether `v[start..end]` equals `lit` exactly.
pub fn range_eq(v: &Vec<char>, start: usize, end: usize, lit: &str) -> (r: bool)
    requires
        start <= end <= v@.len(),
    ensures
        r == (v@.subrange(start as int, end as int) == lit@),
{
    let l = chars_of(lit);
    if end - start != l.len() {
        return false;
    }
    let mut i: usize = 0;
    while i < l.len()
        invariant
            0 <= i <= l@.len(),
            end - start == l@.len(),
            start <= end <= v@.len(),
            l@ == lit@,
            forall|k: int| 0 <= k < i ==> v@[start + k] == l@[k],
        decreases l.len() - i,
    {
        if v[start + i] != l[i] {
            assert(v@.subrange(start as int, end as int)[i as int] != l@[i as int]);
            return false;
        }
        i += 1;
    }
    assert(v@.subrange(start as int, end as int) =~= l@);
    true
}

/// Whether two character vectors are equal.
pub fn vec_eq(a: &Vec<char>, b: &Vec<char>) -> (r: bool)
    ensures
        r == (a@ == b@),
{
    if a.len() != b.len() {
        return false;
    }
    let mut i: usize = 0;
    while i < a.len()
        invariant
            0 <= i <= a@.len(),
            a@.len() == b@.len(),
            forall|k: int| 0 <= k < i ==> a@[k] == b@[k],
        decreases a.len() - i,
    {
        if a[i] != b[i] {
            return false;
        }
        i += 1;
    }
    assert(a@ =~= b@);
    true
}

// ---------------------------------------------------------------------------
// Searching
// ---------------------------------------------------------------------------

/// `pat` occurs in `s` at position `i`.
pub open spec fn occurs_at(s: Seq<char>, pat: Seq<char>, i: int) -> bool {
    &&& 0 <= i
    &&& i + pat.len() <= s.len()
    &&& s.subrange(i, i + pat.len()) == pat
}

/// `pat` occurs somewhere in `s`, as `str::contains` decides it.
pub open spec fn contains_seq(s: Seq<char>, pat: Seq<char>) -> bool {
    exists|i: int| occurs_at(s, pat, i)
}

/// Whether `lit` occurs in `v`.
pub fn vec_contains(v: &Vec<char>, lit: &str) -> (r: bool)
    ensures
        r == contains_seq(v@, lit@),
{
    let l = chars_of(lit);
    if l.len() > v.len() {
        assert forall|i: int| !occurs_at(v@, lit@, i) by {}
        return false;
    }
    let last = v.len() - l.len();
    let mut i: usize = 0;
    while i < last
        invariant
            l@ == lit@,
            l@.len() <= v@.len(),
            last == v@.len() - l@.len(),
            v@.len() <= usize::MAX,
            0 <= i <= last,
            forall|k: int| 0 <= k < i ==> !occurs_at(v@, lit@, k),
        decreases last - i,
    {
        if range_eq(v, i, i + l.len(), lit) {
            assert(occurs_at(v@, lit@, i as int));
            return true;
        }
        i += 1;
    }
    if range_eq(v, last, v.len(), lit) {
        assert(occurs_at(v@, lit@, last as int));
        return true;
    }
    assert forall|k: int| !occurs_at(v@, lit@, k) by {
        if 0 <= k && k + lit@.len() <= v@.len() {
            assert(k <= last);
        }
    }
    false
}

// ---------------------------------------------------------------------------
// Lexicographic order (code-point order, which is also UTF-8 byte order)
// ---------------------------------------------------------------------------

/// `a` sorts strictly before `b`, as `Ord for str` decides it.
pub open spec fn seq_lt(a: Seq<char>, b: Seq<char>) -> bool
    decreases a.len(),
{
    if a.len() == 0 {
        b.len() > 0
    } else if b.len() == 0 {
        false
    } else if a[0] != b[0] {
        a[0] < b[0]
    } else {
        seq_lt(a.drop_first(), b.drop_first())
    }
}

pub proof fn lemma_lt_irreflexive(a: Seq<char>)
    ensures
        !seq_lt(a, a),
    decreases a.len(),
{
    if a.len() > 0 {
        lemma_lt_irreflexive(a.drop_first());
    }
}

pub proof fn lemma_lt_transitive(a: Seq<char>, b: Seq<char>, c: Seq<char>)
    requires
        seq_lt(a, b),
        seq_lt(b, c),
    ensures
        seq_lt(a, c),
    decreases a.len(),
{
    if a.len() > 0 && b.len() > 0 && c.len() > 0 {
        if a[0] == b[0] && b[0] == c[0] {
            lemma_lt_transitive(a.drop_first(), b.drop_first(), c.drop_first());
        }
    }
}

pub proof fn lemma_lt_total(a: Seq<char>, b: Seq<char>)
    ensures
        a == b || seq_lt(a, b) || seq_lt(b, a),
    decreases a.len(),
{
    if a.len() > 0 && b.len() > 0 && a[0] == b[0] {
        lemma_lt_total(a.drop_first(), b.drop_first());
        if a.drop_first() == b.drop_first() {
            assert(a =~= seq![a[0]] + a.drop_first());
            assert(b =~= seq![b[0]] + b.drop_first());
        }
    } else if a.len() == 0 && b.len() == 0 {
        assert(a =~= b);
    }
}

pub proof fn lemma_lt_asymmetric(a: Seq<char>, b: Seq<char>)
    requires
        seq_lt(a, b),
    ensures
        !seq_lt(b, a),
{
    if seq_lt(b, a) {
        lemma_lt_transitive(a, b, a);
        lemma_lt_irreflexive(a);
    }
}

/// Whether `a` sorts strictly before `b`.
pub fn vec_lt(a: &Vec<char>, b: &Vec<char>) -> (r: bool)
    ensures
        r == seq_lt(a@, b@),
{
    let mut i: usize = 0;
    assert(a@.skip(0) == a@);
    assert(b@.skip(0) == b@);
    while i < a.len() && i < b.len()
        invariant
            0 <= i <= a@.len(),
            i <= b@.len(),
            seq_lt(a@, b@) == seq_lt(a@.skip(i as int), b@.skip(i as int)),
        decreases a.len() - i,
    {
        if a[i] != b[i] {
            return a[i] < b[i];
        }
        assert(a@.skip(i as int).drop_first() == a@.skip(i + 1));
        assert(b@.skip(i as int).drop_first() == b@.skip(i + 1));
        i += 1;
    }
    i < b.len()
}

// ---------------------------------------------------------------------------
// Delimiters, split pieces and path components
// ---------------------------------------------------------------------------

/// The delimiter sets the detectors split text on.
#[derive(Clone, Copy, Debug, PartialEq, Eq, Structural)]
pub enum Delims {
    /// Path separators: backslash and slash.
    Path,
    /// Path separators, quotes, space and tab: the pieces of a command line.
    Arg,
    /// As `Arg`, and also `=`, which separates an option from its value.
    ArgEq,
}

pub open spec fn is_delim(d: Delims, c: char) -> bool {
    match d {
        Delims::Path => c == '\\' || c == '/',
        Delims::Arg => c == '\\' || c == '/' || c == '"' || c == '\'' || c == ' ' || c == '\t',
        Delims::ArgEq => c == '\\' || c == '/' || c == '"' || c == '\'' || c == ' ' || c == '\t'
            || c == '=',
    }
}

pub fn delim(d: Delims, c: char) -> (r: bool)
    ensures
        r == is_delim(d, c),
{
    match d {
        Delims::Path => c == '\\' || c == '/',
        Delims::Arg => c == '\\' || c == '/' || c == '"' || c == '\'' || c == ' ' || c == '\t',
        Delims::ArgEq => c == '\\' || c == '/' || c == '"' || c == '\'' || c == ' ' || c == '\t'
            || c == '=',
    }
}

/// The first index at or after `i` that holds a delimiter, or `s.len()`.
pub open spec fn next_delim(s: Seq<char>, i: int, d: Delims) -> int
    decreases s.len() - i,
{
    if i >= s.len() {
        s.len() as int
    } else if is_delim(d, s[i]) {
        i
    } else {
        next_delim(s, i + 1, d)
    }
}

pub proof fn lemma_next_delim(s: Seq<char>, i: int, d: Delims)
    requires
        0 <= i <= s.len(),
    ensures
        i <= next_delim(s, i, d) <= s.len(),
        next_delim(s, i, d) < s.len() ==> is_delim(d, s[next_delim(s, i, d)]),
        forall|k: int| i <= k < next_delim(s, i, d) ==> !is_delim(d, #[trigger] s[k]),
    decreases s.len() - i,
{
    if i < s.len() && !is_delim(d, s[i]) {
        lemma_next_delim(s, i + 1, d);
    }
}

/// The last index that holds a delimiter, or -1.
pub open spec fn last_delim(s: Seq<char>, d: Delims) -> int
    decreases s.len(),
{
    if s.len() == 0 {
        -1
    } else if is_delim(d, s.last()) {
        s.len() - 1
    } else {
        last_delim(s.drop_last(), d)
    }
}

pub proof fn lemma_last_delim(s: Seq<char>, d: Delims)
    ensures
        -1 <= last_delim(s, d) < s.len(),
        last_delim(s, d) >= 0 ==> is_delim(d, s[last_delim(s, d)]),
        forall|k: int| last_delim(s, d) < k < s.len() ==> !is_delim(d, #[trigger] s[k]),
    decreases s.len(),
{
    if s.len() > 0 && !is_delim(d, s.last()) {
        lemma_last_delim(s.drop_last(), d);
        assert forall|k: int| last_delim(s, d) < k < s.len() implies !is_delim(d, #[trigger] s[k]) by {
            if k < s.len() - 1 {
                assert(s[k] == s.drop_last()[k]);
            }
        }
    }
}

/// `s` with every trailing path separator removed.
pub open spec fn trim_end_seps(s: Seq<char>) -> Seq<char>
    decreases s.len(),
{
    if s.len() > 0 && is_delim(Delims::Path, s.last()) {
        trim_end_seps(s.drop_last())
    } else {
        s
    }
}

/// The pieces of `s[i..]` between delimiters, as `str::split` yields them
/// (empty pieces included), each given by its start and end index in `s`.
pub open spec fn split_from(s: Seq<char>, i: int, d: Delims) -> Seq<(int, int)>
    decreases s.len() + 1 - i,
{
    if i < 0 || i > s.len() {
        Seq::empty()
    } else {
        let j = next_delim(s, i, d);
        proof {
            lemma_next_delim(s, i, d);
        }
        if j >= s.len() {
            seq![(i, s.len() as int)]
        } else {
            seq![(i, j)] + split_from(s, j + 1, d)
        }
    }
}

/// Every piece lies inside `s[i..]`.
pub proof fn lemma_split_bounds(s: Seq<char>, i: int, d: Delims)
    requires
        0 <= i <= s.len(),
    ensures
        forall|m: int|
            0 <= m < split_from(s, i, d).len() ==> i <= (#[trigger] split_from(s, i, d)[m]).0
                <= split_from(s, i, d)[m].1 <= s.len(),
    decreases s.len() + 1 - i,
{
    let j = next_delim(s, i, d);
    lemma_next_delim(s, i, d);
    if j < s.len() {
        lemma_split_bounds(s, j + 1, d);
        let rest = split_from(s, j + 1, d);
        assert(split_from(s, i, d) == seq![(i, j)] + rest);
        assert forall|m: int| 0 <= m < split_from(s, i, d).len() implies i <= (
        #[trigger] split_from(s, i, d)[m]).0 <= split_from(s, i, d)[m].1 <= s.len() by {
            if m > 0 {
                assert(split_from(s, i, d)[m] == rest[m - 1]);
            }
        }
    }
}

/// The pieces of `s` between delimiters, as `str::split` yields them.
pub open spec fn split_spans(s: Seq<char>, d: Delims) -> Seq<(int, int)> {
    split_from(s, 0, d)
}

/// The non-empty runs of non-separator characters of `s[i..]`, left to right.
pub open spec fn comps_from(s: Seq<char>, i: int) -> Seq<(int, int)>
    decreases s.len() - i,
{
    if i < 0 || i >= s.len() {
        Seq::empty()
    } else if is_delim(Delims::Path, s[i]) {
        comps_from(s, i + 1)
    } else {
        let e = next_delim(s, i, Delims::Path);
        proof {
            lemma_next_delim(s, i + 1, Delims::Path);
        }
        seq![(i, e)] + comps_from(s, e)
    }
}

/// The components of a path: its maximal runs of non-separator characters.
pub open spec fn comps(s: Seq<char>) -> Seq<(int, int)> {
    comps_from(s, 0)
}

/// The text of a span.
pub open spec fn span_text(s: Seq<char>, sp: (int, int)) -> Seq<char> {
    s.subrange(sp.0, sp.1)
}

/// Spans with `usize` ends, read as integer pairs.
pub open spec fn ispans(v: Seq<(usize, usize)>) -> Seq<(int, int)> {
    v.map_values(|p: (usize, usize)| (p.0 as int, p.1 as int))
}

pub proof fn lemma_comps_bounds(s: Seq<char>, i: int)
    requires
        0 <= i <= s.len(),
    ensures
        forall|k: int|
            0 <= k < comps_from(s, i).len() ==> i <= (#[trigger] comps_from(s, i)[k]).0
                < comps_from(s, i)[k].1 <= s.len(),
        forall|k: int, m: int|
            0 <= k < m < comps_from(s, i).len() ==> (#[trigger] comps_from(s, i)[k]).1 < (
            #[trigger] comps_from(s, i)[m]).0,
    decreases s.len() - i,
{
    if i < s.len() {
        if is_delim(Delims::Path, s[i]) {
            lemma_comps_bounds(s, i + 1);
            assert(comps_from(s, i) == comps_from(s, i + 1));
        } else {
            let e = next_delim(s, i, Delims::Path);
            lemma_next_delim(s, i + 1, Delims::Path);
            assert(next_delim(s, i, Delims::Path) == next_delim(s, i + 1, Delims::Path));
            lemma_comps_bounds(s, e);
            lemma_comps_start(s, e);
            let rest = comps_from(s, e);
            let all = comps_from(s, i);
            assert(all == seq![(i, e)] + rest);
            assert forall|k: int| 0 <= k < all.len() implies i <= (#[trigger] all[k]).0 < all[k].1
                <= s.len() by {
                if k > 0 {
                    assert(all[k] == rest[k - 1]);
                }
            }
            assert forall|k: int, m: int| 0 <= k < m < all.len() implies (#[trigger] all[k]).1 < (
            #[trigger] all[m]).0 by {
                assert(all[m] == rest[m - 1]);
                if k == 0 {
                    if rest[m - 1].0 == e {
                        assert(!is_delim(Delims::Path, s[rest[m - 1].0]));
                    }
                } else {
                    assert(all[k] == rest[k - 1]);
                }
            }
        }
    } else {
        assert(comps_from(s, i).len() == 0);
    }
}

/// A component never starts on a separator.
pub proof fn lemma_comps_start(s: Seq<char>, i: int)
    requires
        0 <= i <= s.len(),
    ensures
        forall|k: int|
            0 <= k < comps_from(s, i).len() ==> !is_delim(
                Delims::Path,
                s[(#[trigger] comps_from(s, i)[k]).0],
            ),
        forall|k: int| 0 <= k < comps_from(s, i).len() ==> i <= (#[trigger] comps_from(s, i)[k]).0 < s.len(),
    decreases s.len() - i,
{
    if i < s.len() {
        if is_delim(Delims::Path, s[i]) {
            lemma_comps_start(s, i + 1);
            assert(comps_from(s, i) == comps_from(s, i + 1));
        } else {
            let e = next_delim(s, i, Delims::Path);
            lemma_next_delim(s, i + 1, Delims::Path);
            assert(next_delim(s, i, Delims::Path) == next_delim(s, i + 1, Delims::Path));
            lemma_comps_start(s, e);
            let rest = comps_from(s, e);
            let all = comps_from(s, i);
            assert(all == seq![(i, e)] + rest);
            assert forall|k: int| 0 <= k < all.len() implies !is_delim(
                Delims::Path,
                s[(#[trigger] all[k]).0],
            ) && i <= all[k].0 < s.len() by {
                if k > 0 {
                    assert(all[k] == rest[k - 1]);
                }
            }
        }
    } else {
        assert(comps_from(s, i).len() == 0);
    }
}

/// The index of the first delimiter at or after `i`, or `v.len()`.
pub fn find_delim(v: &Vec<char>, i: usize, d: Delims) -> (j: usize)
    requires
        i <= v@.len(),
    ensures
        j == next_delim(v@, i as int, d),
{
    let mut j = i;
    while j < v.len() && !delim(d, v[j])
        invariant
            i <= j <= v@.len(),
            next_delim(v@, i as int, d) == next_delim(v@, j as int, d),
        decreases v.len() - j,
    {
        j += 1;
    }
    j
}

/// The index of the last delimiter, if there is one.
pub fn rfind_delim(v: &Vec<char>, end: usize, d: Delims) -> (r: Option<usize>)
    requires
        end <= v@.len(),
    ensures
        match r {
            Some(k) => k < end && k == last_delim(v@.take(end as int), d),
            None => last_delim(v@.take(end as int), d) == -1,
        },
{
    let mut k = end;
    while k > 0 && !delim(d, v[k - 1])
        invariant
            0 <= k <= end <= v@.len(),
            last_delim(v@.take(end as int), d) == last_delim(v@.take(k as int), d),
        decreases k,
    {
        assert(v@.take(k as int).drop_last() == v@.take(k - 1));
        k -= 1;
    }
    if k == 0 {
        None
    } else {
        Some(k - 1)
    }
}

/// The length of `v[..end]` once its trailing path separators are removed.
pub fn trim_end_len(v: &Vec<char>, end: usize) -> (e: usize)
    requires
        end <= v@.len(),
    ensures
        e <= end,
        v@.take(e as int) == trim_end_seps(v@.take(end as int)),
{
    let mut e = end;
    while e > 0 && delim(Delims::Path, v[e - 1])
        invariant
            0 <= e <= end <= v@.len(),
            trim_end_seps(v@.take(e as int)) == trim_end_seps(v@.take(end as int)),
        decreases e,
    {
        assert(v@.take(e as int).drop_last() == v@.take(e - 1));
        e -= 1;
    }
    e
}

/// The pieces of `v` between delimiters, as `str::split` yields them.
pub fn split_pieces(v: &Vec<char>, d: Delims) -> (r: Vec<(usize, usize)>)
    ensures
        ispans(r@) == split_spans(v@, d),
{
    let mut r: Vec<(usize, usize)> = Vec::new();
    let mut i: usize = 0;
    loop
        invariant_except_break
            i <= v@.len(),
            split_spans(v@, d) == ispans(r@) + split_from(v@, i as int, d),
        ensures
            ispans(r@) == split_spans(v@, d),
        decreases v@.len() - i,
    {
        let j = find_delim(v, i, d);
        proof {
            lemma_next_delim(v@, i as int, d);
        }
        let ghost old_r = r@;
        if j >= v.len() {
            r.push((i, v.len()));
            assert(ispans(r@) == ispans(old_r).push((i as int, v@.len() as int)));
            assert(split_from(v@, i as int, d) == seq![(i as int, v@.len() as int)]);
            assert(split_spans(v@, d) == ispans(r@));
            break;
        }
        r.push((i, j));
        assert(ispans(r@) == ispans(old_r).push((i as int, j as int)));
        assert(split_from(v@, i as int, d) == seq![(i as int, j as int)] + split_from(
            v@,
            j + 1,
            d,
        ));
        assert(ispans(r@) + split_from(v@, j + 1, d) =~= ispans(old_r) + split_from(
            v@,
            i as int,
            d,
        ));
        i = j + 1;
    }
    r
}

/// The components of the path `v`, as spans.
pub fn component_spans(v: &Vec<char>) -> (r: Vec<(usize, usize)>)
    ensures
        ispans(r@) == comps(v@),
        forall|k: int| 0 <= k < r@.len() ==> (#[trigger] r@[k]).0 < r@[k].1 <= v@.len(),
{
    let mut r: Vec<(usize, usize)> = Vec::new();
    let mut i: usize = 0;
    while i < v.len()
        invariant
            i <= v@.len(),
            comps(v@) == ispans(r@) + comps_from(v@, i as int),
        decreases v@.len() - i,
    {
        if delim(Delims::Path, v[i]) {
            i += 1;
        } else {
            let e = find_delim(v, i, Delims::Path);
            proof {
                lemma_next_delim(v@, i + 1, Delims::Path);
            }
            let ghost old_r = r@;
            r.push((i, e));
            assert(ispans(r@) == ispans(old_r).push((i as int, e as int)));
            assert(comps_from(v@, i as int) == seq![(i as int, e as int)] + comps_from(v@, e as int));
            i = e;
        }
    }
    assert(comps_from(v@, i as int) == Seq::<(int, int)>::empty());
    assert(ispans(r@) == comps(v@));
    proof {
        lemma_comps_bounds(v@, 0);
        assert forall|k: int| 0 <= k < r@.len() implies (#[trigger] r@[k]).0 < r@[k].1 <= v@.len() by {
            assert(ispans(r@)[k] == comps(v@)[k]);
        }
    }
    r
}

// ---------------------------------------------------------------------------
// Sorted sets of character sequences
// ---------------------------------------------------------------------------

/// The views of a sequence of character vectors.
pub open spec fn vviews(s: Seq<Vec<char>>) -> Seq<Seq<char>> {
    s.map_values(|v: Vec<char>| v@)
}

/// Strictly increasing in code-point order: sorted and free of duplicates.
pub open spec fn strictly_sorted(q: Seq<Seq<char>>) -> bool {
    forall|i: int, j: int| 0 <= i < j < q.len() ==> seq_lt(#[trigger] q[i], #[trigger] q[j])
}

/// `q` lists the set `s` in increasing order, each element once.
pub open spec fn sorted_listing(q: Seq<Seq<char>>, s: Set<Seq<char>>) -> bool {
    &&& strictly_sorted(q)
    &&& forall|x: Seq<char>| #[trigger] q.contains(x) <==> s.contains(x)
}

/// `dst` followed by `src`.
pub fn extend_vec(dst: &mut Vec<char>, src: &Vec<char>)
    ensures
        final(dst)@ == old(dst)@ + src@,
{
    let mut i: usize = 0;
    while i < src.len()
        invariant
            0 <= i <= src@.len(),
            dst@ == old(dst)@ + src@.subrange(0, i as int),
        decreases src.len() - i,
    {
        dst.push(src[i]);
        assert(src@.subrange(0, i + 1) == src@.subrange(0, i as int).push(src@[i as int]));
        i += 1;
    }
    assert(src@.subrange(0, src@.len() as int) == src@);
}

/// Adds `x` to a strictly sorted list unless it is already there.
pub fn insert_sorted(set: &mut Vec<Vec<char>>, x: Vec<char>)
    requires
        strictly_sorted(vviews(old(set)@)),
    ensures
        strictly_sorted(vviews(final(set)@)),
        forall|y: Seq<char>|
            #[trigger] vviews(final(set)@).contains(y) <==> (vviews(old(set)@).contains(y) || y == x@),
{
    let ghost q = vviews(set@);
    let mut p: usize = 0;
    while p < set.len() && vec_lt(&set[p], &x)
        invariant
            p <= set@.len(),
            q == vviews(set@),
            set@ == old(set)@,
            strictly_sorted(q),
            forall|i: int| 0 <= i < p ==> seq_lt(#[trigger] q[i], x@),
        decreases set.len() - p,
    {
        p += 1;
    }
    if p < set.len() && vec_eq(&set[p], &x) {
        assert(q[p as int] == x@);
        assert forall|y: Seq<char>| #[trigger] q.contains(y) <==> (q.contains(y) || y == x@) by {
            if y == x@ {
                assert(q[p as int] == y);
            }
        }
        return;
    }
    let ghost xv = x@;
    proof {
        if p < q.len() {
            lemma_lt_total(q[p as int], xv);
        }
    }
    // Elements before `p` sort before `x`, the others after it.
    assert forall|i: int| 0 <= i < q.len() implies (i < p ==> seq_lt(#[trigger] q[i], xv)) && (i
        >= p ==> seq_lt(xv, q[i])) by {
        if i > p {
            lemma_lt_transitive(xv, q[p as int], q[i]);
        }
    }
    set.insert(p, x);
    let ghost q2 = vviews(set@);
    assert(q2 =~= q.insert(p as int, xv));
    assert forall|i: int, j: int| 0 <= i < j < q2.len() implies seq_lt(#[trigger] q2[i], #[trigger] q2[j]) by {
        if j < p {
            assert(q2[i] == q[i] && q2[j] == q[j]);
        } else if j == p {
            assert(q2[i] == q[i]);
        } else if i < p {
            assert(q2[i] == q[i] && q2[j] == q[j - 1]);
            lemma_lt_transitive(q[i], xv, q[j - 1]);
        } else if i == p {
            assert(q2[j] == q[j - 1]);
        } else {
            assert(q2[i] == q[i - 1] && q2[j] == q[j - 1]);
        }
    }
    assert forall|y: Seq<char>| #[trigger] q2.contains(y) <==> (q.contains(y) || y == xv) by {
        if q2.contains(y) {
            let i = choose|i: int| 0 <= i < q2.len() && q2[i] == y;
            if i < p {
                assert(q[i] == y);
            } else if i > p {
                assert(q[i - 1] == y);
            }
        }
        if q.contains(y) {
            let i = choose|i: int| 0 <= i < q.len() && q[i] == y;
            if i < p {
                assert(q2[i] == y);
            } else {
                assert(q2[i + 1] == y);
            }
        }
        if y == xv {
            assert(q2[p as int] == y);
        }
    }
}

/// Whether `k` is one of the vectors of `set`.
pub fn vecs_contain(set: &Vec<Vec<char>>, k: &Vec<char>) -> (r: bool)
    ensures
        r == vviews(set@).contains(k@),
{
    let mut i: usize = 0;
    while i < set.len()
        invariant
            0 <= i <= set@.len(),
            forall|m: int| 0 <= m < i ==> (#[trigger] set@[m])@ != k@,
        decreases set.len() - i,
    {
        if vec_eq(&set[i], k) {
            assert(vviews(set@)[i as int] == k@);
            return true;
        }
        i += 1;
    }
    assert forall|m: int| 0 <= m < vviews(set@).len() implies vviews(set@)[m] != k@ by {
        assert(vviews(set@)[m] == set@[m]@);
    }
    false
}

/// The strings made of each vector.
pub fn strings_of(set: &Vec<Vec<char>>) -> (r: Vec<String>)
    ensures
        strs_view(r@) == vviews(set@),
{
    let mut r: Vec<String> = Vec::new();
    let mut i: usize = 0;
    while i < set.len()
        invariant
            0 <= i <= set@.len(),
            strs_view(r@) == vviews(set@).take(i as int),
        decreases set.len() - i,
    {
        let ghost before = strs_view(r@);
        let t = string_of(&set[i]);
        r.push(t);
        assert(strs_view(r@) =~= before.push(t@));
        assert(vviews(set@).take(i + 1) =~= vviews(set@).take(i as int).push(set@[i as int]@));
        i += 1;
    }
    assert(vviews(set@).take(set@.len() as int) =~= vviews(set@));
    r
}

// ---------------------------------------------------------------------------
// Trimming and small searches
// ---------------------------------------------------------------------------

/// `s` without leading white space.
pub open spec fn trim_start_ws(s: Seq<char>) -> Seq<char>
    decreases s.len(),
{
    if s.len() > 0 && is_white_space(s[0]) {
        trim_start_ws(s.drop_first())
    } else {
        s
    }
}

/// `s` without trailing white space.
pub open spec fn trim_end_ws(s: Seq<char>) -> Seq<char>
    decreases s.len(),
{
    if s.len() > 0 && is_white_space(s.last()) {
        trim_end_ws(s.drop_last())
    } else {
        s
    }
}

/// `s` without leading and trailing white space, as `str::trim` returns it.
pub open spec fn trim_ws(s: Seq<char>) -> Seq<char> {
    trim_end_ws(trim_start_ws(s))
}

/// The bounds of `v` without leading and trailing white space.
pub fn trim_bounds(v: &Vec<char>) -> (r: (usize, usize))
    ensures
        r.0 <= r.1 <= v@.len(),
        v@.subrange(r.0 as int, r.1 as int) == trim_ws(v@),
{
    let mut a: usize = 0;
    assert(v@.skip(0) == v@);
    while a < v.len() && char_is_whitespace(v[a])
        invariant
            a <= v@.len(),
            trim_start_ws(v@) == trim_start_ws(v@.skip(a as int)),
        decreases v.len() - a,
    {
        assert(v@.skip(a as int).drop_first() == v@.skip(a + 1));
        a += 1;
    }
    let ghost t = v@.skip(a as int);
    assert(trim_start_ws(v@) == t);
    let mut b: usize = v.len();
    assert(v@.subrange(a as int, b as int) == t);
    while b > a && char_is_whitespace(v[b - 1])
        invariant
            a <= b <= v@.len(),
            trim_end_ws(t) == trim_end_ws(v@.subrange(a as int, b as int)),
        decreases b,
    {
        assert(v@.subrange(a as int, b as int).drop_last() == v@.subrange(a as int, b - 1));
        b -= 1;
    }
    (a, b)
}

/// The index of the last occurrence of `c`, or -1.
pub open spec fn last_index_of(s: Seq<char>, c: char) -> int
    decreases s.len(),
{
    if s.len() == 0 {
        -1
    } else if s.last() == c {
        s.len() - 1
    } else {
        last_index_of(s.drop_last(), c)
    }
}

/// The index of the last `c` in `v[start..end]`, relative to `start`.
pub fn rfind_char(v: &Vec<char>, start: usize, end: usize, c: char) -> (r: Option<usize>)
    requires
        start <= end <= v@.len(),
    ensures
        match r {
            Some(k) => k < end - start && k == last_index_of(v@.subrange(start as int, end as int), c),
            None => last_index_of(v@.subrange(start as int, end as int), c) == -1,
        },
{
    let mut k = end;
    while k > start && v[k - 1] != c
        invariant
            start <= k <= end <= v@.len(),
            last_index_of(v@.subrange(start as int, end as int), c) == last_index_of(
                v@.subrange(start as int, k as int),
                c,
            ),
        decreases k,
    {
        assert(v@.subrange(start as int, k as int).drop_last() == v@.subrange(start as int, k - 1));
        k -= 1;
    }
    if k == start {
        None
    } else {
        Some(k - 1 - start)
    }
}

/// `s` begins with `p`.
pub open spec fn starts_with(s: Seq<char>, p: Seq<char>) -> bool {
    p.len() <= s.len() && s.take(p.len() as int) == p
}

/// Whether `v` begins with `lit`.
pub fn vec_starts_with(v: &Vec<char>, lit: &str) -> (r: bool)
    ensures
        r == starts_with(v@, lit@),
{
    let l = chars_of(lit);
    if l.len() > v.len() {
        return false;
    }
    assert(v@.subrange(0, l@.len() as int) == v@.take(l@.len() as int));
    range_eq(v, 0, l.len(), lit)
}

/// Where `x` belongs in a strictly sorted list: every element before the slot
/// sorts before `x`; `found` says whether the element at the slot is `x`.
pub fn find_slot(keys: &Vec<Vec<char>>, x: &Vec<char>) -> (r: (usize, bool))
    requires
        strictly_sorted(vviews(keys@)),
    ensures
        r.0 <= keys@.len(),
        forall|i: int| 0 <= i < r.0 ==> seq_lt(#[trigger] vviews(keys@)[i], x@),
        r.1 ==> r.0 < keys@.len() && vviews(keys@)[r.0 as int] == x@,
        !r.1 ==> forall|i: int| r.0 <= i < keys@.len() ==> seq_lt(x@, #[trigger] vviews(keys@)[i]),
        !r.1 <==> !vviews(keys@).contains(x@),
{
    let ghost q = vviews(keys@);
    let mut p: usize = 0;
    while p < keys.len() && vec_lt(&keys[p], x)
        invariant
            p <= keys@.len(),
            q == vviews(keys@),
            strictly_sorted(q),
            forall|i: int| 0 <= i < p ==> seq_lt(#[trigger] q[i], x@),
        decreases keys.len() - p,
    {
        p += 1;
    }
    if p < keys.len() && vec_eq(&keys[p], x) {
        assert(q[p as int] == x@);
        return (p, true);
    }
    proof {
        if p < q.len() {
            lemma_lt_total(q[p as int], x@);
        }
        assert forall|i: int| p <= i < q.len() implies seq_lt(x@, #[trigger] q[i]) by {
            if i > p {
                lemma_lt_transitive(x@, q[p as int], q[i]);
            }
        }
        assert forall|i: int| 0 <= i < q.len() implies q[i] != x@ by {
            if i < p {
                lemma_lt_irreflexive(x@);
            } else {
                lemma_lt_irreflexive(x@);
            }
        }
    }
    (p, false)
}

/// Inserting `x` at a slot between smaller and larger elements keeps a list
/// strictly sorted and adds exactly `x`.
pub proof fn lemma_insert_at_slot(q: Seq<Seq<char>>, p: int, x: Seq<char>)
    requires
        strictly_sorted(q),
        0 <= p <= q.len(),
        forall|i: int| 0 <= i < p ==> seq_lt(#[trigger] q[i], x),
        forall|i: int| p <= i < q.len() ==> seq_lt(x, #[trigger] q[i]),
    ensures
        strictly_sorted(q.insert(p, x)),
        forall|y: Seq<char>| #[trigger] q.insert(p, x).contains(y) <==> (q.contains(y) || y == x),
{
    let q2 = q.insert(p, x);
    assert forall|i: int, j: int| 0 <= i < j < q2.len() implies seq_lt(#[trigger] q2[i], #[trigger] q2[j]) by {
        if j < p {
            assert(q2[i] == q[i] && q2[j] == q[j]);
        } else if j == p {
            assert(q2[i] == q[i]);
        } else if i < p {
            assert(q2[i] == q[i] && q2[j] == q[j - 1]);
            lemma_lt_transitive(q[i], x, q[j - 1]);
        } else if i == p {
            assert(q2[j] == q[j - 1]);
        } else {
            assert(q2[i] == q[i - 1] && q2[j] == q[j - 1]);
        }
    }
    assert forall|y: Seq<char>| #[trigger] q2.contains(y) <==> (q.contains(y) || y == x) by {
        if q2.contains(y) {
            let i = choose|i: int| 0 <= i < q2.len() && q2[i] == y;
            if i < p {
                assert(q[i] == y);
            } else if i > p {
                assert(q[i - 1] == y);
            }
        }
        if q.contains(y) {
            let i = choose|i: int| 0 <= i < q.len() && q[i] == y;
            if i < p {
                assert(q2[i] == y);
            } else {
                assert(q2[i + 1] == y);
            }
        }
        if y == x {
            assert(q2[p] == y);
        }
    }
}

/// Two strictly sorted sequences with the same elements are equal.
pub proof fn lemma_sorted_listing_unique(q1: Seq<Seq<char>>, q2: Seq<Seq<char>>)
    requires
        strictly_sorted(q1),
        strictly_sorted(q2),
        forall|x: Seq<char>| #[trigger] q1.contains(x) <==> q2.contains(x),
    ensures
        q1 == q2,
    decreases q1.len(),
{
    if q1.len() == 0 {
        if q2.len() > 0 {
            assert(q2.contains(q2[0]));
            assert(q1.contains(q2[0]));
        }
        assert(q1 =~= q2);
    } else {
        assert(q1.contains(q1[0]));
        assert(q2.len() > 0);
        assert(q2.contains(q2[0]));
        let a = q1[0];
        let b = q2[0];
        if a != b {
            lemma_lt_total(a, b);
            assert(q1.contains(b));
            assert(q2.contains(a));
            let i = choose|i: int| 0 <= i < q1.len() && q1[i] == b;
            let k = choose|k: int| 0 <= k < q2.len() && q2[k] == a;
            if seq_lt(a, b) {
                // `a` sits in q2 after its first element `b`.
                assert(k > 0);
                assert(seq_lt(b, a));
                lemma_lt_asymmetric(a, b);
            } else {
                assert(i > 0);
                assert(seq_lt(a, b));
                lemma_lt_asymmetric(b, a);
            }
        }
        let r1 = q1.drop_first();
        let r2 = q2.drop_first();
        assert forall|x: Seq<char>| #[trigger] r1.contains(x) <==> r2.contains(x) by {
            if r1.contains(x) {
                let i = choose|i: int| 0 <= i < r1.len() && r1[i] == x;
                assert(q1[i + 1] == x);
                assert(seq_lt(a, x));
                lemma_lt_irreflexive(a);
                assert(q1.contains(x));
                assert(q2.contains(x));
                let k = choose|k: int| 0 <= k < q2.len() && q2[k] == x;
                assert(k != 0);
                assert(r2[k - 1] == x);
            }
            if r2.contains(x) {
                let k = choose|k: int| 0 <= k < r2.len() && r2[k] == x;
                assert(q2[k + 1] == x);
                assert(seq_lt(b, x));
                lemma_lt_irreflexive(b);
                assert(q2.contains(x));
                assert(q1.contains(x));
                let i = choose|i: int| 0 <= i < q1.len() && q1[i] == x;
                assert(i != 0);
                assert(r1[i - 1] == x);
            }
        }
        assert forall|i: int, j: int| 0 <= i < j < r1.len() implies seq_lt(#[trigger] r1[i], #[trigger] r1[j]) by {
            assert(r1[i] == q1[i + 1] && r1[j] == q1[j + 1]);
        }
        assert forall|i: int, j: int| 0 <= i < j < r2.len() implies seq_lt(#[trigger] r2[i], #[trigger] r2[j]) by {
            assert(r2[i] == q2[i + 1] && r2[j] == q2[j + 1]);
        }
        lemma_sorted_listing_unique(r1, r2);
        assert(q1 =~= seq![a] + r1);
        assert(q2 =~= seq![b] + r2);
    }
}

/// A list of distinct integers drawn from `[0, m)` has at most `m` entries.
pub proof fn lemma_distinct_in_range(js: Seq<int>, m: int)
    requires
        0 <= m,
        forall|i: int| 0 <= i < js.len() ==> 0 <= #[trigger] js[i] < m,
        forall|i: int, k: int| 0 <= i < js.len() && 0 <= k < js.len() && i != k ==> #[trigger] js[i] != #[trigger] js[k],
    ensures
        js.len() <= m,
{
    assert(js.no_duplicates());
    js.unique_seq_to_set();
    vstd::set_lib::lemma_int_range(0, m);
    assert(js.to_set().subset_of(vstd::set_lib::set_int_range(0, m))) by {
        assert forall|x: int| js.to_set().contains(x) implies vstd::set_lib::set_int_range(0, m).contains(x) by {
            let i = choose|i: int| 0 <= i < js.len() && js[i] == x;
        }
    }
    vstd::set_lib::lemma_len_subset(js.to_set(), vstd::set_lib::set_int_range(0, m));
}

/// No component holds a separator.
pub proof fn lemma_comps_inside(s: Seq<char>, i: int)
    requires
        0 <= i <= s.len(),
    ensures
        forall|k: int, x: int|
            0 <= k < comps_from(s, i).len() && (#[trigger] comps_from(s, i)[k]).0 <= x < comps_from(s, i)[k].1
                ==> !is_delim(Delims::Path, #[trigger] s[x]),
    decreases s.len() - i,
{
    if i < s.len() {
        if is_delim(Delims::Path, s[i]) {
            lemma_comps_inside(s, i + 1);
            assert(comps_from(s, i) == comps_from(s, i + 1));
        } else {
            let e = next_delim(s, i, Delims::Path);
            lemma_next_delim(s, i, Delims::Path);
            lemma_next_delim(s, i + 1, Delims::Path);
            assert(next_delim(s, i, Delims::Path) == next_delim(s, i + 1, Delims::Path));
            lemma_comps_inside(s, e);
            let rest = comps_from(s, e);
            let all = comps_from(s, i);
            assert(all == seq![(i, e)] + rest);
            assert forall|k: int, x: int| 0 <= k < all.len() && (#[trigger] all[k]).0 <= x < all[k].1 implies !is_delim(
                Delims::Path,
                #[trigger] s[x],
            ) by {
                if k > 0 {
                    assert(all[k] == rest[k - 1]);
                }
            }
        }
    }
}

/// Every non-separator character lies in some component.
pub proof fn lemma_comps_cover(s: Seq<char>, i: int)
    requires
        0 <= i <= s.len(),
    ensures
        forall|x: int|
            i <= x < s.len() && !is_delim(Delims::Path, #[trigger] s[x]) ==> exists|k: int|
                0 <= k < comps_from(s, i).len() && (#[trigger] comps_from(s, i)[k]).0 <= x < comps_from(s, i)[k].1,
    decreases s.len() - i,
{
    if i < s.len() {
        if is_delim(Delims::Path, s[i]) {
            lemma_comps_cover(s, i + 1);
            assert(comps_from(s, i) == comps_from(s, i + 1));
        } else {
            let e = next_delim(s, i, Delims::Path);
            lemma_next_delim(s, i, Delims::Path);
            lemma_next_delim(s, i + 1, Delims::Path);
            assert(next_delim(s, i, Delims::Path) == next_delim(s, i + 1, Delims::Path));
            lemma_comps_cover(s, e);
            let rest = comps_from(s, e);
            let all = comps_from(s, i);
            assert(all == seq![(i, e)] + rest);
            assert forall|x: int| i <= x < s.len() && !is_delim(Delims::Path, #[trigger] s[x]) implies exists|k: int|
                0 <= k < all.len() && (#[trigger] all[k]).0 <= x < all[k].1 by {
                if x < e {
                    assert(all[0] == (i, e));
                } else {
                    let k = choose|k: int| 0 <= k < rest.len() && (#[trigger] rest[k]).0 <= x < rest[k].1;
                    assert(all[k + 1] == rest[k]);
                }
            }
        }
    }
}

/// The components of a path are exactly its maximal runs of non-separator
/// characters, left to right: each is a non-empty run without a separator,
/// each ends before the next begins, and every character outside them is a
/// separator (so there are none exactly when the path has no other
/// character).
pub proof fn law_components_are_maximal_runs(s: Seq<char>)
    ensures
        forall|k: int| 0 <= k < comps(s).len() ==> 0 <= (#[trigger] comps(s)[k]).0 < comps(s)[k].1 <= s.len(),
        forall|k: int, x: int|
            0 <= k < comps(s).len() && (#[trigger] comps(s)[k]).0 <= x < comps(s)[k].1 ==> !is_delim(
                Delims::Path,
                #[trigger] s[x],
            ),
        forall|k: int, m: int| 0 <= k < m < comps(s).len() ==> (#[trigger] comps(s)[k]).1 < (#[trigger] comps(s)[m]).0,
        forall|x: int|
            0 <= x < s.len() && (forall|k: int| 0 <= k < comps(s).len() ==> !((#[trigger] comps(s)[k]).0 <= x < comps(
                s,
            )[k].1)) ==> is_delim(Delims::Path, #[trigger] s[x]),
        comps(s).len() == 0 <==> forall|x: int| 0 <= x < s.len() ==> is_delim(Delims::Path, #[trigger] s[x]),
{
    lemma_comps_bounds(s, 0);
    lemma_comps_inside(s, 0);
    lemma_comps_cover(s, 0);
    if comps(s).len() > 0 {
        assert(!is_delim(Delims::Path, s[comps(s)[0].0]));
    }
}

} // verus!
