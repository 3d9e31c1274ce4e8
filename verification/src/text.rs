//! Character-level building blocks shared by every module: the mathematical
//! model of trimming, splitting, joining and runs over `Seq<char>`, the UTF-8
//! byte widths used for spans, and the calls into std's Unicode tables.
use vstd::prelude::*;
use vstd::utf8::encode_utf8;

verus! {

// ---------------------------------------------------------------------------
// Character classes
// ---------------------------------------------------------------------------

/// Unicode `White_Space`, the property that `char::is_whitespace` tests.
pub open spec fn is_ws(c: char) -> bool {
    ||| ('\u{9}' <= c && c <= '\u{d}')
    ||| c == ' '
    ||| c == '\u{85}'
    ||| c == '\u{a0}'
    ||| c == '\u{1680}'
    ||| ('\u{2000}' <= c && c <= '\u{200a}')
    ||| c == '\u{2028}'
    ||| c == '\u{2029}'
    ||| c == '\u{202f}'
    ||| c == '\u{205f}'
    ||| c == '\u{3000}'
}

pub open spec fn is_ascii_char(c: char) -> bool {
    (c as u32) < 128
}

pub open spec fn is_ascii_digit(c: char) -> bool {
    '0' <= c && c <= '9'
}

pub open spec fn is_ascii_upper(c: char) -> bool {
    'A' <= c && c <= 'Z'
}

pub open spec fn is_ascii_lower(c: char) -> bool {
    'a' <= c && c <= 'z'
}

pub open spec fn is_ascii_alnum(c: char) -> bool {
    is_ascii_digit(c) || is_ascii_upper(c) || is_ascii_lower(c)
}

/// ASCII whitespace as `u8::is_ascii_whitespace` defines it (no vertical tab).
pub open spec fn is_ascii_ws(c: char) -> bool {
    c == ' ' || c == '\t' || c == '\n' || c == '\u{c}' || c == '\r'
}

pub open spec fn ascii_lower(c: char) -> char {
    if is_ascii_upper(c) {
        ((c as u32) + 32) as char
    } else {
        c
    }
}

pub open spec fn ascii_upper(c: char) -> char {
    if is_ascii_lower(c) {
        ((c as u32) - 32) as char
    } else {
        c
    }
}

/// Decides `is_ws`.
pub fn is_whitespace(c: char) -> (b: bool)
    ensures
        b == is_ws(c),
{
    ('\u{9}' <= c && c <= '\u{d}') || c == ' ' || c == '\u{85}' || c == '\u{a0}' || c
        == '\u{1680}' || ('\u{2000}' <= c && c <= '\u{200a}') || c == '\u{2028}' || c
        == '\u{2029}' || c == '\u{202f}' || c == '\u{205f}' || c == '\u{3000}'
}

pub fn is_ascii_whitespace(c: char) -> (b: bool)
    ensures
        b == is_ascii_ws(c),
{
    c == ' ' || c == '\t' || c == '\n' || c == '\u{c}' || c == '\r'
}

pub fn is_digit(c: char) -> (b: bool)
    ensures
        b == is_ascii_digit(c),
{
    '0' <= c && c <= '9'
}

pub fn is_ascii_alphanumeric(c: char) -> (b: bool)
    ensures
        b == is_ascii_alnum(c),
{
    ('0' <= c && c <= '9') || ('A' <= c && c <= 'Z') || ('a' <= c && c <= 'z')
}

pub fn to_ascii_lowercase(c: char) -> (r: char)
    ensures
        r == ascii_lower(c),
{
    if 'A' <= c && c <= 'Z' {
        let u: u32 = (c as u32) + 32;
        assert(u < 128);
        let b: u8 = u as u8;
        b as char
    } else {
        c
    }
}

// ---------------------------------------------------------------------------
// Unicode tables of std
// ---------------------------------------------------------------------------

/// What `char::is_alphanumeric` answers for a character outside ASCII
/// (Unicode `Alphabetic` or `Numeric`).
pub uninterp spec fn unicode_alphanumeric(c: char) -> bool;

/// What `char::is_uppercase` answers for a character outside ASCII
/// (Unicode `Uppercase`).
pub uninterp spec fn unicode_uppercase(c: char) -> bool;

/// What `char::is_lowercase` answers for a character outside ASCII
/// (Unicode `Lowercase`).
pub uninterp spec fn unicode_lowercase(c: char) -> bool;

/// What `char::is_numeric` answers for a character outside ASCII (general
/// categories `Nd`, `Nl`, `No`).
pub uninterp spec fn unicode_numeric(c: char) -> bool;

/// The characters that `char::to_lowercase` yields for a character outside
/// ASCII.
pub uninterp spec fn unicode_lower_map(c: char) -> Seq<char>;

/// The characters that `char::to_uppercase` yields for a character outside
/// ASCII.
pub uninterp spec fn unicode_upper_map(c: char) -> Seq<char>;

/// `char::is_alphanumeric`: on ASCII exactly the letters and digits.
pub open spec fn alphanumeric(c: char) -> bool {
    if is_ascii_char(c) {
        is_ascii_alnum(c)
    } else {
        unicode_alphanumeric(c)
    }
}

/// `char::is_uppercase`: on ASCII exactly `A`..=`Z`.
pub open spec fn uppercase(c: char) -> bool {
    if is_ascii_char(c) {
        is_ascii_upper(c)
    } else {
        unicode_uppercase(c)
    }
}

/// `char::is_lowercase`: on ASCII exactly `a`..=`z`.
pub open spec fn lowercase(c: char) -> bool {
    if is_ascii_char(c) {
        is_ascii_lower(c)
    } else {
        unicode_lowercase(c)
    }
}

/// `char::is_numeric`: on ASCII exactly `0`..=`9`.
pub open spec fn numeric(c: char) -> bool {
    if is_ascii_char(c) {
        is_ascii_digit(c)
    } else {
        unicode_numeric(c)
    }
}

/// `char::to_lowercase`: an ASCII character maps to its ASCII lowercase alone.
pub open spec fn lower_map(c: char) -> Seq<char> {
    if is_ascii_char(c) {
        seq![ascii_lower(c)]
    } else {
        unicode_lower_map(c)
    }
}

/// `char::to_uppercase`: an ASCII character maps to its ASCII uppercase alone.
pub open spec fn upper_map(c: char) -> Seq<char> {
    if is_ascii_char(c) {
        seq![ascii_upper(c)]
    } else {
        unicode_upper_map(c)
    }
}

/// Calls `char::is_alphanumeric`. Trusted: the answer is `alphanumeric(c)`,
/// which on ASCII holds exactly for letters and digits and elsewhere is the
/// named Unicode property.
#[verifier::external_body]
pub(crate) fn is_alphanumeric(c: char) -> (b: bool)
    ensures
        b == alphanumeric(c),
        !is_ascii_char(c) ==> b == unicode_alphanumeric(c),
{
    c.is_alphanumeric()
}

/// Calls `char::is_uppercase`. Trusted: the answer is `uppercase(c)`, which
/// on ASCII holds exactly for `A`..=`Z` and elsewhere is the named property.
#[verifier::external_body]
pub(crate) fn is_uppercase(c: char) -> (b: bool)
    ensures
        b == uppercase(c),
        !is_ascii_char(c) ==> b == unicode_uppercase(c),
{
    c.is_uppercase()
}

/// Calls `char::is_lowercase`. Trusted: the answer is `lowercase(c)`, which
/// on ASCII holds exactly for `a`..=`z` and elsewhere is the named property.
#[verifier::external_body]
pub(crate) fn is_lowercase(c: char) -> (b: bool)
    ensures
        b == lowercase(c),
        !is_ascii_char(c) ==> b == unicode_lowercase(c),
{
    c.is_lowercase()
}

/// Calls `char::is_numeric`. Trusted: the answer is `numeric(c)`, which on
/// ASCII holds exactly for `0`..=`9` and elsewhere is the named property.
#[verifier::external_body]
pub(crate) fn is_numeric(c: char) -> (b: bool)
    ensures
        b == numeric(c),
        !is_ascii_char(c) ==> b == unicode_numeric(c),
{
    c.is_numeric()
}

/// Collects `char::to_lowercase`. Trusted: the characters are `lower_map(c)`
/// (an ASCII character maps to its ASCII lowercase alone, others to the named
/// mapping), and there is at least one of them. A character outside ASCII
/// maps, following the Unicode case data, to itself or to letters and marks,
/// so never to `_` or a space.
#[verifier::external_body]
pub(crate) fn to_lowercase(c: char) -> (r: Vec<char>)
    ensures
        r@ == lower_map(c),
        !is_ascii_char(c) ==> r@ == unicode_lower_map(c),
        r@.len() >= 1,
        !is_ascii_char(c) ==> forall|i: int| 0 <= i < r@.len() ==> #[trigger] r@[i] != '_' && r@[i]
            != ' ',
{
    c.to_lowercase().collect()
}

/// Collects `char::to_uppercase`. Trusted: the characters are `upper_map(c)`
/// (an ASCII character maps to its ASCII uppercase alone, others to the named
/// mapping), and there is at least one of them. A character outside ASCII
/// maps, following the Unicode case data, to itself or to letters and marks,
/// so never to `_` or a space.
#[verifier::external_body]
pub(crate) fn to_uppercase(c: char) -> (r: Vec<char>)
    ensures
        r@ == upper_map(c),
        !is_ascii_char(c) ==> r@ == unicode_upper_map(c),
        r@.len() >= 1,
        !is_ascii_char(c) ==> forall|i: int| 0 <= i < r@.len() ==> #[trigger] r@[i] != '_' && r@[i]
            != ' ',
{
    c.to_uppercase().collect()
}

/// Builds a `String` from characters with `Iterator::collect`. Trusted: the
/// string holds exactly those characters.
#[verifier::external_body]
pub(crate) fn string_of(v: &Vec<char>) -> (s: String)
    ensures
        s@ == v@,
{
    v.iter().collect()
}

// ---------------------------------------------------------------------------
// Conversions between `str` and characters
// ---------------------------------------------------------------------------

pub fn chars_of(s: &str) -> (v: Vec<char>)
    ensures
        v@ == s@,
{
    let mut v: Vec<char> = Vec::new();
    for c in it: s.chars()
        invariant
            v@ == it.seq().take(it.index() as int),
            it.seq() == s@,
    {
        v.push(c);
    }
    v
}

/// Copies `v[lo..hi]`.
pub fn slice_vec(v: &Vec<char>, lo: usize, hi: usize) -> (r: Vec<char>)
    requires
        lo <= hi <= v@.len(),
    ensures
        r@ == v@.subrange(lo as int, hi as int),
{
    let mut r: Vec<char> = Vec::new();
    let mut i = lo;
    while i < hi
        invariant
            lo <= i <= hi <= v@.len(),
            r@ == v@.subrange(lo as int, i as int),
        decreases hi - i,
    {
        r.push(v[i]);
        i = i + 1;
        assert(r@ =~= v@.subrange(lo as int, i as int));
    }
    r
}

/// Appends `src` to `dst`.
pub fn extend_vec(dst: &mut Vec<char>, src: &Vec<char>)
    ensures
        final(dst)@ == old(dst)@ + src@,
{
    let ghost start = dst@;
    let mut i: usize = 0;
    while i < src.len()
        invariant
            i <= src@.len(),
            dst@ == start + src@.take(i as int),
        decreases src@.len() - i,
    {
        dst.push(src[i]);
        i = i + 1;
        assert(dst@ =~= start + src@.take(i as int));
    }
    assert(src@.take(src@.len() as int) =~= src@);
}

/// Equality of two character vectors.
pub fn chars_eq(a: &Vec<char>, b: &Vec<char>) -> (r: bool)
    ensures
        r == (a@ == b@),
{
    if a.len() != b.len() {
        return false;
    }
    let mut i: usize = 0;
    while i < a.len()
        invariant
            i <= a@.len() == b@.len(),
            forall|j: int| 0 <= j < i ==> a@[j] == b@[j],
        decreases a@.len() - i,
    {
        if a[i] != b[i] {
            return false;
        }
        i = i + 1;
    }
    assert(a@ =~= b@);
    true
}

// ---------------------------------------------------------------------------
// Trimming
// ---------------------------------------------------------------------------

/// Number of leading whitespace characters.
pub open spec fn lead_ws(s: Seq<char>) -> nat
    decreases s.len(),
{
    if s.len() > 0 && is_ws(s[0]) {
        1 + lead_ws(s.drop_first())
    } else {
        0
    }
}

/// Number of trailing whitespace characters.
pub open spec fn trail_ws(s: Seq<char>) -> nat
    decreases s.len(),
{
    if s.len() > 0 && is_ws(s.last()) {
        1 + trail_ws(s.drop_last())
    } else {
        0
    }
}

/// `str::trim_start`.
pub open spec fn trim_start(s: Seq<char>) -> Seq<char> {
    s.skip(lead_ws(s) as int)
}

/// `str::trim_end`.
pub open spec fn trim_end(s: Seq<char>) -> Seq<char> {
    s.take(s.len() - trail_ws(s))
}

/// `str::trim`.
pub open spec fn trim(s: Seq<char>) -> Seq<char> {
    trim_end(trim_start(s))
}

pub proof fn lemma_lead_ws(s: Seq<char>, k: int)
    requires
        0 <= k <= s.len(),
        forall|j: int| 0 <= j < k ==> is_ws(#[trigger] s[j]),
        k == s.len() || !is_ws(s[k]),
    ensures
        lead_ws(s) == k,
    decreases k,
{
    if k > 0 {
        let t = s.drop_first();
        assert forall|j: int| 0 <= j < k - 1 implies is_ws(#[trigger] t[j]) by {
            assert(t[j] == s[j + 1]);
        }
        if k - 1 < t.len() {
            assert(t[k - 1] == s[k]);
        }
        lemma_lead_ws(t, k - 1);
    }
}

pub proof fn lemma_trail_ws(s: Seq<char>, k: int)
    requires
        0 <= k <= s.len(),
        forall|j: int| s.len() - k <= j < s.len() ==> is_ws(#[trigger] s[j]),
        k == s.len() || !is_ws(s[s.len() - k - 1]),
    ensures
        trail_ws(s) == k,
    decreases k,
{
    if k > 0 {
        let t = s.drop_last();
        assert forall|j: int| t.len() - (k - 1) <= j < t.len() implies is_ws(#[trigger] t[j]) by {
            assert(t[j] == s[j]);
        }
        if k - 1 < t.len() {
            assert(t[t.len() - (k - 1) - 1] == s[s.len() - k - 1]);
        }
        lemma_trail_ws(t, k - 1);
    }
}

pub proof fn lemma_lead_ws_bound(s: Seq<char>)
    ensures
        lead_ws(s) <= s.len(),
        forall|j: int| 0 <= j < lead_ws(s) ==> is_ws(#[trigger] s[j]),
        lead_ws(s) < s.len() ==> !is_ws(s[lead_ws(s) as int]),
    decreases s.len(),
{
    if s.len() > 0 && is_ws(s[0]) {
        lemma_lead_ws_bound(s.drop_first());
        assert forall|j: int| 0 <= j < lead_ws(s) implies is_ws(#[trigger] s[j]) by {
            if j > 0 {
                assert(s[j] == s.drop_first()[j - 1]);
            }
        }
        if lead_ws(s) < s.len() {
            assert(s[lead_ws(s) as int] == s.drop_first()[lead_ws(s) - 1]);
        }
    }
}

pub proof fn lemma_trail_ws_bound(s: Seq<char>)
    ensures
        trail_ws(s) <= s.len(),
        forall|j: int| s.len() - trail_ws(s) <= j < s.len() ==> is_ws(#[trigger] s[j]),
        trail_ws(s) < s.len() ==> !is_ws(s[s.len() - trail_ws(s) - 1]),
    decreases s.len(),
{
    if s.len() > 0 && is_ws(s.last()) {
        lemma_trail_ws_bound(s.drop_last());
        assert forall|j: int| s.len() - trail_ws(s) <= j < s.len() implies is_ws(
            #[trigger] s[j],
        ) by {
            if j < s.len() - 1 {
                assert(s[j] == s.drop_last()[j]);
            }
        }
        if trail_ws(s) < s.len() {
            assert(s[s.len() - trail_ws(s) - 1] == s.drop_last()[s.len() - trail_ws(s) - 1]);
        }
    }
}

/// The trimmed part of `v[lo..hi]`, as a range of `v`.
pub fn trim_range(v: &Vec<char>, lo: usize, hi: usize) -> (r: (usize, usize))
    requires
        lo <= hi <= v@.len(),
    ensures
        lo <= r.0 <= r.1 <= hi,
        v@.subrange(r.0 as int, r.1 as int) == trim(v@.subrange(lo as int, hi as int)),
        v@.subrange(r.0 as int, hi as int) == trim_start(v@.subrange(lo as int, hi as int)),
{
    let ghost s = v@.subrange(lo as int, hi as int);
    let mut a = lo;
    while a < hi && is_whitespace(v[a])
        invariant
            lo <= a <= hi <= v@.len(),
            forall|j: int| lo <= j < a ==> is_ws(#[trigger] v@[j]),
        decreases hi - a,
    {
        a = a + 1;
    }
    proof {
        assert forall|j: int| 0 <= j < a - lo implies is_ws(#[trigger] s[j]) by {
            assert(s[j] == v@[lo + j]);
        }
        if a < hi {
            assert(s[a - lo] == v@[a as int]);
        }
        lemma_lead_ws(s, a - lo);
        assert(trim_start(s) =~= v@.subrange(a as int, hi as int));
    }
    let ghost t = v@.subrange(a as int, hi as int);
    let mut b = hi;
    while b > a && is_whitespace(v[b - 1])
        invariant
            lo <= a <= b <= hi <= v@.len(),
            forall|j: int| b <= j < hi ==> is_ws(#[trigger] v@[j]),
        decreases b - a,
    {
        b = b - 1;
    }
    proof {
        assert forall|j: int| t.len() - (hi - b) <= j < t.len() implies is_ws(#[trigger] t[j]) by {
            assert(t[j] == v@[a + j]);
        }
        if b > a {
            assert(t[t.len() - (hi - b) - 1] == v@[b - 1]);
        }
        lemma_trail_ws(t, hi - b);
        assert(trim_end(t) =~= v@.subrange(a as int, b as int));
    }
    (a, b)
}

pub fn trim_vec(v: &Vec<char>) -> (r: Vec<char>)
    ensures
        r@ == trim(v@),
{
    let (a, b) = trim_range(v, 0, v.len());
    assert(v@.subrange(0, v@.len() as int) =~= v@);
    slice_vec(v, a, b)
}

pub fn trim_start_vec(v: &Vec<char>) -> (r: Vec<char>)
    ensures
        r@ == trim_start(v@),
{
    let (a, b) = trim_range(v, 0, v.len());
    assert(v@.subrange(0, v@.len() as int) =~= v@);
    slice_vec(v, a, v.len())
}

pub fn trim_end_vec(v: &Vec<char>) -> (r: Vec<char>)
    ensures
        r@ == trim_end(v@),
{
    let ghost s = v@;
    let mut b = v.len();
    while b > 0 && is_whitespace(v[b - 1])
        invariant
            b <= v@.len(),
            s == v@,
            forall|j: int| b <= j < v@.len() ==> is_ws(#[trigger] v@[j]),
        decreases b,
    {
        b = b - 1;
    }
    proof {
        lemma_trail_ws(s, s.len() - b);
    }
    slice_vec(v, 0, b)
}

/// Whether the trimmed line is empty, which holds exactly when every
/// character is whitespace.
pub proof fn lemma_trim_empty(s: Seq<char>)
    ensures
        (trim(s).len() == 0) <==> (forall|j: int| 0 <= j < s.len() ==> is_ws(#[trigger] s[j])),
{
    lemma_lead_ws_bound(s);
    let t = trim_start(s);
    lemma_trail_ws_bound(t);
    if trim(s).len() == 0 {
        assert forall|j: int| 0 <= j < s.len() implies is_ws(#[trigger] s[j]) by {
            if j >= lead_ws(s) {
                assert(s[j] == t[j - lead_ws(s)]);
            }
        }
    }
    if forall|j: int| 0 <= j < s.len() ==> is_ws(#[trigger] s[j]) {
        if lead_ws(s) < s.len() {
            assert(is_ws(s[lead_ws(s) as int]));
        }
    }
}

pub fn is_blank(v: &Vec<char>) -> (r: bool)
    ensures
        r == (trim(v@).len() == 0),
{
    proof {
        lemma_trim_empty(v@);
    }
    let mut i: usize = 0;
    while i < v.len()
        invariant
            i <= v@.len(),
            forall|j: int| 0 <= j < i ==> is_ws(#[trigger] v@[j]),
        decreases v@.len() - i,
    {
        if !is_whitespace(v[i]) {
            proof {
                lemma_trim_empty(v@);
            }
            return false;
        }
        i = i + 1;
    }
    proof {
        lemma_trim_empty(v@);
    }
    true
}

// ---------------------------------------------------------------------------
// Splitting and joining
// ---------------------------------------------------------------------------

pub open spec fn views(vs: Seq<Vec<char>>) -> Seq<Seq<char>> {
    vs.map_values(|v: Vec<char>| v@)
}

/// `str::split` on a single character: always at least one part.
pub open spec fn split(s: Seq<char>, sep: char) -> Seq<Seq<char>>
    decreases s.len(),
{
    if s.len() == 0 {
        seq![Seq::empty()]
    } else {
        let prev = split(s.drop_last(), sep);
        if s.last() == sep {
            prev.push(Seq::empty())
        } else {
            prev.update(prev.len() - 1, prev.last().push(s.last()))
        }
    }
}

/// `join` of a list of strings with a separator.
pub open spec fn join(parts: Seq<Seq<char>>, sep: Seq<char>) -> Seq<char>
    decreases parts.len(),
{
    if parts.len() == 0 {
        Seq::empty()
    } else if parts.len() == 1 {
        parts[0]
    } else {
        join(parts.drop_last(), sep) + sep + parts.last()
    }
}

pub proof fn lemma_split_len(s: Seq<char>, sep: char)
    ensures
        split(s, sep).len() >= 1,
    decreases s.len(),
{
    if s.len() > 0 {
        lemma_split_len(s.drop_last(), sep);
    }
}

/// `c` does not occur in `s`.
pub open spec fn free_of(s: Seq<char>, c: char) -> bool {
    forall|i: int| 0 <= i < s.len() ==> #[trigger] s[i] != c
}

pub proof fn lemma_split_parts_free(s: Seq<char>, c: char)
    ensures
        forall|k: int| 0 <= k < split(s, c).len() ==> free_of(#[trigger] split(s, c)[k], c),
    decreases s.len(),
{
    lemma_split_len(s, c);
    if s.len() > 0 {
        lemma_split_len(s.drop_last(), c);
        lemma_split_parts_free(s.drop_last(), c);
        let p = split(s.drop_last(), c);
        let q = split(s, c);
        assert forall|k: int| 0 <= k < q.len() implies free_of(#[trigger] q[k], c) by {
            if k < p.len() - 1 {
                assert(q[k] == p[k]);
            } else if k == p.len() - 1 {
                if s.last() == c {
                    assert(q[k] == p[k]);
                } else {
                    assert(free_of(p[k], c));
                    assert forall|i: int| 0 <= i < q[k].len() implies #[trigger] q[k][i] != c by {
                        if i < p[k].len() {
                            assert(q[k][i] == p[k][i]);
                        }
                    }
                }
            } else {
                assert(q[k] =~= Seq::<char>::empty());
            }
        }
    }
}

/// Appending text free of the separator extends the last part.
pub proof fn lemma_split_append_free(x: Seq<char>, y: Seq<char>, c: char)
    requires
        free_of(y, c),
    ensures
        split(x + y, c) == split(x, c).update(
            split(x, c).len() - 1,
            split(x, c).last() + y,
        ),
    decreases y.len(),
{
    lemma_split_len(x, c);
    if y.len() == 0 {
        assert(x + y =~= x);
        assert(split(x, c).last() + y =~= split(x, c).last());
        assert(split(x, c).update(split(x, c).len() - 1, split(x, c).last()) =~= split(x, c));
    } else {
        let y0 = y.drop_last();
        assert(free_of(y0, c)) by {
            assert forall|i: int| 0 <= i < y0.len() implies #[trigger] y0[i] != c by {
                assert(y0[i] == y[i]);
            }
        }
        lemma_split_append_free(x, y0, c);
        assert((x + y).drop_last() =~= x + y0);
        assert((x + y).last() == y.last());
        assert(y.last() != c);
        let p = split(x, c);
        assert((p.last() + y0).push(y.last()) =~= p.last() + y);
        assert(p.update(p.len() - 1, p.last() + y0).update(
            p.len() - 1,
            (p.last() + y0).push(y.last()),
        ) =~= p.update(p.len() - 1, p.last() + y));
    }
}

/// Splitting parts joined by a separator that none of them holds gives the
/// parts back.
pub proof fn lemma_split_join(ps: Seq<Seq<char>>, c: char)
    requires
        ps.len() >= 1,
        forall|k: int| 0 <= k < ps.len() ==> free_of(#[trigger] ps[k], c),
    ensures
        split(join(ps, seq![c]), c) == ps,
    decreases ps.len(),
{
    if ps.len() == 1 {
        lemma_split_append_free(Seq::empty(), ps[0], c);
        assert(Seq::<char>::empty() + ps[0] =~= ps[0]);
        assert(Seq::<char>::empty() + ps[0] =~= ps[0]);
        assert(seq![Seq::<char>::empty()].update(0, Seq::<char>::empty() + ps[0]) =~= ps);
    } else {
        let init = ps.drop_last();
        assert forall|k: int| 0 <= k < init.len() implies free_of(#[trigger] init[k], c) by {
            assert(init[k] == ps[k]);
        }
        lemma_split_join(init, c);
        let a = join(init, seq![c]);
        assert(free_of(ps.last(), c));
        assert((a + seq![c]).drop_last() =~= a);
        assert(split(a + seq![c], c) == init.push(Seq::empty()));
        lemma_split_append_free(a + seq![c], ps.last(), c);
        assert(a + seq![c] + ps.last() == join(ps, seq![c]));
        assert(Seq::<char>::empty() + ps.last() =~= ps.last());
        assert(init.push(Seq::empty()).update(init.len() as int, Seq::<char>::empty() + ps.last())
            =~= ps);
    }
}

pub fn split_chars(v: &Vec<char>, sep: char) -> (r: Vec<Vec<char>>)
    ensures
        views(r@) == split(v@, sep),
{
    let mut r: Vec<Vec<char>> = Vec::new();
    let mut cur: Vec<char> = Vec::new();
    let mut i: usize = 0;
    assert(v@.take(0) =~= Seq::<char>::empty());
    assert(views(r@).push(cur@) =~= split(v@.take(0), sep));
    while i < v.len()
        invariant
            i <= v@.len(),
            views(r@).push(cur@) == split(v@.take(i as int), sep),
        decreases v@.len() - i,
    {
        let c = v[i];
        let ghost prev = split(v@.take(i as int), sep);
        assert(v@.take(i + 1).drop_last() =~= v@.take(i as int));
        assert(v@.take(i + 1).last() == c);
        if c == sep {
            let done = cur;
            r.push(done);
            cur = Vec::new();
            assert(views(r@).push(cur@) =~= prev.push(Seq::empty()));
        } else {
            cur.push(c);
            assert(views(r@).push(cur@) =~= prev.update(prev.len() - 1, prev.last().push(c)));
        }
        i = i + 1;
    }
    assert(v@.take(v@.len() as int) =~= v@);
    r.push(cur);
    r
}

pub fn join_chars(parts: &Vec<Vec<char>>, sep: &Vec<char>) -> (r: Vec<char>)
    ensures
        r@ == join(views(parts@), sep@),
{
    let mut r: Vec<char> = Vec::new();
    let mut i: usize = 0;
    while i < parts.len()
        invariant
            i <= parts@.len(),
            r@ == join(views(parts@).take(i as int), sep@),
        decreases parts@.len() - i,
    {
        let ghost ps = views(parts@).take(i + 1);
        assert(ps.drop_last() =~= views(parts@).take(i as int));
        assert(ps.last() == parts@[i as int]@);
        if i > 0 {
            extend_vec(&mut r, sep);
        } else {
            assert(ps.len() == 1);
        }
        extend_vec(&mut r, &parts[i]);
        i = i + 1;
        proof {
            if i == 1 {
                assert(r@ =~= ps[0]);
            }
        }
    }
    assert(views(parts@).take(parts@.len() as int) =~= views(parts@));
    r
}

/// The parts that are not empty, in order.
pub open spec fn non_empty_parts(parts: Seq<Seq<char>>) -> Seq<Seq<char>>
    decreases parts.len(),
{
    if parts.len() == 0 {
        Seq::empty()
    } else {
        let prev = non_empty_parts(parts.drop_last());
        if parts.last().len() == 0 {
            prev
        } else {
            prev.push(parts.last())
        }
    }
}

pub proof fn lemma_non_empty_parts_len(parts: Seq<Seq<char>>)
    ensures
        non_empty_parts(parts).len() <= parts.len(),
    decreases parts.len(),
{
    if parts.len() > 0 {
        lemma_non_empty_parts_len(parts.drop_last());
    }
}

// ---------------------------------------------------------------------------
// Maximal runs
// ---------------------------------------------------------------------------

/// The maximal runs `[a, b)` of consecutive indices below `n` at which `p` holds,
/// in order.
pub open spec fn runs(p: spec_fn(int) -> bool, n: int) -> Seq<(int, int)>
    decreases n,
{
    if n <= 0 {
        Seq::empty()
    } else {
        let r = runs(p, n - 1);
        if !p(n - 1) {
            r
        } else if n >= 2 && p(n - 2) {
            r.update(r.len() - 1, (r.last().0, n))
        } else {
            r.push((n - 1, n))
        }
    }
}

/// Every run is non-empty, inside `[0, n)`, made of indices where `p` holds,
/// maximal, and the runs are in increasing order; the last run ends at `n`
/// exactly when `p(n - 1)` holds.
pub open spec fn runs_wf(p: spec_fn(int) -> bool, n: int, r: Seq<(int, int)>) -> bool {
    &&& forall|k: int| 0 <= k < r.len() ==> 0 <= (#[trigger] r[k]).0 < r[k].1 <= n
    &&& forall|k: int, j: int|
        #![trigger r[k], p(j)]
        0 <= k < r.len() && r[k].0 <= j < r[k].1 ==> p(j)
    &&& forall|k: int| 0 <= k < r.len() && (#[trigger] r[k]).0 > 0 ==> !p(r[k].0 - 1)
    &&& forall|k: int| 0 <= k < r.len() && (#[trigger] r[k]).1 < n ==> !p(r[k].1)
    &&& forall|k: int, j: int| 0 <= k < j < r.len() ==> (#[trigger] r[k]).1 < (#[trigger] r[j]).0
    &&& forall|j: int|
        0 <= j < n && #[trigger] p(j) ==> exists|k: int| #![trigger r[k]] 0 <= k < r.len() && r[k].0 <= j < r[k].1
    &&& (n > 0 && p(n - 1)) <==> (r.len() > 0 && r.last().1 == n)
}

pub proof fn lemma_runs_wf(p: spec_fn(int) -> bool, n: int)
    requires
        n >= 0,
    ensures
        runs_wf(p, n, runs(p, n)),
    decreases n,
{
    if n > 0 {
        lemma_runs_wf(p, n - 1);
        let r = runs(p, n - 1);
        let r2 = runs(p, n);
        if !p(n - 1) {
            assert forall|j: int| 0 <= j < n && #[trigger] p(j) implies exists|k: int|
                #![trigger r2[k]]
                0 <= k < r2.len() && r2[k].0 <= j < r2[k].1 by {
                assert(j < n - 1);
            }
        } else if n >= 2 && p(n - 2) {
            let k0 = r.len() - 1;
            assert forall|k: int, j: int|
                #![trigger r2[k], p(j)]
                0 <= k < r2.len() && r2[k].0 <= j < r2[k].1 implies p(j) by {
                if k == k0 && j == n - 1 {
                } else if k == k0 {
                    assert(r[k].0 <= j < r[k].1);
                } else {
                    assert(r[k].0 <= j < r[k].1);
                }
            }
            assert forall|j: int| 0 <= j < n && #[trigger] p(j) implies exists|k: int|
                #![trigger r2[k]]
                0 <= k < r2.len() && r2[k].0 <= j < r2[k].1 by {
                if j == n - 1 {
                    assert(r2[k0].0 <= j < r2[k0].1);
                } else {
                    let k = choose|k: int| #![trigger r[k]] 0 <= k < r.len() && r[k].0 <= j < r[k].1;
                    assert(r2[k].0 <= j < r2[k].1);
                }
            }
        } else {
            assert forall|j: int| 0 <= j < n && #[trigger] p(j) implies exists|k: int|
                #![trigger r2[k]]
                0 <= k < r2.len() && r2[k].0 <= j < r2[k].1 by {
                if j == n - 1 {
                    assert(r2[r.len() as int].0 <= j < r2[r.len() as int].1);
                } else {
                    let k = choose|k: int| #![trigger r[k]] 0 <= k < r.len() && r[k].0 <= j < r[k].1;
                    assert(r2[k].0 <= j < r2[k].1);
                }
            }
        }
    }
}

/// The subsequences that the runs select.
pub open spec fn run_texts(s: Seq<char>, r: Seq<(int, int)>) -> Seq<Seq<char>> {
    r.map_values(|x: (int, int)| s.subrange(x.0, x.1))
}

/// Indices of non-whitespace characters.
pub open spec fn non_ws_at(s: Seq<char>) -> spec_fn(int) -> bool {
    |i: int| !is_ws(s[i])
}

/// The whitespace-delimited pieces of `s`, as `str::split_whitespace` yields them.
pub open spec fn ws_words(s: Seq<char>) -> Seq<Seq<char>> {
    run_texts(s, runs(non_ws_at(s), s.len() as int))
}

pub open spec fn int_pairs(r: Seq<(usize, usize)>) -> Seq<(int, int)> {
    r.map_values(|x: (usize, usize)| (x.0 as int, x.1 as int))
}

/// The predicate that a vector of flags spells out.
pub open spec fn flag_at(flags: Seq<bool>) -> spec_fn(int) -> bool {
    |i: int| flags[i]
}

/// Runs only look at the predicate below `n`.
pub proof fn lemma_runs_ext(p: spec_fn(int) -> bool, q: spec_fn(int) -> bool, n: int)
    requires
        forall|i: int| #![trigger p(i)] #![trigger q(i)] 0 <= i < n ==> p(i) == q(i),
    ensures
        runs(p, n) == runs(q, n),
    decreases n,
{
    if n > 0 {
        lemma_runs_ext(p, q, n - 1);
    }
}

/// A block of `j` indices from `a` on where `p` holds, after an index where
/// it does not, adds one run.
pub proof fn lemma_runs_block(p: spec_fn(int) -> bool, a: int, j: int)
    requires
        a >= 0,
        j >= 1,
        a == 0 || !p(a - 1),
        forall|i: int| a <= i < a + j ==> #[trigger] p(i),
    ensures
        runs(p, a + j) == runs(p, a).push((a, a + j)),
    decreases j,
{
    if j > 1 {
        lemma_runs_block(p, a, j - 1);
        assert(p(a + j - 1) && p(a + j - 2));
    } else {
        assert(p(a));
    }
}

/// A word with no whitespace is its own only word.
pub proof fn lemma_ws_words_single(w: Seq<char>)
    requires
        w.len() > 0,
        forall|i: int| 0 <= i < w.len() ==> !is_ws(#[trigger] w[i]),
    ensures
        ws_words(w) == seq![w],
{
    let p = non_ws_at(w);
    assert forall|i: int| 0 <= i < w.len() implies #[trigger] p(i) by {
        assert(!is_ws(w[i]));
    }
    lemma_runs_block(p, 0, w.len() as int);
    assert(runs(p, 0) =~= Seq::<(int, int)>::empty());
    assert(w.subrange(0, w.len() as int) =~= w);
    assert(ws_words(w) =~= seq![w]);
}

/// Appending a space and a word with no whitespace adds that word.
pub proof fn lemma_ws_words_append(x: Seq<char>, w: Seq<char>)
    requires
        w.len() > 0,
        forall|i: int| 0 <= i < w.len() ==> !is_ws(#[trigger] w[i]),
    ensures
        ws_words(x + seq![' '] + w) == ws_words(x).push(w),
{
    let z = x + seq![' '] + w;
    let l = x.len() as int;
    let p = non_ws_at(z);
    let q = non_ws_at(x);
    assert forall|i: int| #![trigger p(i)] #![trigger q(i)] 0 <= i < l implies p(i) == q(i) by {
        assert(z[i] == x[i]);
    }
    lemma_runs_ext(p, q, l);
    assert(!p(l)) by {
        assert(z[l] == ' ');
    }
    assert(runs(p, l + 1) == runs(p, l));
    assert forall|i: int| l + 1 <= i < l + 1 + w.len() implies #[trigger] p(i) by {
        assert(z[i] == w[i - l - 1]);
    }
    lemma_runs_block(p, l + 1, w.len() as int);
    let r = runs(q, l);
    lemma_runs_wf(q, l);
    let rz = runs(p, z.len() as int);
    assert(rz == r.push((l + 1, l + 1 + w.len())));
    assert(z.subrange(l + 1, l + 1 + w.len()) =~= w);
    assert forall|k: int| 0 <= k < r.len() implies z.subrange(#[trigger] r[k].0, r[k].1)
        == x.subrange(r[k].0, r[k].1) by {
        assert(z.subrange(r[k].0, r[k].1) =~= x.subrange(r[k].0, r[k].1));
    }
    assert(ws_words(z) =~= ws_words(x).push(w));
}

/// Every whitespace-delimited word is non-empty and holds no whitespace.
pub proof fn lemma_ws_words_parts(s: Seq<char>)
    ensures
        forall|k: int| 0 <= k < ws_words(s).len() ==> (#[trigger] ws_words(s)[k]).len() > 0,
        forall|k: int, i: int|
            0 <= k < ws_words(s).len() && 0 <= i < ws_words(s)[k].len() ==> !is_ws(
                #[trigger] ws_words(s)[k][i],
            ),
{
    let p = non_ws_at(s);
    let r = runs(p, s.len() as int);
    lemma_runs_wf(p, s.len() as int);
    assert forall|k: int, i: int| 0 <= k < ws_words(s).len() && 0 <= i < ws_words(s)[k].len() implies !is_ws(
        #[trigger] ws_words(s)[k][i],
    ) by {
        assert(0 <= r[k].0 < r[k].1 <= s.len());
        assert(ws_words(s)[k][i] == s[r[k].0 + i]);
        assert(p(r[k].0 + i));
    }
}

/// Words with no whitespace, joined by single spaces, split back into
/// themselves.
pub proof fn lemma_ws_words_join(ws: Seq<Seq<char>>)
    requires
        forall|k: int| 0 <= k < ws.len() ==> (#[trigger] ws[k]).len() > 0,
        forall|k: int, i: int| 0 <= k < ws.len() && 0 <= i < ws[k].len() ==> !is_ws(#[trigger] ws[k][i]),
    ensures
        ws_words(join(ws, seq![' '])) == ws,
    decreases ws.len(),
{
    if ws.len() == 0 {
        assert(runs(non_ws_at(Seq::<char>::empty()), 0) =~= Seq::<(int, int)>::empty());
        assert(ws_words(Seq::<char>::empty()) =~= ws);
    } else if ws.len() == 1 {
        assert forall|i: int| 0 <= i < ws[0].len() implies !is_ws(#[trigger] ws[0][i]) by {}
        lemma_ws_words_single(ws[0]);
        assert(seq![ws[0]] =~= ws);
    } else {
        let init = ws.drop_last();
        assert forall|k: int| 0 <= k < init.len() implies (#[trigger] init[k]).len() > 0 by {
            assert(init[k] == ws[k]);
        }
        assert forall|k: int, i: int| 0 <= k < init.len() && 0 <= i < init[k].len() implies !is_ws(
            #[trigger] init[k][i],
        ) by {
            assert(init[k] == ws[k]);
        }
        lemma_ws_words_join(init);
        let last = ws.last();
        assert forall|i: int| 0 <= i < last.len() implies !is_ws(#[trigger] last[i]) by {
            assert(last == ws[ws.len() - 1]);
        }
        lemma_ws_words_append(join(init, seq![' ']), last);
        assert(init.push(last) =~= ws);
    }
}

/// The maximal runs of `true` flags.
pub fn flag_runs(flags: &Vec<bool>) -> (r: Vec<(usize, usize)>)
    ensures
        int_pairs(r@) == runs(flag_at(flags@), flags@.len() as int),
{
    let ghost p = flag_at(flags@);
    let mut r: Vec<(usize, usize)> = Vec::new();
    let mut start: Option<usize> = None;
    let mut i: usize = 0;
    assert(int_pairs(r@) =~= runs(p, 0));
    while i < flags.len()
        invariant
            i <= flags@.len(),
            p == flag_at(flags@),
            start is Some <==> (i > 0 && p(i - 1)),
            start matches Some(a) ==> a < i,
            runs(p, i as int) == (if let Some(a) = start {
                int_pairs(r@).push((a as int, i as int))
            } else {
                int_pairs(r@)
            }),
        decreases flags@.len() - i,
    {
        let ghost old_r = r@;
        if !flags[i] {
            if let Some(a) = start {
                r.push((a, i));
                start = None;
                assert(int_pairs(r@) =~= int_pairs(old_r).push((a as int, i as int)));
            }
        } else if start.is_none() {
            start = Some(i);
        } else {
            let ghost a = start.unwrap();
            assert(int_pairs(old_r).push((a as int, i as int)).update(
                int_pairs(old_r).len() as int,
                (a as int, i + 1),
            ) =~= int_pairs(old_r).push((a as int, i + 1)));
        }
        i = i + 1;
    }
    if let Some(a) = start {
        let ghost old_r = r@;
        r.push((a, flags.len()));
        assert(int_pairs(r@) =~= int_pairs(old_r).push((a as int, flags@.len() as int)));
    }
    r
}

/// The ranges of `runs(non_ws_at(s), s.len())`.
pub fn ws_word_ranges(v: &Vec<char>) -> (r: Vec<(usize, usize)>)
    ensures
        int_pairs(r@) == runs(non_ws_at(v@), v@.len() as int),
{
    let mut flags: Vec<bool> = Vec::new();
    let mut i: usize = 0;
    while i < v.len()
        invariant
            i <= v@.len(),
            flags@.len() == i,
            forall|j: int| 0 <= j < i ==> flags@[j] == !is_ws(v@[j]),
        decreases v@.len() - i,
    {
        flags.push(!is_whitespace(v[i]));
        i = i + 1;
    }
    proof {
        lemma_runs_ext(flag_at(flags@), non_ws_at(v@), v@.len() as int);
    }
    flag_runs(&flags)
}

/// Copies the pieces that a list of ranges selects.
pub fn range_texts(v: &Vec<char>, ranges: &Vec<(usize, usize)>) -> (r: Vec<Vec<char>>)
    requires
        forall|k: int| #![trigger ranges@[k]] 0 <= k < ranges@.len() ==> ranges@[k].0 <= ranges@[k].1 <= v@.len(),
    ensures
        r@.len() == ranges@.len(),
        forall|k: int|
            0 <= k < r@.len() ==> #[trigger] r@[k]@ == v@.subrange(
                ranges@[k].0 as int,
                ranges@[k].1 as int,
            ),
{
    let mut r: Vec<Vec<char>> = Vec::new();
    let mut k: usize = 0;
    while k < ranges.len()
        invariant
            k <= ranges@.len(),
            forall|k: int| #![trigger ranges@[k]] 0 <= k < ranges@.len() ==> ranges@[k].0 <= ranges@[k].1 <= v@.len(),
            r@.len() == k,
            forall|j: int|
                0 <= j < k ==> #[trigger] r@[j]@ == v@.subrange(
                    ranges@[j].0 as int,
                    ranges@[j].1 as int,
                ),
        decreases ranges@.len() - k,
    {
        let (a, b) = ranges[k];
        r.push(slice_vec(v, a, b));
        k = k + 1;
    }
    r
}

/// A text has no whitespace-delimited piece exactly when it is blank.
pub proof fn lemma_ws_words_blank(s: Seq<char>)
    ensures
        (ws_words(s).len() == 0) <==> (trim(s).len() == 0),
{
    lemma_trim_empty(s);
    lemma_runs_wf(non_ws_at(s), s.len() as int);
    let rr = runs(non_ws_at(s), s.len() as int);
    if rr.len() > 0 {
        let j = rr[0].0;
        assert(non_ws_at(s)(j));
    } else {
        assert forall|j: int| 0 <= j < s.len() implies is_ws(#[trigger] s[j]) by {
            if !is_ws(s[j]) {
                assert(non_ws_at(s)(j));
            }
        }
    }
}

/// `str::split_whitespace`, collected.
pub fn split_whitespace(v: &Vec<char>) -> (r: Vec<Vec<char>>)
    ensures
        views(r@) == ws_words(v@),
{
    let ranges = ws_word_ranges(v);
    proof {
        let rr = runs(non_ws_at(v@), v@.len() as int);
        lemma_runs_wf(non_ws_at(v@), v@.len() as int);
        assert forall|k: int| #![trigger ranges@[k]] 0 <= k < ranges@.len() implies ranges@[k].0
            <= ranges@[k].1 <= v@.len() by {
            assert(int_pairs(ranges@)[k] == rr[k]);
        }
    }
    let r = range_texts(v, &ranges);
    assert forall|k: int| 0 <= k < r@.len() implies views(r@)[k] == ws_words(v@)[k] by {
        assert(int_pairs(ranges@)[k] == runs(non_ws_at(v@), v@.len() as int)[k]);
    }
    assert(views(r@) =~= ws_words(v@));
    r
}

// ---------------------------------------------------------------------------
// UTF-8 widths
// ---------------------------------------------------------------------------

/// Bytes of the UTF-8 encoding of `c`.
pub open spec fn utf8_width(c: char) -> nat {
    if (c as u32) < 0x80 {
        1
    } else if (c as u32) < 0x800 {
        2
    } else if (c as u32) < 0x10000 {
        3
    } else {
        4
    }
}

/// Bytes of the UTF-8 encoding of `s`, which `str::len` returns.
pub open spec fn byte_len(s: Seq<char>) -> nat {
    encode_utf8(s).len()
}

/// Byte offset of the character at index `i`.
pub open spec fn byte_offset(s: Seq<char>, i: int) -> nat {
    byte_len(s.take(i))
}

/// `str::len`: the number of UTF-8 bytes, which always fits in `usize`.
pub fn str_byte_len(s: &str) -> (n: usize)
    ensures
        n == byte_len(s@),
{
    let b = s.as_bytes();
    proof {
        vstd::slice::axiom_spec_len(b);
    }
    b.len()
}

pub fn char_width(c: char) -> (r: usize)
    ensures
        r == utf8_width(c),
{
    let u = c as u32;
    if u < 0x80 {
        1
    } else if u < 0x800 {
        2
    } else if u < 0x10000 {
        3
    } else {
        4
    }
}

pub proof fn lemma_encode_concat(a: Seq<char>, b: Seq<char>)
    ensures
        encode_utf8(a + b) == encode_utf8(a) + encode_utf8(b),
    decreases a.len(),
{
    if a.len() == 0 {
        assert(a + b =~= b);
        assert(encode_utf8(a) =~= Seq::<u8>::empty());
        assert(encode_utf8(a) + encode_utf8(b) =~= encode_utf8(b));
    } else {
        assert((a + b).drop_first() =~= a.drop_first() + b);
        lemma_encode_concat(a.drop_first(), b);
        assert((a + b)[0] == a[0]);
        assert(encode_utf8(a + b) =~= encode_utf8(a) + encode_utf8(b));
    }
}

pub proof fn lemma_width_char(c: char)
    ensures
        encode_utf8(seq![c]).len() == utf8_width(c),
{
    broadcast use vstd::utf8::char_is_scalar;

    let s = seq![c];
    assert(s.drop_first() =~= Seq::<char>::empty());
    assert(encode_utf8(s.drop_first()) =~= Seq::<u8>::empty());
    assert(vstd::utf8::is_scalar(c as u32));
}

pub proof fn lemma_byte_len_push(s: Seq<char>, c: char)
    ensures
        byte_len(s.push(c)) == byte_len(s) + utf8_width(c),
{
    lemma_encode_concat(s, seq![c]);
    assert(s + seq![c] =~= s.push(c));
    lemma_width_char(c);
}

pub proof fn lemma_byte_offset_step(s: Seq<char>, i: int)
    requires
        0 <= i < s.len(),
    ensures
        byte_offset(s, i + 1) == byte_offset(s, i) + utf8_width(s[i]),
{
    assert(s.take(i + 1) =~= s.take(i).push(s[i]));
    lemma_byte_len_push(s.take(i), s[i]);
}

/// The byte offsets of every character, and of the end.
pub fn byte_offsets(v: &Vec<char>) -> (r: Vec<usize>)
    requires
        byte_len(v@) <= usize::MAX,
    ensures
        r@.len() == v@.len() + 1,
        forall|i: int| 0 <= i <= v@.len() ==> r@[i] == byte_offset(v@, i),
{
    let mut r: Vec<usize> = Vec::new();
    let mut acc: usize = 0;
    let mut i: usize = 0;
    assert(v@.take(0) =~= Seq::<char>::empty());
    assert(encode_utf8(Seq::<char>::empty()) =~= Seq::<u8>::empty());
    while i < v.len()
        invariant
            i <= v@.len(),
            byte_len(v@) <= usize::MAX,
            r@.len() == i,
            acc == byte_offset(v@, i as int),
            forall|j: int| 0 <= j < i ==> r@[j] == byte_offset(v@, j),
        decreases v@.len() - i,
    {
        r.push(acc);
        proof {
            lemma_byte_offset_step(v@, i as int);
            lemma_byte_offset_le(v@, i + 1);
        }
        acc = acc + char_width(v[i]);
        i = i + 1;
    }
    assert(v@.take(v@.len() as int) =~= v@);
    r.push(acc);
    r
}

pub proof fn lemma_byte_offset_le(s: Seq<char>, i: int)
    requires
        0 <= i <= s.len(),
    ensures
        byte_offset(s, i) <= byte_len(s),
{
    lemma_encode_concat(s.take(i), s.skip(i));
    assert(s.take(i) + s.skip(i) =~= s);
}


/// Every character of `s` satisfies `p`.
pub open spec fn all_chars(s: Seq<char>, p: spec_fn(char) -> bool) -> bool {
    forall|i: int| 0 <= i < s.len() ==> p(#[trigger] s[i])
}

/// Whitespace-delimited words keep a property that every character has.
pub proof fn lemma_ws_words_all(s: Seq<char>, p: spec_fn(char) -> bool)
    requires
        all_chars(s, p),
    ensures
        forall|k: int| 0 <= k < ws_words(s).len() ==> all_chars(#[trigger] ws_words(s)[k], p),
{
    let q = non_ws_at(s);
    let r = runs(q, s.len() as int);
    lemma_runs_wf(q, s.len() as int);
    assert forall|k: int| 0 <= k < ws_words(s).len() implies all_chars(#[trigger] ws_words(s)[k], p) by {
        assert(0 <= r[k].0 < r[k].1 <= s.len());
        assert forall|i: int| 0 <= i < ws_words(s)[k].len() implies p(#[trigger] ws_words(s)[k][i]) by {
            assert(ws_words(s)[k][i] == s[r[k].0 + i]);
        }
    }
}

/// Joining keeps a property that every part and the separator have.
pub proof fn lemma_join_all(ps: Seq<Seq<char>>, sep: Seq<char>, p: spec_fn(char) -> bool)
    requires
        forall|k: int| 0 <= k < ps.len() ==> all_chars(#[trigger] ps[k], p),
        all_chars(sep, p),
    ensures
        all_chars(join(ps, sep), p),
    decreases ps.len(),
{
    if ps.len() == 1 {
        assert(all_chars(ps[0], p));
    } else if ps.len() >= 2 {
        let init = ps.drop_last();
        assert forall|k: int| 0 <= k < init.len() implies all_chars(#[trigger] init[k], p) by {
            assert(init[k] == ps[k]);
        }
        lemma_join_all(init, sep, p);
        let a = join(init, sep);
        let l = ps.last();
        assert(all_chars(l, p)) by {
            assert(l == ps[ps.len() - 1]);
        }
        let j = join(ps, sep);
        assert(j == a + sep + l);
        assert forall|i: int| 0 <= i < j.len() implies p(#[trigger] j[i]) by {
            if i < a.len() {
                assert(j[i] == a[i]);
            } else if i < a.len() + sep.len() {
                assert(j[i] == sep[i - a.len()]);
            } else {
                assert(j[i] == l[i - a.len() - sep.len()]);
            }
        }
    }
}

/// Trimming keeps a property that every character has.
pub proof fn lemma_trim_all(s: Seq<char>, p: spec_fn(char) -> bool)
    requires
        all_chars(s, p),
    ensures
        all_chars(trim(s), p),
{
    lemma_lead_ws_bound(s);
    let t = trim_start(s);
    lemma_trail_ws_bound(t);
    let a = lead_ws(s) as int;
    assert forall|i: int| 0 <= i < trim(s).len() implies p(#[trigger] trim(s)[i]) by {
        assert(trim(s)[i] == s[a + i]);
    }
}

} // verus!
