//! Lightweight, line-based Markdown inspection: headings, links, images,
//! fenced code, frontmatter, outlines and plain text. Not a CommonMark parser.
pub mod code_fence;
pub mod frontmatter;
pub mod heading;
pub mod image;
pub mod link;
pub mod outline;
pub mod plain_text;

pub use code_fence::{extract_code_fences, MarkdownCodeFence};
pub use frontmatter::{extract_frontmatter, has_frontmatter, strip_frontmatter};
pub use heading::{extract_headings, MarkdownHeading};
pub use image::{extract_images, MarkdownImage};
pub use link::{extract_links, MarkdownLink};
pub use outline::{extract_outline, MarkdownOutline};
pub use plain_text::markdown_to_plain_text;

use vstd::prelude::*;
use crate::text::{
    alphanumeric, chars_of, extend_vec, is_alphanumeric, is_digit, is_ascii_digit, is_whitespace,
    is_ws, lower_map, slice_vec, split, split_chars, string_of, to_lowercase, trim, trim_start,
    trim_start_vec, trim_vec, views, lemma_split_len, ascii_lower, is_ascii_alnum, is_ascii_char,
    is_ascii_lower, lead_ws, lemma_lead_ws_bound, lemma_trail_ws_bound, trail_ws,
};
use crate::normalize::{lemma_trim_identity, trim_end_char};
use crate::case::{ascii_text, lemma_remove_concat, remove_char};

verus! {

// ---------------------------------------------------------------------------
// Lines of a document
// ---------------------------------------------------------------------------

pub open spec fn strip_cr(l: Seq<char>) -> Seq<char> {
    if l.len() > 0 && l.last() == '\r' {
        l.drop_last()
    } else {
        l
    }
}

/// The lines that `str::lines` yields: split at `\n`, a `\r` before a `\n`
/// dropped, and no empty line after a final line ending.
pub open spec fn strip_cr_all(parts: Seq<Seq<char>>) -> Seq<Seq<char>> {
    parts.map_values(|l: Seq<char>| strip_cr(l))
}

pub open spec fn md_lines(s: Seq<char>) -> Seq<Seq<char>> {
    let parts = split(s, '\n');
    let done = strip_cr_all(parts.drop_last());
    if parts.last().len() == 0 {
        done
    } else {
        done.push(parts.last())
    }
}

pub(crate) fn md_lines_of(v: &Vec<char>) -> (r: Vec<Vec<char>>)
    ensures
        views(r@) == md_lines(v@),
{
    let parts = split_chars(v, '\n');
    proof {
        lemma_split_len(v@, '\n');
    }
    let n = parts.len();
    let ghost ps = views(parts@);
    let mut out: Vec<Vec<char>> = Vec::new();
    let mut k: usize = 0;
    while k + 1 < n
        invariant
            n == parts@.len(),
            n >= 1,
            k + 1 <= n,
            ps == views(parts@),
            views(out@) == strip_cr_all(ps.drop_last()).take(k as int),
        decreases n - k,
    {
        let p = &parts[k];
        assert(ps[k as int] == p@);
        let t = if p.len() > 0 && p[p.len() - 1] == '\r' {
            slice_vec(p, 0, p.len() - 1)
        } else {
            slice_vec(p, 0, p.len())
        };
        assert(t@ =~= strip_cr(p@));
        let ghost prev = out@;
        out.push(t);
        assert(views(out@) =~= views(prev).push(t@));
        assert(strip_cr_all(ps.drop_last()).take(k + 1) =~= strip_cr_all(ps.drop_last()).take(
            k as int,
        ).push(t@));
        k = k + 1;
    }
    assert(strip_cr_all(ps.drop_last()).take(k as int) =~= strip_cr_all(ps.drop_last()));
    let last = &parts[n - 1];
    assert(ps.last() == last@);
    assert(ps == split(v@, '\n'));
    if last.len() > 0 {
        let t = slice_vec(last, 0, last.len());
        assert(t@ =~= last@);
        let ghost prev = out@;
        out.push(t);
        assert(views(out@) =~= views(prev).push(t@));
        assert(views(out@) == strip_cr_all(ps.drop_last()).push(ps.last()));
    } else {
        assert(views(out@) == strip_cr_all(ps.drop_last()));
    }
    out
}

// ---------------------------------------------------------------------------
// Small character helpers
// ---------------------------------------------------------------------------

/// `s` without up to `n` leading spaces.
pub open spec fn strip_spaces(s: Seq<char>, n: int) -> Seq<char>
    decreases n,
{
    if n > 0 && s.len() > 0 && s[0] == ' ' {
        strip_spaces(s.drop_first(), n - 1)
    } else {
        s
    }
}

/// Number of leading copies of `c`.
pub open spec fn run_len(s: Seq<char>, c: char) -> nat
    decreases s.len(),
{
    if s.len() > 0 && s[0] == c {
        1 + run_len(s.drop_first(), c)
    } else {
        0
    }
}

pub(crate) fn strip_up_to_three_leading_spaces(line: &Vec<char>) -> (r: Vec<char>)
    ensures
        r@ == strip_spaces(line@, 3),
{
    let mut i: usize = 0;
    assert(line@.skip(0) =~= line@);
    while i < 3 && i < line.len() && line[i] == ' '
        invariant
            i <= 3,
            i <= line@.len(),
            strip_spaces(line@, 3) == strip_spaces(line@.skip(i as int), 3 - i),
        decreases 3 - i,
    {
        assert(line@.skip(i as int).drop_first() =~= line@.skip(i + 1));
        i = i + 1;
    }
    proof {
        if i < line.len() {
            assert(line@.skip(i as int)[0] == line@[i as int]);
        }
    }
    slice_vec(line, i, line.len())
}

pub(crate) fn leading_run(s: &Vec<char>, c: char) -> (r: usize)
    ensures
        r == run_len(s@, c),
        r <= s@.len(),
{
    let mut i: usize = 0;
    assert(s@.skip(0) =~= s@);
    while i < s.len() && s[i] == c
        invariant
            i <= s@.len(),
            run_len(s@, c) == i + run_len(s@.skip(i as int), c),
        decreases s@.len() - i,
    {
        assert(s@.skip(i as int).drop_first() =~= s@.skip(i + 1));
        i = i + 1;
    }
    proof {
        if i < s.len() {
            assert(s@.skip(i as int)[0] == s@[i as int]);
        }
    }
    i
}

/// `s` without leading and trailing copies of `c`.
pub open spec fn trim_start_char(s: Seq<char>, c: char) -> Seq<char>
    decreases s.len(),
{
    if s.len() > 0 && s[0] == c {
        trim_start_char(s.drop_first(), c)
    } else {
        s
    }
}

pub open spec fn trim_char(s: Seq<char>, c: char) -> Seq<char> {
    trim_start_char(trim_end_char(s, c), c)
}

fn trim_dashes(v: &Vec<char>) -> (r: Vec<char>)
    ensures
        r@ == trim_char(v@, '-'),
{
    let mut end = v.len();
    assert(v@.take(end as int) =~= v@);
    while end > 0 && v[end - 1] == '-'
        invariant
            end <= v@.len(),
            trim_end_char(v@.take(end as int), '-') == trim_end_char(v@, '-'),
        decreases end,
    {
        assert(v@.take(end as int).drop_last() =~= v@.take(end - 1));
        end = end - 1;
    }
    let ghost t = v@.take(end as int);
    assert(trim_end_char(t, '-') == t);
    let mut start: usize = 0;
    assert(t.subrange(0, end as int) =~= t);
    while start < end && v[start] == '-'
        invariant
            start <= end <= v@.len(),
            t == v@.take(end as int),
            trim_start_char(t, '-') == trim_start_char(v@.subrange(start as int, end as int), '-'),
        decreases end - start,
    {
        assert(v@.subrange(start as int, end as int).drop_first() =~= v@.subrange(
            start + 1,
            end as int,
        ));
        start = start + 1;
    }
    proof {
        if start < end {
            assert(v@.subrange(start as int, end as int)[0] == v@[start as int]);
        }
    }
    slice_vec(v, start, end)
}

// ---------------------------------------------------------------------------
// Anchors
// ---------------------------------------------------------------------------

/// The anchor built so far and whether it ends in a separator just added.
pub open spec fn anchor_state(t: Seq<char>) -> (Seq<char>, bool)
    decreases t.len(),
{
    if t.len() == 0 {
        (Seq::empty(), false)
    } else {
        let (a, sep) = anchor_state(t.drop_last());
        let c = t.last();
        if alphanumeric(c) {
            (a + lower_map(c), false)
        } else if c == '\'' || c == '"' || c == '`' {
            (a, sep)
        } else if a.len() > 0 && !sep {
            (a.push('-'), true)
        } else {
            (a, sep)
        }
    }
}

/// What `heading_to_anchor` returns.
pub open spec fn anchor_of(text: Seq<char>) -> Seq<char> {
    trim_char(anchor_state(trim(text)).0, '-')
}

proof fn lemma_trim_start_char(s: Seq<char>, c: char)
    ensures
        trim_start_char(s, c).len() <= s.len(),
        trim_start_char(s, c) == s.skip(s.len() - trim_start_char(s, c).len()),
        trim_start_char(s, c).len() > 0 ==> trim_start_char(s, c)[0] != c,
    decreases s.len(),
{
    if s.len() > 0 && s[0] == c {
        lemma_trim_start_char(s.drop_first(), c);
        let k = s.len() - trim_start_char(s, c).len();
        assert(s.drop_first().skip(k - 1) =~= s.skip(k));
    } else {
        assert(s.skip(0) =~= s);
    }
}

proof fn lemma_trim_end_char(s: Seq<char>, c: char)
    ensures
        trim_end_char(s, c).len() > 0 ==> trim_end_char(s, c).last() != c,
    decreases s.len(),
{
    if s.len() > 0 && s.last() == c {
        lemma_trim_end_char(s.drop_last(), c);
    }
}

/// An anchor never starts or ends with `-`.
pub proof fn law_anchor_ends(text: Seq<char>)
    ensures
        anchor_of(text).len() > 0 ==> anchor_of(text)[0] != '-' && anchor_of(text).last() != '-',
{
    let u = trim_end_char(anchor_state(trim(text)).0, '-');
    lemma_trim_end_char(anchor_state(trim(text)).0, '-');
    lemma_trim_start_char(u, '-');
    let t = trim_start_char(u, '-');
    if t.len() > 0 {
        assert(t.last() == u.last());
    }
}

/// The ASCII letters and digits of `t`, lowercased, in order.
pub open spec fn ascii_alnum_lowered(t: Seq<char>) -> Seq<char>
    decreases t.len(),
{
    if t.len() == 0 {
        Seq::empty()
    } else if is_ascii_alnum(t.last()) {
        ascii_alnum_lowered(t.drop_last()).push(ascii_lower(t.last()))
    } else {
        ascii_alnum_lowered(t.drop_last())
    }
}

/// Lowercase ASCII letters, digits and `-`, never `-` at either end and
/// never two `-` side by side.
pub open spec fn anchor_shaped(r: Seq<char>) -> bool {
    &&& forall|i: int|
        0 <= i < r.len() ==> is_ascii_lower(#[trigger] r[i]) || is_ascii_digit(r[i]) || r[i] == '-'
    &&& r.len() > 0 ==> r[0] != '-' && r.last() != '-'
    &&& forall|i: int| 0 <= i < r.len() - 1 && #[trigger] r[i] == '-' ==> r[i + 1] != '-'
}

proof fn lemma_anchor_state_ascii(t: Seq<char>)
    requires
        ascii_text(t),
    ensures
        ({
            let (a, sep) = anchor_state(t);
            &&& forall|i: int|
                0 <= i < a.len() ==> is_ascii_lower(#[trigger] a[i]) || is_ascii_digit(a[i]) || a[i]
                    == '-'
            &&& a.len() > 0 ==> a[0] != '-'
            &&& forall|i: int| 0 <= i < a.len() - 1 && #[trigger] a[i] == '-' ==> a[i + 1] != '-'
            &&& sep <==> (a.len() > 0 && a.last() == '-')
            &&& remove_char(a, '-') == ascii_alnum_lowered(t)
        }),
    decreases t.len(),
{
    if t.len() > 0 {
        let init = t.drop_last();
        assert(ascii_text(init)) by {
            assert forall|i: int| 0 <= i < init.len() implies is_ascii_char(#[trigger] init[i]) by {
                assert(init[i] == t[i]);
            }
        }
        lemma_anchor_state_ascii(init);
        let (a, sep) = anchor_state(init);
        let c = t.last();
        assert(is_ascii_char(c));
        if is_ascii_alnum(c) {
            let a2 = a + seq![ascii_lower(c)];
            assert(a + lower_map(c) == a2);
            assert(a2.drop_last() =~= a);
            assert forall|i: int| 0 <= i < a2.len() - 1 && #[trigger] a2[i] == '-' implies a2[i
                + 1] != '-' by {
                assert(a2[i] == a[i]);
                if i + 1 < a.len() {
                    assert(a2[i + 1] == a[i + 1]);
                }
            }
            if a.len() > 0 {
                assert(a2[0] == a[0]);
            }
        } else if c == '\'' || c == '"' || c == '`' {
        } else if a.len() > 0 && !sep {
            let a2 = a.push('-');
            assert(a2.drop_last() =~= a);
            assert forall|i: int| 0 <= i < a2.len() - 1 && #[trigger] a2[i] == '-' implies a2[i
                + 1] != '-' by {
                assert(a2[i] == a[i]);
                if i + 1 < a.len() {
                    assert(a2[i + 1] == a[i + 1]);
                }
            }
            assert(a2[0] == a[0]);
        }
    }
}

proof fn lemma_trim_end_char_prefix(a: Seq<char>, c: char)
    ensures
        trim_end_char(a, c).len() <= a.len(),
        trim_end_char(a, c) == a.take(trim_end_char(a, c).len() as int),
        remove_char(trim_end_char(a, c), c) == remove_char(a, c),
    decreases a.len(),
{
    if a.len() > 0 && a.last() == c {
        lemma_trim_end_char_prefix(a.drop_last(), c);
        let k = trim_end_char(a, c).len() as int;
        assert(a.drop_last().take(k) =~= a.take(k));
    } else {
        assert(a.take(a.len() as int) =~= a);
    }
}

proof fn lemma_alnum_lowered_concat(x: Seq<char>, y: Seq<char>)
    ensures
        ascii_alnum_lowered(x + y) == ascii_alnum_lowered(x) + ascii_alnum_lowered(y),
    decreases y.len(),
{
    if y.len() == 0 {
        assert(x + y =~= x);
        assert(ascii_alnum_lowered(x) + ascii_alnum_lowered(y) =~= ascii_alnum_lowered(x));
    } else {
        lemma_alnum_lowered_concat(x, y.drop_last());
        assert((x + y).drop_last() =~= x + y.drop_last());
        if is_ascii_alnum(y.last()) {
            assert(ascii_alnum_lowered(x) + ascii_alnum_lowered(y) =~= (ascii_alnum_lowered(x)
                + ascii_alnum_lowered(y.drop_last())).push(ascii_lower(y.last())));
        }
    }
}

proof fn lemma_alnum_lowered_ws(w: Seq<char>)
    requires
        forall|i: int| 0 <= i < w.len() ==> is_ws(#[trigger] w[i]),
    ensures
        ascii_alnum_lowered(w) == Seq::<char>::empty(),
    decreases w.len(),
{
    if w.len() > 0 {
        let init = w.drop_last();
        assert forall|i: int| 0 <= i < init.len() implies is_ws(#[trigger] init[i]) by {
            assert(init[i] == w[i]);
        }
        lemma_alnum_lowered_ws(init);
        assert(is_ws(w.last()));
    }
}

proof fn lemma_anchor_state_of_anchor(r: Seq<char>, k: int)
    requires
        anchor_shaped(r),
        0 <= k <= r.len(),
    ensures
        anchor_state(r.take(k)) == (r.take(k), k > 0 && r[k - 1] == '-'),
    decreases k,
{
    if k > 0 {
        lemma_anchor_state_of_anchor(r, k - 1);
        let t = r.take(k);
        assert(t.drop_last() =~= r.take(k - 1));
        let c = r[k - 1];
        assert(t.last() == c);
        if c == '-' {
            assert(k - 1 > 0);
            assert(r[k - 2] != '-');
            assert(r.take(k - 1).push('-') =~= t);
        } else {
            assert(is_ascii_char(c));
            assert(r.take(k - 1) + seq![c] =~= t);
        }
    }
}

/// On ASCII text an anchor holds only lowercase letters, digits and single
/// inner `-`; without its `-` it is the letters and digits of the text,
/// lowercased; and the anchor of an anchor is itself.
pub proof fn law_anchor_ascii(text: Seq<char>)
    requires
        ascii_text(text),
    ensures
        anchor_shaped(anchor_of(text)),
        remove_char(anchor_of(text), '-') == ascii_alnum_lowered(text),
        anchor_of(anchor_of(text)) == anchor_of(text),
{
    // The trimmed text is a piece of the text between whitespace.
    lemma_lead_ws_bound(text);
    let l = lead_ws(text) as int;
    let st = trim_start(text);
    lemma_trail_ws_bound(st);
    let t = trim(text);
    let e = st.len() - trail_ws(st);
    assert(st =~= text.skip(l));
    assert(t =~= text.subrange(l, l + e));
    assert(text =~= text.take(l) + t + text.subrange(l + e, text.len() as int));
    assert(ascii_text(t)) by {
        assert forall|i: int| 0 <= i < t.len() implies is_ascii_char(#[trigger] t[i]) by {
            assert(t[i] == text[l + i]);
        }
    }
    let head = text.take(l);
    let tail = text.subrange(l + e, text.len() as int);
    assert forall|i: int| 0 <= i < head.len() implies is_ws(#[trigger] head[i]) by {}
    assert forall|i: int| 0 <= i < tail.len() implies is_ws(#[trigger] tail[i]) by {
        assert(tail[i] == st[e + i]);
    }
    lemma_alnum_lowered_ws(head);
    lemma_alnum_lowered_ws(tail);
    lemma_alnum_lowered_concat(head + t, tail);
    lemma_alnum_lowered_concat(head, t);
    assert(Seq::<char>::empty() + ascii_alnum_lowered(t) + Seq::<char>::empty() =~= ascii_alnum_lowered(t));
    // The anchor state, then the trimming of `-`.
    lemma_anchor_state_ascii(t);
    let a = anchor_state(t).0;
    lemma_trim_end_char_prefix(a, '-');
    let u = trim_end_char(a, '-');
    crate::markdown::lemma_trim_end_char(a, '-');
    if u.len() > 0 {
        assert(u[0] == a[0]);
        assert(trim_start_char(u, '-') == u);
    } else {
        assert(trim_start_char(u, '-') == u);
    }
    let r = anchor_of(text);
    assert(r == u);
    assert forall|i: int| 0 <= i < r.len() - 1 && #[trigger] r[i] == '-' implies r[i + 1] != '-' by {
        assert(r[i] == a[i] && r[i + 1] == a[i + 1]);
    }
    assert forall|i: int| 0 <= i < r.len() implies is_ascii_lower(#[trigger] r[i]) || is_ascii_digit(
        r[i],
    ) || r[i] == '-' by {
        assert(r[i] == a[i]);
    }
    // Idempotence.
    assert forall|i: int| 0 <= i < r.len() implies !is_ws(#[trigger] r[i]) by {
        assert(is_ascii_lower(r[i]) || is_ascii_digit(r[i]) || r[i] == '-');
    }
    lemma_trim_identity(r);
    lemma_anchor_state_of_anchor(r, r.len() as int);
    assert(r.take(r.len() as int) =~= r);
    if r.len() > 0 {
        assert(trim_end_char(r, '-') == r);
        assert(trim_start_char(r, '-') == r);
    } else {
        assert(trim_end_char(r, '-') == r);
    }
}

/// Every alphanumeric character of `t` mapped to lowercase, in order.
pub open spec fn alnum_lowered(t: Seq<char>) -> Seq<char>
    decreases t.len(),
{
    if t.len() == 0 {
        Seq::empty()
    } else if alphanumeric(t.last()) {
        alnum_lowered(t.drop_last()) + lower_map(t.last())
    } else {
        alnum_lowered(t.drop_last())
    }
}

proof fn lemma_anchor_state_letters(t: Seq<char>)
    ensures
        remove_char(anchor_state(t).0, '-') == remove_char(alnum_lowered(t), '-'),
    decreases t.len(),
{
    if t.len() > 0 {
        let init = t.drop_last();
        lemma_anchor_state_letters(init);
        let (a, sep) = anchor_state(init);
        let c = t.last();
        if alphanumeric(c) {
            lemma_remove_concat(a, lower_map(c), '-');
            lemma_remove_concat(alnum_lowered(init), lower_map(c), '-');
        } else if c == '\'' || c == '"' || c == '`' {
        } else if a.len() > 0 && !sep {
            assert(a.push('-').drop_last() =~= a);
        }
    }
}

proof fn lemma_trim_start_char_remove(u: Seq<char>, c: char)
    ensures
        remove_char(trim_start_char(u, c), c) == remove_char(u, c),
    decreases u.len(),
{
    if u.len() > 0 && u[0] == c {
        lemma_trim_start_char_remove(u.drop_first(), c);
        assert(u =~= seq![c] + u.drop_first());
        lemma_remove_concat(seq![c], u.drop_first(), c);
        assert(seq![c].drop_last() =~= Seq::<char>::empty());
        assert(remove_char(seq![c], c) == remove_char(Seq::<char>::empty(), c));
        assert(Seq::<char>::empty() + remove_char(u.drop_first(), c) =~= remove_char(
            u.drop_first(),
            c,
        ));
    }
}

/// Without its `-`, an anchor is every alphanumeric character of the trimmed
/// text (in Unicode's sense, not only ASCII) mapped to lowercase, in order.
pub proof fn law_anchor_letters(text: Seq<char>)
    ensures
        remove_char(anchor_of(text), '-') == remove_char(alnum_lowered(trim(text)), '-'),
{
    let a = anchor_state(trim(text)).0;
    lemma_anchor_state_letters(trim(text));
    lemma_trim_end_char_prefix(a, '-');
    lemma_trim_start_char_remove(trim_end_char(a, '-'), '-');
}

pub(crate) fn anchor_chars(text: &Vec<char>) -> (r: Vec<char>)
    ensures
        r@ == anchor_of(text@),
{
    let t = trim_vec(text);
    let mut anchor: Vec<char> = Vec::new();
    let mut previous_was_separator = false;
    let mut i: usize = 0;
    assert(t@.take(0) =~= Seq::<char>::empty());
    while i < t.len()
        invariant
            i <= t@.len(),
            t@ == trim(text@),
            (anchor@, previous_was_separator) == anchor_state(t@.take(i as int)),
        decreases t@.len() - i,
    {
        let c = t[i];
        assert(t@.take(i + 1).drop_last() =~= t@.take(i as int));
        assert(t@.take(i + 1).last() == c);
        if is_alphanumeric(c) {
            let lowered = to_lowercase(c);
            extend_vec(&mut anchor, &lowered);
            previous_was_separator = false;
        } else if c == '\'' || c == '"' || c == '`' {
        } else if anchor.len() > 0 && !previous_was_separator {
            anchor.push('-');
            previous_was_separator = true;
        }
        i = i + 1;
    }
    assert(t@.take(t@.len() as int) =~= t@);
    trim_dashes(&anchor)
}

/// Converts heading text into a practical GitHub-style anchor.
pub fn heading_to_anchor(text: &str) -> (r: String)
    ensures
        r@ == anchor_of(text@),
{
    let v = chars_of(text);
    let a = anchor_chars(&v);
    string_of(&a)
}

// ---------------------------------------------------------------------------
// Line predicates
// ---------------------------------------------------------------------------

pub open spec fn is_rule_marker(c: char) -> bool {
    c == '-' || c == '*' || c == '_'
}

/// Number of characters that are not whitespace.
pub open spec fn non_ws_count(s: Seq<char>) -> nat
    decreases s.len(),
{
    if s.len() == 0 {
        0
    } else {
        non_ws_count(s.drop_last()) + if is_ws(s.last()) {
            0nat
        } else {
            1nat
        }
    }
}

/// At least three non-whitespace characters, all the same rule marker.
pub open spec fn is_rule(s: Seq<char>) -> bool {
    &&& non_ws_count(s) >= 3
    &&& forall|i: int| 0 <= i < s.len() && !is_ws(#[trigger] s[i]) ==> is_rule_marker(s[i])
    &&& forall|i: int, j: int|
        0 <= i < s.len() && 0 <= j < s.len() && !is_ws(#[trigger] s[i]) && !is_ws(#[trigger] s[j])
            ==> s[i] == s[j]
}

proof fn lemma_non_ws_count_le(s: Seq<char>)
    ensures
        non_ws_count(s) <= s.len(),
    decreases s.len(),
{
    if s.len() > 0 {
        lemma_non_ws_count_le(s.drop_last());
    }
}

pub(crate) fn is_horizontal_rule_chars(line: &Vec<char>) -> (r: bool)
    ensures
        r == is_rule(trim(line@)),
{
    let t = trim_vec(line);
    proof {
        lemma_non_ws_count_le(t@);
    }
    if t.len() < 3 {
        return false;
    }
    let mut marker: Option<char> = None;
    let ghost mut first: int = 0;
    let mut count: usize = 0;
    let mut i: usize = 0;
    assert(t@.take(0) =~= Seq::<char>::empty());
    while i < t.len()
        invariant
            i <= t@.len(),
            t@ == trim(line@),
            count == non_ws_count(t@.take(i as int)),
            count <= i,
            forall|j: int| 0 <= j < i && !is_ws(#[trigger] t@[j]) ==> is_rule_marker(t@[j]),
            marker is None <==> count == 0,
            marker matches Some(m) ==> forall|j: int| 0 <= j < i && !is_ws(#[trigger] t@[j]) ==> t@[j] == m,
            marker matches Some(m) ==> 0 <= first < i && t@[first] == m && !is_ws(t@[first]),
            marker is None ==> forall|j: int| 0 <= j < i ==> is_ws(#[trigger] t@[j]),
        decreases t@.len() - i,
    {
        let c = t[i];
        assert(t@.take(i + 1).drop_last() =~= t@.take(i as int));
        assert(t@.take(i + 1).last() == c);
        if is_whitespace(c) {
            i = i + 1;
            continue;
        }
        if !(c == '-' || c == '*' || c == '_') {
            assert(!is_rule(t@)) by {
                assert(!is_ws(t@[i as int]));
            }
            return false;
        }
        match marker {
            Some(existing) => {
                if existing != c {
                    assert(!is_rule(t@)) by {
                        assert(!is_ws(t@[first]) && !is_ws(t@[i as int]));
                    }
                    return false;
                }
            },
            None => {
                marker = Some(c);
                proof {
                    first = i as int;
                }
            },
        }
        count = count + 1;
        i = i + 1;
    }
    assert(t@.take(i as int) =~= t@);
    count >= 3
}

/// Returns `true` when a line looks like a Markdown horizontal rule.
pub fn is_horizontal_rule(line: &str) -> (r: bool)
    ensures
        r == is_rule(trim(line@)),
{
    let v = chars_of(line);
    is_horizontal_rule_chars(&v)
}

/// Returns `true` when a line starts with a Markdown blockquote marker.
pub fn is_blockquote(line: &str) -> (r: bool)
    ensures
        r == (trim_start(line@).len() > 0 && trim_start(line@)[0] == '>'),
{
    let v = chars_of(line);
    let t = trim_start_vec(&v);
    t.len() > 0 && t[0] == '>'
}

/// The content after an unordered list marker (`-`, `*` or `+` and one
/// whitespace character).
pub open spec fn unordered_content(line: Seq<char>) -> Option<Seq<char>> {
    let t = trim_start(line);
    if t.len() >= 2 && (t[0] == '-' || t[0] == '*' || t[0] == '+') && is_ws(t[1]) {
        Some(t.skip(2))
    } else {
        None
    }
}

/// Number of leading ASCII digits.
pub open spec fn digit_run(s: Seq<char>) -> nat
    decreases s.len(),
{
    if s.len() > 0 && is_ascii_digit(s[0]) {
        1 + digit_run(s.drop_first())
    } else {
        0
    }
}

/// The content after an ordered list marker (digits, `.` or `)`, and one
/// whitespace character).
pub open spec fn ordered_content(line: Seq<char>) -> Option<Seq<char>> {
    let t = trim_start(line);
    let d = digit_run(t) as int;
    if d > 0 && d + 1 < t.len() && (t[d] == '.' || t[d] == ')') && is_ws(t[d + 1]) {
        Some(t.skip(d + 2))
    } else {
        None
    }
}

pub(crate) fn unordered_list_item_content(line: &Vec<char>) -> (r: Option<Vec<char>>)
    ensures
        r matches Some(c) ==> unordered_content(line@) == Some(c@),
        r is None ==> unordered_content(line@) is None,
{
    let t = trim_start_vec(line);
    if t.len() == 0 {
        return None;
    }
    let marker = t[0];
    if !(marker == '-' || marker == '*' || marker == '+') {
        return None;
    }
    if t.len() < 2 || !is_whitespace(t[1]) {
        return None;
    }
    Some(slice_vec(&t, 2, t.len()))
}

pub(crate) fn ordered_list_item_content(line: &Vec<char>) -> (r: Option<Vec<char>>)
    ensures
        r matches Some(c) ==> ordered_content(line@) == Some(c@),
        r is None ==> ordered_content(line@) is None,
{
    let t = trim_start_vec(line);
    let mut d: usize = 0;
    assert(t@.skip(0) =~= t@);
    while d < t.len() && is_digit(t[d])
        invariant
            d <= t@.len(),
            digit_run(t@) == d + digit_run(t@.skip(d as int)),
        decreases t@.len() - d,
    {
        assert(t@.skip(d as int).drop_first() =~= t@.skip(d + 1));
        d = d + 1;
    }
    proof {
        if d < t.len() {
            assert(t@.skip(d as int)[0] == t@[d as int]);
        }
    }
    if d == 0 {
        return None;
    }
    if d >= t.len() {
        return None;
    }
    let marker = t[d];
    if !(marker == '.' || marker == ')') {
        return None;
    }
    if d + 1 >= t.len() || !is_whitespace(t[d + 1]) {
        return None;
    }
    Some(slice_vec(&t, d + 2, t.len()))
}

/// Returns `true` when a line starts with an unordered list marker.
pub fn is_unordered_list_item(line: &str) -> (r: bool)
    ensures
        r == unordered_content(line@) is Some,
{
    let v = chars_of(line);
    unordered_list_item_content(&v).is_some()
}

/// Returns `true` when a line starts with an ordered list marker.
pub fn is_ordered_list_item(line: &str) -> (r: bool)
    ensures
        r == ordered_content(line@) is Some,
{
    let v = chars_of(line);
    ordered_list_item_content(&v).is_some()
}

} // verus!
