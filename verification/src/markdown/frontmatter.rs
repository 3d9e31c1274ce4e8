//! Frontmatter: a `---` (YAML-like) or `+++` (TOML-like) block at the very
//! top of a document, possibly after a byte order mark.
use vstd::prelude::*;
use vstd::string::StrSliceExecFns;
use crate::markdown::md_lines;
use crate::text::{
    chars_eq, chars_of, free_of, is_ws, lead_ws, lemma_lead_ws, lemma_lead_ws_bound, lemma_split_append_free,
    lemma_split_len, lemma_trim_empty, slice_vec, split, trail_ws, trim, trim_end, trim_start,
    trim_vec,
};

verus! {

/// The first index from `start` on that holds `c`.
pub open spec fn find_char_from(s: Seq<char>, c: char, start: int) -> Option<int>
    decreases s.len() - start,
{
    if start < 0 || start >= s.len() {
        None
    } else if s[start] == c {
        Some(start)
    } else {
        find_char_from(s, c, start + 1)
    }
}

pub proof fn lemma_find_char_from(s: Seq<char>, c: char, start: int)
    ensures
        find_char_from(s, c, start) matches Some(j) ==> 0 <= start <= j < s.len() && s[j] == c
            && forall|i: int| start <= i < j ==> #[trigger] s[i] != c,
        find_char_from(s, c, start) is None ==> forall|j: int|
            0 <= start <= j < s.len() ==> #[trigger] s[j] != c,
    decreases s.len() - start,
{
    if 0 <= start < s.len() && s[start] != c {
        lemma_find_char_from(s, c, start + 1);
    }
}

/// The line that starts at `start`: its start, the index after its line
/// ending, and its text without `\r\n` or `\n`.
pub open spec fn next_line(s: Seq<char>, start: int) -> Option<(int, int, Seq<char>)> {
    if start < 0 || start >= s.len() {
        None
    } else {
        match find_char_from(s, '\n', start) {
            Some(j) => {
                let content_end = if j > start && s[j - 1] == '\r' {
                    j - 1
                } else {
                    j
                };
                Some((start, j + 1, s.subrange(start, content_end)))
            },
            None => Some((start, s.len() as int, s.subrange(start, s.len() as int))),
        }
    }
}

pub proof fn lemma_next_line(s: Seq<char>, start: int)
    ensures
        next_line(s, start) matches Some((a, b, l)) ==> a == start && 0 <= a < b <= s.len() && l.len()
            <= b - a,
{
    lemma_find_char_from(s, '\n', start);
}

/// Scans the lines from `offset` for the closing fence: the start and end of
/// the closing line and the number of lines read, counting `count` before.
pub open spec fn fm_scan(s: Seq<char>, fence: Seq<char>, offset: int, count: int) -> Option<(int, int, int)>
    decreases s.len() - offset,
{
    match next_line(s, offset) {
        None => None,
        Some((ls, le, line)) => {
            if trim(line) == fence {
                Some((ls, le, count + 1))
            } else {
                proof {
                    lemma_next_line(s, offset);
                }
                fm_scan(s, fence, le, count + 1)
            }
        },
    }
}

/// `s` without trailing `\r` and `\n` characters.
pub open spec fn trim_end_breaks(s: Seq<char>) -> Seq<char>
    decreases s.len(),
{
    if s.len() > 0 && (s.last() == '\r' || s.last() == '\n') {
        trim_end_breaks(s.drop_last())
    } else {
        s
    }
}

pub open spec fn opening_fence(line: Seq<char>) -> Option<Seq<char>> {
    let t = trim(line);
    if t == seq!['-', '-', '-'] || t == seq!['+', '+', '+'] {
        Some(t)
    } else {
        None
    }
}

pub open spec fn bom_len(s: Seq<char>) -> int {
    if s.len() > 0 && s[0] == '\u{feff}' {
        1
    } else {
        0
    }
}

/// The frontmatter of `s`, as character offsets: where its content starts and
/// ends, where the block ends, and how many lines it spans.
pub open spec fn frontmatter_bounds(s: Seq<char>) -> Option<(int, int, int, int)> {
    match next_line(s, bom_len(s)) {
        None => None,
        Some((_, first_end, first)) => match opening_fence(first) {
            None => None,
            Some(f) => match fm_scan(s, f, first_end, 1) {
                None => None,
                Some((ls, le, count)) => Some(
                    (
                        first_end,
                        first_end + trim_end_breaks(s.subrange(first_end, ls)).len(),
                        le,
                        count,
                    ),
                ),
            },
        },
    }
}

/// Number of lines the frontmatter spans, zero without one.
pub open spec fn frontmatter_lines(s: Seq<char>) -> int {
    match frontmatter_bounds(s) {
        Some(b) => b.3,
        None => 0,
    }
}

proof fn lemma_fm_scan(s: Seq<char>, fence: Seq<char>, offset: int, count: int)
    requires
        0 <= offset,
    ensures
        fm_scan(s, fence, offset, count) matches Some((ls, le, c)) ==> offset <= ls < le <= s.len(),
    decreases s.len() - offset,
{
    lemma_next_line(s, offset);
    if let Some((ls, le, line)) = next_line(s, offset) {
        if trim(line) != fence {
            lemma_fm_scan(s, fence, le, count + 1);
        }
    }
}

proof fn lemma_trim_end_breaks_len(s: Seq<char>)
    ensures
        trim_end_breaks(s).len() <= s.len(),
        trim_end_breaks(s) == s.take(trim_end_breaks(s).len() as int),
    decreases s.len(),
{
    if s.len() > 0 && (s.last() == '\r' || s.last() == '\n') {
        lemma_trim_end_breaks_len(s.drop_last());
        assert(s.drop_last().take(trim_end_breaks(s).len() as int) =~= s.take(
            trim_end_breaks(s).len() as int,
        ));
    } else {
        assert(s.take(s.len() as int) =~= s);
    }
}

pub proof fn lemma_frontmatter_bounds(s: Seq<char>)
    ensures
        frontmatter_bounds(s) matches Some((cs, ce, fe, n)) ==> 0 <= cs <= ce <= fe <= s.len()
            && n >= 2,
{
    lemma_next_line(s, bom_len(s));
    if let Some((_, first_end, first)) = next_line(s, bom_len(s)) {
        if let Some(f) = opening_fence(first) {
            lemma_fm_scan(s, f, first_end, 1);
            lemma_fm_scan_count(s, f, first_end, 1);
            if let Some((ls, le, count)) = fm_scan(s, f, first_end, 1) {
                lemma_trim_end_breaks_len(s.subrange(first_end, ls));
            }
        }
    }
}

proof fn lemma_fm_scan_count(s: Seq<char>, fence: Seq<char>, offset: int, count: int)
    ensures
        fm_scan(s, fence, offset, count) matches Some((ls, le, c)) ==> c > count,
    decreases s.len() - offset,
{
    lemma_next_line(s, offset);
    if let Some((ls, le, line)) = next_line(s, offset) {
        if trim(line) != fence {
            lemma_fm_scan_count(s, fence, le, count + 1);
        }
    }
}

/// Frontmatter bounds as character offsets.
#[derive(Clone, Copy, Debug, Eq, PartialEq, Structural)]
pub(crate) struct FrontmatterBounds {
    pub content_start: usize,
    pub content_end: usize,
    pub full_end: usize,
    pub line_count: usize,
}

fn next_line_exec(v: &Vec<char>, start: usize) -> (r: Option<(usize, usize, Vec<char>)>)
    ensures
        match (r, next_line(v@, start as int)) {
            (Some((a, b, l)), Some((sa, sb, sl))) => a == sa && b == sb && l@ == sl,
            (None, None) => true,
            _ => false,
        },
{
    if start >= v.len() {
        return None;
    }
    let mut j = start;
    while j < v.len() && v[j] != '\n'
        invariant
            start <= j <= v@.len(),
            find_char_from(v@, '\n', start as int) == find_char_from(v@, '\n', j as int),
        decreases v@.len() - j,
    {
        j = j + 1;
    }
    if j < v.len() {
        let content_end = if j > start && v[j - 1] == '\r' {
            j - 1
        } else {
            j
        };
        Some((start, j + 1, slice_vec(v, start, content_end)))
    } else {
        Some((start, v.len(), slice_vec(v, start, v.len())))
    }
}

fn trailing_break_len(v: &Vec<char>, lo: usize, hi: usize) -> (r: usize)
    requires
        lo <= hi <= v@.len(),
    ensures
        r as int == trim_end_breaks(v@.subrange(lo as int, hi as int)).len(),
        r <= hi - lo,
{
    let mut end = hi;
    assert(v@.subrange(lo as int, hi as int) =~= v@.subrange(lo as int, end as int));
    while end > lo && (v[end - 1] == '\r' || v[end - 1] == '\n')
        invariant
            lo <= end <= hi <= v@.len(),
            trim_end_breaks(v@.subrange(lo as int, hi as int)) == trim_end_breaks(
                v@.subrange(lo as int, end as int),
            ),
        decreases end - lo,
    {
        assert(v@.subrange(lo as int, end as int).drop_last() =~= v@.subrange(
            lo as int,
            end - 1,
        ));
        end = end - 1;
    }
    end - lo
}

fn is_fence_line(t: &Vec<char>) -> (r: bool)
    ensures
        r == (t@ == seq!['-', '-', '-'] || t@ == seq!['+', '+', '+']),
{
    let r = t.len() == 3 && ((t[0] == '-' && t[1] == '-' && t[2] == '-') || (t[0] == '+' && t[1]
        == '+' && t[2] == '+'));
    proof {
        if t@.len() == 3 {
            if r {
                if t@[0] == '-' {
                    assert(t@ =~= seq!['-', '-', '-']);
                } else {
                    assert(t@ =~= seq!['+', '+', '+']);
                }
            }
        }
    }
    r
}

pub(crate) fn detect_frontmatter_bounds(v: &Vec<char>) -> (r: Option<FrontmatterBounds>)
    ensures
        match (r, frontmatter_bounds(v@)) {
            (Some(b), Some((cs, ce, fe, n))) => b.content_start == cs && b.content_end == ce
                && b.full_end == fe && b.line_count == n,
            (None, None) => true,
            _ => false,
        },
{
    let bom: usize = if v.len() > 0 && v[0] == '\u{feff}' {
        1
    } else {
        0
    };
    let first = next_line_exec(v, bom);
    proof {
        lemma_next_line(v@, bom as int);
    }
    let (first_start, first_end, first_line) = match first {
        Some(x) => x,
        None => {
            return None;
        },
    };
    let fence = trim_vec(&first_line);
    if !is_fence_line(&fence) {
        return None;
    }
    let ghost f = fence@;
    let content_start = first_end;
    assert(opening_fence(first_line@) == Some(f));
    let mut line_count: usize = 1;
    let mut offset = first_end;
    while offset < v.len()
        invariant
            first_end <= offset <= v@.len(),
            content_start == first_end,
            1 <= line_count <= offset,
            f == fence@,
            frontmatter_bounds(v@) == match fm_scan(v@, f, first_end as int, 1) {
                None => None,
                Some((ls, le, count)) => Some(
                    (
                        first_end as int,
                        first_end + trim_end_breaks(v@.subrange(first_end as int, ls)).len(),
                        le,
                        count,
                    ),
                ),
            },
            fm_scan(v@, f, first_end as int, 1) == fm_scan(
                v@,
                f,
                offset as int,
                line_count as int,
            ),
        decreases v@.len() - offset,
    {
        let next = next_line_exec(v, offset);
        proof {
            lemma_next_line(v@, offset as int);
        }
        let (line_start, line_end, line) = match next {
            Some(x) => x,
            None => {
                return None;
            },
        };
        assert(line_start == offset && offset < line_end <= v@.len());
        line_count = line_count + 1;
        let t = trim_vec(&line);
        if chars_eq(&t, &fence) {
            let n = trailing_break_len(v, content_start, line_start);
            return Some(
                FrontmatterBounds {
                    content_start,
                    content_end: content_start + n,
                    full_end: line_end,
                    line_count,
                },
            );
        }
        offset = line_end;
    }
    None
}

pub(crate) fn frontmatter_line_count(v: &Vec<char>) -> (r: usize)
    ensures
        r == frontmatter_lines(v@),
{
    match detect_frontmatter_bounds(v) {
        Some(b) => b.line_count,
        None => 0,
    }
}

/// Extracts top-of-document frontmatter contents without the boundary lines.
pub fn extract_frontmatter(markdown: &str) -> (r: Option<&str>)
    ensures
        r is Some <==> frontmatter_bounds(markdown@) is Some,
        r matches Some(x) ==> (frontmatter_bounds(markdown@) matches Some(b) && x@
            == markdown@.subrange(b.0, b.1)),
{
    let v = chars_of(markdown);
    proof {
        lemma_frontmatter_bounds(v@);
    }
    match detect_frontmatter_bounds(&v) {
        Some(b) => Some(markdown.substring_char(b.content_start, b.content_end)),
        None => None,
    }
}

/// Returns `true` when the document starts with YAML-like or TOML-like frontmatter.
pub fn has_frontmatter(markdown: &str) -> (r: bool)
    ensures
        r == frontmatter_bounds(markdown@) is Some,
{
    let v = chars_of(markdown);
    detect_frontmatter_bounds(&v).is_some()
}

/// Returns the document without a leading frontmatter block.
pub fn strip_frontmatter(markdown: &str) -> (r: &str)
    ensures
        r@ == match frontmatter_bounds(markdown@) {
            Some(b) => markdown@.subrange(b.2, markdown@.len() as int),
            None => markdown@,
        },
{
    let v = chars_of(markdown);
    proof {
        lemma_frontmatter_bounds(v@);
    }
    match detect_frontmatter_bounds(&v) {
        Some(b) => markdown.substring_char(b.full_end, v.len()),
        None => markdown,
    }
}


// ---------------------------------------------------------------------------
// Laws
// ---------------------------------------------------------------------------

/// A whitespace character at the end does not change the trimmed text.
pub proof fn lemma_trim_push_ws(y: Seq<char>, w: char)
    requires
        is_ws(w),
    ensures
        trim(y.push(w)) == trim(y),
{
    let x = y.push(w);
    lemma_trim_empty(y);
    lemma_trim_empty(x);
    lemma_lead_ws_bound(y);
    if lead_ws(y) == y.len() {
        assert forall|j: int| 0 <= j < x.len() implies is_ws(#[trigger] x[j]) by {
            if j < y.len() {
                assert(x[j] == y[j]);
            }
        }
        assert(trim(x) =~= trim(y));
    } else {
        let l = lead_ws(y) as int;
        assert forall|j: int| 0 <= j < l implies is_ws(#[trigger] x[j]) by {
            assert(x[j] == y[j]);
        }
        assert(x[l] == y[l]);
        lemma_lead_ws(x, l);
        let ts = trim_start(y);
        assert(trim_start(x) =~= ts.push(w));
        assert(ts.push(w).drop_last() =~= ts);
        assert(trail_ws(ts.push(w)) == 1 + trail_ws(ts));
        crate::text::lemma_trail_ws_bound(ts);
        assert(trim_end(ts.push(w)) =~= trim_end(ts));
    }
}

/// Splitting at `c` after a first piece free of `c`.
proof fn lemma_split_front(a: Seq<char>, b: Seq<char>, c: char)
    requires
        free_of(a, c),
    ensures
        split(a + seq![c] + b, c) == seq![a] + split(b, c),
    decreases b.len(),
{
    lemma_split_len(b, c);
    if b.len() == 0 {
        lemma_split_append_free(Seq::empty(), a, c);
        assert(Seq::<char>::empty() + a =~= a);
        assert(split(a, c) =~= seq![a]);
        assert(a + seq![c] + b =~= a.push(c));
        assert(a.push(c).drop_last() =~= a);
        assert(split(a.push(c), c) =~= seq![a, Seq::<char>::empty()]);
        assert(seq![a] + split(b, c) =~= seq![a, Seq::<char>::empty()]);
    } else {
        let b0 = b.drop_last();
        lemma_split_front(a, b0, c);
        lemma_split_len(b0, c);
        let x = a + seq![c] + b;
        assert(x.drop_last() =~= a + seq![c] + b0);
        assert(x.last() == b.last());
        let p = split(b0, c);
        if b.last() == c {
            assert((seq![a] + p).push(Seq::empty()) =~= seq![a] + p.push(Seq::empty()));
        } else {
            let q = seq![a] + p;
            assert(q.update(q.len() - 1, q.last().push(b.last())) =~= seq![a] + p.update(
                p.len() - 1,
                p.last().push(b.last()),
            ));
        }
    }
}

/// The line at `o` and the pieces of the text from `o` split at `\n`: the
/// line trims like the first piece, and a later piece trims to a non-empty
/// `f` exactly when a piece of the text after the line does.
proof fn lemma_next_line_split(s: Seq<char>, o: int, f: Seq<char>)
    requires
        0 <= o < s.len(),
        f.len() > 0,
    ensures
        next_line(s, o) matches Some((a, e, line)) && o < e <= s.len() && trim(line) == trim(
            split(s.skip(o), '\n')[0],
        ) && ((exists|k: int|
            1 <= k < split(s.skip(o), '\n').len() && #[trigger] trim(split(s.skip(o), '\n')[k])
                == f) <==> (exists|k: int|
            0 <= k < split(s.skip(e), '\n').len() && #[trigger] trim(split(s.skip(e), '\n')[k])
                == f)),
{
    crate::markdown::frontmatter::lemma_find_char_from(s, '\n', o);
    let u = s.skip(o);
    match find_char_from(s, '\n', o) {
        Some(j) => {
            let p0 = s.subrange(o, j);
            assert(free_of(p0, '\n')) by {
                assert forall|i: int| 0 <= i < p0.len() implies #[trigger] p0[i] != '\n' by {
                    assert(p0[i] == s[o + i]);
                }
            }
            assert(u =~= p0 + seq!['\n'] + s.skip(j + 1));
            lemma_split_front(p0, s.skip(j + 1), '\n');
            let ls = split(u, '\n');
            let rest = split(s.skip(j + 1), '\n');
            assert(ls == seq![p0] + rest);
            if j > o && s[j - 1] == '\r' {
                assert(p0 =~= s.subrange(o, j - 1).push('\r'));
                lemma_trim_push_ws(s.subrange(o, j - 1), '\r');
            }
            if exists|k: int| 1 <= k < ls.len() && #[trigger] trim(ls[k]) == f {
                let k = choose|k: int| 1 <= k < ls.len() && #[trigger] trim(ls[k]) == f;
                assert(ls[k] == rest[k - 1]);
                assert(trim(rest[k - 1]) == f);
            }
            if exists|k: int| 0 <= k < rest.len() && #[trigger] trim(rest[k]) == f {
                let k = choose|k: int| 0 <= k < rest.len() && #[trigger] trim(rest[k]) == f;
                assert(ls[k + 1] == rest[k]);
                assert(trim(ls[k + 1]) == f);
            }
        },
        None => {
            assert(free_of(u, '\n')) by {
                assert forall|i: int| 0 <= i < u.len() implies #[trigger] u[i] != '\n' by {
                    assert(u[i] == s[o + i]);
                }
            }
            lemma_split_append_free(Seq::empty(), u, '\n');
            assert(Seq::<char>::empty() + u =~= u);
            assert(split(u, '\n') =~= seq![u]);
            assert(s.subrange(o, s.len() as int) =~= u);
            let e = Seq::<char>::empty();
            assert(s.skip(s.len() as int) =~= e);
            assert(split(e, '\n') == seq![e]);
            lemma_trim_empty(e);
            if exists|k: int| 0 <= k < split(e, '\n').len() && #[trigger] trim(split(e, '\n')[k])
                == f {
                assert(trim(split(e, '\n')[0]).len() == 0);
            }
        },
    }
}

proof fn lemma_fm_scan_split(s: Seq<char>, f: Seq<char>, o: int, count: int)
    requires
        0 <= o <= s.len(),
        f.len() > 0,
    ensures
        fm_scan(s, f, o, count) is Some <==> (exists|k: int|
            0 <= k < split(s.skip(o), '\n').len() && #[trigger] trim(split(s.skip(o), '\n')[k])
                == f),
    decreases s.len() - o,
{
    let ls = split(s.skip(o), '\n');
    lemma_split_len(s.skip(o), '\n');
    if o == s.len() {
        let e = Seq::<char>::empty();
        assert(s.skip(o) =~= e);
        assert(ls == seq![e]);
        lemma_trim_empty(e);
        if exists|k: int| 0 <= k < ls.len() && #[trigger] trim(ls[k]) == f {
            assert(trim(ls[0]).len() == 0);
        }
    } else {
        lemma_next_line_split(s, o, f);
        match next_line(s, o) {
            Some((a2, e2, line2)) => {
                lemma_fm_scan_split(s, f, e2, count + 1);
                if trim(line2) == f {
                    assert(fm_scan(s, f, o, count) is Some);
                    assert(trim(ls[0]) == f);
                } else {
                    assert(fm_scan(s, f, o, count) == fm_scan(s, f, e2, count + 1));
                    if exists|k: int| 0 <= k < ls.len() && #[trigger] trim(ls[k]) == f {
                        let k = choose|k: int| 0 <= k < ls.len() && #[trigger] trim(ls[k]) == f;
                        assert(k >= 1);
                    }
                }
            },
            None => {},
        }
    }
}

/// A document has frontmatter exactly when its first line (after a byte
/// order mark) trims to `---` or `+++` and a later line trims to the same.
pub proof fn law_frontmatter_detection(s: Seq<char>)
    ensures
        frontmatter_bounds(s) is Some <==> ({
            let ls = split(s.skip(bom_len(s)), '\n');
            &&& (trim(ls[0]) == seq!['-', '-', '-'] || trim(ls[0]) == seq!['+', '+', '+'])
            &&& exists|k: int| 1 <= k < ls.len() && #[trigger] trim(ls[k]) == trim(ls[0])
        }),
{
    let b = bom_len(s);
    let ls = split(s.skip(b), '\n');
    lemma_split_len(s.skip(b), '\n');
    if b >= s.len() {
        let e = Seq::<char>::empty();
        assert(s.skip(b) =~= e);
        assert(ls == seq![e]);
        lemma_trim_empty(e);
        assert(trim(ls[0]).len() == 0);
    } else {
        let f = trim(ls[0]);
        if f.len() > 0 {
            lemma_next_line_split(s, b, f);
            match next_line(s, b) {
                Some((a, e, first)) => {
                    lemma_fm_scan_split(s, f, e, 1);
                    assert(trim(first) == f);
                    assert(opening_fence(first) is Some <==> (f == seq!['-', '-', '-'] || f == seq![
                        '+',
                        '+',
                        '+',
                    ]));
                    if opening_fence(first) is Some {
                        assert(opening_fence(first) == Some(f));
                        assert(frontmatter_bounds(s) is Some <==> fm_scan(s, f, e, 1) is Some);
                    }
                },
                None => {},
            }
        } else {
            lemma_next_line_split(s, b, seq!['-']);
            assert(!(f == seq!['-', '-', '-']));
            assert(!(f == seq!['+', '+', '+']));
            match next_line(s, b) {
                Some((a, e, first)) => {
                    assert(trim(first) == f);
                    assert(opening_fence(first) is None);
                },
                None => {},
            }
        }
    }
}


/// The line at `o` as a piece of the text from `o` split at `\n`: when the
/// line ends with `\n`, the pieces are its piece followed by those of the
/// text after it; otherwise it is the last, non-empty piece.
proof fn lemma_line_piece(s: Seq<char>, o: int)
    requires
        0 <= o < s.len(),
    ensures
        next_line(s, o) matches Some((a, e, line)) && o < e <= s.len() && trim(line) == trim(
            split(s.skip(o), '\n')[0],
        ) && if s[e - 1] == '\n' {
            split(s.skip(o), '\n') == seq![split(s.skip(o), '\n')[0]] + split(s.skip(e), '\n')
        } else {
            e == s.len() && split(s.skip(o), '\n').len() == 1 && split(s.skip(o), '\n')[0].len() > 0
        },
{
    lemma_next_line_split(s, o, seq!['-']);
    lemma_find_char_from(s, '\n', o);
    let u = s.skip(o);
    match find_char_from(s, '\n', o) {
        Some(j) => {
            let p0 = s.subrange(o, j);
            assert(free_of(p0, '\n')) by {
                assert forall|i: int| 0 <= i < p0.len() implies #[trigger] p0[i] != '\n' by {
                    assert(p0[i] == s[o + i]);
                }
            }
            assert(u =~= p0 + seq!['\n'] + s.skip(j + 1));
            lemma_split_front(p0, s.skip(j + 1), '\n');
        },
        None => {
            assert(free_of(u, '\n')) by {
                assert forall|i: int| 0 <= i < u.len() implies #[trigger] u[i] != '\n' by {
                    assert(u[i] == s[o + i]);
                }
            }
            lemma_split_append_free(Seq::empty(), u, '\n');
            assert(Seq::<char>::empty() + u =~= u);
            assert(split(u, '\n') =~= seq![u]);
            assert(s[s.len() - 1] == u[u.len() - 1]);
        },
    }
}

/// The lines that the frontmatter scan passes over, as pieces.
proof fn lemma_fm_scan_pieces(s: Seq<char>, f: Seq<char>, o: int, count: int)
    requires
        0 <= o <= s.len(),
    ensures
        fm_scan(s, f, o, count) matches Some((a, le, c)) ==> c > count && o < le <= s.len() && if s[le
            - 1] == '\n' {
            split(s.skip(o), '\n').len() >= c - count && split(s.skip(o), '\n').skip(c - count)
                == split(s.skip(le), '\n')
        } else {
            le == s.len() && split(s.skip(o), '\n').len() == c - count && split(
                s.skip(o),
                '\n',
            ).last().len() > 0
        },
    decreases s.len() - o,
{
    if o < s.len() {
        lemma_line_piece(s, o);
        let ps = split(s.skip(o), '\n');
        match next_line(s, o) {
            Some((a, e, line)) => {
                if trim(line) == f {
                    if s[e - 1] == '\n' {
                        assert(ps.skip(1) =~= split(s.skip(e), '\n'));
                    }
                } else {
                    lemma_fm_scan_pieces(s, f, e, count + 1);
                    match fm_scan(s, f, e, count + 1) {
                        Some((a2, le, c)) => {
                            if s[e - 1] == '\n' {
                                let rest = split(s.skip(e), '\n');
                                assert(ps == seq![ps[0]] + rest);
                                if s[le - 1] == '\n' {
                                    assert(ps.skip(c - count) =~= rest.skip(c - count - 1));
                                } else {
                                    assert(ps.last() == rest.last());
                                }
                            } else {
                                assert(fm_scan(s, f, e, count + 1) is None);
                            }
                        },
                        None => {},
                    }
                }
            },
            None => {},
        }
    }
}

/// The lines of a document with frontmatter are the frontmatter's lines
/// followed by the lines of what `strip_frontmatter` leaves.
pub proof fn lemma_md_lines_after_frontmatter(s: Seq<char>)
    ensures
        frontmatter_bounds(s) matches Some(b) ==> b.3 <= md_lines(s).len() && md_lines(s).skip(b.3)
            == md_lines(s.subrange(b.2, s.len() as int)),
{
    let bl = bom_len(s);
    lemma_next_line(s, bl);
    match next_line(s, bl) {
        None => {},
        Some((_, first_end, first)) => match opening_fence(first) {
            None => {},
            Some(f) => {
                lemma_fm_scan_pieces(s, f, first_end, 1);
                match fm_scan(s, f, first_end, 1) {
                    None => {},
                    Some((ls, le, count)) => {
                        // The first line ends at the same place from the start.
                        lemma_line_piece(s, 0);
                        lemma_find_char_from(s, '\n', 0);
                        lemma_find_char_from(s, '\n', bl);
                        assert(s.skip(0) =~= s);
                        if bl == 1 {
                            assert(find_char_from(s, '\n', 0) == find_char_from(s, '\n', 1));
                        }
                        let total = split(s, '\n');
                        let rest = s.subrange(le, s.len() as int);
                        assert(s.skip(le) =~= rest);
                        lemma_split_len(rest, '\n');
                        lemma_split_len(s, '\n');
                        match next_line(s, 0) {
                            Some((_, e0, _)) => {
                                assert(e0 == first_end);
                                assert(s[first_end - 1] == '\n');
                                let after = split(s.skip(first_end), '\n');
                                assert(total == seq![total[0]] + after);
                                let rl = split(rest, '\n');
                                if s[le - 1] == '\n' {
                                    assert(total.skip(count) =~= after.skip(count - 1));
                                    assert(total.skip(count) == rl);
                                    assert(total.drop_last() =~= total.take(count) + rl.drop_last());
                                    assert(total.last() == rl.last());
                                    assert(md_lines(s).skip(count) =~= md_lines(rest));
                                } else {
                                    assert(total.len() == count);
                                    assert(total.last() == after.last());
                                    let e = Seq::<char>::empty();
                                    assert(rest =~= e);
                                    assert(rl == seq![e]);
                                    assert(md_lines(rest) =~= Seq::<Seq<char>>::empty());
                                    assert(md_lines(s).len() == count);
                                    assert(md_lines(s).skip(count) =~= md_lines(rest));
                                }
                            },
                            None => {},
                        }
                    },
                }
            },
        },
    }
}

} // verus!
