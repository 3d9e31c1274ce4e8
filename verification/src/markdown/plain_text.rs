//! Markdown to lightweight plain text: markers, emphasis and link syntax
//! are dropped, the text of labels is kept.
use vstd::prelude::*;
use crate::markdown::link::{
    lemma_ref_shape, parse_inline_reference_at, ref_shape, ref_starts_at, InlineReferenceKind,
};
use crate::markdown::code_fence::{
    closes_fence, fence_before, fence_opening, is_closing_fence, parse_opening_fence,
    FenceDelimiter, delim_opt,
};
use crate::markdown::frontmatter::{
    frontmatter_bounds, frontmatter_line_count, frontmatter_lines, lemma_md_lines_after_frontmatter,
};
use crate::markdown::heading::{heading_line, parse_heading_line};
use crate::markdown::{
    is_horizontal_rule_chars, is_rule, md_lines, md_lines_of, ordered_content,
    ordered_list_item_content, unordered_content, unordered_list_item_content,
};
use crate::normalize::{lemma_trim_identity, lemma_trim_trimmed};
use crate::text::{
    all_chars, free_of, is_ws, lemma_join_all, lemma_split_join, lemma_trim_all, lemma_ws_words_all, lemma_split_len, lemma_split_parts_free, lemma_ws_words_parts, split,
    chars_of, extend_vec, join, join_chars, lemma_lead_ws_bound, slice_vec,
    split_whitespace, string_of, trim, trim_start, trim_start_vec, trim_vec, views, ws_words,
};

verus! {

/// Whitespace runs collapsed to single spaces, ends trimmed.
pub open spec fn collapse_words(s: Seq<char>) -> Seq<char> {
    join(ws_words(s), seq![' '])
}

/// Whether `c` is an emphasis or code marker that plain text drops.
pub open spec fn is_inline_marker(c: char) -> bool {
    c == '*' || c == '_' || c == '`' || c == '~'
}

/// The text of `s` from index `i` on, before whitespace is collapsed: an
/// image or link gives its label's text, a backslash keeps the character
/// after it, markers are dropped and every other character is kept.
pub open spec fn inline_scan(s: Seq<char>, i: int) -> Seq<char>
    decreases s.len(), s.len() + 1 - i,
{
    if i < 0 || i >= s.len() {
        Seq::empty()
    } else {
        let img = if ref_starts_at(s, i, true) {
            ref_shape(s, i, true)
        } else {
            None
        };
        match img {
            Some(sh) => {
                proof {
                    lemma_ref_shape(s, i, true);
                }
                trim(collapse_words(inline_scan(s.subrange(sh.0, sh.1), 0))) + inline_scan(s, sh.4)
            },
            None => {
                let lnk = if ref_starts_at(s, i, false) {
                    ref_shape(s, i, false)
                } else {
                    None
                };
                match lnk {
                    Some(sh) => {
                        proof {
                            lemma_ref_shape(s, i, false);
                        }
                        trim(collapse_words(inline_scan(s.subrange(sh.0, sh.1), 0))) + inline_scan(
                            s,
                            sh.4,
                        )
                    },
                    None => if s[i] == '\\' {
                        if i + 1 < s.len() {
                            seq![s[i + 1]] + inline_scan(s, i + 2)
                        } else {
                            Seq::empty()
                        }
                    } else if is_inline_marker(s[i]) {
                        inline_scan(s, i + 1)
                    } else {
                        seq![s[i]] + inline_scan(s, i + 1)
                    },
                }
            },
        }
    }
}

/// The plain text of a piece of inline Markdown.
pub open spec fn inline_text(s: Seq<char>) -> Seq<char> {
    collapse_words(inline_scan(s, 0))
}

fn single(c: char) -> (r: Vec<char>)
    ensures
        r@ == seq![c],
{
    let mut r: Vec<char> = Vec::new();
    r.push(c);
    assert(r@ =~= seq![c]);
    r
}

pub(crate) fn inline_markdown_to_text(input: &Vec<char>) -> (r: Vec<char>)
    ensures
        r@ == inline_text(input@),
    decreases input@.len(),
{
    let n = input.len();
    let mut output: Vec<char> = Vec::new();
    let mut index: usize = 0;
    assert(output@ + inline_scan(input@, 0) =~= inline_scan(input@, 0));
    while index < n
        invariant
            n == input@.len(),
            index <= n,
            output@ + inline_scan(input@, index as int) == inline_scan(input@, 0),
        decreases n - index,
    {
        let ghost s = input@;
        let ghost before = output@;
        if index + 1 < n && input[index] == '!' && input[index + 1] == '[' {
            match parse_inline_reference_at(input, index, InlineReferenceKind::Image) {
                Some(p) => {
                    proof {
                        lemma_ref_shape(s, index as int, true);
                    }
                    let label = slice_vec(input, p.label_start, p.label_end);
                    let text = inline_markdown_to_text(&label);
                    let t = trim_vec(&text);
                    extend_vec(&mut output, &t);
                    assert(before + inline_scan(s, index as int) =~= output@ + inline_scan(
                        s,
                        p.end as int,
                    ));
                    index = p.end;
                    continue;
                },
                None => {},
            }
        }
        if input[index] == '[' && (index == 0 || input[index - 1] != '!') {
            match parse_inline_reference_at(input, index, InlineReferenceKind::Link) {
                Some(p) => {
                    proof {
                        lemma_ref_shape(s, index as int, false);
                    }
                    let label = slice_vec(input, p.label_start, p.label_end);
                    let text = inline_markdown_to_text(&label);
                    let t = trim_vec(&text);
                    extend_vec(&mut output, &t);
                    assert(before + inline_scan(s, index as int) =~= output@ + inline_scan(
                        s,
                        p.end as int,
                    ));
                    index = p.end;
                    continue;
                },
                None => {},
            }
        }
        let c = input[index];
        if c == '\\' {
            if index + 1 < n {
                output.push(input[index + 1]);
                assert(before + inline_scan(s, index as int) =~= output@ + inline_scan(
                    s,
                    index + 2,
                ));
                index = index + 2;
            } else {
                assert(before + inline_scan(s, index as int) =~= output@ + inline_scan(s, n as int));
                index = n;
            }
            continue;
        }
        if c == '*' || c == '_' || c == '`' || c == '~' {
            index = index + 1;
            continue;
        }
        output.push(c);
        assert(before + inline_scan(s, index as int) =~= output@ + inline_scan(s, index + 1));
        index = index + 1;
    }
    assert(output@ =~= inline_scan(input@, 0));
    let words = split_whitespace(&output);
    let sep = single(' ');
    join_chars(&words, &sep)
}


// ---------------------------------------------------------------------------
// Whole documents
// ---------------------------------------------------------------------------

/// `s` without leading whitespace and blockquote markers.
pub open spec fn strip_quotes(s: Seq<char>) -> Seq<char>
    decreases s.len(),
{
    let t = trim_start(s);
    if t.len() > 0 && t[0] == '>' {
        proof {
            lemma_lead_ws_bound(s);
        }
        strip_quotes(t.skip(1))
    } else {
        t
    }
}

/// The text of a line once a heading, ordered or unordered list marker
/// is taken off.
pub open spec fn line_content(c: Seq<char>) -> Seq<char> {
    match heading_line(c) {
        Some((_, t)) => t,
        None => match ordered_content(c) {
            Some(x) => x,
            None => match unordered_content(c) {
                Some(x) => x,
                None => c,
            },
        },
    }
}

/// What line `i` contributes to the plain text, if anything: inside a
/// fence its trimmed text; outside, its inline text, unless it opens a
/// fence or is a horizontal rule. Empty results contribute nothing.
pub open spec fn plain_line(lines: Seq<Seq<char>>, fm: int, i: int) -> Option<Seq<char>> {
    if i < fm {
        None
    } else {
        match fence_before(lines, fm, i) {
            Some(d) => if closes_fence(lines[i], d) {
                None
            } else if trim(lines[i]).len() > 0 {
                Some(trim(lines[i]))
            } else {
                None
            },
            None => if fence_opening(lines[i]) is Some || is_rule(trim(lines[i])) {
                None
            } else {
                let t = inline_text(line_content(strip_quotes(lines[i])));
                if t.len() > 0 {
                    Some(t)
                } else {
                    None
                }
            },
        }
    }
}

/// The contributions of the first `n` lines, in order.
pub open spec fn plain_lines(lines: Seq<Seq<char>>, fm: int, n: int) -> Seq<Seq<char>>
    decreases n,
{
    if n <= 0 {
        Seq::empty()
    } else {
        match plain_line(lines, fm, n - 1) {
            Some(t) => plain_lines(lines, fm, n - 1).push(t),
            None => plain_lines(lines, fm, n - 1),
        }
    }
}

/// The plain text of a document: its contributing lines joined by `\n`.
pub open spec fn plain_text_of(s: Seq<char>) -> Seq<char> {
    join(plain_lines(md_lines(s), frontmatter_lines(s), md_lines(s).len() as int), seq!['\n'])
}

fn strip_blockquote_markers(line: &Vec<char>) -> (r: Vec<char>)
    ensures
        r@ == strip_quotes(line@),
{
    let ghost mut raw = line@;
    let mut candidate = trim_start_vec(line);
    while candidate.len() > 0 && candidate[0] == '>'
        invariant
            candidate@ == trim_start(raw),
            strip_quotes(line@) == strip_quotes(raw),
        decreases candidate@.len(),
    {
        let rest = slice_vec(&candidate, 1, candidate.len());
        assert(rest@ =~= candidate@.skip(1));
        proof {
            raw = rest@;
            lemma_lead_ws_bound(raw);
        }
        candidate = trim_start_vec(&rest);
    }
    candidate
}

/// Converts Markdown into lightweight plain text.
pub fn markdown_to_plain_text(markdown: &str) -> (r: String)
    ensures
        r@ == plain_text_of(markdown@),
{
    let v = chars_of(markdown);
    let frontmatter = frontmatter_line_count(&v);
    let lines = md_lines_of(&v);
    let ghost ls = views(lines@);
    let ghost fm = frontmatter as int;
    let mut out: Vec<Vec<char>> = Vec::new();
    let mut active: Option<FenceDelimiter> = None;
    let mut index: usize = 0;
    assert(views(out@) =~= Seq::<Seq<char>>::empty());
    while index < lines.len()
        invariant
            index <= lines@.len(),
            ls == views(lines@),
            ls == md_lines(v@),
            fm == frontmatter_lines(v@),
            frontmatter == fm,
            delim_opt(active) == fence_before(ls, fm, index as int),
            views(out@) == plain_lines(ls, fm, index as int),
        decreases lines@.len() - index,
    {
        let line = &lines[index];
        assert(ls[index as int] == line@);
        let ghost prev = views(out@);
        if index < frontmatter {
            index = index + 1;
            continue;
        }
        match active {
            Some(d) => {
                if is_closing_fence(line, d) {
                    active = None;
                } else {
                    let t = trim_vec(line);
                    if t.len() > 0 {
                        out.push(t);
                        assert(views(out@) =~= prev.push(trim(line@)));
                    }
                }
            },
            None => match parse_opening_fence(line) {
                Some(o) => {
                    active = Some(o.delimiter);
                },
                None => {
                    if !is_horizontal_rule_chars(line) {
                        let c = strip_blockquote_markers(line);
                        let candidate = match parse_heading_line(&c) {
                            Some((_, t)) => t,
                            None => match ordered_list_item_content(&c) {
                                Some(x) => x,
                                None => match unordered_list_item_content(&c) {
                                    Some(x) => x,
                                    None => c,
                                },
                            },
                        };
                        let cleaned = inline_markdown_to_text(&candidate);
                        if cleaned.len() > 0 {
                            let ghost cv = cleaned@;
                            out.push(cleaned);
                            assert(views(out@) =~= prev.push(cv));
                        }
                    }
                },
            },
        }
        index = index + 1;
    }
    let sep = single('\n');
    let joined = join_chars(&out, &sep);
    string_of(&joined)
}


// ---------------------------------------------------------------------------
// Laws
// ---------------------------------------------------------------------------

/// Words without whitespace joined by single spaces: no line break, and no
/// whitespace at either end.
proof fn lemma_join_words(ws: Seq<Seq<char>>)
    requires
        forall|k: int| 0 <= k < ws.len() ==> (#[trigger] ws[k]).len() > 0,
        forall|k: int, i: int| 0 <= k < ws.len() && 0 <= i < ws[k].len() ==> !is_ws(#[trigger] ws[k][i]),
    ensures
        free_of(join(ws, seq![' ']), '\n'),
        join(ws, seq![' ']).len() > 0 ==> !is_ws(join(ws, seq![' '])[0]) && !is_ws(
            join(ws, seq![' ']).last(),
        ),
    decreases ws.len(),
{
    let j = join(ws, seq![' ']);
    if ws.len() == 1 {
        assert forall|i: int| 0 <= i < j.len() implies #[trigger] j[i] != '\n' by {
            assert(!is_ws(ws[0][i]));
        }
        assert(!is_ws(ws[0][0]));
        assert(!is_ws(ws[0][ws[0].len() - 1]));
    } else if ws.len() >= 2 {
        let init = ws.drop_last();
        assert forall|k: int| 0 <= k < init.len() implies (#[trigger] init[k]).len() > 0 by {
            assert(init[k] == ws[k]);
        }
        assert forall|k: int, i: int| 0 <= k < init.len() && 0 <= i < init[k].len() implies !is_ws(
            #[trigger] init[k][i],
        ) by {
            assert(init[k] == ws[k]);
        }
        lemma_join_words(init);
        let a = join(init, seq![' ']);
        let l = ws.last();
        assert(l == ws[ws.len() - 1]);
        assert(j == a + seq![' '] + l);
        if init.len() == 1 {
            assert(a == init[0]);
        } else {
            assert(a == join(init.drop_last(), seq![' ']) + seq![' '] + init.last());
        }
        assert(a.len() > 0);
        assert forall|i: int| 0 <= i < j.len() implies #[trigger] j[i] != '\n' by {
            if i < a.len() {
                assert(j[i] == a[i]);
            } else if i > a.len() {
                assert(j[i] == l[i - a.len() - 1]);
                assert(!is_ws(l[i - a.len() - 1]));
            }
        }
        assert(j[0] == a[0]);
        assert(j.last() == l[l.len() - 1]);
        assert(!is_ws(l[l.len() - 1]));
    }
}

proof fn lemma_inline_text_clean(x: Seq<char>)
    ensures
        free_of(inline_text(x), '\n'),
        trim(inline_text(x)) == inline_text(x),
{
    let y = inline_scan(x, 0);
    lemma_ws_words_parts(y);
    lemma_join_words(ws_words(y));
    lemma_trim_identity(inline_text(x));
}

proof fn lemma_md_lines_free(s: Seq<char>)
    ensures
        forall|k: int| 0 <= k < md_lines(s).len() ==> free_of(#[trigger] md_lines(s)[k], '\n'),
{
    let parts = split(s, '\n');
    lemma_split_len(s, '\n');
    lemma_split_parts_free(s, '\n');
    let m = md_lines(s);
    assert forall|k: int| 0 <= k < m.len() implies free_of(#[trigger] m[k], '\n') by {
        assert(free_of(parts[k], '\n'));
        assert forall|i: int| 0 <= i < m[k].len() implies #[trigger] m[k][i] != '\n' by {
            assert(m[k][i] == parts[k][i]);
        }
    }
}

proof fn lemma_plain_lines(lines: Seq<Seq<char>>, fm: int, n: int)
    requires
        0 <= n <= lines.len(),
        forall|k: int| 0 <= k < lines.len() ==> free_of(#[trigger] lines[k], '\n'),
    ensures
        plain_lines(lines, fm, n).len() <= n,
        forall|k: int|
            0 <= k < plain_lines(lines, fm, n).len() ==> (#[trigger] plain_lines(lines, fm, n)[k]).len()
                > 0 && free_of(plain_lines(lines, fm, n)[k], '\n') && trim(plain_lines(lines, fm, n)[k])
                == plain_lines(lines, fm, n)[k],
    decreases n,
{
    if n > 0 {
        lemma_plain_lines(lines, fm, n - 1);
        let prev = plain_lines(lines, fm, n - 1);
        match plain_line(lines, fm, n - 1) {
            Some(t) => {
                let l = lines[n - 1];
                lemma_trim_trimmed(l, '\n');
                lemma_inline_text_clean(line_content(strip_quotes(l)));
                assert(t.len() > 0 && free_of(t, '\n') && trim(t) == t);
                let all = plain_lines(lines, fm, n);
                assert forall|k: int| 0 <= k < all.len() implies (#[trigger] all[k]).len() > 0
                    && free_of(all[k], '\n') && trim(all[k]) == all[k] by {
                    if k < prev.len() {
                        assert(all[k] == prev[k]);
                    }
                }
            },
            None => {},
        }
    }
}

/// Every line of the plain text is non-empty and has no whitespace at either
/// end, and there are no more of them than the document has lines.
pub proof fn law_plain_text_lines(s: Seq<char>)
    ensures
        plain_text_of(s).len() > 0 ==> {
            let ls = split(plain_text_of(s), '\n');
            &&& forall|k: int|
                0 <= k < ls.len() ==> (#[trigger] ls[k]).len() > 0 && trim(ls[k]) == ls[k]
            &&& ls.len() <= md_lines(s).len()
        },
{
    let lines = md_lines(s);
    let fm = frontmatter_lines(s);
    lemma_md_lines_free(s);
    lemma_plain_lines(lines, fm, lines.len() as int);
    let ps = plain_lines(lines, fm, lines.len() as int);
    if ps.len() >= 1 {
        lemma_split_join(ps, '\n');
    } else {
        assert(join(ps, seq!['\n']).len() == 0);
    }
}


proof fn lemma_fence_before_skip(lines: Seq<Seq<char>>, fm: int, k: int)
    requires
        0 <= fm <= lines.len(),
        0 <= k <= lines.len() - fm,
    ensures
        fence_before(lines, fm, fm + k) == fence_before(lines.skip(fm), 0, k),
    decreases k,
{
    if k == 0 {
        lemma_fence_before_front(lines, fm, fm);
    } else {
        lemma_fence_before_skip(lines, fm, k - 1);
        assert(lines.skip(fm)[k - 1] == lines[fm + k - 1]);
    }
}

proof fn lemma_fence_before_front(lines: Seq<Seq<char>>, fm: int, j: int)
    requires
        j <= fm,
    ensures
        fence_before(lines, fm, j) is None,
    decreases j,
{
    if j > 0 {
        lemma_fence_before_front(lines, fm, j - 1);
    }
}

proof fn lemma_plain_lines_front(lines: Seq<Seq<char>>, fm: int, j: int)
    requires
        j <= fm,
    ensures
        plain_lines(lines, fm, j) == Seq::<Seq<char>>::empty(),
    decreases j,
{
    if j > 0 {
        lemma_plain_lines_front(lines, fm, j - 1);
    }
}

proof fn lemma_plain_lines_skip(lines: Seq<Seq<char>>, fm: int, k: int)
    requires
        0 <= fm <= lines.len(),
        0 <= k <= lines.len() - fm,
    ensures
        plain_lines(lines, fm, fm + k) == plain_lines(lines.skip(fm), 0, k),
    decreases k,
{
    if k == 0 {
        lemma_plain_lines_front(lines, fm, fm);
    } else {
        lemma_plain_lines_skip(lines, fm, k - 1);
        lemma_fence_before_skip(lines, fm, k - 1);
        assert(lines.skip(fm)[k - 1] == lines[fm + k - 1]);
        assert(plain_line(lines, fm, fm + k - 1) == plain_line(lines.skip(fm), 0, k - 1));
    }
}

/// What `strip_frontmatter` leaves of a document.
pub open spec fn stripped(s: Seq<char>) -> Seq<char> {
    match frontmatter_bounds(s) {
        Some(b) => s.subrange(b.2, s.len() as int),
        None => s,
    }
}

/// Stripping the frontmatter first does not change the plain text, unless
/// what is left starts with frontmatter of its own.
pub proof fn law_plain_text_ignores_frontmatter(s: Seq<char>)
    requires
        frontmatter_bounds(stripped(s)) is None,
    ensures
        plain_text_of(stripped(s)) == plain_text_of(s),
{
    lemma_md_lines_after_frontmatter(s);
    match frontmatter_bounds(s) {
        Some(b) => {
            let lines = md_lines(s);
            let fm = b.3;
            assert(frontmatter_lines(s) == fm);
            crate::markdown::frontmatter::lemma_frontmatter_bounds(s);
            lemma_plain_lines_skip(lines, fm, lines.len() - fm);
            assert(frontmatter_lines(stripped(s)) == 0);
        },
        None => {},
    }
}


/// No emphasis or code marker: `*`, `_`, a backtick or `~`.
pub open spec fn marker_free() -> spec_fn(char) -> bool {
    |c: char| c != '*' && c != '_' && c != '`' && c != '~'
}

proof fn lemma_inline_scan_marker_free(s: Seq<char>, i: int)
    requires
        free_of(s, '\\'),
    ensures
        all_chars(inline_scan(s, i), marker_free()),
    decreases s.len(), s.len() + 1 - i,
{
    let p = marker_free();
    if 0 <= i < s.len() {
        let img = if ref_starts_at(s, i, true) {
            ref_shape(s, i, true)
        } else {
            None
        };
        let lnk = if ref_starts_at(s, i, false) {
            ref_shape(s, i, false)
        } else {
            None
        };
        let r = inline_scan(s, i);
        if img is Some || lnk is Some {
            let image = img is Some;
            let sh = if image {
                img->0
            } else {
                lnk->0
            };
            lemma_ref_shape(s, i, image);
            let sub = s.subrange(sh.0, sh.1);
            assert(free_of(sub, '\\')) by {
                assert forall|j: int| 0 <= j < sub.len() implies #[trigger] sub[j] != '\\' by {
                    assert(sub[j] == s[sh.0 + j]);
                }
            }
            lemma_inline_scan_marker_free(sub, 0);
            let y = inline_scan(sub, 0);
            lemma_ws_words_all(y, p);
            assert(all_chars(seq![' '], p)) by {
                assert(seq![' '][0] == ' ');
            }
            lemma_join_all(ws_words(y), seq![' '], p);
            lemma_trim_all(collapse_words(y), p);
            lemma_inline_scan_marker_free(s, sh.4);
            let a = trim(collapse_words(y));
            let b = inline_scan(s, sh.4);
            assert(r == a + b);
            assert forall|j: int| 0 <= j < r.len() implies p(#[trigger] r[j]) by {
                if j < a.len() {
                    assert(r[j] == a[j]);
                } else {
                    assert(r[j] == b[j - a.len()]);
                }
            }
        } else if s[i] == '\\' {
            assert(false);
        } else if is_inline_marker(s[i]) {
            lemma_inline_scan_marker_free(s, i + 1);
        } else {
            lemma_inline_scan_marker_free(s, i + 1);
            let b = inline_scan(s, i + 1);
            assert(r == seq![s[i]] + b);
            assert forall|j: int| 0 <= j < r.len() implies p(#[trigger] r[j]) by {
                if j > 0 {
                    assert(r[j] == b[j - 1]);
                }
            }
        }
    }
}

/// Without backslash escapes, the plain text of inline Markdown holds no
/// `*`, `_`, backtick or `~`: every emphasis and code marker is dropped, in
/// link and image labels too.
pub proof fn law_inline_text_drops_markers(x: Seq<char>)
    requires
        free_of(x, '\\'),
    ensures
        forall|i: int|
            0 <= i < inline_text(x).len() ==> #[trigger] inline_text(x)[i] != '*' && inline_text(x)[i]
                != '_' && inline_text(x)[i] != '`' && inline_text(x)[i] != '~',
{
    let p = marker_free();
    lemma_inline_scan_marker_free(x, 0);
    let y = inline_scan(x, 0);
    lemma_ws_words_all(y, p);
    assert(all_chars(seq![' '], p)) by {
        assert(seq![' '][0] == ' ');
    }
    lemma_join_all(ws_words(y), seq![' '], p);
    assert forall|i: int| 0 <= i < inline_text(x).len() implies #[trigger] inline_text(x)[i] != '*'
        && inline_text(x)[i] != '_' && inline_text(x)[i] != '`' && inline_text(x)[i] != '~' by {
        assert(p(inline_text(x)[i]));
    }
}

} // verus!
