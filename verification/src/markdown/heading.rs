//! ATX headings: one to six `#` at the start of a line.
use vstd::prelude::*;
use crate::markdown::code_fence::{delim_opt, fence_before, fence_step, is_text_line, FenceDelimiter};
use crate::markdown::frontmatter::{frontmatter_line_count, frontmatter_lines};
use crate::markdown::plain_text::{inline_markdown_to_text, inline_text};
use crate::markdown::{
    anchor_chars, anchor_of, leading_run, md_lines, md_lines_of, run_len, strip_spaces,
    strip_up_to_three_leading_spaces,
};
use crate::text::{
    chars_of, is_whitespace, is_ws, slice_vec, string_of, trim, trim_end, trim_end_vec, trim_vec,
    views,
};

verus! {

/// Number of trailing `#` characters.
pub open spec fn trailing_hashes(t: Seq<char>) -> nat
    decreases t.len(),
{
    if t.len() > 0 && t.last() == '#' {
        1 + trailing_hashes(t.drop_last())
    } else {
        0
    }
}

/// The text without a closing run of `#` that whitespace separates from it.
pub open spec fn closing_hashes_trimmed(text: Seq<char>) -> Seq<char> {
    let t = trim(text);
    let end = t.len() - trailing_hashes(t);
    if end == t.len() {
        t
    } else {
        let p = t.take(end);
        if p.len() > 0 && is_ws(p.last()) {
            trim_end(p)
        } else {
            t
        }
    }
}

/// The level and raw text of an ATX heading line.
pub open spec fn heading_line(line: Seq<char>) -> Option<(int, Seq<char>)> {
    let c = strip_spaces(line, 3);
    let level = run_len(c, '#') as int;
    if level < 1 || level > 6 {
        None
    } else {
        let rem = c.skip(level);
        if rem.len() > 0 && !is_ws(rem[0]) {
            None
        } else {
            Some((level, closing_hashes_trimmed(trim(rem))))
        }
    }
}

fn trim_closing_hashes(text: &Vec<char>) -> (r: Vec<char>)
    ensures
        r@ == closing_hashes_trimmed(text@),
{
    let t = trim_vec(text);
    let mut end = t.len();
    assert(t@.take(end as int) =~= t@);
    while end > 0 && t[end - 1] == '#'
        invariant
            end <= t@.len(),
            trailing_hashes(t@) == (t@.len() - end) + trailing_hashes(t@.take(end as int)),
        decreases end,
    {
        assert(t@.take(end as int).drop_last() =~= t@.take(end - 1));
        end = end - 1;
    }
    if end == t.len() {
        return t;
    }
    let prefix = slice_vec(&t, 0, end);
    assert(prefix@ =~= t@.take(end as int));
    if prefix.len() > 0 && is_whitespace(prefix[prefix.len() - 1]) {
        trim_end_vec(&prefix)
    } else {
        t
    }
}

pub(crate) fn parse_heading_line(line: &Vec<char>) -> (r: Option<(u8, Vec<char>)>)
    ensures
        match r {
            Some((lv, t)) => heading_line(line@) == Some((lv as int, t@)),
            None => heading_line(line@) is None,
        },
{
    let candidate = strip_up_to_three_leading_spaces(line);
    let level = leading_run(&candidate, '#');
    if !(1 <= level && level <= 6) {
        return None;
    }
    let remainder = slice_vec(&candidate, level, candidate.len());
    assert(remainder@ =~= candidate@.skip(level as int));
    if remainder.len() > 0 && !is_whitespace(remainder[0]) {
        return None;
    }
    let trimmed = trim_vec(&remainder);
    Some((level as u8, trim_closing_hashes(&trimmed)))
}

/// A Markdown ATX heading.
#[derive(Clone, Debug, Eq, PartialEq)]
pub struct MarkdownHeading {
    /// The heading level from 1 to 6.
    pub level: u8,
    /// The cleaned heading text.
    pub text: String,
    /// The 1-based line where the heading was found.
    pub line: usize,
    /// A practical anchor derived from the heading text.
    pub anchor: String,
}

/// Level, text, line and anchor of a heading.
pub open spec fn heading_view(h: MarkdownHeading) -> (int, Seq<char>, int, Seq<char>) {
    (h.level as int, h.text@, h.line as int, h.anchor@)
}

/// The headings among the first `n` lines that are ordinary text.
pub open spec fn doc_headings(lines: Seq<Seq<char>>, fm: int, n: int) -> Seq<
    (int, Seq<char>, int, Seq<char>),
>
    decreases n,
{
    if n <= 0 {
        Seq::empty()
    } else {
        let prev = doc_headings(lines, fm, n - 1);
        if is_text_line(lines, fm, n - 1) {
            match heading_line(lines[n - 1]) {
                Some((lv, t)) => prev.push((lv, inline_text(t), n, anchor_of(inline_text(t)))),
                None => prev,
            }
        } else {
            prev
        }
    }
}

/// The headings of a document outside frontmatter and fences.
pub open spec fn headings_of(s: Seq<char>) -> Seq<(int, Seq<char>, int, Seq<char>)> {
    doc_headings(md_lines(s), frontmatter_lines(s), md_lines(s).len() as int)
}

/// Extracts ATX headings while ignoring content inside fenced code blocks.
pub fn extract_headings(markdown: &str) -> (r: Vec<MarkdownHeading>)
    ensures
        r@.map_values(|h: MarkdownHeading| heading_view(h)) == headings_of(markdown@),
{
    let v = chars_of(markdown);
    let frontmatter = frontmatter_line_count(&v);
    let lines = md_lines_of(&v);
    let ghost ls = views(lines@);
    let ghost fm = frontmatter as int;
    let mut headings: Vec<MarkdownHeading> = Vec::new();
    let mut active: Option<FenceDelimiter> = None;
    let mut index: usize = 0;
    while index < lines.len()
        invariant
            index <= lines@.len(),
            ls == views(lines@),
            ls == md_lines(v@),
            fm == frontmatter_lines(v@),
            frontmatter == fm,
            delim_opt(active) == fence_before(ls, fm, index as int),
            headings@.map_values(|h: MarkdownHeading| heading_view(h)) == doc_headings(
                ls,
                fm,
                index as int,
            ),
        decreases lines@.len() - index,
    {
        let line = &lines[index];
        assert(ls[index as int] == line@);
        if index < frontmatter {
            index = index + 1;
            continue;
        }
        let (next, is_text) = fence_step(line, active);
        active = next;
        if is_text {
            match parse_heading_line(line) {
                Some((level, raw)) => {
                    let text = inline_markdown_to_text(&raw);
                    let anchor = anchor_chars(&text);
                    let h = MarkdownHeading {
                        level,
                        text: string_of(&text),
                        line: index + 1,
                        anchor: string_of(&anchor),
                    };
                    let ghost prev = headings@;
                    let ghost hv = heading_view(h);
                    headings.push(h);
                    assert(headings@.map_values(|h: MarkdownHeading| heading_view(h))
                        =~= prev.map_values(|h: MarkdownHeading| heading_view(h)).push(hv));
                },
                None => {},
            }
        }
        index = index + 1;
    }
    headings
}


// ---------------------------------------------------------------------------
// Laws
// ---------------------------------------------------------------------------

/// Whether `h` is the heading that line `h.2` (1-based) gives: the line is
/// ordinary text, holds an ATX heading of level `h.0` between 1 and 6, `h.1`
/// is the plain text of its heading text and `h.3` the anchor of `h.1`.
pub open spec fn heading_from_line(
    lines: Seq<Seq<char>>,
    fm: int,
    h: (int, Seq<char>, int, Seq<char>),
) -> bool {
    &&& 1 <= h.0 <= 6
    &&& 1 <= h.2 <= lines.len()
    &&& is_text_line(lines, fm, h.2 - 1)
    &&& heading_line(lines[h.2 - 1]) matches Some((lv, t)) && lv == h.0 && h.1 == inline_text(t)
    &&& h.3 == anchor_of(h.1)
}

proof fn lemma_doc_headings(lines: Seq<Seq<char>>, fm: int, n: int)
    requires
        0 <= n <= lines.len(),
    ensures
        forall|k: int|
            0 <= k < doc_headings(lines, fm, n).len() ==> heading_from_line(
                lines,
                fm,
                #[trigger] doc_headings(lines, fm, n)[k],
            ) && doc_headings(lines, fm, n)[k].2 <= n,
        forall|k: int, j: int|
            0 <= k < j < doc_headings(lines, fm, n).len() ==> (#[trigger] doc_headings(
                lines,
                fm,
                n,
            )[k]).2 < (#[trigger] doc_headings(lines, fm, n)[j]).2,
    decreases n,
{
    if n > 0 {
        lemma_doc_headings(lines, fm, n - 1);
        let prev = doc_headings(lines, fm, n - 1);
        let d = doc_headings(lines, fm, n);
        if d.len() > prev.len() {
            assert forall|k: int| 0 <= k < prev.len() implies #[trigger] d[k] == prev[k] by {}
        }
    }
}

/// Every heading comes from an ATX heading line outside frontmatter and
/// fenced code: its level is 1 to 6, its line is a line of the document, its
/// text is the plain text of that line's heading and its anchor is derived
/// from its text. Headings come in the order of their lines, one per line.
pub proof fn law_headings_come_from_text_lines(s: Seq<char>)
    ensures
        forall|k: int|
            0 <= k < headings_of(s).len() ==> heading_from_line(
                md_lines(s),
                frontmatter_lines(s),
                #[trigger] headings_of(s)[k],
            ),
        forall|k: int, j: int|
            0 <= k < j < headings_of(s).len() ==> (#[trigger] headings_of(s)[k]).2 < (
            #[trigger] headings_of(s)[j]).2,
{
    lemma_doc_headings(md_lines(s), frontmatter_lines(s), md_lines(s).len() as int);
}

} // verus!
