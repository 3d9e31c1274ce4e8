//! Fenced code blocks, opened by three or more backticks or tildes.
use vstd::prelude::*;
use crate::markdown::{leading_run, md_lines, md_lines_of, run_len, strip_spaces, strip_up_to_three_leading_spaces};
use crate::markdown::frontmatter::{frontmatter_line_count, frontmatter_lines};
use crate::text::{chars_of, is_blank, join, join_chars, slice_vec, split_whitespace, string_of, trim, trim_vec, views, ws_words};

verus! {

/// A fenced code block extracted from Markdown.
#[derive(Clone, Debug, Eq, PartialEq)]
pub struct MarkdownCodeFence {
    /// The optional info-string language token.
    pub language: Option<String>,
    /// The raw fenced content without the opening or closing fence lines.
    pub content: String,
    /// The 1-based line where the opening fence appears.
    pub start_line: usize,
    /// The 1-based line where the closing fence appears, or the last line when unclosed.
    pub end_line: usize,
}

pub open spec fn opt_view(o: Option<String>) -> Option<Seq<char>> {
    match o {
        Some(s) => Some(s@),
        None => None,
    }
}

/// Language, content, first and last line of a fenced block.
pub open spec fn fence_view(f: MarkdownCodeFence) -> (Option<Seq<char>>, Seq<char>, int, int) {
    (opt_view(f.language), f.content@, f.start_line as int, f.end_line as int)
}

#[derive(Clone, Copy, Debug, Eq, PartialEq, Structural)]
pub(crate) struct FenceDelimiter {
    pub character: char,
    pub length: usize,
}

pub(crate) struct FenceOpening {
    pub delimiter: FenceDelimiter,
    pub info: Vec<char>,
}

/// The fence character, its count and the trimmed info string of an
/// opening fence line.
pub open spec fn fence_opening(line: Seq<char>) -> Option<(char, int, Seq<char>)> {
    let c = strip_spaces(line, 3);
    if c.len() == 0 {
        None
    } else {
        let m = c[0];
        if m != '`' && m != '~' {
            None
        } else {
            let n = run_len(c, m) as int;
            if n < 3 {
                None
            } else {
                Some((m, n, trim(c.skip(n))))
            }
        }
    }
}

/// Whether a line closes a fence opened with `d.1` copies of `d.0`.
pub open spec fn closes_fence(line: Seq<char>, d: (char, int)) -> bool {
    let c = strip_spaces(line, 3);
    let n = run_len(c, d.0) as int;
    n >= d.1 && trim(c.skip(n)).len() == 0
}

/// The first word of an info string.
pub open spec fn info_language(info: Seq<char>) -> Option<Seq<char>> {
    if ws_words(info).len() > 0 {
        Some(ws_words(info)[0])
    } else {
        None
    }
}

/// The fence open before line `k` (0-based), skipping the first `fm` lines.
pub open spec fn fence_before(lines: Seq<Seq<char>>, fm: int, k: int) -> Option<(char, int)>
    decreases k,
{
    if k <= 0 {
        None
    } else {
        let prev = fence_before(lines, fm, k - 1);
        if k - 1 < fm {
            prev
        } else {
            fence_next(lines[k - 1], prev)
        }
    }
}

/// The fence open after `line`, given the one open before it.
pub open spec fn fence_next(line: Seq<char>, prev: Option<(char, int)>) -> Option<(char, int)> {
    match prev {
        Some(d) => if closes_fence(line, d) {
            None
        } else {
            Some(d)
        },
        None => match fence_opening(line) {
            Some(o) => Some((o.0, o.1)),
            None => None,
        },
    }
}

pub(crate) open spec fn delim_opt(a: Option<FenceDelimiter>) -> Option<(char, int)> {
    match a {
        Some(d) => Some((d.character, d.length as int)),
        None => None,
    }
}

/// Moves the fence state past one line; the flag tells whether the line is
/// ordinary text (no fence open before it, and it opens none).
pub(crate) fn fence_step(line: &Vec<char>, active: Option<FenceDelimiter>) -> (r: (
    Option<FenceDelimiter>,
    bool,
))
    ensures
        delim_opt(r.0) == fence_next(line@, delim_opt(active)),
        r.1 == (active is None && fence_opening(line@) is None),
{
    match active {
        Some(d) => {
            if is_closing_fence(line, d) {
                (None, false)
            } else {
                (Some(d), false)
            }
        },
        None => match parse_opening_fence(line) {
            Some(o) => (Some(o.delimiter), false),
            None => (None, true),
        },
    }
}

/// Whether line `i` is ordinary text: after the frontmatter, outside fences,
/// and not an opening fence.
pub open spec fn is_text_line(lines: Seq<Seq<char>>, fm: int, i: int) -> bool {
    i >= fm && fence_before(lines, fm, i) is None && fence_opening(lines[i]) is None
}

pub(crate) fn parse_opening_fence(line: &Vec<char>) -> (r: Option<FenceOpening>)
    ensures
        match (r, fence_opening(line@)) {
            (Some(o), Some((m, n, info))) => o.delimiter.character == m && o.delimiter.length == n
                && o.info@ == info,
            (None, None) => true,
            _ => false,
        },
{
    let candidate = strip_up_to_three_leading_spaces(line);
    if candidate.len() == 0 {
        return None;
    }
    let marker = candidate[0];
    if !(marker == '`' || marker == '~') {
        return None;
    }
    let count = leading_run(&candidate, marker);
    if count < 3 {
        return None;
    }
    let rest = slice_vec(&candidate, count, candidate.len());
    let info = trim_vec(&rest);
    Some(FenceOpening { delimiter: FenceDelimiter { character: marker, length: count }, info })
}

pub(crate) fn is_closing_fence(line: &Vec<char>, delimiter: FenceDelimiter) -> (r: bool)
    ensures
        r == closes_fence(line@, (delimiter.character, delimiter.length as int)),
{
    let candidate = strip_up_to_three_leading_spaces(line);
    let count = leading_run(&candidate, delimiter.character);
    if count < delimiter.length {
        return false;
    }
    let rest = slice_vec(&candidate, count, candidate.len());
    proof {
        crate::text::lemma_trim_empty(rest@);
    }
    is_blank(&rest)
}

fn language_from_info(info: &Vec<char>) -> (r: Option<Vec<char>>)
    ensures
        match (r, info_language(info@)) {
            (Some(l), Some(sl)) => l@ == sl,
            (None, None) => true,
            _ => false,
        },
{
    let words = split_whitespace(info);
    if words.len() > 0 {
        assert(views(words@)[0] == words@[0]@);
        Some(slice_vec(&words[0], 0, words[0].len()))
    } else {
        None
    }
}

/// The state of the scan: the blocks closed so far, and the block in
/// progress with its delimiter, language, first line and content lines.
pub open spec fn fences_fold(lines: Seq<Seq<char>>, fm: int, n: int) -> (
    Seq<(Option<Seq<char>>, Seq<char>, int, int)>,
    Option<((char, int), Option<Seq<char>>, int, Seq<Seq<char>>)>,
)
    decreases n,
{
    if n <= 0 {
        (Seq::empty(), None)
    } else {
        let (done, cur) = fences_fold(lines, fm, n - 1);
        let i = n - 1;
        let l = lines[i];
        if i < fm {
            (done, cur)
        } else {
            match cur {
                Some((d, lang, start, content)) => if closes_fence(l, d) {
                    (done.push((lang, join(content, seq!['\n']), start, i + 1)), None)
                } else {
                    (done, Some((d, lang, start, content.push(l))))
                },
                None => match fence_opening(l) {
                    Some((m, c, info)) => (done, Some(((m, c), info_language(info), i + 1, Seq::empty()))),
                    None => (done, None),
                },
            }
        }
    }
}

/// The fenced blocks of a document, an unclosed one ending at the last line.
pub open spec fn code_fences(s: Seq<char>) -> Seq<(Option<Seq<char>>, Seq<char>, int, int)> {
    let lines = md_lines(s);
    let (done, cur) = fences_fold(lines, frontmatter_lines(s), lines.len() as int);
    match cur {
        None => done,
        Some((_, lang, start, content)) => done.push(
            (
                lang,
                join(content, seq!['\n']),
                start,
                if lines.len() > start {
                    lines.len() as int
                } else {
                    start
                },
            ),
        ),
    }
}

fn newline() -> (r: Vec<char>)
    ensures
        r@ == seq!['\n'],
{
    let mut r: Vec<char> = Vec::new();
    r.push('\n');
    assert(r@ =~= seq!['\n']);
    r
}

/// The characters of an optional vector.
pub open spec fn opt_chars(o: Option<Vec<char>>) -> Option<Seq<char>> {
    match o {
        Some(v) => Some(v@),
        None => None,
    }
}

pub(crate) fn opt_string(o: &Option<Vec<char>>) -> (r: Option<String>)
    ensures
        opt_view(r) == opt_chars(*o),
{
    match o {
        Some(v) => Some(string_of(v)),
        None => None,
    }
}

/// Extracts fenced code blocks delimited by triple backticks or triple tildes.
pub fn extract_code_fences(markdown: &str) -> (r: Vec<MarkdownCodeFence>)
    ensures
        r@.map_values(|f: MarkdownCodeFence| fence_view(f)) == code_fences(markdown@),
{
    let v = chars_of(markdown);
    let frontmatter = frontmatter_line_count(&v);
    let lines = md_lines_of(&v);
    let total_lines = lines.len();
    let ghost ls = views(lines@);
    let ghost fm = frontmatter as int;
    let mut fences: Vec<MarkdownCodeFence> = Vec::new();
    let mut cur_delim = FenceDelimiter { character: ' ', length: 0 };
    let mut cur_lang: Option<Vec<char>> = None;
    let mut cur_start: usize = 0;
    let mut cur_content: Vec<Vec<char>> = Vec::new();
    let mut open = false;
    let mut index: usize = 0;
    while index < lines.len()
        invariant
            index <= lines@.len(),
            ls == views(lines@),
            ls == md_lines(v@),
            fm == frontmatter_lines(v@),
            frontmatter == fm,
            total_lines == lines@.len(),
            cur_start <= index,
            ({
                let (done, cur) = fences_fold(ls, fm, index as int);
                &&& fences@.map_values(|f: MarkdownCodeFence| fence_view(f)) == done
                &&& (cur is Some <==> open)
                &&& (cur matches Some((d, lang, start, content)) ==> d == (cur_delim.character, cur_delim.length as int) && lang
                    == opt_chars(cur_lang) && start == cur_start && content == views(
                    cur_content@,
                ))
            }),
        decreases lines@.len() - index,
    {
        let line = &lines[index];
        assert(ls[index as int] == line@);
        let line_number = index + 1;
        let ghost prev_f = fences@;
        if index < frontmatter {
            index = index + 1;
            continue;
        }
        if open {
            if is_closing_fence(line, cur_delim) {
                let sep = newline();
                let content = join_chars(&cur_content, &sep);
                let f = MarkdownCodeFence {
                    language: opt_string(&cur_lang),
                    content: string_of(&content),
                    start_line: cur_start,
                    end_line: line_number,
                };
                fences.push(f);
                assert(fences@.map_values(|f: MarkdownCodeFence| fence_view(f)) =~= prev_f.map_values(
                    |f: MarkdownCodeFence| fence_view(f),
                ).push(fence_view(f)));
                open = false;
                index = index + 1;
                continue;
            }
            let ghost prev_c = cur_content@;
            let copy = slice_vec(line, 0, line.len());
            assert(copy@ =~= line@);
            cur_content.push(copy);
            assert(views(cur_content@) =~= views(prev_c).push(line@));
            index = index + 1;
            continue;
        }
        match parse_opening_fence(line) {
            Some(opening) => {
                cur_delim = opening.delimiter;
                cur_lang = language_from_info(&opening.info);
                cur_start = line_number;
                cur_content = Vec::new();
                assert(views(cur_content@) =~= Seq::<Seq<char>>::empty());
                open = true;
            },
            None => {},
        }
        index = index + 1;
    }
    assert(ls.len() == total_lines);
    if open {
        let sep = newline();
        let content = join_chars(&cur_content, &sep);
        let end_line = if total_lines > cur_start {
            total_lines
        } else {
            cur_start
        };
        let ghost prev_f = fences@;
        let f = MarkdownCodeFence {
            language: opt_string(&cur_lang),
            content: string_of(&content),
            start_line: cur_start,
            end_line,
        };
        fences.push(f);
        assert(fences@.map_values(|f: MarkdownCodeFence| fence_view(f)) =~= prev_f.map_values(
            |f: MarkdownCodeFence| fence_view(f),
        ).push(fence_view(f)));
    }
    fences
}


// ---------------------------------------------------------------------------
// Laws
// ---------------------------------------------------------------------------

proof fn lemma_fences_fold(lines: Seq<Seq<char>>, fm: int, n: int)
    requires
        0 <= n <= lines.len(),
    ensures
        ({
            let (done, cur) = fences_fold(lines, fm, n);
            &&& forall|k: int|
                0 <= k < done.len() ==> 1 <= (#[trigger] done[k]).2 < done[k].3 <= n
            &&& forall|k: int, j: int|
                0 <= k < j < done.len() ==> (#[trigger] done[k]).3 < (#[trigger] done[j]).2
            &&& cur matches Some(c) ==> 1 <= c.2 <= n && forall|k: int|
                0 <= k < done.len() ==> (#[trigger] done[k]).3 < c.2
        }),
    decreases n,
{
    if n > 0 {
        lemma_fences_fold(lines, fm, n - 1);
    }
}

/// Fenced blocks are listed in order and never overlap: each starts on a
/// line of the document, ends on the same line or after it (a closed block
/// ends on its closing line, an unclosed one on the last line), and ends
/// before the next one starts.
pub proof fn law_code_fences_in_order(s: Seq<char>)
    ensures
        forall|k: int|
            0 <= k < code_fences(s).len() ==> 1 <= (#[trigger] code_fences(s)[k]).2 <= code_fences(
                s,
            )[k].3 <= md_lines(s).len(),
        forall|k: int, j: int|
            0 <= k < j < code_fences(s).len() ==> (#[trigger] code_fences(s)[k]).3 < (
            #[trigger] code_fences(s)[j]).2,
{
    let lines = md_lines(s);
    lemma_fences_fold(lines, frontmatter_lines(s), lines.len() as int);
}


proof fn lemma_fences_content(lines: Seq<Seq<char>>, fm: int, n: int)
    requires
        0 <= n <= lines.len(),
        0 <= fm,
    ensures
        ({
            let (done, cur) = fences_fold(lines, fm, n);
            &&& forall|k: int|
                0 <= k < done.len() ==> 1 <= (#[trigger] done[k]).2 < done[k].3 <= n && done[k].1
                    == join(lines.subrange(done[k].2, done[k].3 - 1), seq!['\n'])
            &&& cur matches Some(c) ==> fm + 1 <= c.2 <= n && c.3 == lines.subrange(c.2, n)
        }),
    decreases n,
{
    if n > 0 {
        lemma_fences_content(lines, fm, n - 1);
        let (done, cur) = fences_fold(lines, fm, n - 1);
        let (done2, cur2) = fences_fold(lines, fm, n);
        match cur {
            Some(c) => {
                if n - 1 >= fm {
                    assert(lines.subrange(c.2, n - 1).push(lines[n - 1]) =~= lines.subrange(c.2, n));
                    assert forall|k: int| 0 <= k < done2.len() implies 1 <= (#[trigger] done2[k]).2
                        < done2[k].3 <= n && done2[k].1 == join(
                        lines.subrange(done2[k].2, done2[k].3 - 1),
                        seq!['\n'],
                    ) by {
                        if k < done.len() {
                            assert(done2[k] == done[k]);
                        }
                    }
                }
            },
            None => {
                if n - 1 >= fm {
                    assert(lines.subrange(n, n) =~= Seq::<Seq<char>>::empty());
                }
            },
        }
    }
}

/// Each fenced block holds exactly the raw lines between its opening line
/// and its closing line (or the end of the document when it is never
/// closed), joined by `\n`, with nothing changed in them.
pub proof fn law_code_fence_content(s: Seq<char>)
    ensures
        forall|k: int|
            0 <= k < code_fences(s).len() ==> ({
                let f = #[trigger] code_fences(s)[k];
                ||| f.1 == join(md_lines(s).subrange(f.2, f.3 - 1), seq!['\n'])
                ||| f.3 == md_lines(s).len() && f.1 == join(
                    md_lines(s).subrange(f.2, f.3),
                    seq!['\n'],
                )
            }),
{
    let lines = md_lines(s);
    let fm = frontmatter_lines(s);
    crate::markdown::frontmatter::lemma_frontmatter_bounds(s);
    lemma_fences_content(lines, fm, lines.len() as int);
    let (done, cur) = fences_fold(lines, fm, lines.len() as int);
    let r = code_fences(s);
    match cur {
        Some(c) => {
            assert forall|k: int| 0 <= k < r.len() implies ({
                let f = #[trigger] r[k];
                ||| f.1 == join(lines.subrange(f.2, f.3 - 1), seq!['\n'])
                ||| f.3 == lines.len() && f.1 == join(lines.subrange(f.2, f.3), seq!['\n'])
            }) by {
                if k < done.len() {
                    assert(r[k] == done[k]);
                }
            }
        },
        None => {},
    }
}

} // verus!
