//! Inline links `[text](target "title")` and the reference syntax that
//! images share with them.
use vstd::prelude::*;
use crate::markdown::code_fence::{
    delim_opt, fence_before, fence_step, is_text_line, opt_chars, opt_string, opt_view,
    FenceDelimiter,
};
use crate::markdown::frontmatter::{find_char_from, frontmatter_line_count, frontmatter_lines};
use crate::markdown::plain_text::{inline_markdown_to_text, inline_text};
use crate::markdown::{md_lines, md_lines_of};
use crate::text::{
    chars_of, is_ascii_whitespace, is_ascii_ws, is_whitespace, is_ws, slice_vec, string_of, trim,
    trim_vec, views,
};

verus! {

// ---------------------------------------------------------------------------
// Scanning for the closing delimiter
// ---------------------------------------------------------------------------

/// Index of the `]` that closes the bracket scan started at `i` with
/// `depth` open brackets; a backslash skips the character after it.
pub open spec fn bracket_end(s: Seq<char>, i: int, depth: nat) -> Option<int>
    decreases s.len() + 1 - i,
{
    if i < 0 || i >= s.len() {
        None
    } else if s[i] == '\\' {
        bracket_end(s, i + 2, depth)
    } else if s[i] == '[' {
        bracket_end(s, i + 1, depth + 1)
    } else if s[i] == ']' {
        let d: nat = if depth > 0 {
            (depth - 1) as nat
        } else {
            0
        };
        if d == 0 {
            Some(i)
        } else {
            bracket_end(s, i + 1, d)
        }
    } else {
        bracket_end(s, i + 1, depth)
    }
}

/// Index of the `)` that closes the parenthesis scan started at `i`;
/// text inside single or double quotes is skipped, and so is the character
/// after a backslash.
pub open spec fn paren_end(s: Seq<char>, i: int, depth: nat, quote: Option<char>) -> Option<int>
    decreases s.len() + 1 - i,
{
    if i < 0 || i >= s.len() {
        None
    } else if s[i] == '\\' {
        paren_end(s, i + 2, depth, quote)
    } else {
        match quote {
            Some(q) => if s[i] == q {
                paren_end(s, i + 1, depth, None)
            } else {
                paren_end(s, i + 1, depth, quote)
            },
            None => if s[i] == '"' || s[i] == '\'' {
                paren_end(s, i + 1, depth, Some(s[i]))
            } else if s[i] == '(' {
                paren_end(s, i + 1, depth + 1, None)
            } else if s[i] == ')' {
                let d: nat = if depth > 0 {
                    (depth - 1) as nat
                } else {
                    0
                };
                if d == 0 {
                    Some(i)
                } else {
                    paren_end(s, i + 1, d, None)
                }
            } else {
                paren_end(s, i + 1, depth, None)
            },
        }
    }
}

/// The first index from `i` on that is not ASCII whitespace.
pub open spec fn skip_ascii_ws(s: Seq<char>, i: int) -> int
    decreases s.len() - i,
{
    if 0 <= i < s.len() && is_ascii_ws(s[i]) {
        skip_ascii_ws(s, i + 1)
    } else {
        i
    }
}

pub proof fn lemma_bracket_end(s: Seq<char>, i: int, depth: nat)
    ensures
        bracket_end(s, i, depth) matches Some(j) ==> i <= j < s.len() && s[j] == ']',
    decreases s.len() + 1 - i,
{
    if 0 <= i < s.len() {
        if s[i] == '\\' {
            lemma_bracket_end(s, i + 2, depth);
        } else if s[i] == '[' {
            lemma_bracket_end(s, i + 1, depth + 1);
        } else if s[i] == ']' {
            if depth > 1 {
                lemma_bracket_end(s, i + 1, (depth - 1) as nat);
            }
        } else {
            lemma_bracket_end(s, i + 1, depth);
        }
    }
}

pub proof fn lemma_paren_end(s: Seq<char>, i: int, depth: nat, quote: Option<char>)
    ensures
        paren_end(s, i, depth, quote) matches Some(j) ==> i <= j < s.len(),
    decreases s.len() + 1 - i,
{
    if 0 <= i < s.len() {
        if s[i] == '\\' {
            lemma_paren_end(s, i + 2, depth, quote);
        } else {
            match quote {
                Some(q) => if s[i] == q {
                    lemma_paren_end(s, i + 1, depth, None);
                } else {
                    lemma_paren_end(s, i + 1, depth, quote);
                },
                None => if s[i] == '"' || s[i] == '\'' {
                    lemma_paren_end(s, i + 1, depth, Some(s[i]));
                } else if s[i] == '(' {
                    lemma_paren_end(s, i + 1, depth + 1, None);
                } else if s[i] == ')' {
                    if depth > 1 {
                        lemma_paren_end(s, i + 1, (depth - 1) as nat, None);
                    }
                } else {
                    lemma_paren_end(s, i + 1, depth, None);
                },
            }
        }
    }
}

pub proof fn lemma_skip_ascii_ws(s: Seq<char>, i: int)
    ensures
        i <= skip_ascii_ws(s, i),
        0 <= i <= s.len() ==> skip_ascii_ws(s, i) <= s.len(),
    decreases s.len() - i,
{
    if 0 <= i < s.len() && is_ascii_ws(s[i]) {
        lemma_skip_ascii_ws(s, i + 1);
    }
}

fn find_matching_bracket(line: &Vec<char>, open_index: usize) -> (r: Option<usize>)
    ensures
        match r {
            Some(j) => bracket_end(line@, open_index as int, 0) == Some(j as int),
            None => bracket_end(line@, open_index as int, 0) is None,
        },
{
    let n = line.len();
    let mut depth: usize = 0;
    let mut index = open_index;
    while index < n
        invariant
            n == line@.len(),
            depth <= index,
            bracket_end(line@, open_index as int, 0) == bracket_end(line@, index as int, depth as nat),
        decreases n - index,
    {
        let c = line[index];
        if c == '\\' {
            if n - index >= 2 {
                index = index + 2;
            } else {
                assert(bracket_end(line@, index + 2, depth as nat) is None);
                index = n;
            }
        } else if c == '[' {
            depth = depth + 1;
            index = index + 1;
        } else if c == ']' {
            depth = if depth > 0 {
                depth - 1
            } else {
                0
            };
            if depth == 0 {
                return Some(index);
            }
            index = index + 1;
        } else {
            index = index + 1;
        }
    }
    None
}

fn find_matching_paren(line: &Vec<char>, open_index: usize) -> (r: Option<usize>)
    ensures
        match r {
            Some(j) => paren_end(line@, open_index as int, 0, None) == Some(j as int),
            None => paren_end(line@, open_index as int, 0, None) is None,
        },
{
    let n = line.len();
    let mut depth: usize = 0;
    let mut quote: Option<char> = None;
    let mut index = open_index;
    while index < n
        invariant
            n == line@.len(),
            depth <= index,
            paren_end(line@, open_index as int, 0, None) == paren_end(
                line@,
                index as int,
                depth as nat,
                quote,
            ),
        decreases n - index,
    {
        let c = line[index];
        if c == '\\' {
            if n - index >= 2 {
                index = index + 2;
            } else {
                assert(paren_end(line@, index + 2, depth as nat, quote) is None);
                index = n;
            }
            continue;
        }
        match quote {
            Some(q) => {
                if c == q {
                    quote = None;
                }
                index = index + 1;
            },
            None => {
                if c == '"' || c == '\'' {
                    quote = Some(c);
                    index = index + 1;
                } else if c == '(' {
                    depth = depth + 1;
                    index = index + 1;
                } else if c == ')' {
                    depth = if depth > 0 {
                        depth - 1
                    } else {
                        0
                    };
                    if depth == 0 {
                        return Some(index);
                    }
                    index = index + 1;
                } else {
                    index = index + 1;
                }
            },
        }
    }
    None
}

fn skip_ascii_whitespace(line: &Vec<char>, start: usize) -> (r: usize)
    requires
        start <= line@.len(),
    ensures
        r == skip_ascii_ws(line@, start as int),
        start <= r <= line@.len(),
{
    let mut i = start;
    while i < line.len() && is_ascii_whitespace(line[i])
        invariant
            start <= i <= line@.len(),
            skip_ascii_ws(line@, start as int) == skip_ascii_ws(line@, i as int),
        decreases line@.len() - i,
    {
        i = i + 1;
    }
    i
}


// ---------------------------------------------------------------------------
// Target and title
// ---------------------------------------------------------------------------

/// The first whitespace character outside parentheses, from `i` on.
pub open spec fn target_split(s: Seq<char>, i: int, depth: nat) -> Option<int>
    decreases s.len() - i,
{
    if i < 0 || i >= s.len() {
        None
    } else if s[i] == '(' {
        target_split(s, i + 1, depth + 1)
    } else if s[i] == ')' && depth > 0 {
        target_split(s, i + 1, (depth - 1) as nat)
    } else if is_ws(s[i]) && depth == 0 {
        Some(i)
    } else {
        target_split(s, i + 1, depth)
    }
}

/// A title written as `"..."`, `'...'` or `(...)`, without its delimiters.
pub open spec fn title_literal(input: Seq<char>) -> Option<Seq<char>> {
    let t = trim(input);
    if t.len() < 2 {
        None
    } else {
        let f = t[0];
        let l = t.last();
        if (f == '"' && l == '"') || (f == '\'' && l == '\'') || (f == '(' && l == ')') {
            Some(t.subrange(1, t.len() - 1))
        } else {
            None
        }
    }
}

/// The target and the optional title between the parentheses of a link.
/// A target in angle brackets may hold spaces; an empty target is refused.
pub open spec fn target_title(input: Seq<char>) -> Option<(Seq<char>, Option<Seq<char>>)> {
    let t = trim(input);
    if t.len() == 0 {
        None
    } else {
        let parts: Option<(Seq<char>, Seq<char>)> = if t[0] == '<' {
            let rest = t.skip(1);
            match find_char_from(rest, '>', 0) {
                Some(k) => Some((rest.take(k), trim(rest.skip(k + 1)))),
                None => None,
            }
        } else {
            match target_split(t, 0, 0) {
                Some(k) => Some((t.take(k), trim(t.skip(k)))),
                None => Some((t, Seq::empty())),
            }
        };
        match parts {
            None => None,
            Some((target_part, title_part)) => {
                let target = trim(target_part);
                if target.len() == 0 {
                    None
                } else if title_part.len() == 0 {
                    Some((target, None))
                } else {
                    Some((target, title_literal(title_part)))
                }
            },
        }
    }
}

fn find_target_split_index(input: &Vec<char>) -> (r: Option<usize>)
    ensures
        match r {
            Some(k) => target_split(input@, 0, 0) == Some(k as int),
            None => target_split(input@, 0, 0) is None,
        },
{
    let mut depth: usize = 0;
    let mut i: usize = 0;
    while i < input.len()
        invariant
            i <= input@.len(),
            depth <= i,
            target_split(input@, 0, 0) == target_split(input@, i as int, depth as nat),
        decreases input@.len() - i,
    {
        let c = input[i];
        if c == '(' {
            depth = depth + 1;
        } else if c == ')' && depth > 0 {
            depth = depth - 1;
        } else if is_whitespace(c) && depth == 0 {
            return Some(i);
        }
        i = i + 1;
    }
    None
}

fn parse_title_literal(input: &Vec<char>) -> (r: Option<Vec<char>>)
    ensures
        match r {
            Some(t) => title_literal(input@) == Some(t@),
            None => title_literal(input@) is None,
        },
{
    let t = trim_vec(input);
    if t.len() < 2 {
        return None;
    }
    let first = t[0];
    let last = t[t.len() - 1];
    if (first == '"' && last == '"') || (first == '\'' && last == '\'') || (first == '('
        && last == ')') {
        Some(slice_vec(&t, 1, t.len() - 1))
    } else {
        None
    }
}

fn find_char(v: &Vec<char>, c: char) -> (r: Option<usize>)
    ensures
        match r {
            Some(k) => find_char_from(v@, c, 0) == Some(k as int),
            None => find_char_from(v@, c, 0) is None,
        },
{
    let mut i: usize = 0;
    while i < v.len()
        invariant
            i <= v@.len(),
            find_char_from(v@, c, 0) == find_char_from(v@, c, i as int),
        decreases v@.len() - i,
    {
        if v[i] == c {
            return Some(i);
        }
        i = i + 1;
    }
    None
}

fn parse_target_and_title(input: &Vec<char>) -> (r: Option<(Vec<char>, Option<Vec<char>>)>)
    ensures
        match r {
            Some((t, ti)) => target_title(input@) == Some(
                (
                    t@,
                    match ti {
                        Some(x) => Some(x@),
                        None => None::<Seq<char>>,
                    },
                ),
            ),
            None => target_title(input@) is None,
        },
{
    let t = trim_vec(input);
    if t.len() == 0 {
        return None;
    }
    let target_part: Vec<char>;
    let title_part: Vec<char>;
    if t[0] == '<' {
        let rest = slice_vec(&t, 1, t.len());
        assert(rest@ =~= t@.skip(1));
        match find_char(&rest, '>') {
            Some(k) => {
                proof {
                    crate::markdown::frontmatter::lemma_find_char_from(rest@, '>', 0);
                }
                target_part = slice_vec(&rest, 0, k);
                let after = slice_vec(&rest, k + 1, rest.len());
                title_part = trim_vec(&after);
                assert(target_part@ =~= rest@.take(k as int));
                assert(after@ =~= rest@.skip(k + 1));
            },
            None => {
                return None;
            },
        }
    } else {
        match find_target_split_index(&t) {
            Some(k) => {
                proof {
                    lemma_target_split(t@, 0, 0);
                }
                target_part = slice_vec(&t, 0, k);
                let after = slice_vec(&t, k, t.len());
                title_part = trim_vec(&after);
                assert(target_part@ =~= t@.take(k as int));
                assert(after@ =~= t@.skip(k as int));
            },
            None => {
                target_part = slice_vec(&t, 0, t.len());
                title_part = Vec::new();
                assert(target_part@ =~= t@);
                assert(title_part@ =~= Seq::<char>::empty());
            },
        }
    }
    let target = trim_vec(&target_part);
    if target.len() == 0 {
        return None;
    }
    if title_part.len() == 0 {
        Some((target, None))
    } else {
        Some((target, parse_title_literal(&title_part)))
    }
}

pub proof fn lemma_target_split(s: Seq<char>, i: int, depth: nat)
    ensures
        target_split(s, i, depth) matches Some(j) ==> i <= j < s.len(),
    decreases s.len() - i,
{
    if 0 <= i < s.len() {
        if s[i] == '(' {
            lemma_target_split(s, i + 1, depth + 1);
        } else if s[i] == ')' && depth > 0 {
            lemma_target_split(s, i + 1, (depth - 1) as nat);
        } else if !(is_ws(s[i]) && depth == 0) {
            lemma_target_split(s, i + 1, depth);
        }
    }
}


// ---------------------------------------------------------------------------
// One inline reference
// ---------------------------------------------------------------------------

/// Whether a link (`[`, not after `!`) or an image (`![`) starts at `i`.
pub open spec fn ref_starts_at(s: Seq<char>, i: int, image: bool) -> bool {
    if image {
        0 <= i && i + 1 < s.len() && s[i] == '!' && s[i + 1] == '['
    } else {
        0 <= i < s.len() && s[i] == '[' && (i == 0 || s[i - 1] != '!')
    }
}

/// The reference that starts at `start`: where its label starts and ends,
/// its target, its title, and the index after its closing parenthesis.
pub open spec fn ref_shape(s: Seq<char>, start: int, image: bool) -> Option<
    (int, int, Seq<char>, Option<Seq<char>>, int),
> {
    if image && !(0 <= start < s.len() && s[start] == '!') {
        None
    } else {
        let open = if image {
            start + 1
        } else {
            start
        };
        match bracket_end(s, open, 0) {
            None => None,
            Some(le) => {
                let c = skip_ascii_ws(s, le + 1);
                if !(0 <= c < s.len() && s[c] == '(') {
                    None
                } else {
                    match paren_end(s, c, 0, None) {
                        None => None,
                        Some(te) => match target_title(s.subrange(c + 1, te)) {
                            None => None,
                            Some((t, ti)) => Some((open + 1, le, t, ti, te + 1)),
                        },
                    }
                }
            },
        }
    }
}

pub proof fn lemma_ref_shape(s: Seq<char>, i: int, image: bool)
    requires
        ref_starts_at(s, i, image),
    ensures
        ref_shape(s, i, image) matches Some(sh) ==> i < sh.0 <= sh.1 < sh.4 <= s.len() && sh.2.len()
            > 0 && s[sh.0 - 1] == '[' && s[sh.1] == ']',
{
    let open = if image {
        i + 1
    } else {
        i
    };
    lemma_bracket_end(s, open + 1, 1);
    if let Some(le) = bracket_end(s, open, 0) {
        lemma_skip_ascii_ws(s, le + 1);
        let c = skip_ascii_ws(s, le + 1);
        if 0 <= c < s.len() && s[c] == '(' {
            lemma_paren_end(s, c + 1, 1, None);
        }
    }
}

#[derive(Clone, Copy, Debug, Eq, PartialEq)]
pub(crate) enum InlineReferenceKind {
    Link,
    Image,
}

/// Where a parsed reference lies in its line, with its target and title.
pub(crate) struct ParsedInlineReference {
    pub label_start: usize,
    pub label_end: usize,
    pub target: Vec<char>,
    pub title: Option<Vec<char>>,
    pub end: usize,
}

pub(crate) fn parse_inline_reference_at(
    line: &Vec<char>,
    start: usize,
    kind: InlineReferenceKind,
) -> (r: Option<ParsedInlineReference>)
    ensures
        match r {
            Some(p) => ref_shape(line@, start as int, kind is Image) == Some(
                (
                    p.label_start as int,
                    p.label_end as int,
                    p.target@,
                    opt_chars(p.title),
                    p.end as int,
                ),
            ),
            None => ref_shape(line@, start as int, kind is Image) is None,
        },
{
    let open_bracket = match kind {
        InlineReferenceKind::Link => start,
        InlineReferenceKind::Image => {
            if !(start < line.len() && line[start] == '!') {
                return None;
            }
            start + 1
        },
    };
    let label_end = match find_matching_bracket(line, open_bracket) {
        Some(j) => j,
        None => {
            return None;
        },
    };
    proof {
        lemma_bracket_end(line@, open_bracket as int, 0);
    }
    let n = line.len();
    let cursor = skip_ascii_whitespace(line, label_end + 1);
    if !(cursor < line.len() && line[cursor] == '(') {
        return None;
    }
    let target_end = match find_matching_paren(line, cursor) {
        Some(j) => j,
        None => {
            return None;
        },
    };
    proof {
        lemma_paren_end(line@, cursor + 1, 1, None);
    }
    let inner = slice_vec(line, cursor + 1, target_end);
    match parse_target_and_title(&inner) {
        None => None,
        Some((target, title)) => {
            Some(
                ParsedInlineReference {
                    label_start: open_bracket + 1,
                    label_end,
                    target,
                    title,
                    end: target_end + 1,
                },
            )
        },
    }
}


// ---------------------------------------------------------------------------
// All references of a document
// ---------------------------------------------------------------------------

/// The references of one line from index `i` on: label text, target, title.
pub open spec fn line_refs(s: Seq<char>, image: bool, i: int) -> Seq<
    (Seq<char>, Seq<char>, Option<Seq<char>>),
>
    decreases s.len() + 1 - i,
{
    if i < 0 || i >= s.len() {
        Seq::empty()
    } else {
        let r = if ref_starts_at(s, i, image) {
            ref_shape(s, i, image)
        } else {
            None
        };
        match r {
            Some(sh) => {
                proof {
                    lemma_ref_shape(s, i, image);
                }
                seq![(inline_text(s.subrange(sh.0, sh.1)), sh.2, sh.3)] + line_refs(s, image, sh.4)
            },
            None => line_refs(s, image, i + 1),
        }
    }
}

pub open spec fn with_line(rs: Seq<(Seq<char>, Seq<char>, Option<Seq<char>>)>, n: int) -> Seq<
    (Seq<char>, Seq<char>, Option<Seq<char>>, int),
> {
    rs.map_values(|r: (Seq<char>, Seq<char>, Option<Seq<char>>)| (r.0, r.1, r.2, n))
}

/// The references of the first `n` lines that are ordinary text, each with
/// its 1-based line number.
pub open spec fn doc_refs(lines: Seq<Seq<char>>, fm: int, image: bool, n: int) -> Seq<
    (Seq<char>, Seq<char>, Option<Seq<char>>, int),
>
    decreases n,
{
    if n <= 0 {
        Seq::empty()
    } else if is_text_line(lines, fm, n - 1) {
        doc_refs(lines, fm, image, n - 1) + with_line(line_refs(lines[n - 1], image, 0), n)
    } else {
        doc_refs(lines, fm, image, n - 1)
    }
}

/// The links (or images) of a document outside frontmatter and fences.
pub open spec fn inline_refs(s: Seq<char>, image: bool) -> Seq<
    (Seq<char>, Seq<char>, Option<Seq<char>>, int),
> {
    doc_refs(md_lines(s), frontmatter_lines(s), image, md_lines(s).len() as int)
}

/// A reference found in a document, with the plain text of its label.
pub(crate) struct InlineReference {
    pub label: Vec<char>,
    pub target: Vec<char>,
    pub title: Option<Vec<char>>,
    pub line: usize,
}

pub(crate) open spec fn ref_views(v: Seq<InlineReference>) -> Seq<
    (Seq<char>, Seq<char>, Option<Seq<char>>, int),
> {
    v.map_values(|r: InlineReference| (r.label@, r.target@, opt_chars(r.title), r.line as int))
}

fn scan_line_references(
    line: &Vec<char>,
    kind: InlineReferenceKind,
    line_number: usize,
    out: &mut Vec<InlineReference>,
)
    ensures
        ref_views(final(out)@) == ref_views(old(out)@) + with_line(
            line_refs(line@, kind is Image, 0),
            line_number as int,
        ),
{
    let ghost s = line@;
    let ghost image = kind is Image;
    let ghost base = ref_views(out@);
    let n = line.len();
    let mut cursor: usize = 0;
    assert(ref_views(out@) + with_line(line_refs(s, image, 0), line_number as int) =~= base
        + with_line(line_refs(s, image, 0), line_number as int));
    while cursor < n
        invariant
            n == s.len(),
            s == line@,
            image == (kind is Image),
            cursor <= n,
            ref_views(out@) + with_line(line_refs(s, image, cursor as int), line_number as int)
                == base + with_line(line_refs(s, image, 0), line_number as int),
        decreases n - cursor,
    {
        let hit = match kind {
            InlineReferenceKind::Link => line[cursor] == '[' && (cursor == 0 || line[cursor - 1]
                != '!'),
            InlineReferenceKind::Image => line[cursor] == '!' && cursor + 1 < n && line[cursor + 1]
                == '[',
        };
        assert(hit == ref_starts_at(s, cursor as int, image));
        if hit {
            match parse_inline_reference_at(line, cursor, kind) {
                Some(p) => {
                    proof {
                        lemma_ref_shape(s, cursor as int, image);
                    }
                    let ghost prev = ref_views(out@);
                    let label = slice_vec(line, p.label_start, p.label_end);
                    let text = inline_markdown_to_text(&label);
                    let r = InlineReference {
                        label: text,
                        target: p.target,
                        title: p.title,
                        line: line_number,
                    };
                    out.push(r);
                    let ghost item = (
                        inline_text(s.subrange(p.label_start as int, p.label_end as int)),
                        p.target@,
                        opt_chars(p.title),
                    );
                    assert(ref_views(out@) =~= prev.push((item.0, item.1, item.2, line_number as int)));
                    assert(line_refs(s, image, cursor as int) == seq![item] + line_refs(
                        s,
                        image,
                        p.end as int,
                    ));
                    assert(with_line(seq![item] + line_refs(s, image, p.end as int), line_number as int)
                        =~= seq![(item.0, item.1, item.2, line_number as int)] + with_line(
                        line_refs(s, image, p.end as int),
                        line_number as int,
                    ));
                    assert(ref_views(out@) + with_line(line_refs(s, image, p.end as int), line_number as int)
                        =~= prev + with_line(line_refs(s, image, cursor as int), line_number as int));
                    cursor = p.end;
                    continue;
                },
                None => {},
            }
        }
        cursor = cursor + 1;
    }
}

pub(crate) fn extract_inline_references(v: &Vec<char>, kind: InlineReferenceKind) -> (r: Vec<
    InlineReference,
>)
    ensures
        ref_views(r@) == inline_refs(v@, kind is Image),
{
    let frontmatter = frontmatter_line_count(v);
    let lines = md_lines_of(v);
    let ghost ls = views(lines@);
    let ghost fm = frontmatter as int;
    let ghost image = kind is Image;
    let mut references: Vec<InlineReference> = Vec::new();
    let mut active: Option<FenceDelimiter> = None;
    let mut index: usize = 0;
    assert(ref_views(references@) =~= Seq::empty());
    while index < lines.len()
        invariant
            index <= lines@.len(),
            ls == views(lines@),
            ls == md_lines(v@),
            fm == frontmatter_lines(v@),
            frontmatter == fm,
            image == (kind is Image),
            delim_opt(active) == fence_before(ls, fm, index as int),
            ref_views(references@) == doc_refs(ls, fm, image, index as int),
        decreases lines@.len() - index,
    {
        let line = &lines[index];
        assert(ls[index as int] == line@);
        if index < frontmatter {
            index = index + 1;
            continue;
        }
        let (next, is_text) = fence_step(line, active);
        active = next;
        if is_text {
            scan_line_references(line, kind, index + 1, &mut references);
        }
        index = index + 1;
    }
    references
}

/// A Markdown inline link.
#[derive(Clone, Debug, Eq, PartialEq)]
pub struct MarkdownLink {
    /// The cleaned label text.
    pub text: String,
    /// The destination target.
    pub target: String,
    /// The optional inline title.
    pub title: Option<String>,
    /// The 1-based line where the link was found.
    pub line: usize,
}

/// Text, target, title and line of a link.
pub open spec fn link_view(l: MarkdownLink) -> (Seq<char>, Seq<char>, Option<Seq<char>>, int) {
    (l.text@, l.target@, opt_view(l.title), l.line as int)
}

/// Extracts inline links while ignoring fenced code blocks.
pub fn extract_links(markdown: &str) -> (r: Vec<MarkdownLink>)
    ensures
        r@.map_values(|l: MarkdownLink| link_view(l)) == inline_refs(markdown@, false),
{
    let v = chars_of(markdown);
    let refs = extract_inline_references(&v, InlineReferenceKind::Link);
    let mut links: Vec<MarkdownLink> = Vec::new();
    let mut i: usize = 0;
    while i < refs.len()
        invariant
            i <= refs@.len(),
            links@.map_values(|l: MarkdownLink| link_view(l)) == ref_views(refs@).take(i as int),
        decreases refs@.len() - i,
    {
        let r = &refs[i];
        let link = MarkdownLink {
            text: string_of(&r.label),
            target: string_of(&r.target),
            title: opt_string(&r.title),
            line: r.line,
        };
        let ghost prev = links@;
        let ghost lv = link_view(link);
        assert(lv == ref_views(refs@)[i as int]);
        links.push(link);
        assert(links@.map_values(|l: MarkdownLink| link_view(l)) =~= prev.map_values(
            |l: MarkdownLink| link_view(l),
        ).push(lv));
        assert(ref_views(refs@).take(i + 1) =~= ref_views(refs@).take(i as int).push(lv));
        i = i + 1;
    }
    assert(ref_views(refs@).take(refs@.len() as int) =~= ref_views(refs@));
    links
}


// ---------------------------------------------------------------------------
// Laws
// ---------------------------------------------------------------------------

proof fn lemma_line_refs_targets(s: Seq<char>, image: bool, i: int)
    ensures
        forall|k: int|
            0 <= k < line_refs(s, image, i).len() ==> (#[trigger] line_refs(s, image, i)[k]).1.len()
                > 0,
    decreases s.len() + 1 - i,
{
    if 0 <= i < s.len() {
        let r = if ref_starts_at(s, i, image) {
            ref_shape(s, i, image)
        } else {
            None
        };
        match r {
            Some(sh) => {
                lemma_ref_shape(s, i, image);
                lemma_line_refs_targets(s, image, sh.4);
                let rest = line_refs(s, image, sh.4);
                let all = line_refs(s, image, i);
                assert(all == seq![(inline_text(s.subrange(sh.0, sh.1)), sh.2, sh.3)] + rest);
                assert(all[0].1 == sh.2);
                assert(sh.2.len() > 0);
                assert forall|k: int| 1 <= k < all.len() implies #[trigger] all[k] == rest[k - 1] by {}
                assert forall|k: int| 0 <= k < all.len() implies (#[trigger] all[k]).1.len() > 0 by {
                    if k > 0 {
                        assert(all[k] == rest[k - 1]);
                    }
                }
            },
            None => {
                lemma_line_refs_targets(s, image, i + 1);
                assert(line_refs(s, image, i) == line_refs(s, image, i + 1));
            },
        }
    }
}

proof fn lemma_doc_refs(lines: Seq<Seq<char>>, fm: int, image: bool, n: int)
    requires
        0 <= n <= lines.len(),
    ensures
        forall|k: int|
            0 <= k < doc_refs(lines, fm, image, n).len() ==> {
                let r = #[trigger] doc_refs(lines, fm, image, n)[k];
                &&& 1 <= r.3 <= n
                &&& is_text_line(lines, fm, r.3 - 1)
                &&& r.1.len() > 0
            },
        forall|k: int, j: int|
            0 <= k < j < doc_refs(lines, fm, image, n).len() ==> (#[trigger] doc_refs(
                lines,
                fm,
                image,
                n,
            )[k]).3 <= (#[trigger] doc_refs(lines, fm, image, n)[j]).3,
    decreases n,
{
    if n > 0 {
        lemma_doc_refs(lines, fm, image, n - 1);
        let prev = doc_refs(lines, fm, image, n - 1);
        let d = doc_refs(lines, fm, image, n);
        if is_text_line(lines, fm, n - 1) {
            let here = line_refs(lines[n - 1], image, 0);
            lemma_line_refs_targets(lines[n - 1], image, 0);
            let w = with_line(here, n);
            assert forall|k: int| 0 <= k < prev.len() implies #[trigger] d[k] == prev[k] by {}
            assert forall|k: int| prev.len() <= k < d.len() implies #[trigger] d[k] == w[k
                - prev.len()] && w[k - prev.len()].3 == n && w[k - prev.len()].1 == here[k
                - prev.len()].1 by {}
        }
    }
}

/// Every link (or image) comes from a line that is ordinary text, outside
/// frontmatter and fenced code; its target is never empty; references come
/// in the order of their lines.
pub proof fn law_references_come_from_text_lines(s: Seq<char>, image: bool)
    ensures
        forall|k: int|
            0 <= k < inline_refs(s, image).len() ==> {
                let r = #[trigger] inline_refs(s, image)[k];
                &&& 1 <= r.3 <= md_lines(s).len()
                &&& is_text_line(md_lines(s), frontmatter_lines(s), r.3 - 1)
                &&& r.1.len() > 0
            },
        forall|k: int, j: int|
            0 <= k < j < inline_refs(s, image).len() ==> (#[trigger] inline_refs(s, image)[k]).3 <= (
            #[trigger] inline_refs(s, image)[j]).3,
{
    lemma_doc_refs(md_lines(s), frontmatter_lines(s), image, md_lines(s).len() as int);
}


/// The text is the plain text of the characters between a `[` and a `]`.
pub open spec fn label_text_of(line: Seq<char>, text: Seq<char>) -> bool {
    exists|a: int, b: int|
        1 <= a <= b < line.len() && line[a - 1] == '[' && line[b] == ']' && text == #[trigger] inline_text(
            line.subrange(a, b),
        )
}

proof fn lemma_line_refs_labels(s: Seq<char>, image: bool, i: int)
    ensures
        forall|k: int|
            0 <= k < line_refs(s, image, i).len() ==> label_text_of(s, (#[trigger] line_refs(s, image, i)[k]).0),
    decreases s.len() + 1 - i,
{
    if 0 <= i < s.len() {
        let r = if ref_starts_at(s, i, image) {
            ref_shape(s, i, image)
        } else {
            None
        };
        match r {
            Some(sh) => {
                lemma_ref_shape(s, i, image);
                lemma_line_refs_labels(s, image, sh.4);
                let rest = line_refs(s, image, sh.4);
                let all = line_refs(s, image, i);
                assert(all == seq![(inline_text(s.subrange(sh.0, sh.1)), sh.2, sh.3)] + rest);
                assert(label_text_of(s, all[0].0)) by {
                    assert(s[sh.0 - 1] == '[' && s[sh.1] == ']');
                }
                assert forall|k: int| 0 <= k < all.len() implies label_text_of(s, (#[trigger] all[k]).0) by {
                    if k > 0 {
                        assert(all[k] == rest[k - 1]);
                    }
                }
            },
            None => {
                lemma_line_refs_labels(s, image, i + 1);
                assert(line_refs(s, image, i) == line_refs(s, image, i + 1));
            },
        }
    }
}

proof fn lemma_doc_refs_labels(lines: Seq<Seq<char>>, fm: int, image: bool, n: int)
    requires
        0 <= n <= lines.len(),
    ensures
        forall|k: int|
            0 <= k < doc_refs(lines, fm, image, n).len() ==> {
                let r = #[trigger] doc_refs(lines, fm, image, n)[k];
                1 <= r.3 <= n && label_text_of(lines[r.3 - 1], r.0)
            },
    decreases n,
{
    if n > 0 {
        lemma_doc_refs_labels(lines, fm, image, n - 1);
        let prev = doc_refs(lines, fm, image, n - 1);
        let d = doc_refs(lines, fm, image, n);
        if is_text_line(lines, fm, n - 1) {
            let here = line_refs(lines[n - 1], image, 0);
            lemma_line_refs_labels(lines[n - 1], image, 0);
            let w = with_line(here, n);
            assert forall|k: int| 0 <= k < d.len() implies {
                let r = #[trigger] d[k];
                1 <= r.3 <= n && label_text_of(lines[r.3 - 1], r.0)
            } by {
                if k < prev.len() {
                    assert(d[k] == prev[k]);
                } else {
                    assert(d[k] == w[k - prev.len()]);
                    assert(w[k - prev.len()].0 == here[k - prev.len()].0);
                    assert(label_text_of(lines[n - 1], here[k - prev.len()].0));
                }
            }
        }
    }
}

/// The text of every link (the alt text of every image) is the plain text of
/// what stands between a `[` and its `]` on the link's line: inline markup
/// in the label is removed, not kept.
pub proof fn law_reference_text_is_plain_label(s: Seq<char>, image: bool)
    ensures
        forall|k: int|
            0 <= k < inline_refs(s, image).len() ==> {
                let r = #[trigger] inline_refs(s, image)[k];
                1 <= r.3 <= md_lines(s).len() && label_text_of(md_lines(s)[r.3 - 1], r.0)
            },
{
    lemma_doc_refs_labels(md_lines(s), frontmatter_lines(s), image, md_lines(s).len() as int);
}

} // verus!
