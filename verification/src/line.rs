//! Line-level primitives: counting, trimming, indenting, dedenting and
//! line-ending normalization, with LF, CRLF and CR input treated alike.
use vstd::prelude::*;
use crate::text::{
    chars_eq, chars_of, extend_vec, free_of, is_blank, is_ws, join, join_chars, lemma_split_len,
    lemma_split_join, lemma_split_parts_free, non_empty_parts, slice_vec, split, split_chars, string_of, trim,
    trim_vec, views,
};

verus! {

/// A numbered logical line.
#[derive(Clone, Debug, Eq, PartialEq)]
pub struct Line {
    /// The 1-based line number.
    pub number: LineNumber,
    /// The line contents without the line ending.
    pub text: String,
}

/// A 1-based line number.
#[derive(Clone, Copy, Debug, Eq, PartialEq, Structural)]
pub struct LineNumber(usize);

impl LineNumber {
    /// The raw number.
    pub closed spec fn value(self) -> usize {
        self.0
    }

    /// Creates a new 1-based line number.
    pub fn new(value: usize) -> (r: LineNumber)
        ensures
            r.value() == value,
    {
        LineNumber(value)
    }

    /// Returns the raw 1-based number.
    pub fn get(self) -> (r: usize)
        ensures
            r == self.value(),
    {
        self.0
    }
}

/// Aggregate line counts derived from text.
#[derive(Clone, Copy, Debug, Eq, PartialEq, Structural)]
pub struct LineStats {
    /// Total number of logical lines.
    pub total: usize,
    /// Number of logical lines whose trimmed content is not empty.
    pub non_empty: usize,
}

impl LineStats {
    /// Builds stats from the input text.
    pub fn from_text(input: &str) -> (r: LineStats)
        ensures
            r.total == logical_lines(input@).len(),
            r.non_empty == non_blank_count(input@),
    {
        LineStats { total: line_count(input), non_empty: non_empty_line_count(input) }
    }
}

/// Supported line-ending shapes.
#[derive(Clone, Copy, Debug, Eq, PartialEq, Structural)]
pub enum LineEnding {
    /// `\n`
    Lf,
    /// `\r\n`
    Crlf,
    /// `\r`
    Cr,
}

pub open spec fn ending_chars(e: LineEnding) -> Seq<char> {
    match e {
        LineEnding::Lf => seq!['\n'],
        LineEnding::Crlf => seq!['\r', '\n'],
        LineEnding::Cr => seq!['\r'],
    }
}

impl LineEnding {
    /// Returns the concrete line-ending string.
    pub fn as_str(self) -> (r: &'static str)
        ensures
            r@ == ending_chars(self),
    {
        match self {
            LineEnding::Lf => {
                proof {
                    reveal_strlit("\n");
                }
                "\n"
            },
            LineEnding::Crlf => {
                proof {
                    reveal_strlit("\r\n");
                }
                "\r\n"
            },
            LineEnding::Cr => {
                proof {
                    reveal_strlit("\r");
                }
                "\r"
            },
        }
    }
}

fn ending_vec(e: LineEnding) -> (r: Vec<char>)
    ensures
        r@ == ending_chars(e),
{
    let mut r: Vec<char> = Vec::new();
    match e {
        LineEnding::Lf => {
            r.push('\n');
        },
        LineEnding::Crlf => {
            r.push('\r');
            r.push('\n');
        },
        LineEnding::Cr => {
            r.push('\r');
        },
    }
    assert(r@ =~= ending_chars(e));
    r
}

// ---------------------------------------------------------------------------
// Model
// ---------------------------------------------------------------------------

/// `\r\n` and lone `\r` replaced by `\n`.
pub open spec fn to_lf(s: Seq<char>) -> Seq<char>
    decreases s.len(),
{
    if s.len() == 0 {
        Seq::empty()
    } else if s[0] == '\r' && s.len() >= 2 && s[1] == '\n' {
        seq!['\n'] + to_lf(s.skip(2))
    } else if s[0] == '\r' {
        seq!['\n'] + to_lf(s.drop_first())
    } else {
        seq![s[0]] + to_lf(s.drop_first())
    }
}

pub open spec fn has_crlf(s: Seq<char>) -> bool {
    exists|i: int| 0 <= i < s.len() - 1 && #[trigger] s[i] == '\r' && s[i + 1] == '\n'
}

pub open spec fn has_cr(s: Seq<char>) -> bool {
    exists|i: int| 0 <= i < s.len() && #[trigger] s[i] == '\r'
}

/// The line ending that the input mostly uses: CRLF if it has one, else CR if
/// it has one, else LF.
pub open spec fn preferred_ending(s: Seq<char>) -> LineEnding {
    if has_crlf(s) {
        LineEnding::Crlf
    } else if has_cr(s) {
        LineEnding::Cr
    } else {
        LineEnding::Lf
    }
}

/// The logical lines: split at line endings, without the empty line that a
/// final line ending would leave.
pub open spec fn logical_lines(s: Seq<char>) -> Seq<Seq<char>> {
    let n = to_lf(s);
    if n.len() == 0 {
        Seq::empty()
    } else if n.last() == '\n' {
        split(n, '\n').drop_last()
    } else {
        split(n, '\n')
    }
}

/// Number of logical lines that are not blank.
pub open spec fn non_blank_count(s: Seq<char>) -> nat {
    non_empty_parts(logical_lines(s).map_values(|l: Seq<char>| trim(l))).len()
}

/// The lines of the normalized text, none when it is empty.
pub open spec fn raw_lines(s: Seq<char>) -> Seq<Seq<char>> {
    if to_lf(s).len() == 0 {
        Seq::empty()
    } else {
        split(to_lf(s), '\n')
    }
}

/// Each line transformed, joined with the input's preferred line ending.
pub open spec fn transformed(s: Seq<char>, indent: Option<Seq<char>>) -> Seq<char> {
    join(
        raw_lines(s).map_values(
            |l: Seq<char>|
                match indent {
                    Some(p) => p + l,
                    None => trim(l),
                },
        ),
        ending_chars(preferred_ending(s)),
    )
}

/// The leading spaces and tabs of a line.
pub open spec fn indent_len(l: Seq<char>) -> nat
    decreases l.len(),
{
    if l.len() > 0 && (l[0] == ' ' || l[0] == '\t') {
        1 + indent_len(l.drop_first())
    } else {
        0
    }
}

pub open spec fn leading_indent(l: Seq<char>) -> Seq<char> {
    l.take(indent_len(l) as int)
}

/// Length of the longest common prefix.
pub open spec fn shared_len(a: Seq<char>, b: Seq<char>) -> nat
    decreases a.len(),
{
    if a.len() > 0 && b.len() > 0 && a[0] == b[0] {
        1 + shared_len(a.drop_first(), b.drop_first())
    } else {
        0
    }
}

/// The indentation common to the non-blank lines, if there is one.
pub open spec fn common_indent_of(lines: Seq<Seq<char>>) -> Option<Seq<char>>
    decreases lines.len(),
{
    if lines.len() == 0 {
        None
    } else {
        let prev = common_indent_of(lines.drop_last());
        let l = lines.last();
        if trim(l).len() == 0 {
            prev
        } else {
            match prev {
                None => Some(leading_indent(l)),
                Some(c) => Some(c.take(shared_len(c, leading_indent(l)) as int)),
            }
        }
    }
}

pub open spec fn common_indent_spec(lines: Seq<Seq<char>>) -> Seq<char> {
    match common_indent_of(lines) {
        Some(c) => c,
        None => Seq::empty(),
    }
}

pub open spec fn starts_with(l: Seq<char>, p: Seq<char>) -> bool {
    p.len() <= l.len() && l.take(p.len() as int) == p
}

/// A line with the common indentation removed; blank lines become empty.
pub open spec fn dedented_line(l: Seq<char>, indent: Seq<char>) -> Seq<char> {
    if trim(l).len() == 0 {
        Seq::empty()
    } else if starts_with(l, indent) {
        l.skip(indent.len() as int)
    } else {
        l
    }
}

/// What `dedent_lines` returns.
pub open spec fn dedented(s: Seq<char>) -> Seq<char> {
    let lines = raw_lines(s);
    let indent = common_indent_spec(lines);
    let ending = ending_chars(preferred_ending(s));
    if indent.len() == 0 {
        join(lines, ending)
    } else {
        join(lines.map_values(|l: Seq<char>| dedented_line(l, indent)), ending)
    }
}

// ---------------------------------------------------------------------------
// Implementation
// ---------------------------------------------------------------------------

fn normalize_to_lf(v: &Vec<char>) -> (r: Vec<char>)
    ensures
        r@ == to_lf(v@),
{
    let mut r: Vec<char> = Vec::new();
    let mut i: usize = 0;
    assert(v@.skip(0) =~= v@);
    while i < v.len()
        invariant
            i <= v@.len(),
            r@ + to_lf(v@.skip(i as int)) == to_lf(v@),
        decreases v@.len() - i,
    {
        let ghost rest = v@.skip(i as int);
        assert(rest[0] == v@[i as int]);
        let ghost before = r@;
        if v[i] == '\r' && i + 1 < v.len() && v[i + 1] == '\n' {
            assert(rest[1] == v@[i + 1]);
            assert(rest.skip(2) =~= v@.skip(i + 2));
            r.push('\n');
            assert(before + to_lf(rest) =~= r@ + to_lf(v@.skip(i + 2)));
            i = i + 2;
        } else {
            assert(rest.drop_first() =~= v@.skip(i + 1));
            if v[i] == '\r' {
                r.push('\n');
            } else {
                r.push(v[i]);
            }
            assert(before + to_lf(rest) =~= r@ + to_lf(v@.skip(i + 1)));
            i = i + 1;
        }
    }
    assert(v@.skip(i as int) =~= Seq::<char>::empty());
    assert(r@ + to_lf(v@.skip(i as int)) =~= r@);
    r
}

fn preferred_line_ending(v: &Vec<char>) -> (r: LineEnding)
    ensures
        r == preferred_ending(v@),
{
    let mut crlf = false;
    let mut cr = false;
    let mut i: usize = 0;
    while i < v.len()
        invariant
            i <= v@.len(),
            crlf == exists|j: int| 0 <= j < i && j < v@.len() - 1 && #[trigger] v@[j] == '\r' && v@[j
                + 1] == '\n',
            cr == exists|j: int| 0 <= j < i && #[trigger] v@[j] == '\r',
        decreases v@.len() - i,
    {
        if v[i] == '\r' {
            cr = true;
            if i + 1 < v.len() && v[i + 1] == '\n' {
                crlf = true;
            }
        }
        i = i + 1;
    }
    if crlf {
        LineEnding::Crlf
    } else if cr {
        LineEnding::Cr
    } else {
        LineEnding::Lf
    }
}

fn raw_lines_of(v: &Vec<char>) -> (r: Vec<Vec<char>>)
    ensures
        views(r@) == raw_lines(v@),
{
    let n = normalize_to_lf(v);
    if n.len() == 0 {
        let r: Vec<Vec<char>> = Vec::new();
        assert(views(r@) =~= Seq::<Seq<char>>::empty());
        r
    } else {
        split_chars(&n, '\n')
    }
}

fn logical_lines_of(v: &Vec<char>) -> (r: Vec<Vec<char>>)
    ensures
        views(r@) == logical_lines(v@),
{
    let n = normalize_to_lf(v);
    if n.len() == 0 {
        let r: Vec<Vec<char>> = Vec::new();
        assert(views(r@) =~= Seq::<Seq<char>>::empty());
        return r;
    }
    let mut lines = split_chars(&n, '\n');
    if n[n.len() - 1] == '\n' {
        proof {
            lemma_split_len(n@, '\n');
        }
        let ghost before = lines@;
        lines.pop();
        assert(views(lines@) =~= views(before).drop_last());
    }
    lines
}

/// Counts logical lines, ignoring a trailing empty line created only by a final line ending.
pub fn line_count(input: &str) -> (r: usize)
    ensures
        r == logical_lines(input@).len(),
{
    let v = chars_of(input);
    let lines = logical_lines_of(&v);
    lines.len()
}

/// Counts logical lines whose trimmed content is not empty.
pub fn non_empty_line_count(input: &str) -> (r: usize)
    ensures
        r == non_blank_count(input@),
{
    let v = chars_of(input);
    let lines = logical_lines_of(&v);
    let ghost ts = logical_lines(v@).map_values(|l: Seq<char>| trim(l));
    let mut count: usize = 0;
    let mut k: usize = 0;
    while k < lines.len()
        invariant
            k <= lines@.len(),
            views(lines@) == logical_lines(v@),
            ts == logical_lines(v@).map_values(|l: Seq<char>| trim(l)),
            count <= k,
            count == non_empty_parts(ts.take(k as int)).len(),
        decreases lines@.len() - k,
    {
        assert(ts.take(k + 1).drop_last() =~= ts.take(k as int));
        assert(views(lines@)[k as int] == lines@[k as int]@);
        assert(ts.take(k + 1).last() == trim(lines@[k as int]@));
        if !is_blank(&lines[k]) {
            count = count + 1;
        }
        k = k + 1;
    }
    assert(ts.take(k as int) =~= ts);
    count
}

fn transform_lines(input: &str, indent: Option<&Vec<char>>) -> (r: String)
    ensures
        r@ == transformed(
            input@,
            match indent {
                Some(p) => Some(p@),
                None => None,
            },
        ),
{
    let v = chars_of(input);
    let ending = preferred_line_ending(&v);
    let lines = raw_lines_of(&v);
    let ghost gi: Option<Seq<char>> = match indent {
        Some(p) => Some(p@),
        None => None,
    };
    let ghost f = |l: Seq<char>|
        match gi {
            Some(p) => p + l,
            None => trim(l),
        };
    let mut out: Vec<Vec<char>> = Vec::new();
    let mut k: usize = 0;
    while k < lines.len()
        invariant
            k <= lines@.len(),
            views(lines@) == raw_lines(v@),
            gi == (match indent {
                Some(p) => Some(p@),
                None => None,
            }),
            f == (|l: Seq<char>|
                match gi {
                    Some(p) => p + l,
                    None => trim(l),
                }),
            views(out@) == raw_lines(v@).map_values(f).take(k as int),
        decreases lines@.len() - k,
    {
        assert(views(lines@)[k as int] == lines@[k as int]@);
        let t = match indent {
            Some(p) => {
                let mut t: Vec<char> = Vec::new();
                extend_vec(&mut t, p);
                extend_vec(&mut t, &lines[k]);
                t
            },
            None => trim_vec(&lines[k]),
        };
        let ghost prev = out@;
        out.push(t);
        assert(views(out@) =~= views(prev).push(t@));
        assert(raw_lines(v@).map_values(f).take(k + 1) =~= raw_lines(v@).map_values(f).take(
            k as int,
        ).push(t@));
        k = k + 1;
    }
    assert(raw_lines(v@).map_values(f).take(k as int) =~= raw_lines(v@).map_values(f));
    let sep = ending_vec(ending);
    let joined = join_chars(&out, &sep);
    string_of(&joined)
}

/// Trims each logical line independently and preserves the input line-ending style when possible.
pub fn trim_lines(input: &str) -> (r: String)
    ensures
        r@ == transformed(input@, None),
{
    transform_lines(input, None)
}

/// Normalizes line endings to the requested target.
pub fn normalize_line_endings(input: &str, ending: LineEnding) -> (r: String)
    ensures
        r@ == join(split(to_lf(input@), '\n'), ending_chars(ending)),
{
    let v = chars_of(input);
    let n = normalize_to_lf(&v);
    let parts = split_chars(&n, '\n');
    let sep = ending_vec(ending);
    let joined = join_chars(&parts, &sep);
    string_of(&joined)
}

/// Prefixes each logical line with the provided indent string.
pub fn indent_lines(input: &str, indent: &str) -> (r: String)
    ensures
        r@ == transformed(input@, Some(indent@)),
{
    let p = chars_of(indent);
    transform_lines(input, Some(&p))
}

fn leading_indent_len(line: &Vec<char>) -> (r: usize)
    ensures
        r == indent_len(line@),
        r <= line@.len(),
{
    let mut i: usize = 0;
    assert(line@.skip(0) =~= line@);
    while i < line.len() && (line[i] == ' ' || line[i] == '\t')
        invariant
            i <= line@.len(),
            indent_len(line@) == i + indent_len(line@.skip(i as int)),
        decreases line@.len() - i,
    {
        assert(line@.skip(i as int).drop_first() =~= line@.skip(i + 1));
        i = i + 1;
    }
    assert(line@.skip(i as int).len() == 0 || !(line@.skip(i as int)[0] == ' ' || line@.skip(
        i as int,
    )[0] == '\t'));
    i
}

fn shared_prefix_len(a: &Vec<char>, b: &Vec<char>) -> (r: usize)
    ensures
        r == shared_len(a@, b@),
        r <= a@.len(),
{
    let mut i: usize = 0;
    assert(a@.skip(0) =~= a@);
    assert(b@.skip(0) =~= b@);
    while i < a.len() && i < b.len() && a[i] == b[i]
        invariant
            i <= a@.len(),
            i <= b@.len(),
            shared_len(a@, b@) == i + shared_len(a@.skip(i as int), b@.skip(i as int)),
        decreases a@.len() - i,
    {
        assert(a@.skip(i as int).drop_first() =~= a@.skip(i + 1));
        assert(b@.skip(i as int).drop_first() =~= b@.skip(i + 1));
        i = i + 1;
    }
    proof {
        if i < a.len() && i < b.len() {
            assert(a@.skip(i as int)[0] == a@[i as int]);
            assert(b@.skip(i as int)[0] == b@[i as int]);
        }
    }
    i
}

proof fn lemma_common_indent_empty_stays(lines: Seq<Seq<char>>, i: int, j: int)
    requires
        0 <= i <= j <= lines.len(),
        common_indent_of(lines.take(i)) == Some(Seq::<char>::empty()),
    ensures
        common_indent_of(lines.take(j)) == Some(Seq::<char>::empty()),
    decreases j - i,
{
    if j > i {
        lemma_common_indent_empty_stays(lines, i, j - 1);
        assert(lines.take(j).drop_last() =~= lines.take(j - 1));
        let e = Seq::<char>::empty();
        assert(e.take(0) =~= e);
    }
}

fn common_indent(lines: &Vec<Vec<char>>) -> (r: Vec<char>)
    ensures
        r@ == common_indent_spec(views(lines@)),
{
    let ghost ls = views(lines@);
    let mut common: Vec<char> = Vec::new();
    let mut found = false;
    let mut k: usize = 0;
    assert(ls.take(0) =~= Seq::<Seq<char>>::empty());
    while k < lines.len()
        invariant
            k <= lines@.len(),
            ls == views(lines@),
            !found ==> common@.len() == 0,
            common_indent_of(ls.take(k as int)) == (if found {
                Some(common@)
            } else {
                None
            }),
        decreases lines@.len() - k,
    {
        assert(ls.take(k + 1).drop_last() =~= ls.take(k as int));
        assert(ls[k as int] == lines@[k as int]@);
        assert(ls.take(k + 1).last() == lines@[k as int]@);
        if !is_blank(&lines[k]) {
            let n = leading_indent_len(&lines[k]);
            let indent = slice_vec(&lines[k], 0, n);
            assert(indent@ =~= leading_indent(lines@[k as int]@));
            if !found {
                common = indent;
                found = true;
            } else {
                let shared = shared_prefix_len(&common, &indent);
                common.truncate(shared);
                assert(common@ =~= common@.take(shared as int));
                if common.len() == 0 {
                    proof {
                        assert(common_indent_of(ls.take(k + 1)) == Some(common@));
                        assert(common@ =~= Seq::<char>::empty());
                        lemma_common_indent_empty_stays(ls, k + 1, ls.len() as int);
                        assert(ls.take(ls.len() as int) =~= ls);
                    }
                    return common;
                }
            }
        }
        k = k + 1;
    }
    assert(ls.take(k as int) =~= ls);
    common
}

fn starts_with_vec(line: &Vec<char>, prefix: &Vec<char>) -> (r: bool)
    ensures
        r == starts_with(line@, prefix@),
{
    if prefix.len() > line.len() {
        return false;
    }
    let head = slice_vec(line, 0, prefix.len());
    chars_eq(&head, prefix)
}

/// Removes the common indentation shared by non-empty lines.
pub fn dedent_lines(input: &str) -> (r: String)
    ensures
        r@ == dedented(input@),
{
    let v = chars_of(input);
    let ending = preferred_line_ending(&v);
    let sep = ending_vec(ending);
    let mut lines = raw_lines_of(&v);
    let indent = common_indent(&lines);
    if indent.len() == 0 {
        let joined = join_chars(&lines, &sep);
        return string_of(&joined);
    }
    let ghost ls = raw_lines(v@);
    let ghost f = |l: Seq<char>| dedented_line(l, indent@);
    let mut out: Vec<Vec<char>> = Vec::new();
    let mut k: usize = 0;
    while k < lines.len()
        invariant
            k <= lines@.len(),
            views(lines@) == ls,
            f == (|l: Seq<char>| dedented_line(l, indent@)),
            views(out@) == ls.map_values(f).take(k as int),
        decreases lines@.len() - k,
    {
        assert(ls[k as int] == lines@[k as int]@);
        let line = &lines[k];
        let t = if is_blank(line) {
            Vec::new()
        } else if starts_with_vec(line, &indent) {
            slice_vec(line, indent.len(), line.len())
        } else {
            slice_vec(line, 0, line.len())
        };
        proof {
            assert(t@ =~= dedented_line(lines@[k as int]@, indent@));
        }
        let ghost prev = out@;
        out.push(t);
        assert(views(out@) =~= views(prev).push(t@));
        assert(ls.map_values(f).take(k + 1) =~= ls.map_values(f).take(k as int).push(t@));
        k = k + 1;
    }
    assert(ls.map_values(f).take(k as int) =~= ls.map_values(f));
    let joined = join_chars(&out, &sep);
    string_of(&joined)
}

/// Returns numbered logical lines.
pub fn lines_with_numbers(input: &str) -> (r: Vec<Line>)
    ensures
        r@.len() == logical_lines(input@).len(),
        forall|k: int|
            0 <= k < r@.len() ==> (#[trigger] r@[k]).number.value() == k + 1 && r@[k].text@
                == logical_lines(input@)[k],
{
    let v = chars_of(input);
    let lines = logical_lines_of(&v);
    let mut r: Vec<Line> = Vec::new();
    let mut k: usize = 0;
    while k < lines.len()
        invariant
            k <= lines@.len(),
            views(lines@) == logical_lines(v@),
            r@.len() == k,
            forall|j: int|
                0 <= j < k ==> (#[trigger] r@[j]).number.value() == j + 1 && r@[j].text@
                    == logical_lines(v@)[j],
        decreases lines@.len() - k,
    {
        assert(views(lines@)[k as int] == lines@[k as int]@);
        let text = string_of(&lines[k]);
        r.push(Line { number: LineNumber::new(k + 1), text });
        k = k + 1;
    }
    r
}

// ---------------------------------------------------------------------------
// Laws
// ---------------------------------------------------------------------------

proof fn lemma_to_lf_no_cr(s: Seq<char>)
    ensures
        free_of(to_lf(s), '\r'),
    decreases s.len(),
{
    if s.len() > 0 {
        if s[0] == '\r' && s.len() >= 2 && s[1] == '\n' {
            lemma_to_lf_no_cr(s.skip(2));
        } else {
            lemma_to_lf_no_cr(s.drop_first());
        }
        let r = to_lf(s);
        assert forall|i: int| 0 <= i < r.len() implies #[trigger] r[i] != '\r' by {
            if i > 0 {
                if s[0] == '\r' && s.len() >= 2 && s[1] == '\n' {
                    assert(r[i] == to_lf(s.skip(2))[i - 1]);
                } else {
                    assert(r[i] == to_lf(s.drop_first())[i - 1]);
                }
            }
        }
    }
}

proof fn lemma_to_lf_plain(s: Seq<char>)
    requires
        free_of(s, '\r'),
    ensures
        to_lf(s) == s,
    decreases s.len(),
{
    if s.len() > 0 {
        assert(s[0] != '\r');
        let t = s.drop_first();
        assert forall|i: int| 0 <= i < t.len() implies #[trigger] t[i] != '\r' by {
            assert(t[i] == s[i + 1]);
        }
        lemma_to_lf_plain(t);
        assert(seq![s[0]] + t =~= s);
    }
}

proof fn lemma_to_lf_concat(a: Seq<char>, b: Seq<char>)
    requires
        !(a.len() > 0 && a.last() == '\r' && b.len() > 0 && b[0] == '\n'),
    ensures
        to_lf(a + b) == to_lf(a) + to_lf(b),
    decreases a.len(),
{
    if a.len() == 0 {
        assert(a + b =~= b);
        assert(to_lf(a) + to_lf(b) =~= to_lf(b));
    } else {
        let ab = a + b;
        assert(ab[0] == a[0]);
        if a[0] == '\r' && a.len() >= 2 && a[1] == '\n' {
            assert(ab[1] == a[1]);
            assert(ab.skip(2) =~= a.skip(2) + b);
            if a.skip(2).len() > 0 {
                assert(a.skip(2).last() == a.last());
            }
            lemma_to_lf_concat(a.skip(2), b);
            assert(to_lf(ab) =~= to_lf(a) + to_lf(b));
        } else {
            assert(ab.drop_first() =~= a.drop_first() + b);
            if a.drop_first().len() > 0 {
                assert(a.drop_first().last() == a.last());
            }
            lemma_to_lf_concat(a.drop_first(), b);
            if a[0] == '\r' && a.len() == 1 && b.len() > 0 {
                assert(ab[1] == b[0]);
            }
            if a[0] == '\r' && a.len() >= 2 {
                assert(ab[1] == a[1]);
            }
            assert(to_lf(ab) =~= to_lf(a) + to_lf(b));
        }
    }
}

proof fn lemma_join_split(s: Seq<char>, c: char)
    ensures
        join(split(s, c), seq![c]) == s,
    decreases s.len(),
{
    if s.len() == 0 {
        assert(join(split(s, c), seq![c]) == split(s, c)[0]);
        assert(s =~= Seq::<char>::empty());
    } else {
        lemma_join_split(s.drop_last(), c);
        lemma_split_len(s.drop_last(), c);
        let p = split(s.drop_last(), c);
        let q = split(s, c);
        let sep = seq![c];
        if s.last() == c {
            assert(q.drop_last() =~= p);
            assert(join(q, sep) =~= join(p, sep) + sep + Seq::<char>::empty());
            assert(s =~= s.drop_last() + sep);
        } else {
            let ch = s.last();
            if p.len() == 1 {
                assert(join(q, sep) == q[0]);
                assert(join(p, sep) == p[0]);
            } else {
                assert(q.drop_last() =~= p.drop_last());
                assert(join(q, sep) == join(p.drop_last(), sep) + sep + p.last().push(ch));
                assert(join(p, sep) == join(p.drop_last(), sep) + sep + p.last());
            }
            assert(join(q, sep) =~= join(p, sep).push(ch));
            assert(s =~= s.drop_last().push(ch));
        }
    }
}

proof fn lemma_to_lf_ending(e: LineEnding)
    ensures
        to_lf(ending_chars(e)) == seq!['\n'],
{
    let sep = ending_chars(e);
    let empty = Seq::<char>::empty();
    assert(to_lf(empty) =~= empty);
    match e {
        LineEnding::Lf => {
            assert(sep.drop_first() =~= empty);
            assert(to_lf(sep) =~= seq!['\n'] + empty);
        },
        LineEnding::Crlf => {
            assert(sep.skip(2) =~= empty);
            assert(to_lf(sep) =~= seq!['\n'] + empty);
        },
        LineEnding::Cr => {
            assert(sep.drop_first() =~= empty);
            assert(to_lf(sep) =~= seq!['\n'] + empty);
        },
    }
}

proof fn lemma_to_lf_join(ps: Seq<Seq<char>>, e: LineEnding)
    requires
        forall|k: int|
            0 <= k < ps.len() ==> free_of(#[trigger] ps[k], '\r') && free_of(ps[k], '\n'),
    ensures
        to_lf(join(ps, ending_chars(e))) == join(ps, seq!['\n']),
    decreases ps.len(),
{
    let sep = ending_chars(e);
    let lf = seq!['\n'];
    if e == LineEnding::Lf {
        assert(sep == lf);
        assert forall|i: int| 0 <= i < lf.len() implies #[trigger] lf[i] != '\r' by {}
        lemma_join_free_of(ps, lf, '\r');
        lemma_to_lf_plain(join(ps, lf));
    } else if ps.len() == 0 {
        assert(to_lf(Seq::<char>::empty()) =~= Seq::<char>::empty());
    } else if ps.len() == 1 {
        assert(free_of(ps[0], '\r'));
        lemma_to_lf_plain(ps[0]);
    } else {
        let init = ps.drop_last();
        let last = ps.last();
        assert(free_of(ps[ps.len() - 1], '\r') && free_of(ps[ps.len() - 1], '\n'));
        assert forall|k: int| 0 <= k < init.len() implies free_of(#[trigger] init[k], '\r')
            && free_of(init[k], '\n') by {
            assert(init[k] == ps[k]);
        }
        lemma_to_lf_join(init, e);
        let j = join(init, sep);
        lemma_to_lf_ending(e);
        assert(sep[0] == '\r');
        lemma_to_lf_concat(j, sep);
        if last.len() > 0 {
            assert(last[0] != '\n');
        }
        lemma_to_lf_concat(j + sep, last);
        lemma_to_lf_plain(last);
        assert(join(ps, sep) == j + sep + last);
        assert(join(ps, lf) == join(init, lf) + lf + last);
    }
}

proof fn lemma_join_free_of(ps: Seq<Seq<char>>, sep: Seq<char>, d: char)
    requires
        forall|k: int| 0 <= k < ps.len() ==> free_of(#[trigger] ps[k], d),
        free_of(sep, d),
    ensures
        free_of(join(ps, sep), d),
    decreases ps.len(),
{
    if ps.len() == 1 {
        assert(free_of(ps[0], d));
    } else if ps.len() >= 2 {
        let init = ps.drop_last();
        assert forall|k: int| 0 <= k < init.len() implies free_of(#[trigger] init[k], d) by {
            assert(init[k] == ps[k]);
        }
        lemma_join_free_of(init, sep, d);
        assert(free_of(ps[ps.len() - 1], d));
        let j = join(init, sep);
        let r = join(ps, sep);
        assert(r == j + sep + ps.last());
        assert forall|i: int| 0 <= i < r.len() implies #[trigger] r[i] != d by {
            if i < j.len() {
                assert(r[i] == j[i]);
            } else if i < j.len() + sep.len() {
                assert(r[i] == sep[i - j.len()]);
            } else {
                assert(r[i] == ps.last()[i - j.len() - sep.len()]);
            }
        }
    }
}

/// There are never more non-blank lines than lines.
pub proof fn law_line_stats_bounded(s: Seq<char>)
    ensures
        non_blank_count(s) <= logical_lines(s).len(),
{
    crate::text::lemma_non_empty_parts_len(logical_lines(s).map_values(|l: Seq<char>| trim(l)));
}

/// Normalizing line endings changes nothing but the line endings: bringing the
/// result back to LF gives the input brought to LF.
pub proof fn law_normalize_line_endings_roundtrip(s: Seq<char>, e: LineEnding)
    ensures
        to_lf(join(split(to_lf(s), '\n'), ending_chars(e))) == to_lf(s),
{
    let n = to_lf(s);
    let ps = split(n, '\n');
    lemma_to_lf_no_cr(s);
    lemma_split_parts_free(n, '\n');
    lemma_split_parts_free_of_other(n, '\n', '\r');
    lemma_to_lf_join(ps, e);
    lemma_join_split(n, '\n');
}

/// Normalizing line endings keeps the logical lines, hence the line count.
pub proof fn law_normalize_line_endings_keeps_lines(s: Seq<char>, e: LineEnding)
    ensures
        logical_lines(join(split(to_lf(s), '\n'), ending_chars(e))) == logical_lines(s),
{
    law_normalize_line_endings_roundtrip(s, e);
}

/// Text normalized to LF holds no carriage return.
pub proof fn law_normalize_to_lf_has_no_cr(s: Seq<char>)
    ensures
        free_of(join(split(to_lf(s), '\n'), ending_chars(LineEnding::Lf)), '\r'),
{
    lemma_join_split(to_lf(s), '\n');
    lemma_to_lf_no_cr(s);
}

proof fn lemma_split_parts_free_of_other(s: Seq<char>, c: char, d: char)
    requires
        free_of(s, d),
    ensures
        forall|k: int| 0 <= k < split(s, c).len() ==> free_of(#[trigger] split(s, c)[k], d),
    decreases s.len(),
{
    lemma_split_len(s, c);
    if s.len() > 0 {
        let t = s.drop_last();
        assert forall|i: int| 0 <= i < t.len() implies #[trigger] t[i] != d by {
            assert(t[i] == s[i]);
        }
        lemma_split_len(t, c);
        lemma_split_parts_free_of_other(t, c, d);
        let p = split(t, c);
        let q = split(s, c);
        assert(s.last() == s[s.len() - 1]);
        assert forall|k: int| 0 <= k < q.len() implies free_of(#[trigger] q[k], d) by {
            if k < p.len() - 1 {
                assert(q[k] == p[k]);
            } else if k == p.len() - 1 {
                if s.last() == c {
                    assert(q[k] == p[k]);
                } else {
                    assert(free_of(p[k], d));
                    assert forall|i: int| 0 <= i < q[k].len() implies #[trigger] q[k][i] != d by {
                        if i < p[k].len() {
                            assert(q[k][i] == p[k][i]);
                        }
                    }
                }
            } else {
                assert(q[k] =~= Seq::<char>::empty());
            }
        }
    }
}


/// Normalizing to an ending gives the input's lines, none of which holds a
/// `\r` or `\n`, joined by that ending; they are the only such pieces that
/// join to the result, so splitting the result at the ending gives them
/// back. Normalizing the result again, to any ending, gives what normalizing
/// the input to that ending gives.
pub proof fn law_normalize_line_endings_lines(s: Seq<char>, e: LineEnding, e2: LineEnding)
    ensures
        ({
            let ps = split(to_lf(s), '\n');
            let r = join(ps, ending_chars(e));
            &&& forall|k: int|
                0 <= k < ps.len() ==> free_of(#[trigger] ps[k], '\r') && free_of(ps[k], '\n')
            &&& forall|qs: Seq<Seq<char>>|
                #![trigger join(qs, ending_chars(e))]
                qs.len() >= 1 && (forall|k: int|
                    0 <= k < qs.len() ==> free_of(#[trigger] qs[k], '\r') && free_of(qs[k], '\n'))
                    && join(qs, ending_chars(e)) == r ==> qs == ps
            &&& join(split(to_lf(r), '\n'), ending_chars(e2)) == join(ps, ending_chars(e2))
        }),
{
    let n = to_lf(s);
    let ps = split(n, '\n');
    let r = join(ps, ending_chars(e));
    lemma_to_lf_no_cr(s);
    lemma_split_len(n, '\n');
    lemma_split_parts_free(n, '\n');
    lemma_split_parts_free_of_other(n, '\n', '\r');
    law_normalize_line_endings_roundtrip(s, e);
    lemma_to_lf_join(ps, e);
    lemma_split_join(ps, '\n');
    assert forall|qs: Seq<Seq<char>>|
        #![trigger join(qs, ending_chars(e))]
        qs.len() >= 1 && (forall|k: int|
            0 <= k < qs.len() ==> free_of(#[trigger] qs[k], '\r') && free_of(qs[k], '\n')) && join(
            qs,
            ending_chars(e),
        ) == r implies qs == ps by {
        lemma_to_lf_join(qs, e);
        assert forall|k: int| 0 <= k < qs.len() implies free_of(#[trigger] qs[k], '\n') by {}
        lemma_split_join(qs, '\n');
    }
}


/// Every character is a space or a tab.
pub open spec fn indent_chars(p: Seq<char>) -> bool {
    forall|i: int| 0 <= i < p.len() ==> #[trigger] p[i] == ' ' || p[i] == '\t'
}

proof fn lemma_indent_len_bound(l: Seq<char>)
    ensures
        indent_len(l) <= l.len(),
    decreases l.len(),
{
    if l.len() > 0 && (l[0] == ' ' || l[0] == '\t') {
        lemma_indent_len_bound(l.drop_first());
    }
}

proof fn lemma_shared_len_bound(a: Seq<char>, b: Seq<char>)
    ensures
        shared_len(a, b) <= a.len(),
    decreases a.len(),
{
    if a.len() > 0 && b.len() > 0 && a[0] == b[0] {
        lemma_shared_len_bound(a.drop_first(), b.drop_first());
    }
}

proof fn lemma_indent_prefix(p: Seq<char>, l: Seq<char>)
    requires
        indent_chars(p),
    ensures
        indent_len(p + l) == p.len() + indent_len(l),
        leading_indent(p + l) == p + leading_indent(l),
    decreases p.len(),
{
    lemma_indent_len_bound(l);
    if p.len() == 0 {
        assert(p + l =~= l);
    } else {
        let q = p.drop_first();
        assert(indent_chars(q)) by {
            assert forall|i: int| 0 <= i < q.len() implies #[trigger] q[i] == ' ' || q[i] == '\t' by {
                assert(q[i] == p[i + 1]);
            }
        }
        lemma_indent_prefix(q, l);
        assert((p + l).drop_first() =~= q + l);
        assert((p + l)[0] == p[0]);
        assert(leading_indent(p + l) =~= p + leading_indent(l));
    }
}

proof fn lemma_shared_prefix(p: Seq<char>, c: Seq<char>, d: Seq<char>)
    ensures
        shared_len(p + c, p + d) == p.len() + shared_len(c, d),
    decreases p.len(),
{
    if p.len() == 0 {
        assert(p + c =~= c);
        assert(p + d =~= d);
    } else {
        lemma_shared_prefix(p.drop_first(), c, d);
        assert((p + c).drop_first() =~= p.drop_first() + c);
        assert((p + d).drop_first() =~= p.drop_first() + d);
    }
}

proof fn lemma_blank_prefix(p: Seq<char>, l: Seq<char>)
    requires
        indent_chars(p),
    ensures
        (trim(p + l).len() == 0) <==> (trim(l).len() == 0),
{
    crate::text::lemma_trim_empty(p + l);
    crate::text::lemma_trim_empty(l);
    if trim(l).len() == 0 {
        assert forall|j: int| 0 <= j < (p + l).len() implies is_ws(#[trigger] (p + l)[j]) by {
            if j < p.len() {
                assert(p[j] == ' ' || p[j] == '\t');
            } else {
                assert((p + l)[j] == l[j - p.len()]);
            }
        }
    }
    if trim(p + l).len() == 0 {
        assert forall|j: int| 0 <= j < l.len() implies is_ws(#[trigger] l[j]) by {
            assert((p + l)[j + p.len()] == l[j]);
        }
    }
}

pub open spec fn indented_all(lines: Seq<Seq<char>>, p: Seq<char>) -> Seq<Seq<char>> {
    lines.map_values(|l: Seq<char>| p + l)
}

proof fn lemma_common_indent_indented(lines: Seq<Seq<char>>, p: Seq<char>, k: int)
    requires
        indent_chars(p),
        0 <= k <= lines.len(),
    ensures
        common_indent_of(indented_all(lines, p).take(k)) == match common_indent_of(lines.take(k)) {
            Some(c) => Some(p + c),
            None => None::<Seq<char>>,
        },
    decreases k,
{
    let m = indented_all(lines, p);
    if k == 0 {
        assert(m.take(0) =~= Seq::<Seq<char>>::empty());
        assert(lines.take(0) =~= Seq::<Seq<char>>::empty());
    } else {
        lemma_common_indent_indented(lines, p, k - 1);
        assert(m.take(k).drop_last() =~= m.take(k - 1));
        assert(lines.take(k).drop_last() =~= lines.take(k - 1));
        let l = lines[k - 1];
        assert(m.take(k).last() == p + l);
        assert(lines.take(k).last() == l);
        lemma_blank_prefix(p, l);
        lemma_indent_prefix(p, l);
        match common_indent_of(lines.take(k - 1)) {
            Some(c) => {
                lemma_shared_prefix(p, c, leading_indent(l));
                lemma_shared_len_bound(c, leading_indent(l));
                let n = shared_len(c, leading_indent(l)) as int;
                assert((p + c).take(p.len() + n) =~= p + c.take(n));
            },
            None => {},
        }
    }
}

/// Dedenting undoes indenting: for text without `\r` whose lines are each
/// empty or not blank, with at least one non-blank line that does not start
/// with a space or a tab, indenting every line by a non-empty run of spaces
/// and tabs and then dedenting gives the text back.
pub proof fn law_dedent_undoes_indent(s: Seq<char>, p: Seq<char>)
    requires
        free_of(s, '\r'),
        p.len() > 0,
        indent_chars(p),
        forall|k: int|
            0 <= k < split(s, '\n').len() ==> (#[trigger] split(s, '\n')[k]).len() == 0 || trim(
                split(s, '\n')[k],
            ).len() > 0,
        exists|k: int|
            0 <= k < split(s, '\n').len() && trim(#[trigger] split(s, '\n')[k]).len() > 0
                && indent_len(split(s, '\n')[k]) == 0,
    ensures
        dedented(transformed(s, Some(p))) == s,
{
    let lines = split(s, '\n');
    let j0 = choose|k: int|
        0 <= k < lines.len() && trim(#[trigger] lines[k]).len() > 0 && indent_len(lines[k]) == 0;
    lemma_to_lf_plain(s);
    lemma_split_len(s, '\n');
    lemma_split_parts_free(s, '\n');
    assert(!has_crlf(s));
    assert(!has_cr(s));
    if s.len() == 0 {
        assert(lines == seq![Seq::<char>::empty()]);
        assert(trim(lines[j0]).len() == 0) by {
            crate::text::lemma_trim_empty(lines[j0]);
        }
    }
    assert(raw_lines(s) == lines);
    lemma_split_parts_free_of_other(s, '\n', '\r');
    let m = indented_all(lines, p);
    let t = transformed(s, Some(p));
    let indent = Some(p);
    assert(raw_lines(s).map_values(
        |l: Seq<char>|
            match indent {
                Some(p) => p + l,
                None => trim(l),
            },
    ) =~= m);
    assert(ending_chars(LineEnding::Lf) =~= seq!['\n']);
    assert(t == join(m, seq!['\n']));
    // `t` holds no `\r`, and its lines are the indented lines.
    assert forall|k: int| 0 <= k < m.len() implies free_of(#[trigger] m[k], '\r') && free_of(
        m[k],
        '\n',
    ) by {
        assert(m[k] == p + lines[k]);
        assert forall|i: int| 0 <= i < m[k].len() implies #[trigger] m[k][i] != '\r' && m[k][i]
            != '\n' by {
            if i < p.len() {
                assert(m[k][i] == p[i]);
            } else {
                assert(m[k][i] == lines[k][i - p.len()]);
                assert(s.len() >= 0);
            }
        }
    }
    lemma_join_free_of(m, seq!['\n'], '\r');
    lemma_to_lf_plain(t);
    lemma_split_join(m, '\n');
    assert(!has_crlf(t));
    assert(!has_cr(t));
    if t.len() == 0 {
        assert(split(t, '\n') == seq![Seq::<char>::empty()]);
        assert(m[0] == p + lines[0]);
    }
    assert(raw_lines(t) == m);
    // The common indentation of the indented lines is `p`.
    let e = Seq::<char>::empty();
    assert(lines.take(j0 + 1).drop_last() =~= lines.take(j0));
    assert(lines.take(j0 + 1).last() == lines[j0]);
    assert(leading_indent(lines[j0]) =~= e);
    match common_indent_of(lines.take(j0)) {
        Some(c) => {
            assert(c.take(0) =~= e);
        },
        None => {},
    }
    assert(common_indent_of(lines.take(j0 + 1)) == Some(e));
    lemma_common_indent_empty_stays(lines, j0 + 1, lines.len() as int);
    assert(lines.take(lines.len() as int) =~= lines);
    lemma_common_indent_indented(lines, p, lines.len() as int);
    assert(m.take(m.len() as int) =~= m);
    assert(p + e =~= p);
    assert(common_indent_spec(m) == p);
    // Each line comes back.
    let back = m.map_values(|l: Seq<char>| dedented_line(l, p));
    assert forall|k: int| 0 <= k < back.len() implies #[trigger] back[k] == lines[k] by {
        let l = lines[k];
        assert(m[k] == p + l);
        lemma_blank_prefix(p, l);
        if trim(l).len() == 0 {
            assert(l.len() == 0);
            assert(l =~= e);
        } else {
            assert((p + l).take(p.len() as int) =~= p);
            assert((p + l).skip(p.len() as int) =~= l);
        }
    }
    assert(back =~= lines);
    lemma_join_split(s, '\n');
}

} // verus!
