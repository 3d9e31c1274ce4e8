//! Whitespace and simple text normalization.
//!
//! `normalize_whitespace` trims the full string and collapses every whitespace
//! run to a single ASCII space; `collapse_whitespace` collapses without
//! trimming, so outer runs become one leading or trailing space.
use vstd::prelude::*;
use crate::text::{
    chars_of, free_of, is_whitespace, is_ws, join, join_chars, lead_ws, lemma_lead_ws,
    lemma_lead_ws_bound, lemma_split_join, lemma_split_len, lemma_split_parts_free, lemma_trail_ws,
    lemma_trail_ws_bound, non_empty_parts, slice_vec, split, split_chars, string_of, trail_ws, trim,
    trim_end, trim_start, trim_vec, views,
};

verus! {

/// Every whitespace run replaced by one space.
pub open spec fn collapse_ws(s: Seq<char>) -> Seq<char>
    decreases s.len(),
{
    if s.len() == 0 {
        Seq::empty()
    } else {
        let prev = collapse_ws(s.drop_last());
        let c = s.last();
        if is_ws(c) {
            if s.len() >= 2 && is_ws(s[s.len() - 2]) {
                prev
            } else {
                prev.push(' ')
            }
        } else {
            prev.push(c)
        }
    }
}

/// The lines of `s` (split at `\n`), each trimmed.
pub open spec fn trimmed_lines(s: Seq<char>) -> Seq<Seq<char>> {
    split(s, '\n').map_values(|l: Seq<char>| trim(l))
}

/// `s` without any trailing occurrence of `c`.
pub open spec fn trim_end_char(s: Seq<char>, c: char) -> Seq<char>
    decreases s.len(),
{
    if s.len() > 0 && s.last() == c {
        trim_end_char(s.drop_last(), c)
    } else {
        s
    }
}

pub fn collapse_chars(v: &Vec<char>) -> (r: Vec<char>)
    ensures
        r@ == collapse_ws(v@),
{
    let mut r: Vec<char> = Vec::new();
    let mut last_was_whitespace = false;
    let mut i: usize = 0;
    assert(v@.take(0) =~= Seq::<char>::empty());
    while i < v.len()
        invariant
            i <= v@.len(),
            last_was_whitespace == (i > 0 && is_ws(v@[i - 1])),
            r@ == collapse_ws(v@.take(i as int)),
        decreases v@.len() - i,
    {
        let c = v[i];
        assert(v@.take(i + 1).drop_last() =~= v@.take(i as int));
        assert(v@.take(i + 1).last() == c);
        if i > 0 {
            assert(v@.take(i + 1)[i - 1] == v@[i - 1]);
        }
        if is_whitespace(c) {
            if !last_was_whitespace {
                r.push(' ');
                last_was_whitespace = true;
            }
        } else {
            r.push(c);
            last_was_whitespace = false;
        }
        i = i + 1;
    }
    assert(v@.take(v@.len() as int) =~= v@);
    r
}

/// Collapses all whitespace runs to single spaces and trims the result.
pub fn normalize_whitespace(input: &str) -> (r: String)
    ensures
        r@ == trim(collapse_ws(input@)),
{
    let v = chars_of(input);
    let c = collapse_chars(&v);
    let t = trim_vec(&c);
    string_of(&t)
}

/// Collapses all whitespace runs to single spaces without trimming the result.
pub fn collapse_whitespace(input: &str) -> (r: String)
    ensures
        r@ == collapse_ws(input@),
{
    let v = chars_of(input);
    let c = collapse_chars(&v);
    string_of(&c)
}

/// Trims leading and trailing whitespace from every line.
pub fn trim_lines(input: &str) -> (r: String)
    ensures
        r@ == join(trimmed_lines(input@), seq!['\n']),
{
    let v = chars_of(input);
    let lines = split_chars(&v, '\n');
    let mut out: Vec<Vec<char>> = Vec::new();
    let mut k: usize = 0;
    while k < lines.len()
        invariant
            k <= lines@.len(),
            views(lines@) == split(v@, '\n'),
            views(out@) == trimmed_lines(v@).take(k as int),
        decreases lines@.len() - k,
    {
        let t = trim_vec(&lines[k]);
        assert(views(lines@)[k as int] == lines@[k as int]@);
        let ghost prev = out@;
        out.push(t);
        assert(views(out@) =~= views(prev).push(t@));
        assert(trimmed_lines(v@).take(k + 1) =~= trimmed_lines(v@).take(k as int).push(t@));
        k = k + 1;
        assert(views(out@) =~= trimmed_lines(v@).take(k as int));
    }
    assert(trimmed_lines(v@).take(k as int) =~= trimmed_lines(v@));
    let mut sep: Vec<char> = Vec::new();
    sep.push('\n');
    assert(sep@ =~= seq!['\n']);
    let joined = join_chars(&out, &sep);
    string_of(&joined)
}

/// Removes lines that are empty after trimming and returns trimmed lines.
pub fn remove_empty_lines(input: &str) -> (r: String)
    ensures
        r@ == join(non_empty_parts(trimmed_lines(input@)), seq!['\n']),
{
    let v = chars_of(input);
    let lines = split_chars(&v, '\n');
    let mut out: Vec<Vec<char>> = Vec::new();
    let mut k: usize = 0;
    while k < lines.len()
        invariant
            k <= lines@.len(),
            views(lines@) == split(v@, '\n'),
            views(out@) == non_empty_parts(trimmed_lines(v@).take(k as int)),
        decreases lines@.len() - k,
    {
        let t = trim_vec(&lines[k]);
        assert(views(lines@)[k as int] == lines@[k as int]@);
        let ghost prev = out@;
        assert(trimmed_lines(v@).take(k + 1).drop_last() =~= trimmed_lines(v@).take(k as int));
        assert(trimmed_lines(v@).take(k + 1).last() == t@);
        if t.len() > 0 {
            out.push(t);
            assert(views(out@) =~= views(prev).push(t@));
        }
        k = k + 1;
    }
    assert(trimmed_lines(v@).take(k as int) =~= trimmed_lines(v@));
    let mut sep: Vec<char> = Vec::new();
    sep.push('\n');
    assert(sep@ =~= seq!['\n']);
    let joined = join_chars(&out, &sep);
    string_of(&joined)
}

/// Ensures the string ends with exactly one trailing newline.
pub fn ensure_single_trailing_newline(input: &str) -> (r: String)
    ensures
        r@ == trim_end_char(input@, '\n').push('\n'),
{
    let v = chars_of(input);
    let mut end = v.len();
    assert(v@.take(end as int) =~= v@);
    while end > 0 && v[end - 1] == '\n'
        invariant
            end <= v@.len(),
            trim_end_char(v@.take(end as int), '\n') == trim_end_char(v@, '\n'),
        decreases end,
    {
        assert(v@.take(end as int).drop_last() =~= v@.take(end - 1));
        end = end - 1;
    }
    let mut out = slice_vec(&v, 0, end);
    out.push('\n');
    string_of(&out)
}

// ---------------------------------------------------------------------------
// Laws
// ---------------------------------------------------------------------------

/// No whitespace but single spaces, and never two spaces side by side.
pub open spec fn collapsed(s: Seq<char>) -> bool {
    &&& forall|i: int| 0 <= i < s.len() && is_ws(#[trigger] s[i]) ==> s[i] == ' '
    &&& forall|i: int| 0 <= i < s.len() - 1 && #[trigger] s[i] == ' ' ==> s[i + 1] != ' '
}

/// The text that `normalize_whitespace` returns.
pub open spec fn normalized(s: Seq<char>) -> bool {
    &&& collapsed(s)
    &&& s.len() > 0 ==> !is_ws(s[0]) && !is_ws(s.last())
}

/// `collapse_whitespace` leaves no whitespace but single spaces; its result
/// ends with a space exactly when the input ends with whitespace, and is
/// empty only for empty input.
pub proof fn law_collapse_whitespace_shape(s: Seq<char>)
    ensures
        collapsed(collapse_ws(s)),
        collapse_ws(s).len() > 0 ==> (collapse_ws(s).last() == ' ' <==> is_ws(s.last())),
        collapse_ws(s).len() == 0 <==> s.len() == 0,
    decreases s.len(),
{
    if s.len() > 0 {
        law_collapse_whitespace_shape(s.drop_last());
        let prev = collapse_ws(s.drop_last());
        let r = collapse_ws(s);
        if s.len() >= 2 {
            assert(s.drop_last().last() == s[s.len() - 2]);
        }
        assert forall|i: int| 0 <= i < r.len() && is_ws(#[trigger] r[i]) implies r[i] == ' ' by {
            if i < prev.len() {
                assert(r[i] == prev[i]);
            }
        }
        assert forall|i: int| 0 <= i < r.len() - 1 && #[trigger] r[i] == ' ' implies r[i + 1]
            != ' ' by {
            if i + 1 < prev.len() {
                assert(r[i] == prev[i] && r[i + 1] == prev[i + 1]);
            }
        }
    }
}

pub proof fn lemma_collapse_identity(s: Seq<char>)
    requires
        collapsed(s),
    ensures
        collapse_ws(s) == s,
    decreases s.len(),
{
    if s.len() > 0 {
        let t = s.drop_last();
        assert(collapsed(t)) by {
            assert forall|i: int| 0 <= i < t.len() && is_ws(#[trigger] t[i]) implies t[i]
                == ' ' by {
                assert(t[i] == s[i]);
            }
            assert forall|i: int| 0 <= i < t.len() - 1 && #[trigger] t[i] == ' ' implies t[i
                + 1] != ' ' by {
                assert(t[i] == s[i] && t[i + 1] == s[i + 1]);
            }
        }
        lemma_collapse_identity(t);
        assert(s =~= t.push(s.last()));
        if is_ws(s.last()) && s.len() >= 2 {
            assert(s[s.len() - 1] == ' ');
            if is_ws(s[s.len() - 2]) {
                assert(s[s.len() - 2] == ' ');
            }
        }
    }
}

pub proof fn lemma_trim_identity(s: Seq<char>)
    requires
        s.len() > 0 ==> !is_ws(s[0]) && !is_ws(s.last()),
    ensures
        trim(s) == s,
{
    lemma_lead_ws(s, 0);
    assert(trim_start(s) =~= s);
    lemma_trail_ws(s, 0);
    assert(trim_end(s) =~= s);
}

/// Trimming a collapsed text keeps it collapsed and removes its outer spaces.
pub proof fn lemma_trim_collapsed(s: Seq<char>)
    requires
        collapsed(s),
    ensures
        normalized(trim(s)),
{
    lemma_lead_ws_bound(s);
    let t = trim_start(s);
    lemma_trail_ws_bound(t);
    let u = trim(s);
    let a = lead_ws(s) as int;
    assert forall|i: int| 0 <= i < u.len() implies #[trigger] u[i] == s[a + i] by {}
    assert(collapsed(u)) by {
        assert forall|i: int| 0 <= i < u.len() && is_ws(#[trigger] u[i]) implies u[i]
            == ' ' by {
            assert(u[i] == s[a + i]);
        }
        assert forall|i: int| 0 <= i < u.len() - 1 && #[trigger] u[i] == ' ' implies u[i
            + 1] != ' ' by {
            assert(u[i] == s[a + i] && u[i + 1] == s[a + i + 1]);
        }
    }
    if u.len() > 0 {
        assert(u[0] == t[0]);
        assert(u.last() == t[t.len() - trail_ws(t) - 1]);
    }
}

/// `normalize_whitespace` leaves no whitespace but single inner spaces.
pub proof fn law_normalize_whitespace_shape(s: Seq<char>)
    ensures
        normalized(trim(collapse_ws(s))),
{
    law_collapse_whitespace_shape(s);
    lemma_trim_collapsed(collapse_ws(s));
}

/// `collapse_whitespace` is idempotent.
pub proof fn law_collapse_whitespace_idempotent(s: Seq<char>)
    ensures
        collapse_ws(collapse_ws(s)) == collapse_ws(s),
{
    law_collapse_whitespace_shape(s);
    lemma_collapse_identity(collapse_ws(s));
}

/// `normalize_whitespace` is idempotent.
pub proof fn law_normalize_whitespace_idempotent(s: Seq<char>)
    ensures
        trim(collapse_ws(trim(collapse_ws(s)))) == trim(collapse_ws(s)),
{
    let n = trim(collapse_ws(s));
    law_normalize_whitespace_shape(s);
    lemma_collapse_identity(n);
    lemma_trim_identity(n);
}

/// `ensure_single_trailing_newline` ends in exactly one newline.
pub proof fn law_single_trailing_newline(s: Seq<char>)
    ensures
        ({
            let r = trim_end_char(s, '\n').push('\n');
            &&& r.last() == '\n'
            &&& r.len() >= 2 ==> r[r.len() - 2] != '\n'
        }),
    decreases s.len(),
{
    if s.len() > 0 && s.last() == '\n' {
        law_single_trailing_newline(s.drop_last());
    }
}


/// `trim(s)` is a piece of `s` with no whitespace at either end, so
/// trimming it again changes nothing; it holds no character that `s` lacks.
pub proof fn lemma_trim_trimmed(s: Seq<char>, c: char)
    ensures
        trim(s).len() > 0 ==> !is_ws(trim(s)[0]) && !is_ws(trim(s).last()),
        trim(trim(s)) == trim(s),
        free_of(s, c) ==> free_of(trim(s), c),
{
    lemma_lead_ws_bound(s);
    let t = trim_start(s);
    lemma_trail_ws_bound(t);
    let u = trim(s);
    let a = lead_ws(s) as int;
    assert forall|i: int| 0 <= i < u.len() implies #[trigger] u[i] == s[a + i] by {}
    if u.len() > 0 {
        assert(u[0] == t[0]);
        assert(u.last() == t[t.len() - trail_ws(t) - 1]);
    }
    lemma_trim_identity(u);
}

/// Trimming the lines of text whose lines are already trimmed changes nothing.
pub proof fn law_trim_lines_idempotent(s: Seq<char>)
    ensures
        join(trimmed_lines(join(trimmed_lines(s), seq!['\n'])), seq!['\n']) == join(
            trimmed_lines(s),
            seq!['\n'],
        ),
{
    let parts = split(s, '\n');
    let t = trimmed_lines(s);
    lemma_split_len(s, '\n');
    lemma_split_parts_free(s, '\n');
    assert forall|k: int| 0 <= k < t.len() implies free_of(#[trigger] t[k], '\n') && trim(t[k])
        == t[k] by {
        lemma_trim_trimmed(parts[k], '\n');
    }
    lemma_split_join(t, '\n');
    assert(trimmed_lines(join(t, seq!['\n'])) =~= t);
}

proof fn lemma_non_empty_parts_keep(ps: Seq<Seq<char>>)
    requires
        forall|k: int| 0 <= k < ps.len() ==> free_of(#[trigger] ps[k], '\n') && trim(ps[k]) == ps[k],
    ensures
        forall|k: int|
            0 <= k < non_empty_parts(ps).len() ==> free_of(#[trigger] non_empty_parts(ps)[k], '\n')
                && trim(non_empty_parts(ps)[k]) == non_empty_parts(ps)[k] && non_empty_parts(
                ps,
            )[k].len() > 0,
    decreases ps.len(),
{
    if ps.len() > 0 {
        let init = ps.drop_last();
        assert forall|k: int| 0 <= k < init.len() implies free_of(#[trigger] init[k], '\n') && trim(
            init[k],
        ) == init[k] by {
            assert(init[k] == ps[k]);
        }
        lemma_non_empty_parts_keep(init);
        let prev = non_empty_parts(init);
        let np = non_empty_parts(ps);
        assert forall|k: int| 0 <= k < np.len() implies free_of(#[trigger] np[k], '\n') && trim(
            np[k],
        ) == np[k] && np[k].len() > 0 by {
            if k < prev.len() {
                assert(np[k] == prev[k]);
            } else {
                assert(np[k] == ps[ps.len() - 1]);
            }
        }
    }
}

proof fn lemma_non_empty_parts_all(ps: Seq<Seq<char>>)
    requires
        forall|k: int| 0 <= k < ps.len() ==> (#[trigger] ps[k]).len() > 0,
    ensures
        non_empty_parts(ps) == ps,
    decreases ps.len(),
{
    if ps.len() > 0 {
        let init = ps.drop_last();
        assert forall|k: int| 0 <= k < init.len() implies (#[trigger] init[k]).len() > 0 by {
            assert(init[k] == ps[k]);
        }
        lemma_non_empty_parts_all(init);
        assert(init.push(ps.last()) =~= ps);
    }
}

/// Removing empty lines from text that has none changes nothing.
pub proof fn law_remove_empty_lines_idempotent(s: Seq<char>)
    ensures
        ({
            let once = join(non_empty_parts(trimmed_lines(s)), seq!['\n']);
            join(non_empty_parts(trimmed_lines(once)), seq!['\n']) == once
        }),
{
    let parts = split(s, '\n');
    let t = trimmed_lines(s);
    let r = non_empty_parts(t);
    lemma_split_len(s, '\n');
    lemma_split_parts_free(s, '\n');
    assert forall|k: int| 0 <= k < t.len() implies free_of(#[trigger] t[k], '\n') && trim(t[k])
        == t[k] by {
        lemma_trim_trimmed(parts[k], '\n');
    }
    lemma_non_empty_parts_keep(t);
    if r.len() == 0 {
        let e = Seq::<char>::empty();
        assert(join(r, seq!['\n']) == e);
        assert(split(e, '\n') == seq![e]);
        lemma_trim_trimmed(e, '\n');
        assert(trimmed_lines(e) =~= seq![trim(e)]);
        assert(trim(e).len() == 0) by {
            lemma_lead_ws_bound(e);
        }
        assert(seq![trim(e)].drop_last() =~= Seq::<Seq<char>>::empty());
        assert(non_empty_parts(Seq::<Seq<char>>::empty()) == Seq::<Seq<char>>::empty());
        assert(seq![trim(e)].last().len() == 0);
        assert(non_empty_parts(seq![trim(e)]) =~= Seq::<Seq<char>>::empty());
    } else {
        lemma_split_join(r, '\n');
        assert(trimmed_lines(join(r, seq!['\n'])) =~= r);
        lemma_non_empty_parts_all(r);
    }
}


proof fn lemma_trim_end_char_fixed(s: Seq<char>, c: char)
    ensures
        trim_end_char(trim_end_char(s, c), c) == trim_end_char(s, c),
        trim_end_char(s.push(c), c) == trim_end_char(s, c),
    decreases s.len(),
{
    assert(s.push(c).drop_last() =~= s);
    if s.len() > 0 && s.last() == c {
        lemma_trim_end_char_fixed(s.drop_last(), c);
    }
}

/// Ensuring a single trailing newline twice is ensuring it once.
pub proof fn law_single_trailing_newline_idempotent(s: Seq<char>)
    ensures
        ({
            let once = trim_end_char(s, '\n').push('\n');
            trim_end_char(once, '\n').push('\n') == once
        }),
{
    lemma_trim_end_char_fixed(s, '\n');
    lemma_trim_end_char_fixed(trim_end_char(s, '\n'), '\n');
}

} // verus!
