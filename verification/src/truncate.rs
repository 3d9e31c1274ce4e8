//! Character- and word-safe truncation.
//!
//! The character helpers count Rust `char` values, never bytes. The word
//! helpers split on whitespace and join the words they keep with single spaces.
use vstd::prelude::*;
use crate::text::{
    chars_of, is_ws, join, join_chars, lemma_ws_words_join, lemma_ws_words_parts, slice_vec,
    split_whitespace, string_of, views, ws_words,
};

verus! {

pub const ELLIPSIS: char = '\u{2026}';

pub open spec fn min(a: int, b: int) -> int {
    if a <= b {
        a
    } else {
        b
    }
}

/// The first `n` characters of `s` (all of them when there are fewer).
pub open spec fn take_at_most(s: Seq<char>, n: int) -> Seq<char> {
    s.take(min(n, s.len() as int))
}

/// The first `n` whitespace-delimited words of `s`, joined by single spaces.
pub open spec fn first_words(s: Seq<char>, n: int) -> Seq<char> {
    join(ws_words(s).take(min(n, ws_words(s).len() as int)), seq![' '])
}

/// What `truncate_with_ellipsis` returns.
pub open spec fn ellipsized(s: Seq<char>, n: int) -> Seq<char> {
    if s.len() <= n {
        s
    } else if n == 0 {
        Seq::empty()
    } else if n == 1 {
        seq![ELLIPSIS]
    } else {
        s.take(n - 1).push(ELLIPSIS)
    }
}

/// What `truncate_words_with_ellipsis` returns.
pub open spec fn words_ellipsized(s: Seq<char>, n: int) -> Seq<char> {
    if n == 0 {
        Seq::empty()
    } else if ws_words(s).len() <= n {
        s
    } else {
        first_words(s, n).push(ELLIPSIS)
    }
}

fn take_chars(input: &str, count: usize) -> (r: Vec<char>)
    ensures
        r@ == take_at_most(input@, count as int),
{
    let v = chars_of(input);
    let end = if count < v.len() {
        count
    } else {
        v.len()
    };
    slice_vec(&v, 0, end)
}

/// Truncates text to at most `max_chars` Rust `char` values.
pub fn truncate_chars(input: &str, max_chars: usize) -> (r: String)
    ensures
        r@ == take_at_most(input@, max_chars as int),
{
    let v = take_chars(input, max_chars);
    string_of(&v)
}

fn join_first_words(input: &str, max_words: usize) -> (r: Vec<char>)
    ensures
        r@ == first_words(input@, max_words as int),
{
    let v = chars_of(input);
    let words = split_whitespace(&v);
    let mut kept: Vec<Vec<char>> = Vec::new();
    let mut k: usize = 0;
    while k < words.len() && k < max_words
        invariant
            k <= words@.len(),
            k <= max_words,
            views(words@) == ws_words(v@),
            views(words@).len() == words@.len(),
            views(kept@) == views(words@).take(k as int),
        decreases words@.len() - k,
    {
        let w = slice_vec(&words[k], 0, words[k].len());
        assert(w@ =~= words@[k as int]@);
        let ghost prev = kept@;
        assert(views(words@)[k as int] == words@[k as int]@);
        kept.push(w);
        assert(views(kept@) =~= views(prev).push(w@));
        assert(views(kept@) =~= views(words@).take(k + 1));
        k = k + 1;
    }
    assert(k as int == min(max_words as int, ws_words(v@).len() as int));
    let mut sep: Vec<char> = Vec::new();
    sep.push(' ');
    assert(sep@ =~= seq![' ']);
    join_chars(&kept, &sep)
}

/// Truncates text to at most `max_words` whitespace-delimited words.
pub fn truncate_words(input: &str, max_words: usize) -> (r: String)
    ensures
        max_words == 0 ==> r@ == Seq::<char>::empty(),
        max_words > 0 ==> r@ == first_words(input@, max_words as int),
{
    if max_words == 0 {
        return String::new();
    }
    let v = join_first_words(input, max_words);
    string_of(&v)
}

/// Truncates text by `char` count and appends `…` when truncation occurs;
/// the result is never longer than `max_chars`.
pub fn truncate_with_ellipsis(input: &str, max_chars: usize) -> (r: String)
    ensures
        r@ == ellipsized(input@, max_chars as int),
        r@.len() <= max_chars,
{
    let v = chars_of(input);
    if v.len() <= max_chars {
        return string_of(&v);
    }
    if max_chars == 0 {
        return String::new();
    }
    if max_chars == 1 {
        let mut e: Vec<char> = Vec::new();
        e.push(ELLIPSIS);
        assert(e@ =~= seq![ELLIPSIS]);
        return string_of(&e);
    }
    let mut t = slice_vec(&v, 0, max_chars - 1);
    t.push(ELLIPSIS);
    string_of(&t)
}

/// Truncates text by word count and appends `…` when truncation occurs.
pub fn truncate_words_with_ellipsis(input: &str, max_words: usize) -> (r: String)
    ensures
        r@ == words_ellipsized(input@, max_words as int),
{
    if max_words == 0 {
        return String::new();
    }
    let v = chars_of(input);
    let words = split_whitespace(&v);
    assert(words@.len() == ws_words(v@).len());
    if words.len() <= max_words {
        return string_of(&v);
    }
    let mut t = join_first_words(input, max_words);
    t.push(ELLIPSIS);
    string_of(&t)
}


/// The words of what `truncate_words` keeps are the first `n` words of the
/// input: joining with single spaces loses and adds none.
pub proof fn law_truncate_words_keeps_first_words(s: Seq<char>, n: int)
    requires
        n >= 0,
    ensures
        ws_words(first_words(s, n)) == ws_words(s).take(min(n, ws_words(s).len() as int)),
{
    let w = ws_words(s);
    let kept = w.take(min(n, w.len() as int));
    lemma_ws_words_parts(s);
    assert forall|k: int| 0 <= k < kept.len() implies (#[trigger] kept[k]).len() > 0 by {
        assert(kept[k] == w[k]);
    }
    assert forall|k: int, i: int| 0 <= k < kept.len() && 0 <= i < kept[k].len() implies !is_ws(
        #[trigger] kept[k][i],
    ) by {
        assert(kept[k] == w[k]);
    }
    lemma_ws_words_join(kept);
}

} // verus!
