//! Word-level primitives built on conservative word boundaries and lowercase
//! normalization.
//!
//! A word character is an alphanumeric character, or an apostrophe (`'` or
//! `’`) with an alphanumeric character on both sides.
use vstd::prelude::*;
use crate::text::{
    alphanumeric, chars_eq, chars_of, extend_vec, flag_at, flag_runs, int_pairs, is_alphanumeric,
    lemma_runs_ext, lemma_runs_wf, lower_map, non_empty_parts, run_texts, runs, slice_vec,
    string_of, to_lowercase, trim, trim_vec,
};

verus! {

pub open spec fn is_apostrophe_char(c: char) -> bool {
    c == '\'' || c == '\u{2019}'
}

/// An apostrophe between two alphanumeric characters.
pub open spec fn apostrophe_at(s: Seq<char>, i: int) -> bool {
    &&& is_apostrophe_char(s[i])
    &&& i > 0 && alphanumeric(s[i - 1])
    &&& i + 1 < s.len() && alphanumeric(s[i + 1])
}

/// Indices of word characters.
pub open spec fn word_char_at(s: Seq<char>) -> spec_fn(int) -> bool {
    |i: int| alphanumeric(s[i]) || apostrophe_at(s, i)
}

/// The maximal runs of word characters.
pub open spec fn word_runs(s: Seq<char>) -> Seq<(int, int)> {
    runs(word_char_at(s), s.len() as int)
}

/// The lowercase mapping of the word characters among the first `n` of `t`.
pub open spec fn lower_word_chars(t: Seq<char>, n: int) -> Seq<char>
    decreases n,
{
    if n <= 0 {
        Seq::empty()
    } else {
        lower_word_chars(t, n - 1) + if word_char_at(t)(n - 1) {
            lower_map(t[n - 1])
        } else {
            Seq::empty()
        }
    }
}

/// What `normalize_word` returns.
pub open spec fn normalized_word(s: Seq<char>) -> Seq<char> {
    lower_word_chars(trim(s), trim(s).len() as int)
}

/// The normalized words of `s`, in order.
pub open spec fn word_texts(s: Seq<char>) -> Seq<Seq<char>> {
    non_empty_parts(
        run_texts(s, word_runs(s)).map_values(|w: Seq<char>| normalized_word(w)),
    )
}

/// The distinct items, each where it is first seen.
pub open spec fn dedup(parts: Seq<Seq<char>>) -> Seq<Seq<char>>
    decreases parts.len(),
{
    if parts.len() == 0 {
        Seq::empty()
    } else if parts.drop_last().contains(parts.last()) {
        dedup(parts.drop_last())
    } else {
        dedup(parts.drop_last()).push(parts.last())
    }
}

/// A normalized word token.
#[derive(Debug, Eq, Hash, Ord, PartialEq, PartialOrd)]
pub struct Word {
    text: String,
}

impl View for Word {
    type V = Seq<char>;

    closed spec fn view(&self) -> Seq<char> {
        self.text@
    }
}

pub open spec fn word_views(ws: Seq<Word>) -> Seq<Seq<char>> {
    ws.map_values(|w: Word| w@)
}

impl Word {
    /// A word always holds at least one character.
    #[verifier::type_invariant]
    spec fn wf(self) -> bool {
        self.text@.len() > 0
    }

    fn from_chars(input: &Vec<char>) -> (r: Option<Word>)
        ensures
            r is Some <==> normalized_word(input@).len() > 0,
            r matches Some(w) ==> w@ == normalized_word(input@),
    {
        let text = normalize_chars(input);
        if text.len() > 0 {
            Some(Word { text: string_of(&text) })
        } else {
            None
        }
    }

    /// Creates a normalized word when at least one word character is present.
    pub fn new(input: &str) -> (r: Option<Word>)
        ensures
            r is Some <==> normalized_word(input@).len() > 0,
            r matches Some(w) ==> w@ == normalized_word(input@),
    {
        let v = chars_of(input);
        Word::from_chars(&v)
    }

    /// Returns the normalized word text.
    pub fn as_str(&self) -> (r: &str)
        ensures
            r@ == self@,
    {
        self.text.as_str()
    }

    /// Consumes the word and returns the owned string.
    pub fn into_string(self) -> (r: String)
        ensures
            r@ == self@,
    {
        self.text
    }

}

/// Aggregate counts derived from text.
#[derive(Clone, Copy, Debug, Eq, PartialEq)]
pub struct WordStats {
    /// Total number of normalized words.
    pub total: usize,
    /// Total number of distinct normalized words.
    pub unique: usize,
}

impl WordStats {
    /// Builds stats from the input text.
    pub fn from_text(input: &str) -> (r: WordStats)
        ensures
            r.total == word_texts(input@).len(),
            r.unique == dedup(word_texts(input@)).len(),
    {
        let all_words = words(input);
        let total = all_words.len();
        let unique = unique_words(input).len();
        WordStats { total, unique }
    }
}

/// Counts normalized words in the input.
pub fn word_count(input: &str) -> (r: usize)
    ensures
        r == word_texts(input@).len(),
{
    words(input).len()
}

/// Returns distinct normalized words in first-seen order.
///
/// The words seen so far are kept in the result itself and searched in order:
/// vstd specifies `HashSet` only for keys that obey its hashing model
/// (`obeys_key_model`), which it grants to integers and `bool` but not to
/// `String`, so a set of seen strings would leave `insert` unspecified here.
pub fn unique_words(input: &str) -> (r: Vec<Word>)
    ensures
        word_views(r@) == dedup(word_texts(input@)),
{
    let all = words(input);
    let ghost ws = word_views(all@);
    let mut unique: Vec<Word> = Vec::new();
    let mut k: usize = 0;
    while k < all.len()
        invariant
            k <= all@.len(),
            ws == word_views(all@),
            ws.len() == all@.len(),
            word_views(unique@) == dedup(ws.take(k as int)),
        decreases all@.len() - k,
    {
        let w = &all[k];
        let mut seen = false;
        let mut j: usize = 0;
        proof {
            lemma_dedup_contains(ws.take(k as int), w@);
        }
        while j < unique.len()
            invariant
                j <= unique@.len(),
                seen == exists|i: int| 0 <= i < j && unique@[i]@ == w@,
            decreases unique@.len() - j,
        {
            if word_text_eq(&unique[j], w) {
                seen = true;
            }
            j = j + 1;
        }
        assert(ws.take(k + 1).drop_last() =~= ws.take(k as int));
        assert(ws.take(k + 1).last() == w@);
        let ghost prev = unique@;
        if !seen {
            unique.push(w.clone_word());
            assert(word_views(unique@) =~= word_views(prev).push(w@));
        } else {
            proof {
                let i = choose|i: int| 0 <= i < j && unique@[i]@ == w@;
                assert(word_views(unique@)[i] == w@);
            }
        }
        k = k + 1;
    }
    assert(ws.take(k as int) =~= ws);
    unique
}

fn word_text_eq(a: &Word, b: &Word) -> (r: bool)
    ensures
        r == (a@ == b@),
{
    let x = chars_of(a.text.as_str());
    let y = chars_of(b.text.as_str());
    chars_eq(&x, &y)
}

/// `Clone` is written by hand: Verus refuses a derived `Clone` on a type with
/// an invariant, since the derived code builds a `Word` without proving that
/// its text is non-empty. This one keeps the text, as the derived one would.
impl Clone for Word {
    fn clone(&self) -> (r: Word)
        ensures
            r@ == self@,
    {
        self.clone_word()
    }
}

impl Word {
    fn clone_word(&self) -> (r: Word)
        ensures
            r@ == self@,
    {
        proof {
            use_type_invariant(self);
        }
        let v = chars_of(self.text.as_str());
        Word { text: string_of(&v) }
    }
}

/// `dedup` keeps exactly the items of the list.
pub proof fn lemma_dedup_contains(parts: Seq<Seq<char>>, x: Seq<char>)
    ensures
        dedup(parts).contains(x) <==> parts.contains(x),
    decreases parts.len(),
{
    if parts.len() > 0 {
        let init = parts.drop_last();
        lemma_dedup_contains(init, x);
        lemma_dedup_contains(init, parts.last());
        if parts.contains(x) {
            let i = choose|i: int| 0 <= i < parts.len() && parts[i] == x;
            if i < parts.len() - 1 {
                assert(init[i] == x);
            }
        }
        if init.contains(x) {
            let i = choose|i: int| 0 <= i < init.len() && init[i] == x;
            assert(parts[i] == x);
        }
        if !init.contains(parts.last()) {
            let d = dedup(init);
            if d.push(parts.last()).contains(x) && !d.contains(x) {
                assert(x == parts.last());
                assert(parts[parts.len() - 1] == x);
            }
            if d.contains(x) {
                let i = choose|i: int| 0 <= i < d.len() && d[i] == x;
                assert(d.push(parts.last())[i] == x);
            }
            assert(d.push(parts.last())[d.len() as int] == parts.last());
        }
    }
}

/// Normalizes a word-like value by lowercasing letters and dropping non-word
/// punctuation.
pub fn normalize_word(input: &str) -> (r: String)
    ensures
        r@ == normalized_word(input@),
{
    let v = chars_of(input);
    let out = normalize_chars(&v);
    string_of(&out)
}

fn normalize_chars(input: &Vec<char>) -> (r: Vec<char>)
    ensures
        r@ == normalized_word(input@),
{
    let t = trim_vec(input);
    let mut output: Vec<char> = Vec::new();
    let mut i: usize = 0;
    while i < t.len()
        invariant
            i <= t@.len(),
            t@ == trim(input@),
            output@ == lower_word_chars(t@, i as int),
        decreases t@.len() - i,
    {
        let c = t[i];
        let previous = if i > 0 {
            Some(t[i - 1])
        } else {
            None
        };
        let next = if i + 1 < t.len() {
            Some(t[i + 1])
        } else {
            None
        };
        if is_alphanumeric(c) || is_apostrophe(previous, c, next) {
            let lowered = to_lowercase(c);
            extend_vec(&mut output, &lowered);
        } else {
            assert(output@ =~= lower_word_chars(t@, i + 1));
        }
        i = i + 1;
    }
    output
}

/// Returns `true` when the input contains the target as a full normalized word.
pub fn contains_word(input: &str, target: &str) -> (r: bool)
    ensures
        r == (normalized_word(target@).len() > 0 && word_texts(input@).contains(
            normalized_word(target@),
        )),
{
    let t = chars_of(target);
    let nt = normalize_chars(&t);
    if nt.len() == 0 {
        return false;
    }
    let all = words(input);
    let ghost ws = word_views(all@);
    let mut k: usize = 0;
    while k < all.len()
        invariant
            k <= all@.len(),
            ws == word_views(all@),
            ws == word_texts(input@),
            nt@ == normalized_word(target@),
            nt@.len() > 0,
            ws.len() == all@.len(),
            forall|j: int| 0 <= j < k ==> ws[j] != nt@,
        decreases all@.len() - k,
    {
        let w = chars_of(all[k].as_str());
        assert(ws[k as int] == all@[k as int]@);
        if chars_eq(&w, &nt) {
            assert(ws[k as int] == nt@);
            assert(word_texts(input@)[k as int] == normalized_word(target@));
            assert(word_texts(input@).contains(normalized_word(target@)));
            return true;
        }
        k = k + 1;
    }
    false
}

/// Returns `true` when the first normalized word matches the target.
pub fn starts_with_word(input: &str, target: &str) -> (r: bool)
    ensures
        r == (normalized_word(target@).len() > 0 && word_texts(input@).len() > 0 && word_texts(
            input@,
        )[0] == normalized_word(target@)),
{
    let t = chars_of(target);
    let nt = normalize_chars(&t);
    if nt.len() == 0 {
        return false;
    }
    let all = words(input);
    if all.len() == 0 {
        return false;
    }
    let w = chars_of(all[0].as_str());
    assert(word_views(all@)[0] == all@[0]@);
    chars_eq(&w, &nt)
}

/// Returns `true` when the last normalized word matches the target.
pub fn ends_with_word(input: &str, target: &str) -> (r: bool)
    ensures
        r == (normalized_word(target@).len() > 0 && word_texts(input@).len() > 0 && word_texts(
            input@,
        ).last() == normalized_word(target@)),
{
    let t = chars_of(target);
    let nt = normalize_chars(&t);
    if nt.len() == 0 {
        return false;
    }
    let all = words(input);
    if all.len() == 0 {
        return false;
    }
    let last = all.len() - 1;
    let w = chars_of(all[last].as_str());
    assert(word_views(all@)[last as int] == all@[last as int]@);
    chars_eq(&w, &nt)
}

/// Extracts normalized words from the input.
pub fn words(input: &str) -> (r: Vec<Word>)
    ensures
        word_views(r@) == word_texts(input@),
{
    let v = chars_of(input);
    let ranges = word_ranges(&v);
    let ghost rr = word_runs(v@);
    let ghost texts = run_texts(v@, rr).map_values(|w: Seq<char>| normalized_word(w));
    proof {
        lemma_runs_wf(word_char_at(v@), v@.len() as int);
    }
    let mut out: Vec<Word> = Vec::new();
    let mut k: usize = 0;
    while k < ranges.len()
        invariant
            k <= ranges@.len(),
            int_pairs(ranges@) == rr,
            rr == word_runs(v@),
            texts == run_texts(v@, rr).map_values(|w: Seq<char>| normalized_word(w)),
            forall|j: int| 0 <= j < rr.len() ==> 0 <= (#[trigger] rr[j]).0 < rr[j].1 <= v@.len(),
            word_views(out@) == non_empty_parts(texts.take(k as int)),
        decreases ranges@.len() - k,
    {
        let (a, b) = ranges[k];
        assert(int_pairs(ranges@)[k as int] == rr[k as int]);
        let piece = slice_vec(&v, a, b);
        assert(texts.take(k + 1).drop_last() =~= texts.take(k as int));
        assert(texts.take(k + 1).last() == normalized_word(piece@));
        let ghost prev = out@;
        match Word::from_chars(&piece) {
            Some(w) => {
                out.push(w);
                assert(word_views(out@) =~= word_views(prev).push(normalized_word(piece@)));
            },
            None => {},
        }
        k = k + 1;
    }
    assert(texts.take(k as int) =~= texts);
    out
}

/// Whether `current` is an apostrophe between two alphanumeric characters.
pub(crate) fn is_apostrophe(previous: Option<char>, current: char, next: Option<char>) -> (r: bool)
    ensures
        r == (is_apostrophe_char(current) && (previous matches Some(p) && alphanumeric(p)) && (
        next matches Some(n) && alphanumeric(n))),
{
    (current == '\'' || current == '\u{2019}') && match previous {
        Some(p) => is_alphanumeric(p),
        None => false,
    } && match next {
        Some(n) => is_alphanumeric(n),
        None => false,
    }
}

/// The maximal runs of word characters, as character ranges.
pub(crate) fn word_ranges(v: &Vec<char>) -> (r: Vec<(usize, usize)>)
    ensures
        int_pairs(r@) == word_runs(v@),
{
    let mut flags: Vec<bool> = Vec::new();
    let mut i: usize = 0;
    while i < v.len()
        invariant
            i <= v@.len(),
            flags@.len() == i,
            forall|j: int| 0 <= j < i ==> flags@[j] == word_char_at(v@)(j),
        decreases v@.len() - i,
    {
        let c = v[i];
        let previous = if i > 0 {
            Some(v[i - 1])
        } else {
            None
        };
        let next = if i + 1 < v.len() {
            Some(v[i + 1])
        } else {
            None
        };
        flags.push(is_alphanumeric(c) || is_apostrophe(previous, c, next));
        i = i + 1;
    }
    proof {
        lemma_runs_ext(flag_at(flags@), word_char_at(v@), v@.len() as int);
    }
    flag_runs(&flags)
}

// ---------------------------------------------------------------------------
// Laws
// ---------------------------------------------------------------------------

/// `unique_words` lists every word once: no two entries are equal, and a text
/// is an entry exactly when it is one of the words.
pub proof fn law_unique_words(s: Seq<char>)
    ensures
        forall|i: int, j: int|
            0 <= i < j < dedup(word_texts(s)).len() ==> dedup(word_texts(s))[i] != dedup(
                word_texts(s),
            )[j],
        forall|x: Seq<char>| dedup(word_texts(s)).contains(x) <==> word_texts(s).contains(x),
{
    lemma_dedup_distinct(word_texts(s));
    assert forall|x: Seq<char>| dedup(word_texts(s)).contains(x) <==> word_texts(s).contains(
        x,
    ) by {
        lemma_dedup_contains(word_texts(s), x);
    }
}

/// There are never more distinct words than words.
pub proof fn law_unique_count_le_total(s: Seq<char>)
    ensures
        dedup(word_texts(s)).len() <= word_texts(s).len(),
{
    lemma_dedup_len(word_texts(s));
}

pub proof fn lemma_dedup_len(parts: Seq<Seq<char>>)
    ensures
        dedup(parts).len() <= parts.len(),
    decreases parts.len(),
{
    if parts.len() > 0 {
        lemma_dedup_len(parts.drop_last());
    }
}

pub proof fn lemma_dedup_distinct(parts: Seq<Seq<char>>)
    ensures
        forall|i: int, j: int|
            0 <= i < j < dedup(parts).len() ==> dedup(parts)[i] != dedup(parts)[j],
    decreases parts.len(),
{
    if parts.len() > 0 {
        let init = parts.drop_last();
        lemma_dedup_distinct(init);
        lemma_dedup_contains(init, parts.last());
        let d = dedup(init);
        if !init.contains(parts.last()) {
            let e = d.push(parts.last());
            assert forall|i: int, j: int| 0 <= i < j < e.len() implies e[i] != e[j] by {
                if j == d.len() {
                    if e[i] == e[j] {
                        assert(d[i] == parts.last());
                        assert(d.contains(parts.last()));
                    }
                } else {
                    assert(e[i] == d[i] && e[j] == d[j]);
                }
            }
        }
    }
}

} // verus!
