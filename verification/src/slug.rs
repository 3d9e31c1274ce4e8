//! ASCII slugs.
//!
//! Slugs are lowercased, keep ASCII letters and digits, turn every run of other
//! characters into one separator, and never start or end with one. Letters
//! outside ASCII are not transliterated: like punctuation, they separate.
use vstd::prelude::*;
use crate::text::{
    ascii_lower, chars_of, is_ascii_alnum, is_ascii_alphanumeric, join, run_texts, runs,
    string_of, to_ascii_lowercase,
};

verus! {

/// The slug built so far and whether a separator is pending, after reading `s`.
pub open spec fn slug_state(s: Seq<char>, sep: char) -> (Seq<char>, bool)
    decreases s.len(),
{
    if s.len() == 0 {
        (Seq::empty(), false)
    } else {
        let (slug, pending) = slug_state(s.drop_last(), sep);
        let c = s.last();
        if is_ascii_alnum(c) {
            let base = if pending && slug.len() > 0 {
                slug.push(sep)
            } else {
                slug
            };
            (base.push(ascii_lower(c)), false)
        } else {
            (slug, slug.len() > 0)
        }
    }
}

pub open spec fn slug_of(s: Seq<char>, sep: char) -> Seq<char> {
    slug_state(s, sep).0
}

fn slugify_inner(input: &str, separator: char) -> (r: Vec<char>)
    ensures
        r@ == slug_of(input@, separator),
{
    let v = chars_of(input);
    let mut slug: Vec<char> = Vec::new();
    let mut pending_separator = false;
    let mut i: usize = 0;
    assert(v@.take(0) =~= Seq::<char>::empty());
    while i < v.len()
        invariant
            i <= v@.len(),
            (slug@, pending_separator) == slug_state(v@.take(i as int), separator),
        decreases v@.len() - i,
    {
        let c = v[i];
        assert(v@.take(i + 1).drop_last() =~= v@.take(i as int));
        assert(v@.take(i + 1).last() == c);
        if is_ascii_alphanumeric(c) {
            if pending_separator && slug.len() > 0 {
                slug.push(separator);
            }
            pending_separator = false;
            slug.push(to_ascii_lowercase(c));
        } else {
            pending_separator = slug.len() > 0;
        }
        i = i + 1;
    }
    assert(v@.take(v@.len() as int) =~= v@);
    slug
}

/// Generates a slug using `-` as the separator.
pub fn slugify(input: &str) -> (r: String)
    ensures
        r@ == slug_of(input@, '-'),
        r@ == join(alnum_words(input@, input@.len() as int), seq!['-']),
{
    slugify_with_separator(input, '-')
}

/// Generates a slug using a custom separator.
pub fn slugify_with_separator(input: &str, separator: char) -> (r: String)
    ensures
        r@ == slug_of(input@, separator),
        r@ == join(alnum_words(input@, input@.len() as int), seq![separator]),
{
    proof {
        law_slug_is_joined_alnum_runs(input@, separator);
    }
    let v = slugify_inner(input, separator);
    string_of(&v)
}

// ---------------------------------------------------------------------------
// Laws
// ---------------------------------------------------------------------------

/// A lowercase ASCII letter or a digit.
pub open spec fn is_slug_char(c: char) -> bool {
    is_ascii_alnum(c) && !('A' <= c && c <= 'Z')
}

/// Every character is a lowercase ASCII letter, a digit or `sep`; the first and
/// the last are letters or digits; each `sep` sits between two of them.
pub open spec fn slug_shaped(r: Seq<char>, sep: char) -> bool {
    &&& forall|i: int| 0 <= i < r.len() ==> is_slug_char(#[trigger] r[i]) || r[i] == sep
    &&& r.len() > 0 ==> is_slug_char(r[0]) && is_slug_char(r.last())
    &&& forall|i: int|
        0 <= i < r.len() && !is_slug_char(#[trigger] r[i]) ==> 0 < i < r.len() - 1 && is_slug_char(
            r[i - 1],
        ) && is_slug_char(r[i + 1])
}

pub proof fn lemma_ascii_lower_slug_char(c: char)
    requires
        is_ascii_alnum(c),
    ensures
        is_slug_char(ascii_lower(c)),
{
}

proof fn lemma_slug_state_shape(s: Seq<char>, sep: char)
    ensures
        slug_shaped(slug_state(s, sep).0, sep),
        slug_state(s, sep).1 ==> slug_state(s, sep).0.len() > 0,
    decreases s.len(),
{
    if s.len() > 0 {
        lemma_slug_state_shape(s.drop_last(), sep);
        let (slug, pending) = slug_state(s.drop_last(), sep);
        let c = s.last();
        if is_ascii_alnum(c) {
            lemma_ascii_lower_slug_char(c);
            let base = if pending && slug.len() > 0 {
                slug.push(sep)
            } else {
                slug
            };
            let r = base.push(ascii_lower(c));
            assert forall|i: int| 0 <= i < r.len() implies is_slug_char(#[trigger] r[i]) || r[i]
                == sep by {
                if i < slug.len() {
                    assert(r[i] == slug[i]);
                }
            }
            assert forall|i: int| 0 <= i < r.len() && !is_slug_char(#[trigger] r[i]) implies 0
                < i < r.len() - 1 && is_slug_char(r[i - 1]) && is_slug_char(r[i + 1]) by {
                if i < slug.len() {
                    assert(r[i] == slug[i]);
                    assert(r[i - 1] == slug[i - 1]);
                    if i + 1 < slug.len() {
                        assert(r[i + 1] == slug[i + 1]);
                    }
                } else {
                    assert(i == slug.len());
                    assert(r[i - 1] == slug.last());
                }
            }
            if r.len() > 0 {
                if slug.len() > 0 {
                    assert(r[0] == slug[0]);
                }
            }
        }
    }
}

/// A slug is lowercase ASCII letters and digits, with single separators only
/// between them, never at either end.
pub proof fn law_slug_shape(s: Seq<char>, sep: char)
    ensures
        slug_shaped(slug_of(s, sep), sep),
{
    lemma_slug_state_shape(s, sep);
}

proof fn lemma_slug_of_slug(t: Seq<char>, k: int, sep: char)
    requires
        slug_shaped(t, sep),
        !is_ascii_alnum(sep) || is_slug_char(sep),
        0 <= k <= t.len(),
    ensures
        slug_state(t.take(k), sep) == (if k > 0 && !is_slug_char(t[k - 1]) {
            (t.take(k - 1), true)
        } else {
            (t.take(k), false)
        }),
    decreases k,
{
    if k == 0 {
        assert(t.take(0) =~= Seq::<char>::empty());
    } else {
        lemma_slug_of_slug(t, k - 1, sep);
        let u = t.take(k);
        assert(u.drop_last() =~= t.take(k - 1));
        assert(u.last() == t[k - 1]);
        let c = t[k - 1];
        if !is_slug_char(c) {
            assert(c == sep);
            assert(0 < k - 1);
            assert(is_slug_char(t[k - 2]));
        } else {
            if k >= 2 && !is_slug_char(t[k - 2]) {
                assert(t[k - 2] == sep);
                assert(t.take(k - 2).push(sep) =~= t.take(k - 1));
                assert(k - 2 > 0);
            }
            assert(t.take(k - 1).push(c) =~= t.take(k));
        }
    }
}

/// Slugifying a slug with the same separator gives it back, unless the
/// separator is an uppercase ASCII letter (which a second pass lowercases).
pub proof fn law_slugify_idempotent(s: Seq<char>, sep: char)
    requires
        !is_ascii_alnum(sep) || is_slug_char(sep),
    ensures
        slug_of(slug_of(s, sep), sep) == slug_of(s, sep),
{
    let t = slug_of(s, sep);
    law_slug_shape(s, sep);
    lemma_slug_of_slug(t, t.len() as int, sep);
    assert(t.take(t.len() as int) =~= t);
    if t.len() > 0 {
        assert(is_slug_char(t[t.len() - 1]));
    }
}


/// Indices of ASCII letters and digits.
pub open spec fn ascii_alnum_at(s: Seq<char>) -> spec_fn(int) -> bool {
    |i: int| is_ascii_alnum(s[i])
}

/// The maximal runs of ASCII letters and digits among the first `n`
/// characters, lowercased.
pub open spec fn alnum_words(s: Seq<char>, n: int) -> Seq<Seq<char>> {
    run_texts(s, runs(ascii_alnum_at(s), n)).map_values(
        |w: Seq<char>| w.map_values(|c: char| ascii_lower(c)),
    )
}

proof fn lemma_slug_state_words(s: Seq<char>, sep: char, n: int)
    requires
        0 <= n <= s.len(),
    ensures
        slug_state(s.take(n), sep).0 == join(alnum_words(s, n), seq![sep]),
        slug_state(s.take(n), sep).1 <==> (slug_state(s.take(n), sep).0.len() > 0 && !is_ascii_alnum(
            s[n - 1],
        )),
        slug_state(s.take(n), sep).0.len() == 0 <==> runs(ascii_alnum_at(s), n).len() == 0,
        slug_state(s.take(n), sep).0.len() > 0 && is_ascii_alnum(s[n - 1]) ==> runs(
            ascii_alnum_at(s),
            n,
        ).last().1 == n,
    decreases n,
{
    let p = ascii_alnum_at(s);
    if n == 0 {
        assert(s.take(0) =~= Seq::<char>::empty());
        assert(alnum_words(s, 0) =~= Seq::<Seq<char>>::empty());
    } else {
        lemma_slug_state_words(s, sep, n - 1);
        crate::text::lemma_runs_wf(p, n - 1);
        assert(s.take(n).drop_last() =~= s.take(n - 1));
        assert(s.take(n).last() == s[n - 1]);
        let (slug, pending) = slug_state(s.take(n - 1), sep);
        let r0 = runs(p, n - 1);
        let r1 = runs(p, n);
        let w0 = alnum_words(s, n - 1);
        let w1 = alnum_words(s, n);
        let c = s[n - 1];
        assert(p(n - 1) == is_ascii_alnum(c));
        if n >= 2 {
            assert(p(n - 2) == is_ascii_alnum(s[n - 2]));
        }
        if is_ascii_alnum(c) {
            let lc = ascii_lower(c);
            if n >= 2 && p(n - 2) && slug.len() > 0 {
                // The last run grows by one character.
                assert(r1 == r0.update(r0.len() - 1, (r0.last().0, n)));
                let a = r0.last().0;
                assert(s.subrange(a, n) =~= s.subrange(a, n - 1).push(c));
                let target = w0.update(w0.len() - 1, w0.last().push(lc));
                assert forall|k: int| 0 <= k < w1.len() implies #[trigger] w1[k] == target[k] by {
                    if k < r0.len() - 1 {
                        assert(r1[k] == r0[k]);
                    } else {
                        assert(r1[k] == (a, n));
                        assert(r0[k] == (a, n - 1));
                        assert(s.subrange(a, n).map_values(|c: char| ascii_lower(c)) =~= s.subrange(
                            a,
                            n - 1,
                        ).map_values(|c: char| ascii_lower(c)).push(lc));
                    }
                }
                assert(w1 =~= target);
                if w0.len() == 1 {
                } else {
                    assert(w1.drop_last() =~= w0.drop_last());
                }
                assert(join(w1, seq![sep]) =~= join(w0, seq![sep]).push(lc));
            } else {
                // A new run starts.
                if n >= 2 && p(n - 2) {
                    assert(slug.len() > 0);
                }
                assert(r1 == r0.push((n - 1, n)));
                assert(s.subrange(n - 1, n) =~= seq![c]);
                let target = w0.push(seq![lc]);
                assert forall|k: int| 0 <= k < w1.len() implies #[trigger] w1[k] == target[k] by {
                    if k < r0.len() {
                        assert(r1[k] == r0[k]);
                    } else {
                        assert(r1[k] == (n - 1, n));
                        assert(s.subrange(n - 1, n).map_values(|c: char| ascii_lower(c)) =~= seq![lc]);
                    }
                }
                assert(w1 =~= target);
                if w0.len() == 0 {
                    assert(join(w1, seq![sep]) =~= seq![lc]);
                } else {
                    assert(w1.drop_last() =~= w0);
                    assert(pending);
                    assert(join(w1, seq![sep]) =~= slug.push(sep).push(lc));
                }
            }
        } else {
            assert(r1 == r0);
        }
    }
}

/// A slug is the maximal runs of ASCII letters and digits of the input,
/// lowercased and joined by the separator.
pub proof fn law_slug_is_joined_alnum_runs(s: Seq<char>, sep: char)
    ensures
        slug_of(s, sep) == join(alnum_words(s, s.len() as int), seq![sep]),
{
    lemma_slug_state_words(s, sep, s.len() as int);
    assert(s.take(s.len() as int) =~= s);
}

} // verus!
