//! ASCII-oriented case conversion.
//!
//! Words are runs of alphanumeric characters; a run is split where an
//! uppercase letter follows a lowercase letter or a digit, and before the last
//! uppercase letter of an acronym that a lowercase letter follows
//! (`HTTPServer` becomes `HTTP` and `Server`). Letters are classified with
//! std's Unicode predicates, so the same rules split at non-ASCII case
//! transitions too (`ÉcoleNormale` becomes `École` and `Normale`).
use vstd::prelude::*;
use crate::text::{
    alphanumeric, ascii_lower, extend_vec, free_of, is_alphanumeric, is_ascii_alnum,
    is_ascii_char, is_lowercase, is_numeric, is_uppercase, join,
    join_chars, lower_map, lowercase, numeric, string_of, to_lowercase, to_uppercase, upper_map,
    uppercase, views, chars_of,
};

verus! {

/// Whether a new word starts at index `i` although `s[i - 1]` is alphanumeric.
pub open spec fn split_before(s: Seq<char>, i: int) -> bool {
    let ch = s[i];
    let prev = s[i - 1];
    ||| uppercase(ch) && (lowercase(prev) || numeric(prev))
    ||| uppercase(ch) && uppercase(prev) && i + 1 < s.len() && lowercase(s[i + 1])
}

/// The words among the first `n` characters of `s`.
pub open spec fn case_words_upto(s: Seq<char>, n: int) -> Seq<Seq<char>>
    decreases n,
{
    if n <= 0 {
        Seq::empty()
    } else {
        let w = case_words_upto(s, n - 1);
        let i = n - 1;
        let c = s[i];
        if !alphanumeric(c) {
            w
        } else if i == 0 || !alphanumeric(s[i - 1]) || split_before(s, i) {
            w.push(seq![c])
        } else {
            w.update(w.len() - 1, w.last().push(c))
        }
    }
}

/// The words of `s`.
pub open spec fn case_words(s: Seq<char>) -> Seq<Seq<char>> {
    case_words_upto(s, s.len() as int)
}

/// Every character mapped to lowercase.
pub open spec fn lower_all(w: Seq<char>) -> Seq<char>
    decreases w.len(),
{
    if w.len() == 0 {
        Seq::empty()
    } else {
        lower_all(w.drop_last()) + lower_map(w.last())
    }
}

/// The first character mapped to uppercase and the rest to lowercase.
pub open spec fn capitalized(w: Seq<char>) -> Seq<char> {
    if w.len() == 0 {
        Seq::empty()
    } else {
        upper_map(w[0]) + lower_all(w.drop_first())
    }
}

pub open spec fn lowered_words(s: Seq<char>) -> Seq<Seq<char>> {
    case_words(s).map_values(|w: Seq<char>| lower_all(w))
}

pub open spec fn capitalized_words(s: Seq<char>) -> Seq<Seq<char>> {
    case_words(s).map_values(|w: Seq<char>| capitalized(w))
}

/// What `to_camel_case` returns.
pub open spec fn camel(s: Seq<char>) -> Seq<char> {
    if case_words(s).len() == 0 {
        Seq::empty()
    } else {
        lower_all(case_words(s)[0]) + join(capitalized_words(s).drop_first(), Seq::empty())
    }
}

fn words(input: &str) -> (r: Vec<Vec<char>>)
    ensures
        views(r@) == case_words(input@),
{
    let chars = chars_of(input);
    let ghost s = chars@;
    let mut result: Vec<Vec<char>> = Vec::new();
    let mut current: Vec<char> = Vec::new();
    let mut index: usize = 0;
    assert(views(result@) =~= case_words_upto(s, 0));
    while index < chars.len()
        invariant
            s == chars@,
            index <= chars@.len(),
            current@.len() > 0 <==> (index > 0 && alphanumeric(s[index - 1])),
            (if current@.len() > 0 {
                views(result@).push(current@)
            } else {
                views(result@)
            }) == case_words_upto(s, index as int),
        decreases chars@.len() - index,
    {
        let ch = chars[index];
        let ghost prev_r = views(result@);
        if !is_alphanumeric(ch) {
            if current.len() > 0 {
                let done = current;
                result.push(done);
                current = Vec::new();
                assert(views(result@) =~= prev_r.push(done@));
            }
            index = index + 1;
            continue;
        }
        let should_split = if current.len() == 0 {
            false
        } else {
            let previous = chars[index - 1];
            let next = if index + 1 < chars.len() {
                Some(chars[index + 1])
            } else {
                None
            };
            (is_uppercase(ch) && (is_lowercase(previous) || is_numeric(previous))) || (
            is_uppercase(ch) && is_uppercase(previous) && match next {
                Some(n) => is_lowercase(n),
                None => false,
            })
        };
        if should_split {
            let done = current;
            result.push(done);
            current = Vec::new();
            assert(views(result@) =~= prev_r.push(done@));
        }
        let ghost before = current@;
        current.push(ch);
        proof {
            let w = case_words_upto(s, index as int);
            if before.len() > 0 {
                assert(views(result@).push(current@) =~= w.update(w.len() - 1, w.last().push(ch)));
            } else {
                assert(current@ =~= seq![ch]);
            }
        }
        index = index + 1;
    }
    if current.len() > 0 {
        result.push(current);
    }
    result
}

/// Whether every character is alphanumeric.
pub open spec fn all_alnum(w: Seq<char>) -> bool {
    forall|i: int| 0 <= i < w.len() ==> alphanumeric(#[trigger] w[i])
}

/// Neither `_` nor a space occurs.
pub open spec fn no_joiner(w: Seq<char>) -> bool {
    free_of(w, '_') && free_of(w, ' ')
}

fn lowercase_chars(word: &Vec<char>) -> (r: Vec<char>)
    ensures
        r@ == lower_all(word@),
        all_alnum(word@) ==> no_joiner(r@),
{
    let mut r: Vec<char> = Vec::new();
    let mut i: usize = 0;
    assert(word@.take(0) =~= Seq::<char>::empty());
    while i < word.len()
        invariant
            i <= word@.len(),
            r@ == lower_all(word@.take(i as int)),
            all_alnum(word@) ==> no_joiner(r@),
        decreases word@.len() - i,
    {
        let ghost before = r@;
        let l = to_lowercase(word[i]);
        extend_vec(&mut r, &l);
        proof {
            if all_alnum(word@) {
                assert(alphanumeric(word@[i as int]));
                assert forall|j: int| 0 <= j < r@.len() implies #[trigger] r@[j] != '_' && r@[j]
                    != ' ' by {
                    if j < before.len() {
                        assert(r@[j] == before[j]);
                    } else {
                        assert(r@[j] == l@[j - before.len()]);
                    }
                }
            }
        }
        assert(word@.take(i + 1).drop_last() =~= word@.take(i as int));
        i = i + 1;
    }
    assert(word@.take(word@.len() as int) =~= word@);
    r
}

fn capitalize(word: &Vec<char>) -> (r: Vec<char>)
    ensures
        r@ == capitalized(word@),
        all_alnum(word@) ==> no_joiner(r@),
{
    if word.len() == 0 {
        return Vec::new();
    }
    let mut result = to_uppercase(word[0]);
    let mut rest: Vec<char> = Vec::new();
    let mut i: usize = 1;
    while i < word.len()
        invariant
            1 <= i <= word@.len(),
            rest@ == word@.subrange(1, i as int),
        decreases word@.len() - i,
    {
        rest.push(word[i]);
        i = i + 1;
        assert(rest@ =~= word@.subrange(1, i as int));
    }
    assert(rest@ =~= word@.drop_first());
    let lowered = lowercase_chars(&rest);
    let ghost first = result@;
    extend_vec(&mut result, &lowered);
    proof {
        if all_alnum(word@) {
            assert(alphanumeric(word@[0]));
            assert forall|i: int| 0 <= i < rest@.len() implies alphanumeric(#[trigger] rest@[i]) by {
                assert(rest@[i] == word@[i + 1]);
            }
            assert forall|j: int| 0 <= j < result@.len() implies #[trigger] result@[j] != '_'
                && result@[j] != ' ' by {
                if j < first.len() {
                    assert(result@[j] == first[j]);
                } else {
                    assert(result@[j] == lowered@[j - first.len()]);
                }
            }
        }
    }
    result
}

fn map_words(words: &Vec<Vec<char>>, capital: bool) -> (r: Vec<Vec<char>>)
    ensures
        r@.len() == words@.len(),
        forall|k: int| 0 <= k < r@.len() && all_alnum(words@[k]@) ==> no_joiner(#[trigger] r@[k]@),
        forall|k: int|
            0 <= k < r@.len() ==> #[trigger] r@[k]@ == if capital {
                capitalized(words@[k]@)
            } else {
                lower_all(words@[k]@)
            },
{
    let mut r: Vec<Vec<char>> = Vec::new();
    let mut k: usize = 0;
    while k < words.len()
        invariant
            k <= words@.len(),
            r@.len() == k,
            forall|j: int|
                0 <= j < k ==> #[trigger] r@[j]@ == if capital {
                    capitalized(words@[j]@)
                } else {
                    lower_all(words@[j]@)
                },
            forall|j: int| 0 <= j < k && all_alnum(words@[j]@) ==> no_joiner(#[trigger] r@[j]@),
        decreases words@.len() - k,
    {
        let m = if capital {
            capitalize(&words[k])
        } else {
            lowercase_chars(&words[k])
        };
        r.push(m);
        k = k + 1;
    }
    r
}

fn join_with(input: &str, capital: bool, sep: char, has_sep: bool) -> (r: String)
    ensures
        capital ==> forall|k: int|
            0 <= k < case_words(input@).len() ==> no_joiner(#[trigger] capitalized_words(input@)[k]),
        !capital ==> forall|k: int|
            0 <= k < case_words(input@).len() ==> no_joiner(#[trigger] lowered_words(input@)[k]),
        r@ == join(
            if capital {
                capitalized_words(input@)
            } else {
                lowered_words(input@)
            },
            if has_sep {
                seq![sep]
            } else {
                Seq::empty()
            },
        ),
{
    let ws = words(input);
    let mapped = map_words(&ws, capital);
    proof {
        law_words_keep_alphanumerics(input@);
        assert forall|k: int| 0 <= k < ws@.len() implies all_alnum(#[trigger] ws@[k]@) by {
            assert(views(ws@)[k] == ws@[k]@);
            assert forall|i: int| 0 <= i < ws@[k]@.len() implies alphanumeric(
                #[trigger] ws@[k]@[i],
            ) by {
                assert(case_words(input@)[k][i] == ws@[k]@[i]);
            }
        }
    }
    let mut s: Vec<char> = Vec::new();
    if has_sep {
        s.push(sep);
    }
    assert(views(mapped@) =~= if capital {
        capitalized_words(input@)
    } else {
        lowered_words(input@)
    }) by {
        assert forall|k: int| 0 <= k < mapped@.len() implies views(mapped@)[k] == (if capital {
            capitalized_words(input@)
        } else {
            lowered_words(input@)
        })[k] by {
            assert(views(ws@)[k] == ws@[k]@);
        }
    }
    assert(s@ =~= if has_sep {
        seq![sep]
    } else {
        Seq::empty()
    });
    let joined = join_chars(&mapped, &s);
    string_of(&joined)
}

/// Converts text to `snake_case`.
pub fn to_snake_case(input: &str) -> (r: String)
    ensures
        r@ == join(lowered_words(input@), seq!['_']),
{
    join_with(input, false, '_', true)
}

/// Converts text to `kebab-case`.
/// The result is also the snake case of the input with every `_` turned
/// into `-`.
pub fn to_kebab_case(input: &str) -> (r: String)
    ensures
        r@ == join(lowered_words(input@), seq!['-']),
        r@ == replace_char(join(lowered_words(input@), seq!['_']), '_', '-'),
{
    let r = join_with(input, false, '-', true);
    proof {
        let ps = lowered_words(input@);
        assert forall|k: int| 0 <= k < ps.len() implies free_of(#[trigger] ps[k], '_') by {
            assert(no_joiner(ps[k]));
        }
        lemma_replace_join(ps, '_', '-');
    }
    r
}

/// Converts text to `camelCase`.
pub fn to_camel_case(input: &str) -> (r: String)
    ensures
        r@ == camel(input@),
{
    let ws = words(input);
    if ws.len() == 0 {
        return String::new();
    }
    let mut result = lowercase_chars(&ws[0]);
    let mut k: usize = 1;
    let ghost caps = capitalized_words(input@);
    assert(views(ws@)[0] == ws@[0]@);
    assert(caps.drop_first().take(0) =~= Seq::<Seq<char>>::empty());
    while k < ws.len()
        invariant
            1 <= k <= ws@.len(),
            views(ws@) == case_words(input@),
            caps == capitalized_words(input@),
            result@ == lower_all(case_words(input@)[0]) + join(
                caps.drop_first().take(k - 1),
                Seq::empty(),
            ),
        decreases ws@.len() - k,
    {
        let c = capitalize(&ws[k]);
        assert(views(ws@)[k as int] == ws@[k as int]@);
        let ghost before = result@;
        extend_vec(&mut result, &c);
        proof {
            let ps = caps.drop_first().take(k as int);
            assert(ps.drop_last() =~= caps.drop_first().take(k - 1));
            assert(ps.last() == c@);
            if k == 1 {
                assert(ps.len() == 1);
                assert(join(ps, Seq::empty()) == ps[0]);
                assert(join(caps.drop_first().take(0), Seq::<char>::empty()) =~= Seq::<char>::empty());
                assert(result@ =~= lower_all(case_words(input@)[0]) + join(ps, Seq::empty()));
            } else {
                assert(join(ps, Seq::empty()) =~= join(ps.drop_last(), Seq::empty()) + c@);
                assert(result@ =~= lower_all(case_words(input@)[0]) + join(ps, Seq::empty()));
            }
        }
        k = k + 1;
    }
    assert(caps.drop_first().take(k - 1) =~= caps.drop_first());
    string_of(&result)
}

/// Converts text to `PascalCase`.
/// The result is also the title case of the input with the spaces removed.
pub fn to_pascal_case(input: &str) -> (r: String)
    ensures
        r@ == join(capitalized_words(input@), Seq::empty()),
        r@ == remove_char(join(capitalized_words(input@), seq![' ']), ' '),
{
    let r = join_with(input, true, ' ', false);
    proof {
        let ps = capitalized_words(input@);
        assert forall|k: int| 0 <= k < ps.len() implies free_of(#[trigger] ps[k], ' ') by {
            assert(no_joiner(ps[k]));
        }
        lemma_remove_join(ps, ' ');
    }
    r
}

/// Converts text to `Title Case`.
pub fn to_title_case(input: &str) -> (r: String)
    ensures
        r@ == join(capitalized_words(input@), seq![' ']),
{
    join_with(input, true, ' ', true)
}

// ---------------------------------------------------------------------------
// Laws
// ---------------------------------------------------------------------------

/// The alphanumeric characters of `s`, in order.
pub open spec fn alnum_chars(s: Seq<char>) -> Seq<char>
    decreases s.len(),
{
    if s.len() == 0 {
        Seq::empty()
    } else if alphanumeric(s.last()) {
        alnum_chars(s.drop_last()).push(s.last())
    } else {
        alnum_chars(s.drop_last())
    }
}

proof fn lemma_words_upto(s: Seq<char>, n: int)
    requires
        0 <= n <= s.len(),
    ensures
        join(case_words_upto(s, n), Seq::empty()) == alnum_chars(s.take(n)),
        forall|k: int| 0 <= k < case_words_upto(s, n).len() ==> (#[trigger] case_words_upto(s, n)[k]).len() > 0,
        forall|k: int, j: int|
            0 <= k < case_words_upto(s, n).len() && 0 <= j < case_words_upto(s, n)[k].len()
                ==> alphanumeric(#[trigger] case_words_upto(s, n)[k][j]),
        (n > 0 && alphanumeric(s[n - 1])) ==> case_words_upto(s, n).len() > 0,
    decreases n,
{
    if n == 0 {
        assert(s.take(0) =~= Seq::<char>::empty());
    } else {
        lemma_words_upto(s, n - 1);
        let w = case_words_upto(s, n - 1);
        let w2 = case_words_upto(s, n);
        let c = s[n - 1];
        assert(s.take(n).drop_last() =~= s.take(n - 1));
        assert(s.take(n).last() == c);
        let e = Seq::<char>::empty();
        if !alphanumeric(c) {
        } else if n - 1 == 0 || !alphanumeric(s[n - 2]) || split_before(s, n - 1) {
            if w.len() == 0 {
                assert(join(w2, e) == w2[0]);
                assert(w2[0] =~= alnum_chars(s.take(n - 1)).push(c));
            } else {
                assert(w2.drop_last() =~= w);
                assert(join(w2, e) =~= join(w, e) + e + seq![c]);
            }
            assert forall|k: int, j: int| 0 <= k < w2.len() && 0 <= j < w2[k].len() implies alphanumeric(
                #[trigger] w2[k][j],
            ) by {
                if k < w.len() {
                    assert(w2[k] == w[k]);
                }
            }
        } else {
            assert(w.len() > 0);
            let last = w.last().push(c);
            if w.len() == 1 {
                assert(join(w2, e) == w2[0]);
                assert(join(w, e) == w[0]);
            } else {
                assert(w2.drop_last() =~= w.drop_last());
                assert(join(w, e) == join(w.drop_last(), e) + e + w.last());
                assert(join(w2, e) == join(w2.drop_last(), e) + e + last);
                assert(join(w2, e) =~= join(w, e).push(c));
            }
            assert forall|k: int, j: int| 0 <= k < w2.len() && 0 <= j < w2[k].len() implies alphanumeric(
                #[trigger] w2[k][j],
            ) by {
                if k < w.len() - 1 {
                    assert(w2[k] == w[k]);
                } else if j < w.last().len() {
                    assert(w2[k][j] == w[k][j]);
                }
            }
        }
    }
}

/// The words are non-empty runs of alphanumeric characters, and together they
/// hold every alphanumeric character of the input, in order and once.
pub proof fn law_words_keep_alphanumerics(s: Seq<char>)
    ensures
        join(case_words(s), Seq::empty()) == alnum_chars(s),
        forall|k: int| 0 <= k < case_words(s).len() ==> (#[trigger] case_words(s)[k]).len() > 0,
        forall|k: int, j: int|
            0 <= k < case_words(s).len() && 0 <= j < case_words(s)[k].len() ==> alphanumeric(
                #[trigger] case_words(s)[k][j],
            ),
{
    lemma_words_upto(s, s.len() as int);
    assert(s.take(s.len() as int) =~= s);
}


/// Every character of `s` is ASCII.
pub open spec fn ascii_text(s: Seq<char>) -> bool {
    forall|i: int| 0 <= i < s.len() ==> is_ascii_char(#[trigger] s[i])
}

/// `s` with every `a` replaced by `b`.
pub open spec fn replace_char(s: Seq<char>, a: char, b: char) -> Seq<char> {
    s.map_values(|c: char| if c == a { b } else { c })
}

/// `s` without any `c`.
pub open spec fn remove_char(s: Seq<char>, c: char) -> Seq<char>
    decreases s.len(),
{
    if s.len() == 0 {
        Seq::empty()
    } else if s.last() == c {
        remove_char(s.drop_last(), c)
    } else {
        remove_char(s.drop_last(), c).push(s.last())
    }
}

proof fn lemma_words_upto_ascii(s: Seq<char>, n: int)
    requires
        0 <= n <= s.len(),
        ascii_text(s),
    ensures
        forall|k: int, j: int|
            0 <= k < case_words_upto(s, n).len() && 0 <= j < case_words_upto(s, n)[k].len()
                ==> is_ascii_alnum(#[trigger] case_words_upto(s, n)[k][j]),
    decreases n,
{
    if n > 0 {
        lemma_words_upto_ascii(s, n - 1);
        lemma_words_upto(s, n - 1);
        let w = case_words_upto(s, n - 1);
        let w2 = case_words_upto(s, n);
        let c = s[n - 1];
        assert(is_ascii_char(c));
        if !alphanumeric(c) {
        } else if n - 1 == 0 || !alphanumeric(s[n - 2]) || split_before(s, n - 1) {
            assert forall|k: int, j: int| 0 <= k < w2.len() && 0 <= j < w2[k].len() implies is_ascii_alnum(
                #[trigger] w2[k][j],
            ) by {
                if k < w.len() {
                    assert(w2[k] == w[k]);
                }
            }
        } else {
            assert forall|k: int, j: int| 0 <= k < w2.len() && 0 <= j < w2[k].len() implies is_ascii_alnum(
                #[trigger] w2[k][j],
            ) by {
                if k < w.len() - 1 {
                    assert(w2[k] == w[k]);
                } else if j < w.last().len() {
                    assert(w2[k][j] == w[k][j]);
                }
            }
        }
    }
}

proof fn lemma_lower_all_ascii(w: Seq<char>)
    requires
        forall|i: int| 0 <= i < w.len() ==> is_ascii_alnum(#[trigger] w[i]),
    ensures
        lower_all(w).len() == w.len(),
        forall|i: int| 0 <= i < w.len() ==> #[trigger] lower_all(w)[i] == ascii_lower(w[i]),
    decreases w.len(),
{
    if w.len() > 0 {
        let init = w.drop_last();
        assert forall|i: int| 0 <= i < init.len() implies is_ascii_alnum(#[trigger] init[i]) by {
            assert(init[i] == w[i]);
        }
        lemma_lower_all_ascii(init);
        assert(is_ascii_char(w.last()));
        assert forall|i: int| 0 <= i < w.len() implies #[trigger] lower_all(w)[i] == ascii_lower(w[i]) by {
            if i < init.len() {
                assert(lower_all(w)[i] == lower_all(init)[i]);
                assert(init[i] == w[i]);
            }
        }
    }
}

/// On ASCII input the lowered and the capitalized words hold only ASCII
/// letters and digits.
proof fn lemma_ascii_words(s: Seq<char>)
    requires
        ascii_text(s),
    ensures
        forall|k: int, i: int|
            0 <= k < lowered_words(s).len() && 0 <= i < lowered_words(s)[k].len()
                ==> is_ascii_alnum(#[trigger] lowered_words(s)[k][i]),
        forall|k: int, i: int|
            0 <= k < capitalized_words(s).len() && 0 <= i < capitalized_words(s)[k].len()
                ==> is_ascii_alnum(#[trigger] capitalized_words(s)[k][i]),
{
    lemma_words_upto_ascii(s, s.len() as int);
    let ws = case_words(s);
    assert forall|k: int, i: int|
        0 <= k < lowered_words(s).len() && 0 <= i < lowered_words(s)[k].len()
            implies is_ascii_alnum(#[trigger] lowered_words(s)[k][i]) by {
        let w = ws[k];
        assert forall|j: int| 0 <= j < w.len() implies is_ascii_alnum(#[trigger] w[j]) by {}
        lemma_lower_all_ascii(w);
    }
    assert forall|k: int, i: int|
        0 <= k < capitalized_words(s).len() && 0 <= i < capitalized_words(s)[k].len()
            implies is_ascii_alnum(#[trigger] capitalized_words(s)[k][i]) by {
        let w = ws[k];
        assert forall|j: int| 0 <= j < w.len() implies is_ascii_alnum(#[trigger] w[j]) by {}
        let rest = w.drop_first();
        assert forall|j: int| 0 <= j < rest.len() implies is_ascii_alnum(#[trigger] rest[j]) by {
            assert(rest[j] == w[j + 1]);
        }
        lemma_lower_all_ascii(rest);
        assert(is_ascii_char(w[0]));
        if i > 0 {
            assert(capitalized(w)[i] == lower_all(rest)[i - 1]);
        }
    }
}

proof fn lemma_replace_join(ps: Seq<Seq<char>>, a: char, b: char)
    requires
        forall|k: int| 0 <= k < ps.len() ==> free_of(#[trigger] ps[k], a),
    ensures
        replace_char(join(ps, seq![a]), a, b) == join(ps, seq![b]),
    decreases ps.len(),
{
    if ps.len() == 1 {
        assert(replace_char(ps[0], a, b) =~= ps[0]);
    } else if ps.len() >= 2 {
        let init = ps.drop_last();
        assert forall|k: int| 0 <= k < init.len() implies free_of(#[trigger] init[k], a) by {
            assert(init[k] == ps[k]);
        }
        lemma_replace_join(init, a, b);
        let x = join(init, seq![a]);
        let l = ps.last();
        assert(free_of(l, a));
        assert(replace_char(x + seq![a] + l, a, b) =~= replace_char(x, a, b) + seq![b] + l);
    } else {
        assert(replace_char(Seq::empty(), a, b) =~= Seq::<char>::empty());
    }
}

pub proof fn lemma_remove_concat(x: Seq<char>, y: Seq<char>, c: char)
    ensures
        remove_char(x + y, c) == remove_char(x, c) + remove_char(y, c),
    decreases y.len(),
{
    if y.len() == 0 {
        assert(x + y =~= x);
        assert(remove_char(x, c) + remove_char(y, c) =~= remove_char(x, c));
    } else {
        lemma_remove_concat(x, y.drop_last(), c);
        assert((x + y).drop_last() =~= x + y.drop_last());
        if y.last() == c {
        } else {
            assert(remove_char(x, c) + remove_char(y, c) =~= (remove_char(x, c) + remove_char(
                y.drop_last(),
                c,
            )).push(y.last()));
        }
    }
}

proof fn lemma_remove_free(x: Seq<char>, c: char)
    requires
        free_of(x, c),
    ensures
        remove_char(x, c) == x,
    decreases x.len(),
{
    if x.len() > 0 {
        assert(free_of(x.drop_last(), c)) by {
            assert forall|i: int| 0 <= i < x.drop_last().len() implies #[trigger] x.drop_last()[i]
                != c by {
                assert(x.drop_last()[i] == x[i]);
            }
        }
        lemma_remove_free(x.drop_last(), c);
        assert(x.last() != c);
        assert(x.drop_last().push(x.last()) =~= x);
    }
}

proof fn lemma_remove_join(ps: Seq<Seq<char>>, c: char)
    requires
        forall|k: int| 0 <= k < ps.len() ==> free_of(#[trigger] ps[k], c),
    ensures
        remove_char(join(ps, seq![c]), c) == join(ps, Seq::empty()),
    decreases ps.len(),
{
    if ps.len() == 1 {
        lemma_remove_free(ps[0], c);
    } else if ps.len() >= 2 {
        let init = ps.drop_last();
        assert forall|k: int| 0 <= k < init.len() implies free_of(#[trigger] init[k], c) by {
            assert(init[k] == ps[k]);
        }
        lemma_remove_join(init, c);
        let x = join(init, seq![c]);
        let l = ps.last();
        lemma_remove_concat(x + seq![c], l, c);
        lemma_remove_concat(x, seq![c], c);
        assert(seq![c].drop_last() =~= Seq::<char>::empty());
        assert(remove_char(seq![c], c) == remove_char(Seq::<char>::empty(), c));
        lemma_remove_free(l, c);
        assert(join(ps, Seq::empty()) == join(init, Seq::empty()) + Seq::<char>::empty() + l);
        assert(join(init, Seq::<char>::empty()) + Seq::<char>::empty() + l =~= join(
            init,
            Seq::<char>::empty(),
        ) + l);
    }
}

/// On ASCII input, kebab case is snake case with every `_` turned into `-`.
pub proof fn law_kebab_is_snake_with_dashes(s: Seq<char>)
    requires
        ascii_text(s),
    ensures
        replace_char(join(lowered_words(s), seq!['_']), '_', '-') == join(
            lowered_words(s),
            seq!['-'],
        ),
{
    lemma_ascii_words(s);
    let ps = lowered_words(s);
    assert forall|k: int| 0 <= k < ps.len() implies free_of(#[trigger] ps[k], '_') by {
        assert forall|i: int| 0 <= i < ps[k].len() implies #[trigger] ps[k][i] != '_' by {
            assert(is_ascii_alnum(ps[k][i]));
        }
    }
    lemma_replace_join(ps, '_', '-');
}

/// On ASCII input, Pascal case is title case with the spaces removed.
pub proof fn law_pascal_is_title_without_spaces(s: Seq<char>)
    requires
        ascii_text(s),
    ensures
        remove_char(join(capitalized_words(s), seq![' ']), ' ') == join(
            capitalized_words(s),
            Seq::empty(),
        ),
{
    lemma_ascii_words(s);
    let ps = capitalized_words(s);
    assert forall|k: int| 0 <= k < ps.len() implies free_of(#[trigger] ps[k], ' ') by {
        assert forall|i: int| 0 <= i < ps[k].len() implies #[trigger] ps[k][i] != ' ' by {
            assert(is_ascii_alnum(ps[k][i]));
        }
    }
    lemma_remove_join(ps, ' ');
}

} // verus!
