//! Basic readability metrics.
//!
//! Sentences end at `.`, `!` or `?`; a run of such marks counts once. Reading
//! time defaults to 200 words per minute and rounds up to at least one minute
//! for input that is not blank.
use vstd::prelude::*;
use vstd::string::StrSliceExecFns;
use crate::text::{
    byte_len, chars_of, str_byte_len, int_pairs, lemma_ws_words_blank, trim, ws_word_ranges, ws_words,
};

verus! {

pub const DEFAULT_WORDS_PER_MINUTE: usize = 200;

pub open spec fn is_terminal(c: char) -> bool {
    c == '.' || c == '!' || c == '?'
}

/// Number of runs of sentence-ending punctuation.
pub open spec fn terminal_runs(s: Seq<char>) -> nat
    decreases s.len(),
{
    if s.len() == 0 {
        0
    } else {
        terminal_runs(s.drop_last()) + if is_terminal(s.last()) && !(s.len() >= 2 && is_terminal(
            s[s.len() - 2],
        )) {
            1nat
        } else {
            0nat
        }
    }
}

/// `a / b` rounded up.
pub open spec fn div_ceil(a: int, b: int) -> int {
    a / b + if a % b == 0 {
        0int
    } else {
        1int
    }
}

/// Minutes to read `s` at `wpm` words per minute, when `wpm` is not zero.
pub open spec fn reading_minutes(s: Seq<char>, wpm: int) -> int {
    if trim(s).len() == 0 {
        0
    } else {
        let words = if ws_words(s).len() == 0 {
            1
        } else {
            ws_words(s).len() as int
        };
        let m = div_ceil(words, wpm);
        if m < 1 {
            1
        } else {
            m
        }
    }
}

/// Counts whitespace-delimited words.
pub fn word_count(input: &str) -> (r: usize)
    ensures
        r == ws_words(input@).len(),
{
    let v = chars_of(input);
    let ranges = ws_word_ranges(&v);
    ranges.len()
}

/// Counts Rust `char` values.
pub fn char_count(input: &str) -> (r: usize)
    ensures
        r == input@.len(),
{
    input.unicode_len()
}

/// Counts UTF-8 bytes.
pub fn byte_count(input: &str) -> (r: usize)
    ensures
        r == byte_len(input@),
{
    str_byte_len(input)
}

/// Counts sentences using `.`, `!`, and `?` as sentence-ending punctuation.
pub fn sentence_count(input: &str) -> (r: usize)
    ensures
        r == terminal_runs(input@),
{
    let v = chars_of(input);
    let mut count: usize = 0;
    let mut in_terminal_run = false;
    let mut i: usize = 0;
    assert(v@.take(0) =~= Seq::<char>::empty());
    while i < v.len()
        invariant
            i <= v@.len(),
            count <= i,
            in_terminal_run == (i > 0 && is_terminal(v@[i - 1])),
            count == terminal_runs(v@.take(i as int)),
        decreases v@.len() - i,
    {
        let c = v[i];
        assert(v@.take(i + 1).drop_last() =~= v@.take(i as int));
        if i > 0 {
            assert(v@.take(i + 1)[i - 1] == v@[i - 1]);
        }
        if c == '.' || c == '!' || c == '?' {
            if !in_terminal_run {
                count = count + 1;
                in_terminal_run = true;
            }
        } else {
            in_terminal_run = false;
        }
        i = i + 1;
    }
    assert(v@.take(v@.len() as int) =~= v@);
    count
}

/// Estimates reading time using a default speed of 200 words per minute.
pub fn estimated_reading_time_minutes(input: &str) -> (r: usize)
    ensures
        r == reading_minutes(input@, DEFAULT_WORDS_PER_MINUTE as int),
{
    match estimated_reading_time_minutes_at(input, DEFAULT_WORDS_PER_MINUTE) {
        Some(m) => m,
        None => 0,
    }
}

/// Estimates reading time using a custom words-per-minute value; `None`
/// when `words_per_minute` is zero.
pub fn estimated_reading_time_minutes_at(input: &str, words_per_minute: usize) -> (r: Option<
    usize,
>)
    ensures
        words_per_minute == 0 ==> r is None,
        words_per_minute > 0 ==> r is Some && r->0 == reading_minutes(
            input@,
            words_per_minute as int,
        ),
{
    if words_per_minute == 0 {
        return None;
    }
    let v = chars_of(input);
    let ranges = ws_word_ranges(&v);
    assert(ranges@.len() == ws_words(v@).len()) by {
        assert(int_pairs(ranges@).len() == ranges@.len());
    }
    proof {
        lemma_ws_words_blank(v@);
    }
    if ranges.len() == 0 {
        return Some(0);
    }
    let m = ceil_div(ranges.len(), words_per_minute);
    let m = if m < 1 {
        1
    } else {
        m
    };
    Some(m)
}

fn ceil_div(a: usize, b: usize) -> (r: usize)
    requires
        b > 0,
    ensures
        r == div_ceil(a as int, b as int),
{
    let q = a / b;
    if a % b == 0 {
        q
    } else {
        assert(b >= 2) by {
            if b == 1 {
                assert(a % 1 == 0) by (nonlinear_arith);
            }
        }
        assert(q <= a / 2) by (nonlinear_arith)
            requires
                b >= 2,
                q == a / b,
        ;
        q + 1
    }
}


/// Rounding up: `div_ceil(a, b)` is the least `q` with `q * b >= a`.
pub proof fn lemma_div_ceil(a: int, b: int)
    requires
        a >= 0,
        b > 0,
    ensures
        div_ceil(a, b) * b >= a,
        (div_ceil(a, b) - 1) * b < a || a == 0,
        div_ceil(a, b) >= 0,
{
    let q = a / b;
    let r = a % b;
    assert(a == b * q + r && 0 <= r < b) by (nonlinear_arith)
        requires
            b > 0,
            q == a / b,
            r == a % b,
    ;
    assert(q >= 0) by (nonlinear_arith)
        requires
            a >= 0,
            b > 0,
            q == a / b,
    ;
    if r == 0 {
        assert(div_ceil(a, b) * b == a) by (nonlinear_arith)
            requires
                a == b * q,
                div_ceil(a, b) == q,
        ;
        assert((q - 1) * b < a || a == 0) by (nonlinear_arith)
            requires
                a == b * q,
                b > 0,
                q >= 0,
        ;
    } else {
        assert((q + 1) * b >= a && q * b < a) by (nonlinear_arith)
            requires
                a == b * q + r,
                0 < r < b,
        ;
    }
}

/// At a positive speed, reading time is zero exactly for blank input. For
/// other input it is the least whole number of minutes, at least one, in
/// which every word is read.
pub proof fn law_reading_time(s: Seq<char>, wpm: int)
    requires
        wpm > 0,
    ensures
        reading_minutes(s, wpm) == 0 <==> trim(s).len() == 0,
        trim(s).len() > 0 ==> reading_minutes(s, wpm) >= 1 && reading_minutes(s, wpm) * wpm
            >= ws_words(s).len(),
        trim(s).len() > 0 ==> reading_minutes(s, wpm) == 1 || (reading_minutes(s, wpm) - 1) * wpm
            < ws_words(s).len(),
{
    if trim(s).len() > 0 {
        let w: int = if ws_words(s).len() == 0 {
            1
        } else {
            ws_words(s).len() as int
        };
        lemma_div_ceil(w, wpm);
        let m = div_ceil(w, wpm);
        if m < 1 {
            assert(1 * wpm >= w) by (nonlinear_arith)
                requires
                    m * wpm >= w,
                    m <= 0,
                    w >= 1,
                    wpm > 0,
            ;
        }
    }
}

} // verus!
