//! Simple, deterministic tokenization with byte spans.
//!
//! Token texts are copies of the input between the span's byte offsets.
use vstd::prelude::*;
use crate::text::{
    byte_len, byte_offset, byte_offsets, chars_of, int_pairs, is_whitespace, is_ws, lemma_runs_wf,
    non_ws_at, runs, slice_vec, str_byte_len, string_of, ws_word_ranges,
};
use crate::word::{word_char_at, word_ranges, word_runs};

verus! {

/// A token with its kind and byte span.
#[derive(Clone, Debug, Eq, PartialEq)]
pub struct Token {
    /// The token classification.
    pub kind: TokenKind,
    /// The owned token text.
    pub text: String,
    /// The token span in the input, in bytes.
    pub span: TokenSpan,
}

/// The category assigned to a token.
#[derive(Clone, Copy, Debug, Eq, PartialEq, Structural)]
pub enum TokenKind {
    /// A non-whitespace segment split by whitespace.
    Text,
    /// A conservative word token.
    Word,
    /// A conservative sentence token.
    Sentence,
    /// A single Unicode scalar value.
    Char,
}

/// A byte span in the input string.
#[derive(Clone, Copy, Debug, Eq, PartialEq, Structural)]
pub struct TokenSpan {
    /// Inclusive start byte offset.
    pub start: usize,
    /// Exclusive end byte offset.
    pub end: usize,
}

/// Small configuration for future tokenizer extensions.
#[derive(Clone, Copy, Debug, Eq, PartialEq, Structural)]
pub struct TokenizerOptions {
    /// Whether empty tokens should be dropped.
    pub trim_empty: bool,
    /// Whether surrounding whitespace should be kept in higher-level flows.
    pub include_whitespace: bool,
}

impl Default for TokenizerOptions {
    fn default() -> (r: TokenizerOptions)
        ensures
            r.trim_empty,
            !r.include_whitespace,
    {
        TokenizerOptions { trim_empty: true, include_whitespace: false }
    }
}

impl Token {
    fn new(kind: TokenKind, text: String, start: usize, end: usize) -> (r: Token)
        ensures
            r.kind == kind,
            r.text@ == text@,
            r.span == (TokenSpan { start, end }),
    {
        Token { kind, text, span: TokenSpan { start, end } }
    }
}

/// `t` is the token of kind `kind` that covers the characters `range` of `s`.
pub open spec fn token_for(t: Token, kind: TokenKind, s: Seq<char>, range: (int, int)) -> bool {
    &&& t.kind == kind
    &&& t.text@ == s.subrange(range.0, range.1)
    &&& t.span.start == byte_offset(s, range.0)
    &&& t.span.end == byte_offset(s, range.1)
}

/// The tokens are those of `ranges`, in order.
pub open spec fn tokens_for(ts: Seq<Token>, kind: TokenKind, s: Seq<char>, ranges: Seq<(int, int)>) -> bool {
    &&& ts.len() == ranges.len()
    &&& forall|k: int| 0 <= k < ts.len() ==> token_for(#[trigger] ts[k], kind, s, ranges[k])
}

/// The ranges lie inside `s` and are non-empty.
pub open spec fn ranges_in(ranges: Seq<(int, int)>, n: int) -> bool {
    forall|k: int| 0 <= k < ranges.len() ==> 0 <= (#[trigger] ranges[k]).0 <= ranges[k].1 <= n
}

/// Builds the tokens of `ranges`.
fn tokens_of_ranges(v: &Vec<char>, offsets: &Vec<usize>, ranges: &Vec<(usize, usize)>, kind: TokenKind) -> (r: Vec<Token>)
    requires
        offsets@.len() == v@.len() + 1,
        forall|i: int| 0 <= i <= v@.len() ==> offsets@[i] == byte_offset(v@, i),
        ranges_in(int_pairs(ranges@), v@.len() as int),
    ensures
        tokens_for(r@, kind, v@, int_pairs(ranges@)),
{
    let mut r: Vec<Token> = Vec::new();
    let mut k: usize = 0;
    while k < ranges.len()
        invariant
            k <= ranges@.len(),
            offsets@.len() == v@.len() + 1,
            forall|i: int| 0 <= i <= v@.len() ==> offsets@[i] == byte_offset(v@, i),
            ranges_in(int_pairs(ranges@), v@.len() as int),
            r@.len() == k,
            forall|j: int| 0 <= j < k ==> token_for(#[trigger] r@[j], kind, v@, int_pairs(ranges@)[j]),
        decreases ranges@.len() - k,
    {
        let (a, b) = ranges[k];
        assert(int_pairs(ranges@)[k as int] == (a as int, b as int));
        let piece = slice_vec(v, a, b);
        let t = Token::new(kind, string_of(&piece), offsets[a], offsets[b]);
        r.push(t);
        k = k + 1;
    }
    r
}

/// Splits input on contiguous whitespace.
pub fn tokenize_whitespace(input: &str) -> (r: Vec<Token>)
    ensures
        tokens_for(r@, TokenKind::Text, input@, runs(non_ws_at(input@), input@.len() as int)),
{
    let v = chars_of(input);
    let n = str_byte_len(input);
    let offsets = byte_offsets(&v);
    let ranges = ws_word_ranges(&v);
    proof {
        lemma_runs_wf(non_ws_at(v@), v@.len() as int);
    }
    tokens_of_ranges(&v, &offsets, &ranges, TokenKind::Text)
}

/// Extracts conservative word tokens.
pub fn tokenize_words(input: &str) -> (r: Vec<Token>)
    ensures
        tokens_for(r@, TokenKind::Word, input@, word_runs(input@)),
{
    let v = chars_of(input);
    let n = str_byte_len(input);
    let offsets = byte_offsets(&v);
    let ranges = word_ranges(&v);
    proof {
        lemma_runs_wf(word_char_at(v@), v@.len() as int);
    }
    tokens_of_ranges(&v, &offsets, &ranges, TokenKind::Word)
}

/// Counts conservative word tokens.
pub fn token_count(input: &str) -> (r: usize)
    ensures
        r == word_runs(input@).len(),
{
    let v = chars_of(input);
    let ranges = word_ranges(&v);
    assert(int_pairs(ranges@).len() == ranges@.len());
    ranges.len()
}

/// Splits input into Unicode scalar values.
pub fn tokenize_chars(input: &str) -> (r: Vec<Token>)
    ensures
        r@.len() == input@.len(),
        forall|i: int|
            0 <= i < r@.len() ==> token_for(#[trigger] r@[i], TokenKind::Char, input@, (i, i + 1)),
{
    let v = chars_of(input);
    let n = str_byte_len(input);
    let offsets = byte_offsets(&v);
    let mut r: Vec<Token> = Vec::new();
    let mut i: usize = 0;
    while i < v.len()
        invariant
            i <= v@.len(),
            offsets@.len() == v@.len() + 1,
            forall|j: int| 0 <= j <= v@.len() ==> offsets@[j] == byte_offset(v@, j),
            r@.len() == i,
            forall|j: int| 0 <= j < i ==> token_for(#[trigger] r@[j], TokenKind::Char, v@, (j, j + 1)),
        decreases v@.len() - i,
    {
        let piece = slice_vec(&v, i, i + 1);
        let t = Token::new(TokenKind::Char, string_of(&piece), offsets[i], offsets[i + 1]);
        r.push(t);
        i = i + 1;
    }
    r
}

// ---------------------------------------------------------------------------
// Sentences
// ---------------------------------------------------------------------------

pub open spec fn is_terminal(c: char) -> bool {
    c == '.' || c == '!' || c == '?'
}

/// Characters that may trail a sentence-ending mark and still belong to it.
pub open spec fn is_closer(c: char) -> bool {
    c == '.' || c == '!' || c == '?' || c == '"' || c == '\'' || c == '\u{201d}' || c
        == '\u{2019}' || c == ')' || c == ']'
}

/// The first index from `j` on that is not a closer.
pub open spec fn closers_end(s: Seq<char>, j: int) -> int
    decreases s.len() - j,
{
    if 0 <= j < s.len() && is_closer(s[j]) {
        closers_end(s, j + 1)
    } else {
        j
    }
}

/// The sentence ranges found from index `i` on, given the start of the
/// sentence in progress and the end of its last non-whitespace character.
pub open spec fn sentence_scan(s: Seq<char>, i: int, start: Option<int>, last_end: int) -> Seq<(int, int)>
    decreases s.len() - i,
{
    if i < 0 || i >= s.len() {
        match start {
            Some(a) => seq![(a, last_end)],
            None => Seq::empty(),
        }
    } else {
        let c = s[i];
        if start is None && is_ws(c) {
            sentence_scan(s, i + 1, None, last_end)
        } else {
            let a = match start {
                Some(a) => a,
                None => i,
            };
            let last2 = if !is_ws(c) {
                i + 1
            } else {
                last_end
            };
            let la = closers_end(s, i + 1);
            if is_terminal(c) && (la >= s.len() || is_ws(s[la])) {
                proof {
                    lemma_closers_end(s, i + 1);
                }
                seq![(a, la)] + sentence_scan(s, la, None, la)
            } else {
                sentence_scan(s, i + 1, Some(a), last2)
            }
        }
    }
}

/// The sentences of `s`, as character ranges.
pub open spec fn sentence_ranges(s: Seq<char>) -> Seq<(int, int)> {
    sentence_scan(s, 0, None, 0)
}

pub proof fn lemma_closers_end(s: Seq<char>, j: int)
    requires
        0 <= j <= s.len(),
    ensures
        j <= closers_end(s, j) <= s.len(),
    decreases s.len() - j,
{
    if j < s.len() && is_closer(s[j]) {
        lemma_closers_end(s, j + 1);
    }
}

/// Extracts conservative sentence tokens.
pub fn tokenize_sentences(input: &str) -> (r: Vec<Token>)
    ensures
        tokens_for(r@, TokenKind::Sentence, input@, sentence_ranges(input@)),
        sentences_direct(input@, sentence_ranges(input@), 0),
{
    proof {
        law_sentences_direct(input@);
    }
    let v = chars_of(input);
    let n = str_byte_len(input);
    let offsets = byte_offsets(&v);
    let ghost s = v@;
    let mut ranges: Vec<(usize, usize)> = Vec::new();
    let mut start: Option<usize> = None;
    let mut last_non_whitespace_end: usize = 0;
    let mut index: usize = 0;
    while index < v.len()
        invariant
            s == v@,
            index <= v@.len(),
            last_non_whitespace_end <= index,
            start matches Some(a) ==> a < last_non_whitespace_end,
            ranges_in(int_pairs(ranges@), s.len() as int),
            int_pairs(ranges@) + sentence_scan(
                s,
                index as int,
                match start {
                    Some(a) => Some(a as int),
                    None => None,
                },
                last_non_whitespace_end as int,
            ) == sentence_ranges(s),
        decreases v@.len() - index,
    {
        let ghost gstart: Option<int> = match start {
            Some(a) => Some(a as int),
            None => None,
        };
        let c = v[index];
        if start.is_none() && is_whitespace(c) {
            index = index + 1;
            continue;
        }
        let a = match start {
            Some(a) => a,
            None => index,
        };
        start = Some(a);
        if !is_whitespace(c) {
            last_non_whitespace_end = index + 1;
        }
        if c == '.' || c == '!' || c == '?' {
            let mut lookahead = index + 1;
            proof {
                lemma_closers_end(s, index + 1);
            }
            while lookahead < v.len() && is_closer_char(v[lookahead])
                invariant
                    s == v@,
                    index < lookahead <= v@.len(),
                    closers_end(s, lookahead as int) == closers_end(s, index + 1),
                decreases v@.len() - lookahead,
            {
                lookahead = lookahead + 1;
            }
            if lookahead >= v.len() || is_whitespace(v[lookahead]) {
                let ghost old_ranges = int_pairs(ranges@);
                ranges.push((a, lookahead));
                assert(int_pairs(ranges@) =~= old_ranges + seq![(a as int, lookahead as int)]);
                assert(int_pairs(ranges@) + sentence_scan(s, lookahead as int, None, lookahead as int)
                    =~= old_ranges + (seq![(a as int, lookahead as int)] + sentence_scan(
                    s,
                    lookahead as int,
                    None,
                    lookahead as int,
                )));
                start = None;
                last_non_whitespace_end = lookahead;
                index = lookahead;
                continue;
            }
        }
        index = index + 1;
    }
    if let Some(a) = start {
        let ghost old_ranges = int_pairs(ranges@);
        ranges.push((a, last_non_whitespace_end));
        assert(int_pairs(ranges@) =~= old_ranges + seq![(a as int, last_non_whitespace_end as int)]);
    } else {
        assert(int_pairs(ranges@) =~= int_pairs(ranges@) + Seq::<(int, int)>::empty());
    }
    tokens_of_ranges(&v, &offsets, &ranges, TokenKind::Sentence)
}

fn is_closer_char(c: char) -> (r: bool)
    ensures
        r == is_closer(c),
{
    c == '.' || c == '!' || c == '?' || c == '"' || c == '\'' || c == '\u{201d}' || c == '\u{2019}'
        || c == ')' || c == ']'
}

// ---------------------------------------------------------------------------
// Laws
// ---------------------------------------------------------------------------

proof fn lemma_token_bytes(s: Seq<char>, t: Token, kind: TokenKind, range: (int, int))
    requires
        token_for(t, kind, s, range),
        0 <= range.0 < range.1 <= s.len(),
    ensures
        t.span.start < t.span.end,
        byte_len(t.text@) == t.span.end - t.span.start,
{
    lemma_span_bytes(s, range.0, range.1);
}

/// Tokens come in order, do not overlap, and each covers a non-empty part of
/// the input; the text of a whitespace token holds no whitespace and is as
/// long in bytes as its span.
pub proof fn law_whitespace_tokens(s: Seq<char>, ts: Seq<Token>)
    requires
        tokens_for(ts, TokenKind::Text, s, runs(non_ws_at(s), s.len() as int)),
    ensures
        forall|k: int|
            0 <= k < ts.len() ==> (#[trigger] ts[k]).span.start < ts[k].span.end && byte_len(
                ts[k].text@,
            ) == ts[k].span.end - ts[k].span.start,
        forall|k: int, j: int|
            0 <= k < j < ts.len() ==> (#[trigger] ts[k]).span.end < (#[trigger] ts[j]).span.start,
        forall|k: int, j: int|
            0 <= k < ts.len() && 0 <= j < ts[k].text@.len() ==> !is_ws(#[trigger] ts[k].text@[j]),
{
    let r = runs(non_ws_at(s), s.len() as int);
    lemma_runs_wf(non_ws_at(s), s.len() as int);
    assert forall|k: int| 0 <= k < ts.len() implies (#[trigger] ts[k]).span.start < ts[k].span.end
        && byte_len(ts[k].text@) == ts[k].span.end - ts[k].span.start by {
        assert(token_for(ts[k], TokenKind::Text, s, r[k]));
        assert(0 <= r[k].0 < r[k].1 <= s.len());
        lemma_token_bytes(s, ts[k], TokenKind::Text, r[k]);
    }
    assert forall|k: int, j: int| 0 <= k < j < ts.len() implies (#[trigger] ts[k]).span.end < (
    #[trigger] ts[j]).span.start by {
        assert(token_for(ts[k], TokenKind::Text, s, r[k]));
        assert(token_for(ts[j], TokenKind::Text, s, r[j]));
        assert(r[k].1 < r[j].0);
        assert(0 <= r[j].0 <= s.len());
        lemma_span_bytes(s, r[k].1, r[j].0);
    }
    assert forall|k: int, j: int|
        0 <= k < ts.len() && 0 <= j < ts[k].text@.len() implies !is_ws(
        #[trigger] ts[k].text@[j],
    ) by {
        assert(token_for(ts[k], TokenKind::Text, s, r[k]));
        assert(0 <= r[k].0 < r[k].1 <= s.len());
        assert(ts[k].text@[j] == s[r[k].0 + j]);
        assert(r[k].0 <= r[k].0 + j < r[k].1);
        assert(non_ws_at(s)(r[k].0 + j));
    }
}

/// The bytes between two character offsets are those of the characters
/// between them, and there is at least one byte per character.
pub proof fn lemma_span_bytes(s: Seq<char>, a: int, b: int)
    requires
        0 <= a <= b <= s.len(),
    ensures
        byte_offset(s, b) - byte_offset(s, a) == byte_len(s.subrange(a, b)),
        byte_offset(s, b) - byte_offset(s, a) >= b - a,
    decreases b - a,
{
    if a == b {
        assert(s.subrange(a, b) =~= Seq::<char>::empty());
        assert(vstd::utf8::encode_utf8(Seq::<char>::empty()) =~= Seq::<u8>::empty());
    } else {
        lemma_span_bytes(s, a, b - 1);
        crate::text::lemma_byte_offset_step(s, b - 1);
        assert(s.subrange(a, b) =~= s.subrange(a, b - 1).push(s[b - 1]));
        crate::text::lemma_byte_len_push(s.subrange(a, b - 1), s[b - 1]);
    }
}

/// The ranges lie in order inside `s` from `lo` on, do not overlap, are not
/// empty, and each starts with a character that is not whitespace.
pub open spec fn sentence_like(s: Seq<char>, r: Seq<(int, int)>, lo: int) -> bool {
    &&& forall|k: int|
        0 <= k < r.len() ==> lo <= (#[trigger] r[k]).0 < r[k].1 <= s.len() && !is_ws(s[r[k].0])
    &&& forall|k: int, j: int| 0 <= k < j < r.len() ==> (#[trigger] r[k]).1 <= (#[trigger] r[j]).0
}

proof fn lemma_sentence_scan(s: Seq<char>, i: int, start: Option<int>, last_end: int)
    requires
        0 <= i <= s.len(),
        0 <= last_end <= i,
        start matches Some(a) ==> 0 <= a < last_end && !is_ws(s[a]),
    ensures
        sentence_like(
            s,
            sentence_scan(s, i, start, last_end),
            match start {
                Some(a) => a,
                None => i,
            },
        ),
    decreases s.len() - i,
{
    if i < s.len() {
        let c = s[i];
        if start is None && is_ws(c) {
            lemma_sentence_scan(s, i + 1, None, last_end);
        } else {
            let a = match start {
                Some(a) => a,
                None => i,
            };
            let last2 = if !is_ws(c) {
                i + 1
            } else {
                last_end
            };
            lemma_closers_end(s, i + 1);
            let la = closers_end(s, i + 1);
            if is_terminal(c) && (la >= s.len() || is_ws(s[la])) {
                lemma_sentence_scan(s, la, None, la);
                let rest = sentence_scan(s, la, None, la);
                let all = seq![(a, la)] + rest;
                assert forall|k: int| 1 <= k < all.len() implies #[trigger] all[k] == rest[k - 1] by {}
            } else {
                lemma_sentence_scan(s, i + 1, Some(a), last2);
            }
        }
    }
}

/// Sentence tokens come in order and do not overlap; each covers a
/// non-empty part of the input, starts with a character that is not
/// whitespace, and is as long in bytes as its span.
pub proof fn law_sentence_tokens(s: Seq<char>, ts: Seq<Token>)
    requires
        tokens_for(ts, TokenKind::Sentence, s, sentence_ranges(s)),
    ensures
        forall|k: int|
            0 <= k < ts.len() ==> (#[trigger] ts[k]).span.start < ts[k].span.end && byte_len(
                ts[k].text@,
            ) == ts[k].span.end - ts[k].span.start && ts[k].text@.len() > 0 && !is_ws(
                ts[k].text@[0],
            ),
        forall|k: int, j: int|
            0 <= k < j < ts.len() ==> (#[trigger] ts[k]).span.end <= (#[trigger] ts[j]).span.start,
{
    let r = sentence_ranges(s);
    lemma_sentence_scan(s, 0, None, 0);
    assert forall|k: int| 0 <= k < ts.len() implies (#[trigger] ts[k]).span.start < ts[k].span.end
        && byte_len(ts[k].text@) == ts[k].span.end - ts[k].span.start && ts[k].text@.len() > 0
        && !is_ws(ts[k].text@[0]) by {
        assert(token_for(ts[k], TokenKind::Sentence, s, r[k]));
        lemma_token_bytes(s, ts[k], TokenKind::Sentence, r[k]);
        assert(ts[k].text@[0] == s[r[k].0]);
    }
    assert forall|k: int, j: int| 0 <= k < j < ts.len() implies (#[trigger] ts[k]).span.end <= (
    #[trigger] ts[j]).span.start by {
        assert(token_for(ts[k], TokenKind::Sentence, s, r[k]));
        assert(token_for(ts[j], TokenKind::Sentence, s, r[j]));
        lemma_span_bytes(s, r[k].1, r[j].0);
    }
}


/// A sentence ends at `s[i]`: a `.`, `!` or `?` whose trailing closing marks
/// are followed by whitespace or the end of the input.
pub open spec fn ends_sentence(s: Seq<char>, i: int) -> bool {
    is_terminal(s[i]) && (closers_end(s, i + 1) >= s.len() || is_ws(s[closers_end(s, i + 1)]))
}

/// The sentences, stated directly: each is trimmed and followed by
/// whitespace or the end; each but the last ends right after a sentence end
/// and its closing marks; every sentence end inside a sentence closes that
/// sentence; and every non-whitespace character from `lo` on lies in one.
pub open spec fn sentences_direct(s: Seq<char>, r: Seq<(int, int)>, lo: int) -> bool {
    &&& forall|k: int| 0 <= k < r.len() ==> #[trigger] sentence_trimmed(s, r[k])
    &&& forall|k: int| 0 <= k < r.len() - 1 ==> #[trigger] closed_by_end(s, r[k])
    &&& forall|k: int, i: int|
        0 <= k < r.len() && (#[trigger] r[k]).0 <= i < r[k].1 && #[trigger] ends_sentence(s, i)
            ==> closers_end(s, i + 1) == r[k].1
    &&& forall|j: int| lo <= j < s.len() && !is_ws(#[trigger] s[j]) ==> covered(r, j)
}

/// The sentence `x` starts and ends with a character that is not whitespace
/// and is followed by whitespace or the end of the input.
pub open spec fn sentence_trimmed(s: Seq<char>, x: (int, int)) -> bool {
    !is_ws(s[x.0]) && !is_ws(s[x.1 - 1]) && (x.1 == s.len() || is_ws(s[x.1]))
}

/// The sentence `x` ends right after a sentence end and its closing marks.
pub open spec fn closed_by_end(s: Seq<char>, x: (int, int)) -> bool {
    exists|i: int| x.0 <= i < x.1 && #[trigger] ends_sentence(s, i) && closers_end(s, i + 1) == x.1
}

/// Index `j` lies in one of the ranges.
pub open spec fn covered(r: Seq<(int, int)>, j: int) -> bool {
    exists|k: int| 0 <= k < r.len() && (#[trigger] r[k]).0 <= j < r[k].1
}

proof fn lemma_closers_run(s: Seq<char>, j: int, q: int)
    requires
        0 <= j <= q <= closers_end(s, j),
        j <= s.len(),
    ensures
        closers_end(s, q) == closers_end(s, j),
    decreases q - j,
{
    if q > j {
        lemma_closers_run(s, j + 1, q);
    }
}

proof fn lemma_direct_last(s: Seq<char>, a: int, last_end: int)
    requires
        0 <= a < last_end <= s.len(),
        !is_ws(s[a]),
        !is_ws(s[last_end - 1]),
        forall|j: int| last_end <= j < s.len() ==> is_ws(#[trigger] s[j]),
        forall|p: int| a <= p < s.len() ==> !#[trigger] ends_sentence(s, p),
    ensures
        sentences_direct(s, seq![(a, last_end)], a),
{
    let r = seq![(a, last_end)];
    assert(sentence_trimmed(s, r[0]));
    assert forall|j: int| a <= j < s.len() && !is_ws(#[trigger] s[j]) implies covered(r, j) by {
        assert(r[0].0 <= j < r[0].1);
    }
}

proof fn lemma_direct_skip(s: Seq<char>, r: Seq<(int, int)>, i: int)
    requires
        0 <= i < s.len(),
        is_ws(s[i]),
        sentences_direct(s, r, i + 1),
    ensures
        sentences_direct(s, r, i),
{
    assert forall|j: int| i <= j < s.len() && !is_ws(#[trigger] s[j]) implies covered(r, j) by {
        assert(j >= i + 1);
    }
}

#[verifier::rlimit(40)]
proof fn lemma_sentence_scan_direct(s: Seq<char>, i: int, start: Option<int>, last_end: int)
    requires
        0 <= i <= s.len(),
        0 <= last_end <= i,
        start matches Some(a) ==> {
            &&& 0 <= a < last_end
            &&& !is_ws(s[a])
            &&& !is_ws(s[last_end - 1])
            &&& forall|j: int| last_end <= j < i ==> is_ws(#[trigger] s[j])
            &&& forall|p: int| a <= p < i ==> !#[trigger] ends_sentence(s, p)
        },
    ensures
        sentences_direct(
            s,
            sentence_scan(s, i, start, last_end),
            match start {
                Some(a) => a,
                None => i,
            },
        ),
    decreases s.len() - i,
{
    let r = sentence_scan(s, i, start, last_end);
    if i >= s.len() {
        match start {
            Some(a) => {
                assert(r == seq![(a, last_end)]);
                lemma_direct_last(s, a, last_end);
            },
            None => {
                assert(r.len() == 0);
            },
        }
    } else {
        let c = s[i];
        if start is None && is_ws(c) {
            lemma_sentence_scan_direct(s, i + 1, None, last_end);
            assert(r == sentence_scan(s, i + 1, None, last_end));
            lemma_direct_skip(s, r, i);
        } else {
            let a = match start {
                Some(a) => a,
                None => i,
            };
            let last2 = if !is_ws(c) {
                i + 1
            } else {
                last_end
            };
            lemma_closers_end(s, i + 1);
            let la = closers_end(s, i + 1);
            if is_terminal(c) && (la >= s.len() || is_ws(s[la])) {
                assert(ends_sentence(s, i));
                lemma_sentence_scan_direct(s, la, None, la);
                lemma_sentence_scan(s, la, None, la);
                assert(r == seq![(a, la)] + sentence_scan(s, la, None, la));
                lemma_direct_cons(s, a, i, la, sentence_scan(s, la, None, la));
            } else {
                assert(!ends_sentence(s, i));
                lemma_sentence_scan_direct(s, i + 1, Some(a), last2);
                assert(r == sentence_scan(s, i + 1, Some(a), last2));
            }
        }
    }
}

proof fn lemma_closers_mid(s: Seq<char>, j: int, q: int)
    requires
        0 <= j <= q < closers_end(s, j),
    ensures
        is_closer(s[q]),
    decreases q - j,
{
    if q > j {
        lemma_closers_mid(s, j + 1, q);
    }
}

/// The sentence ranges meet the direct statement: trimmed, followed by
/// whitespace or the end, split exactly at sentence ends, and covering every
/// character that is not whitespace.
pub proof fn law_sentences_direct(s: Seq<char>)
    ensures
        sentences_direct(s, sentence_ranges(s), 0),
{
    lemma_sentence_scan_direct(s, 0, None, 0);
}


/// A sentence `(a, la)` that ends at `i`, followed by sentences from `la` on.
proof fn lemma_direct_cons(s: Seq<char>, a: int, i: int, la: int, rest: Seq<(int, int)>)
    requires
        0 <= a <= i < la <= s.len(),
        la == closers_end(s, i + 1),
        ends_sentence(s, i),
        !is_ws(s[a]),
        forall|p: int| a <= p < i ==> !#[trigger] ends_sentence(s, p),
        sentences_direct(s, rest, la),
        sentence_like(s, rest, la),
    ensures
        sentences_direct(s, seq![(a, la)] + rest, a),
{
    let r = seq![(a, la)] + rest;
    lemma_closers_end(s, i + 1);
    assert forall|k: int| 1 <= k < r.len() implies #[trigger] r[k] == rest[k - 1] by {}
    assert(!is_ws(s[la - 1])) by {
        if la - 1 > i {
            lemma_closers_mid(s, i + 1, la - 1);
        }
    }
    assert forall|k: int| 0 <= k < r.len() implies #[trigger] sentence_trimmed(s, r[k]) by {
        if k > 0 {
            assert(r[k] == rest[k - 1]);
        }
    }
    assert forall|k: int| 0 <= k < r.len() - 1 implies #[trigger] closed_by_end(s, r[k]) by {
        if k == 0 {
            assert(r[0].0 <= i < r[0].1 && ends_sentence(s, i));
        } else {
            assert(r[k] == rest[k - 1]);
            assert(closed_by_end(s, rest[k - 1]));
        }
    }
    assert forall|k: int, p: int|
        0 <= k < r.len() && (#[trigger] r[k]).0 <= p < r[k].1 && #[trigger] ends_sentence(s, p)
            implies closers_end(s, p + 1) == r[k].1 by {
        if k == 0 {
            if p > i {
                lemma_closers_run(s, i + 1, p + 1);
            }
        } else {
            assert(r[k] == rest[k - 1]);
        }
    }
    assert forall|j: int| a <= j < s.len() && !is_ws(#[trigger] s[j]) implies covered(r, j) by {
        if j < la {
            assert(r[0].0 <= j < r[0].1);
        } else {
            assert(covered(rest, j));
            let k = choose|k: int| 0 <= k < rest.len() && (#[trigger] rest[k]).0 <= j < rest[k].1;
            assert(r[k + 1] == rest[k]);
        }
    }
}


proof fn lemma_closers_end_at(s: Seq<char>, q: int, j: int)
    requires
        0 <= q <= j <= s.len(),
        forall|p: int| q <= p < j ==> is_closer(#[trigger] s[p]),
        j == s.len() || !is_closer(s[j]),
    ensures
        closers_end(s, q) == j,
    decreases j - q,
{
    if q < j {
        lemma_closers_end_at(s, q + 1, j);
    }
}

/// A `.`, `!` or `?` followed by closing marks from `. ! ? " ' ” ’ ) ]` and
/// then by whitespace or the end of the input ends a sentence: one of the
/// sentences holds it and ends right after those closing marks.
pub proof fn law_sentence_end(s: Seq<char>, i: int, j: int)
    requires
        0 <= i < j <= s.len(),
        s[i] == '.' || s[i] == '!' || s[i] == '?',
        forall|p: int|
            i < p < j ==> #[trigger] s[p] == '.' || s[p] == '!' || s[p] == '?' || s[p] == '"' || s[p]
                == '\'' || s[p] == '\u{201d}' || s[p] == '\u{2019}' || s[p] == ')' || s[p] == ']',
        j == s.len() || is_ws(s[j]),
    ensures
        exists|k: int|
            0 <= k < sentence_ranges(s).len() && (#[trigger] sentence_ranges(s)[k]).0 <= i
                && sentence_ranges(s)[k].1 == j,
{
    let r = sentence_ranges(s);
    law_sentences_direct(s);
    assert forall|p: int| i + 1 <= p < j implies is_closer(#[trigger] s[p]) by {
        assert(i < p < j);
    }
    lemma_closers_end_at(s, i + 1, j);
    assert(ends_sentence(s, i));
    assert(!is_ws(s[i]));
    assert(covered(r, i));
    let k = choose|k: int| 0 <= k < r.len() && (#[trigger] r[k]).0 <= i < r[k].1;
    assert(r[k].0 <= i < r[k].1 && ends_sentence(s, i));
    assert(r[k].1 == j);
}

} // verus!
