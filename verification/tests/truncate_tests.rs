use lib::truncate::{
    truncate_chars, truncate_with_ellipsis, truncate_words, truncate_words_with_ellipsis, ELLIPSIS,
};

#[test]
fn truncates_by_characters_without_splitting_bytes() {
    assert_eq!(truncate_chars("abcdef", 4), "abcd");
    assert_eq!(truncate_chars("héllo", 4), "héll");
    assert_eq!(truncate_chars("🙂🙂🙂", 2), "🙂🙂");
}

#[test]
fn truncates_by_words() {
    assert_eq!(truncate_words("one two three", 2), "one two");
    assert_eq!(truncate_words(" one\n two\tthree ", 2), "one two");
    assert_eq!(truncate_words("one two", 0), "");
}

#[test]
fn adds_ellipsis_for_character_truncation() {
    assert_eq!(truncate_with_ellipsis("abcdef", 4), "abc…");
    assert_eq!(truncate_with_ellipsis("abcdef", 1), "…");
    assert_eq!(truncate_with_ellipsis("abcdef", 0), "");
    assert_eq!(truncate_with_ellipsis("short", 10), "short");
}

#[test]
fn adds_ellipsis_for_word_truncation() {
    assert_eq!(truncate_words_with_ellipsis("one two three", 2), "one two…");
    assert_eq!(truncate_words_with_ellipsis("one two", 2), "one two");
    assert_eq!(truncate_words_with_ellipsis("one two", 0), "");
}

#[test]
fn handles_unicode_input_safely() {
    assert_eq!(truncate_with_ellipsis("Grüße aus Köln", 7), "Grüße …");
    assert_eq!(truncate_words_with_ellipsis("こんにちは 世界 Rust", 2), "こんにちは 世界…");
}

#[test]
fn untruncated_input_is_returned_unchanged() {
    assert_eq!(ELLIPSIS, '…');
    assert_eq!(truncate_chars("abc", 10), "abc");
    assert_eq!(truncate_with_ellipsis("abcd", 4), "abcd");
    assert_eq!(truncate_words_with_ellipsis("  one \t two ", 2), "  one \t two ");
    assert_eq!(truncate_words("  one \t two ", 5), "one two");
    assert_eq!(truncate_words("", 3), "");
}

#[test]
fn truncated_output_fits_the_limit() {
    for max in 0..8 {
        let out = truncate_with_ellipsis("abcdefghij", max);
        assert!(out.chars().count() <= max);
    }
    assert_eq!(truncate_with_ellipsis("ab", 2), "ab");
    assert_eq!(truncate_with_ellipsis("abc", 2), "a…");
}

#[test]
fn kept_words_are_the_first_words() {
    let input = " alpha\t beta\n\ngamma  delta ";
    let kept = truncate_words(input, 3);
    assert_eq!(kept, "alpha beta gamma");
    let again: Vec<&str> = kept.split_whitespace().collect();
    let first: Vec<&str> = input.split_whitespace().take(3).collect();
    assert_eq!(again, first);
}
