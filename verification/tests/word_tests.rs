use lib::word::{
    contains_word, ends_with_word, normalize_word, starts_with_word, unique_words, word_count,
    words, Word, WordStats,
};

#[test]
fn lib_handles_empty_and_whitespace_only_input() {
    assert_eq!(word_count(""), 0);
    assert!(words("   \n").is_empty());
    assert_eq!(normalize_word("   \n"), "");
}

#[test]
fn normalizes_ascii_words_and_punctuation() {
    assert_eq!(normalize_word("Hello!"), "hello");
    assert_eq!(normalize_word("don't"), "don't");
    assert_eq!(word_count("Hello, hello world"), 3);
}

#[test]
fn preserves_first_seen_unique_words() {
    let unique = unique_words("Hello, hello world world");
    let texts: Vec<&str> = unique.iter().map(Word::as_str).collect();
    assert_eq!(texts, vec!["hello", "world"]);
}

#[test]
fn checks_word_boundaries() {
    assert!(contains_word("Hello, world", "world"));
    assert!(!contains_word("cartwheel", "art"));
    assert!(starts_with_word("Hello world", "hello"));
    assert!(ends_with_word("Hello world!", "world"));
}

#[test]
fn handles_multiline_and_unicode_input() {
    let extracted = words("Straße\ncafé");
    let texts: Vec<&str> = extracted.iter().map(Word::as_str).collect();
    assert_eq!(texts, vec!["straße", "café"]);

    let stats = WordStats::from_text("Straße\ncafé café");
    assert_eq!(stats.total, 3);
    assert_eq!(stats.unique, 2);
}

#[test]
fn word_values_are_normalized_and_never_empty() {
    assert!(Word::new("  !!  ").is_none());
    let word = Word::new(" Ünïcode! ").unwrap();
    assert_eq!(word.as_str(), "ünïcode");
    assert_eq!(word.into_string(), "ünïcode");
    assert_eq!(normalize_word("ÀB'C"), "àb'c");
    assert_eq!(normalize_word("'quoted'"), "quoted");
}

#[test]
fn word_checks_reject_empty_targets() {
    assert!(!contains_word("anything", "  "));
    assert!(!starts_with_word("", "a"));
    assert!(!ends_with_word("a b", "!!"));
    assert!(ends_with_word("x, Y.", "y"));
    assert!(starts_with_word("İstanbul trip", "İstanbul"));
}

#[test]
fn unique_words_never_exceed_total() {
    let input = "a b a c b a";
    let stats = WordStats::from_text(input);
    assert_eq!(stats.total, 6);
    assert_eq!(stats.unique, 3);
    let unique = unique_words(input);
    let texts: Vec<&str> = unique.iter().map(Word::as_str).collect();
    assert_eq!(texts, vec!["a", "b", "c"]);
    assert_eq!(WordStats::from_text("").total, 0);
}

#[test]
fn readme_word_examples() {
    assert_eq!(word_count("Hello, hello world"), 3);
    assert!(contains_word("Hello, world", "world"));
    assert_eq!(unique_words("Hello, hello world").len(), 2);
}
