use lib::readable::{
    byte_count, char_count, estimated_reading_time_minutes, estimated_reading_time_minutes_at,
    sentence_count, word_count, DEFAULT_WORDS_PER_MINUTE,
};

#[test]
fn counts_words_characters_and_bytes() {
    assert_eq!(word_count("composable text primitives"), 3);
    assert_eq!(char_count("hé"), 2);
    assert_eq!(byte_count("hé"), 3);
}

#[test]
fn counts_sentences_with_simple_punctuation() {
    assert_eq!(sentence_count("One. Two! Three?"), 3);
    assert_eq!(sentence_count("Wait... really?!"), 2);
    assert_eq!(sentence_count("No punctuation here"), 0);
}

#[test]
fn estimates_reading_time_with_default_speed() {
    assert_eq!(estimated_reading_time_minutes("one two three"), 1);
    assert_eq!(estimated_reading_time_minutes("   "), 0);
}

#[test]
fn estimates_reading_time_with_custom_speed() {
    assert_eq!(estimated_reading_time_minutes_at("one two three four", 2), Some(2));
    assert_eq!(estimated_reading_time_minutes_at("hello", 200), Some(1));
    assert_eq!(estimated_reading_time_minutes_at("", 200), Some(0));
}

#[test]
fn rejects_invalid_words_per_minute() {
    assert_eq!(estimated_reading_time_minutes_at("hello", 0), None);
}

#[test]
fn reading_time_rounds_up() {
    assert_eq!(DEFAULT_WORDS_PER_MINUTE, 200);
    assert_eq!(estimated_reading_time_minutes_at("a b c d e", 2), Some(3));
    assert_eq!(estimated_reading_time_minutes_at("a b c d", 2), Some(2));
    assert_eq!(estimated_reading_time_minutes_at("   ", 0), None);
    assert_eq!(estimated_reading_time_minutes_at("\n\t", 5), Some(0));
}

#[test]
fn counts_on_unicode_and_empty_input() {
    assert_eq!(word_count(""), 0);
    assert_eq!(word_count(" a\u{a0}b "), 2);
    assert_eq!(char_count("🙂a"), 2);
    assert_eq!(byte_count("🙂a"), 5);
    assert_eq!(byte_count(""), 0);
    assert_eq!(sentence_count("?"), 1);
    assert_eq!(sentence_count("a.b.c"), 2);
}
