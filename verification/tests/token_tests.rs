use lib::token::{
    token_count, tokenize_chars, tokenize_sentences, tokenize_whitespace, tokenize_words,
    TokenKind, TokenizerOptions,
};

#[test]
fn handles_empty_and_whitespace_only_input() {
    assert!(tokenize_whitespace("").is_empty());
    assert!(tokenize_words("   \n").is_empty());
    assert_eq!(token_count("\t  "), 0);
}

#[test]
fn tokenizes_whitespace_and_tracks_spans() {
    let tokens = tokenize_whitespace(" hello  world ");
    assert_eq!(tokens.len(), 2);
    assert_eq!(tokens[0].kind, TokenKind::Text);
    assert_eq!(tokens[0].text, "hello");
    assert_eq!(tokens[0].span.start, 1);
    assert_eq!(tokens[1].span.end, 13);
}

#[test]
fn tokenizes_words_with_punctuation_and_apostrophes() {
    let tokens = tokenize_words("Hello, world! don't-stop");
    let texts: Vec<&str> = tokens.iter().map(|token| token.text.as_str()).collect();
    assert_eq!(texts, vec!["Hello", "world", "don't", "stop"]);
    assert!(tokens.iter().all(|token| token.kind == TokenKind::Word));
}

#[test]
fn tokenizes_sentences_and_multiline_text() {
    let tokens = tokenize_sentences("One.  Two!\nThree");
    let texts: Vec<&str> = tokens.iter().map(|token| token.text.as_str()).collect();
    assert_eq!(texts, vec!["One.", "Two!", "Three"]);
}

#[test]
fn tokenizes_unicode_characters() {
    let tokens = tokenize_chars("A🙂");
    assert_eq!(tokens.len(), 2);
    assert_eq!(tokens[1].text, "🙂");
    assert_eq!(tokens[1].span.start, 1);
    assert_eq!(tokens[1].span.end, 5);
}

#[test]
fn tokenizes_unicode_words_conservatively() {
    let tokens = tokenize_words("naïve façade");
    let texts: Vec<&str> = tokens.iter().map(|token| token.text.as_str()).collect();
    assert_eq!(texts, vec!["naïve", "façade"]);
    assert!(TokenizerOptions::default().trim_empty);
}

#[test]
fn token_spans_are_byte_offsets_into_the_input() {
    let input = "é  ab\tç";
    for token in tokenize_whitespace(input) {
        assert_eq!(&input[token.span.start..token.span.end], token.text);
    }
    let tokens = tokenize_whitespace(input);
    assert_eq!(tokens.len(), 3);
    assert_eq!(tokens[1].span.start, 4);
    assert_eq!(tokens[2].span.end, 9);
    assert!(!TokenizerOptions::default().include_whitespace);
}

#[test]
fn sentences_keep_closing_quotes_and_need_a_following_space() {
    let tokens = tokenize_sentences("He said \"Hi.\" Then left... ok 3.5 done");
    let texts: Vec<&str> = tokens.iter().map(|token| token.text.as_str()).collect();
    assert_eq!(texts, vec!["He said \"Hi.\"", "Then left...", "ok 3.5 done"]);
    assert!(tokens.iter().all(|token| token.kind == TokenKind::Sentence));
    assert!(tokenize_sentences("  \n ").is_empty());
    let trailing = tokenize_sentences("tail   ");
    assert_eq!(trailing[0].text, "tail");
    assert_eq!(trailing[0].span.end, 4);
}

#[test]
fn apostrophes_join_only_between_alphanumerics() {
    let tokens = tokenize_words("'quoted' it’s 'tis");
    let texts: Vec<&str> = tokens.iter().map(|token| token.text.as_str()).collect();
    assert_eq!(texts, vec!["quoted", "it’s", "tis"]);
    assert_eq!(token_count("one two  three"), 3);
    let chars = tokenize_chars("ab");
    assert_eq!(chars[1].kind, TokenKind::Char);
    assert_eq!(chars[1].span.start, 1);
}

#[test]
fn readme_token_examples_and_sentence_spans() {
    assert_eq!(token_count("Hello, world!"), 2);
    assert_eq!(tokenize_words("don't stop").len(), 2);
    assert_eq!(tokenize_sentences("One. Two!").len(), 2);
    let input = "Ça va. Oui!";
    let sentences = tokenize_sentences(input);
    assert_eq!(sentences.len(), 2);
    assert_eq!((sentences[0].span.start, sentences[0].span.end), (0, 7));
    assert_eq!((sentences[1].span.start, sentences[1].span.end), (8, 12));
    for token in &sentences {
        assert_eq!(&input[token.span.start..token.span.end], token.text);
    }
}

#[test]
fn sentences_split_only_at_ends_followed_by_space() {
    let input = "  Is it 3.5?  Yes!) Done";
    let texts: Vec<String> = tokenize_sentences(input).into_iter().map(|t| t.text).collect();
    assert_eq!(texts, vec!["Is it 3.5?", "Yes!)", "Done"]);
    for text in &texts {
        assert_eq!(text.as_str(), text.trim());
    }
}
