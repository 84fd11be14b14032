use sapper::tokenizer::{
    edge_ngrams, fuzzy_tokens, tokenize, EdgeNgramStream, Token, MAX_GRAM, MIN_GRAM,
};

fn texts(tokens: &[Token]) -> Vec<String> {
    tokens.iter().map(|t| t.text.clone()).collect()
}

#[test]
fn edge_ngrams_of_hello() {
    // A token of length 5 with (min 3, max 12) yields 5 - 3 + 1 = 3 grams,
    // each a prefix of the token.
    let grams = edge_ngrams("hello", 0, 3, 12);
    assert_eq!(texts(&grams), vec!["hel", "hell", "hello"]);
    assert_eq!(grams[0].offset_from, 0);
    assert_eq!(grams[0].offset_to, 3);
    assert_eq!(grams[2].offset_to, 5);
}

#[test]
fn edge_ngrams_of_short_token() {
    // Tokens shorter than min_gram produce zero grams.
    let grams = edge_ngrams("hi", 0, 3, 12);
    assert_eq!(grams.len(), 0);
}

#[test]
fn edge_ngrams_cap_at_max_gram() {
    let grams = edge_ngrams("abcdefghijklmnop", 0, 3, 12);
    // min(12, 16) - 3 + 1 = 10 grams, the longest of 12 characters.
    assert_eq!(grams.len(), 10);
    assert_eq!(grams[9].text, "abcdefghijkl");
}

#[test]
fn edge_ngram_offsets_are_unicode_aware() {
    // Gram boundaries count characters; offsets count bytes.
    let grams = edge_ngrams("héllo", 10, 3, 12);
    assert_eq!(texts(&grams), vec!["hél", "héll", "héllo"]);
    assert_eq!(grams[0].offset_from, 10);
    // "hél" is four bytes: the accented character takes two.
    assert_eq!(grams[0].offset_to, 14);
    assert_eq!(grams[2].offset_to, 16);
}

#[test]
fn stream_pulls_grams_per_source_token() {
    let source = vec![
        Token { text: "hello".to_string(), offset_from: 0, offset_to: 5 },
        Token { text: "hi".to_string(), offset_from: 6, offset_to: 8 },
        Token { text: "word".to_string(), offset_from: 9, offset_to: 13 },
    ];
    let mut stream = EdgeNgramStream::new(source, MIN_GRAM, MAX_GRAM);
    let mut out: Vec<String> = Vec::new();
    while let Some(t) = stream.advance() {
        out.push(t.text);
    }
    // "hi" is silently dropped; the rest expand in order.
    assert_eq!(out, vec!["hel", "hell", "hello", "wor", "word"]);
}

#[test]
fn fuzzy_pipeline_splits_lowercases_and_expands() {
    let tokens = fuzzy_tokens("Hello, World! hi");
    assert_eq!(
        texts(&tokens),
        vec!["hel", "hell", "hello", "wor", "worl", "world"]
    );
    // Offsets track the source text.
    assert_eq!(tokens[0].offset_from, 0);
    assert_eq!(tokens[3].offset_from, 7);
}

#[test]
fn exact_pipeline_stems() {
    let tokens = tokenize("exact", "Running quickly").unwrap();
    let words: Vec<String> = tokens.iter().map(|t| t.text.clone()).collect();
    assert_eq!(words, vec!["run", "quick"]);
}

#[test]
fn pipeline_registry_names() {
    assert!(tokenize("exact", "abc").is_some());
    assert!(tokenize("fuzzy", "abc").is_some());
    assert!(tokenize("plain", "abc").is_none());
    let via_registry = tokenize("fuzzy", "hello").unwrap();
    assert_eq!(texts(&via_registry), vec!["hel", "hell", "hello"]);
}

#[test]
fn overlong_tokens_are_dropped() {
    // 40 or more bytes: dropped before lowercasing or expansion.
    let long = "a".repeat(40);
    let text = format!("{} short", long);
    let tokens = fuzzy_tokens(&text);
    assert_eq!(texts(&tokens), vec!["sho", "shor", "short"]);
}
