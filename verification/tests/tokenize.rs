use lexitrie::{Token, Trie};

fn values(tokens: &[Token]) -> Vec<&str> {
    tokens.iter().map(|t| t.value.as_str()).collect()
}

fn joined(tokens: &[Token]) -> String {
    values(tokens).join(" ")
}

#[test]
fn single_word_yields_one_token() {
    let t = Trie::new();
    let tokens = t.get_all_tokens("hello", false).unwrap();
    assert_eq!(tokens.len(), 1);
    assert_eq!(tokens[0].value, "hello");
    assert!(tokens[0].synonyms.is_empty());
    assert!(!tokens[0].is_stopword);
}

#[test]
fn empty_text_yields_one_empty_token() {
    let t = Trie::new();
    let tokens = t.get_all_tokens("", true).unwrap();
    assert_eq!(tokens.len(), 1);
    assert_eq!(tokens[0].value, "");
}

#[test]
fn single_word_synonym_hit_populates_synonyms() {
    let mut t = Trie::new();
    t.insert_synonym("nyc", vec!["new york".to_string()]).unwrap();
    let tokens = t.get_all_tokens("nyc", false).unwrap();
    assert_eq!(tokens.len(), 1);
    assert_eq!(tokens[0].value, "nyc");
    assert_eq!(tokens[0].synonyms, vec!["new york".to_string()]);
    assert!(!tokens[0].is_stopword);
}

#[test]
fn stopword_key_with_space_sets_flag() {
    let mut t = Trie::new();
    t.insert("of the", Some(u32::MAX - 1)).unwrap();
    let tokens = t.get_all_tokens("of the", false).unwrap();
    assert_eq!(tokens.len(), 1);
    assert_eq!(tokens[0].value, "of the");
    assert!(tokens[0].is_stopword);
    assert!(tokens[0].synonyms.is_empty());
}

#[test]
fn synonym_key_with_space_populates_synonyms() {
    let mut t = Trie::new();
    t.insert_synonym("new york", vec!["nyc".to_string(), "ny".to_string()])
        .unwrap();
    let tokens = t.get_all_tokens("new york", false).unwrap();
    assert_eq!(tokens.len(), 1);
    assert_eq!(tokens[0].value, "new york");
    assert_eq!(tokens[0].synonyms, vec!["nyc".to_string(), "ny".to_string()]);
    assert!(!tokens[0].is_stopword);
}

#[test]
fn unknown_words_become_plain_tokens() {
    let mut t = Trie::new();
    t.insert("hello", Some(8)).unwrap();
    let tokens = t.get_all_tokens("hello world", false).unwrap();
    assert_eq!(values(&tokens), vec!["hello", "world"]);
    assert!(tokens[0].synonyms.is_empty());
    assert!(tokens[1].synonyms.is_empty());
    assert!(!tokens[1].is_stopword);
}

#[test]
fn dictionary_word_with_synonyms_then_plain_word() {
    let mut t = Trie::new();
    t.insert_synonym("hello", vec!["hi".to_string(), "hey".to_string()])
        .unwrap();
    let tokens = t.get_all_tokens("hello world", false).unwrap();
    assert_eq!(values(&tokens), vec!["hello", "world"]);
    assert_eq!(tokens[0].synonyms, vec!["hi".to_string(), "hey".to_string()]);
    assert!(tokens[1].synonyms.is_empty());
    assert!(!tokens[1].is_stopword);
}

#[test]
fn overlap_resolution_prefers_higher_tag_right() {
    let mut t = Trie::new();
    t.insert("new york", Some(10)).unwrap();
    t.insert("new", Some(1)).unwrap();
    t.insert("york city", Some(20)).unwrap();
    // "york city" outscores "new york": the left match is dropped and the
    // leading "new" survives as a plain span
    let tokens = t.get_all_tokens("new york city", false).unwrap();
    assert_eq!(values(&tokens), vec!["new", "york city"]);
}

#[test]
fn overlap_resolution_prefers_higher_tag_left() {
    let mut t = Trie::new();
    t.insert("new york", Some(30)).unwrap();
    t.insert("new", Some(1)).unwrap();
    t.insert("york city", Some(20)).unwrap();
    // "new york" outscores "york city": the right match is dropped and the
    // trailing "city" survives as a plain span
    let tokens = t.get_all_tokens("new york city", false).unwrap();
    assert_eq!(values(&tokens), vec!["new york", "city"]);
}

#[test]
fn no_dictionary_matches_splits_whitespace() {
    let t = Trie::new();
    let tokens = t.get_all_tokens("one two three", false).unwrap();
    assert_eq!(values(&tokens), vec!["one", "two", "three"]);
}

#[test]
fn concatenation_reconstructs_input() {
    let mut t = Trie::new();
    t.insert("new york", Some(10)).unwrap();
    t.insert_synonym("hello", vec!["hi".to_string()]).unwrap();
    for text in [
        "hello world",
        "new york city",
        "plain words only here",
        "hello new york",
        "single",
    ] {
        let tokens = t.get_all_tokens(text, false).unwrap();
        assert_eq!(joined(&tokens), text);
    }
}

#[test]
fn repeated_spaces_are_collapsed_between_spans() {
    let t = Trie::new();
    let tokens = t.get_all_tokens("a  b", false).unwrap();
    assert_eq!(values(&tokens), vec!["a", "b"]);
}

#[test]
fn segmentation_dict_records_space_offset() {
    let mut t = Trie::new();
    let lines = vec![
        "New York\tsome ignored second field".to_string(),
        "word".to_string(),
        "Ho Chi Minh\tx".to_string(),
    ];
    t.insert_segmentation_dict(&lines);
    // "New York" is cleaned to "new york"; the first space sits at offset 3
    assert_eq!(t.search("newyork"), Ok(Some(3)));
    // a line without an internal space is skipped
    assert_eq!(t.search("word"), Ok(None));
    // only the first space is removed; offset 2 is recorded for "ho chi minh"
    assert_eq!(t.search("hochi minh"), Ok(Some(2)));
}

#[test]
fn word_segmentation_reinserts_space() {
    let mut t = Trie::new();
    let lines = vec!["New York\t1".to_string()];
    t.insert_segmentation_dict(&lines);
    let tok = t.word_segmentation("newyork").unwrap().unwrap();
    assert_eq!(tok.value, "newyork");
    assert_eq!(tok.synonyms, vec!["new york".to_string()]);
    assert!(!tok.is_stopword);
}

#[test]
fn plain_numeric_key_gives_plain_token() {
    let mut t = Trie::new();
    t.insert("new york", Some(7)).unwrap();
    let tokens = t.get_all_tokens("new york", false).unwrap();
    assert_eq!(values(&tokens), vec!["new york"]);
    assert!(tokens[0].synonyms.is_empty());
    assert!(!tokens[0].is_stopword);
}

#[test]
fn return_prefix_accepts_partial_key_spans() {
    let mut t = Trie::new();
    t.insert("a b c d", Some(9)).unwrap();
    // "a b c" is only a prefix of the stored key: with return_prefix the
    // whole probe is kept as one span, without it the text falls apart into
    // plain words
    let with_prefix = t.get_all_tokens("a b c", true).unwrap();
    assert_eq!(values(&with_prefix), vec!["a b c"]);
    let without_prefix = t.get_all_tokens("a b c", false).unwrap();
    assert_eq!(values(&without_prefix), vec!["a", "b", "c"]);
}

#[test]
fn word_segmentation_misses_unknown_word() {
    let t = Trie::new();
    assert!(t.word_segmentation("nothere").unwrap().is_none());
}
