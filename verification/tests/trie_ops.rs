use lexitrie::{Trie, TrieError};

#[test]
fn insert_then_search_returns_value() {
    let mut t = Trie::new();
    t.insert("foo", Some(42)).unwrap();
    assert_eq!(t.search("foo"), Ok(Some(42)));
}

#[test]
fn insert_sentinel_is_canonicalized_to_one() {
    let mut t = Trie::new();
    t.insert("foo", Some(u32::MAX)).unwrap();
    assert_eq!(t.search("foo"), Ok(Some(1)));
}

#[test]
fn insert_none_clears_entry() {
    let mut t = Trie::new();
    t.insert("foo", Some(7)).unwrap();
    t.insert("foo", None).unwrap();
    assert_eq!(t.search("foo"), Ok(None));
}

#[test]
fn reinsert_overwrites_value() {
    let mut t = Trie::new();
    t.insert("key with spaces", Some(3)).unwrap();
    t.insert("key with spaces", Some(9)).unwrap();
    assert_eq!(t.search("key with spaces"), Ok(Some(9)));
}

#[test]
fn never_inserted_key_is_absent() {
    let mut t = Trie::new();
    assert_eq!(t.search("absent"), Ok(None));
    t.insert("foo", Some(1)).unwrap();
    t.insert("foobar", Some(2)).unwrap();
    assert_eq!(t.search("fo"), Ok(None));
    assert_eq!(t.search("foob"), Ok(None));
    assert_eq!(t.search("bar"), Ok(None));
    assert_eq!(t.search(""), Ok(None));
}

#[test]
fn insert_synonym_search_decodes_to_set() {
    let mut t = Trie::new();
    t.insert_synonym("nyc", vec!["new york".to_string(), "big apple".to_string()])
        .unwrap();
    let tag = t.search("nyc").unwrap().unwrap();
    assert!(tag >= 4_000_000_000);
    let idx = (tag - 4_000_000_000) as usize;
    assert_eq!(
        t.synonym_dict[idx],
        vec!["new york".to_string(), "big apple".to_string()]
    );
}

#[test]
fn insert_synonym_twice_latest_set_wins() {
    let mut t = Trie::new();
    t.insert_synonym("k", vec!["a".to_string()]).unwrap();
    t.insert_synonym("k", vec!["b".to_string()]).unwrap();
    let tag = t.search("k").unwrap().unwrap();
    let idx = (tag - 4_000_000_000) as usize;
    assert_eq!(t.synonym_dict[idx], vec!["b".to_string()]);
}

#[test]
fn uppercase_is_rejected() {
    let t = Trie::new();
    assert_eq!(t.search("Hello"), Err(TrieError::InvalidCharacter('H')));
}

#[test]
fn first_invalid_character_is_reported() {
    let mut t = Trie::new();
    assert_eq!(t.search("ab!X"), Err(TrieError::InvalidCharacter('!')));
    assert_eq!(
        t.insert("ok?", Some(1)),
        Err(TrieError::InvalidCharacter('?'))
    );
    assert_eq!(
        t.insert_synonym("a,b", vec![]),
        Err(TrieError::InvalidCharacter(','))
    );
    assert_eq!(
        t.longest_common_prefix_search("x\ty", true),
        Err(TrieError::InvalidCharacter('\t'))
    );
    assert_eq!(
        t.common_prefix_search("\u{e9}"),
        Err(TrieError::InvalidCharacter('\u{e9}'))
    );
    assert_eq!(
        t.get_all_tokens("a B", false).unwrap_err(),
        TrieError::InvalidCharacter('B')
    );
}

#[test]
fn failed_insert_leaves_trie_unchanged() {
    let mut t = Trie::new();
    t.insert("ab", Some(5)).unwrap();
    let nodes_before = t.nodes.len();
    assert!(t.insert("aX", Some(9)).is_err());
    assert_eq!(t.nodes.len(), nodes_before);
    assert_eq!(t.search("ab"), Ok(Some(5)));
}

#[test]
fn longest_prefix_search_finds_word_boundary_match() {
    let mut t = Trie::new();
    t.insert("new york", Some(10)).unwrap();
    t.insert("new", Some(2)).unwrap();
    // the walk dies after "new york"; the last word-boundary match wins
    assert_eq!(
        t.longest_common_prefix_search("new york city", true),
        Ok(Some((10, 7)))
    );
    // a full-length walk returns the end-of-probe value
    assert_eq!(
        t.longest_common_prefix_search("new york", false),
        Ok(Some((10, 7)))
    );
    // no match at all
    assert_eq!(t.longest_common_prefix_search("zzz", true), Ok(None));
}

#[test]
fn longest_prefix_search_return_prefix_flag() {
    let mut t = Trie::new();
    t.insert("a b c", Some(7)).unwrap();
    // a bare prefix of a key, no space consumed: returned either way
    assert_eq!(t.longest_common_prefix_search("a", true), Ok(Some((1, 0))));
    assert_eq!(t.longest_common_prefix_search("a", false), Ok(Some((1, 0))));
    // one space consumed, no stored value: the single-word fallback
    assert_eq!(
        t.longest_common_prefix_search("a b", false),
        Ok(Some((1, 2)))
    );
    // two spaces consumed, no stored value and nothing recorded: only
    // return_prefix accepts the probe
    assert_eq!(
        t.longest_common_prefix_search("a b ", true),
        Ok(Some((1, 3)))
    );
    assert_eq!(t.longest_common_prefix_search("a b ", false), Ok(None));
}

#[test]
fn longest_prefix_search_is_idempotent() {
    let mut t = Trie::new();
    t.insert("new york", Some(10)).unwrap();
    let first = t.longest_common_prefix_search("new york city", true);
    let second = t.longest_common_prefix_search("new york city", true);
    assert_eq!(first, second);
    let third = t.longest_common_prefix_search("unrelated words", false);
    let fourth = t.longest_common_prefix_search("unrelated words", false);
    assert_eq!(third, fourth);
}

#[test]
fn common_prefix_search_lists_all_boundary_matches() {
    let mut t = Trie::new();
    t.insert("new", Some(2)).unwrap();
    t.insert("new york", Some(10)).unwrap();
    t.insert("ne", Some(1)).unwrap();
    // "ne" does not end at a word boundary of the probe, so it is skipped
    assert_eq!(
        t.common_prefix_search("new york city"),
        Ok(vec![(2, 2), (10, 7)])
    );
    assert_eq!(t.common_prefix_search("new"), Ok(vec![(2, 2)]));
    assert_eq!(t.common_prefix_search("zzz"), Ok(vec![]));
}

#[test]
fn empty_key_round_trip() {
    let mut t = Trie::new();
    assert_eq!(t.search(""), Ok(None));
    t.insert("", Some(5)).unwrap();
    assert_eq!(t.search(""), Ok(Some(5)));
}
