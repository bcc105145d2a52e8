use tuidict::trie::PrefixTrie;

#[test]
fn test_basic_insert_and_search() {
    let mut trie = PrefixTrie::new();
    trie.insert("hello", 0, 10);
    trie.insert("help", 10, 8);
    trie.insert("hero", 18, 12);

    let results = trie.search_prefix("hel", 10);
    assert_eq!(results.len(), 2);
    assert_eq!(results[0].0, "help");
    assert_eq!(results[1].0, "hello");
}

#[test]
fn test_case_insensitive() {
    let mut trie = PrefixTrie::new();
    trie.insert("Hello", 0, 10);

    let results = trie.search_prefix("hel", 10);
    assert_eq!(results.len(), 1);
    assert_eq!(results[0].0, "hello");
}

#[test]
fn test_exact_match_priority() {
    let mut trie = PrefixTrie::new();
    trie.insert("test", 0, 10);
    trie.insert("testing", 10, 15);
    trie.insert("testament", 25, 20);

    let results = trie.search_prefix("test", 10);
    assert_eq!(results[0].0, "test");
}

#[test]
fn test_limit() {
    let mut trie = PrefixTrie::new();
    trie.insert("apple", 0, 10);
    trie.insert("application", 10, 15);
    trie.insert("apply", 25, 8);

    let results = trie.search_prefix("app", 2);
    assert_eq!(results.len(), 2);
}

#[test]
fn test_empty_query_returns_nothing() {
    let mut trie = PrefixTrie::new();
    trie.insert("word", 0, 4);
    assert!(trie.search_prefix("", 10).is_empty());
}

#[test]
fn test_ranking_exact_then_length_then_lex() {
    let mut trie = PrefixTrie::new();
    trie.insert("abd", 0, 1);
    trie.insert("abc", 1, 1);
    trie.insert("ab", 2, 1);
    trie.insert("abcd", 3, 1);

    let results = trie.search_prefix("ab", 10);
    let words: Vec<&str> = results.iter().map(|r| r.0.as_str()).collect();
    assert_eq!(words, vec!["ab", "abc", "abd", "abcd"]);
}

#[test]
fn test_results_carry_ranges() {
    let mut trie = PrefixTrie::new();
    trie.insert("alpha", 7, 11);
    let results = trie.search_prefix("alp", 10);
    assert_eq!(results.len(), 1);
    assert_eq!(results[0].1, 7);
    assert_eq!(results[0].2, 11);
}

#[test]
fn test_same_folded_key_overwrites() {
    let mut trie = PrefixTrie::new();
    trie.insert("Word", 0, 1);
    trie.insert("WORD", 5, 9);
    assert_eq!(trie.len(), 1);
    let results = trie.search_prefix("word", 10);
    assert_eq!(results.len(), 1);
    assert_eq!(results[0].1, 5);
    assert_eq!(results[0].2, 9);
}

#[test]
fn test_len_and_is_empty() {
    let mut trie = PrefixTrie::new();
    assert!(trie.is_empty());
    assert_eq!(trie.len(), 0);
    trie.insert("a", 0, 1);
    trie.insert("b", 1, 1);
    assert!(!trie.is_empty());
    assert_eq!(trie.len(), 2);
}

#[test]
fn test_folded_query_same_results() {
    let mut trie = PrefixTrie::new();
    trie.insert("Hello", 0, 10);
    trie.insert("HELP", 10, 8);
    trie.insert("hero", 18, 12);

    // A query already in lowercase returns exactly what its
    // original-case form returns.
    assert_eq!(trie.search_prefix("HEl", 10), trie.search_prefix("hel", 10));
    assert_eq!(trie.search_prefix("HERO", 10), trie.search_prefix("hero", 10));
}

#[test]
fn test_no_match_prefix() {
    let mut trie = PrefixTrie::new();
    trie.insert("hello", 0, 10);
    assert!(trie.search_prefix("xyz", 10).is_empty());
}
