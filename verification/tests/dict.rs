use tuidict::cache::CacheManager;
use tuidict::dict::Dictionary;

fn sample() -> Dictionary {
    // Blob layout: "hello! " at 0 (7 bytes), "to help " at 7 (8 bytes),
    // "a hero" at 15 (6 bytes).
    let blob = b"hello! to help a hero".to_vec();
    // Offsets and lengths in the compact base-64 form: A=0, H=7, I=8, P=15, G=6.
    let text = b"hello\tA\tH\nhelp\tH\tI\nhero\tP\tG\n";
    let trie = CacheManager::build_trie_from_index(text).unwrap();
    Dictionary::new(trie, blob)
}

#[test]
fn test_lookup_ranked_pairs() {
    let dict = sample();
    let results = dict.lookup("hel");
    assert_eq!(results.len(), 2);
    assert_eq!(results[0].headword, "help");
    assert_eq!(results[0].definition, "to help");
    assert_eq!(results[1].headword, "hello");
    assert_eq!(results[1].definition, "hello!");
}

#[test]
fn test_lookup_empty_query() {
    let dict = sample();
    assert!(dict.lookup("").is_empty());
}

#[test]
fn test_lookup_trims_definitions() {
    let dict = sample();
    let results = dict.lookup("hero");
    assert_eq!(results.len(), 1);
    assert_eq!(results[0].definition, "a hero");
}

#[test]
fn test_lookup_drops_out_of_range_entry() {
    // "ghost" points past the end of the blob; the other entries still answer.
    let blob = b"hello! to help ".to_vec();
    let text = b"hello\tA\tH\nhelp\tH\tI\nghost\tBA\tK\n";
    let trie = CacheManager::build_trie_from_index(text).unwrap();
    let dict = Dictionary::new(trie, blob);

    assert!(dict.lookup("ghost").is_empty());
    let results = dict.lookup("he");
    assert_eq!(results.len(), 2);
    assert_eq!(results[0].headword, "help");
    assert_eq!(results[1].headword, "hello");
}

#[test]
fn test_counts() {
    let dict = sample();
    assert_eq!(dict.entry_count(), 3);
    assert_eq!(dict.data_size(), 21);
}

#[test]
fn test_lookup_case_insensitive_query() {
    let dict = sample();
    let results = dict.lookup("HEL");
    assert_eq!(results.len(), 2);
    assert_eq!(results[0].headword, "help");
}

#[test]
fn test_lookup_folded_query_same_results() {
    let dict = sample();
    let mixed = dict.lookup("HEl");
    let folded = dict.lookup("hel");
    assert_eq!(mixed.len(), folded.len());
    for (a, b) in mixed.iter().zip(folded.iter()) {
        assert_eq!(a.headword, b.headword);
        assert_eq!(a.definition, b.definition);
    }
}
