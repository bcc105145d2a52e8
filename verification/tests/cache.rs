use tuidict::cache::{CacheManager, DictError};
use tuidict::codec::NumberError;
use std::io::Write;

fn gzip(data: &[u8]) -> Vec<u8> {
    let mut enc = flate2::write::GzEncoder::new(Vec::new(), flate2::Compression::default());
    enc.write_all(data).unwrap();
    enc.finish().unwrap()
}

#[test]
fn test_cache_path_appends_suffix() {
    assert_eq!(CacheManager::cache_path("deu-eng.index"), "deu-eng.index.cache");
    assert_eq!(CacheManager::cache_path("deu-eng.dict.dz"), "deu-eng.dict.dz.cache");
}

#[test]
fn test_is_cache_valid_requires_both_times() {
    assert!(!CacheManager::is_cache_valid(None, None));
    assert!(!CacheManager::is_cache_valid(Some(10), None));
    assert!(!CacheManager::is_cache_valid(None, Some(10)));
}

#[test]
fn test_is_cache_valid_compares_times() {
    assert!(CacheManager::is_cache_valid(Some(10), Some(10)));
    assert!(CacheManager::is_cache_valid(Some(11), Some(10)));
    // Touching the source after the cache write leaves the cache stale.
    assert!(!CacheManager::is_cache_valid(Some(10), Some(11)));
}

#[test]
fn test_decode_dict_number() {
    assert_eq!(CacheManager::decode_dict_number("K"), Ok(10));
    assert_eq!(CacheManager::decode_dict_number("x"), Ok(49));
    assert_eq!(CacheManager::decode_dict_number("?"), Err(NumberError::InvalidDigit));
}

#[test]
fn test_build_trie_from_index() {
    let text = b"hello\tA\tK\nhelp\tK\tI\nhero\tS\tM\n";
    let trie = CacheManager::build_trie_from_index(text).unwrap();
    assert_eq!(trie.len(), 3);
    let results = trie.search_prefix("hel", 10);
    assert_eq!(results.len(), 2);
    assert_eq!(results[0].0, "help");
    assert_eq!(results[0].1, 10);
    assert_eq!(results[0].2, 8);
    assert_eq!(results[1].0, "hello");
}

#[test]
fn test_build_trie_skips_short_lines() {
    let text = b"comment line\n\nhello\tA\tK\nonly\tone\n";
    let trie = CacheManager::build_trie_from_index(text).unwrap();
    assert_eq!(trie.len(), 1);
}

#[test]
fn test_build_trie_trims_line_ends() {
    let text = b"hello\tA\tK\r\n";
    let trie = CacheManager::build_trie_from_index(text).unwrap();
    let results = trie.search_prefix("hello", 10);
    assert_eq!(results.len(), 1);
    assert_eq!(results[0].1, 0);
    assert_eq!(results[0].2, 10);
}

#[test]
fn test_build_trie_rejects_bad_number() {
    let text = b"word\t!\tA\n";
    assert_eq!(
        CacheManager::build_trie_from_index(text).err(),
        Some(DictError::InvalidNumberEncoding)
    );
    let text = b"word\tA\t///////////\n";
    assert_eq!(CacheManager::build_trie_from_index(text).err(), Some(DictError::NumberOverflow));
}

#[test]
fn test_trie_cache_round_trip() {
    let text = b"hello\tA\tK\nhelp\tK\tI\nhero\tS\tM\nHeRo\ts\tm\n";
    let fresh = CacheManager::build_trie_from_index(text).unwrap();
    let record = CacheManager::save_trie_to_cache(&fresh);
    let restored = CacheManager::load_trie_from_cache(&record).unwrap();

    for query in ["h", "he", "hel", "hero", "help", "x", "hello"] {
        let a = CacheManager::build_trie_from_index(text).unwrap().search_prefix(query, 10);
        let b = restored.search_prefix(query, 10);
        assert_eq!(a, b);
    }
}

#[test]
fn test_load_trie_from_garbage_is_none() {
    assert!(CacheManager::load_trie_from_cache(&[1, 2, 3]).is_none());
}

#[test]
fn test_load_or_build_trie_miss_then_hit() {
    let text = b"hello\tA\tK\n";
    // Cache miss: the trie is built from source and a record comes back.
    let (built, record) = CacheManager::load_or_build_trie(None, text).unwrap();
    let record = record.expect("a fresh build hands back a record to persist");
    assert_eq!(built.len(), 1);
    // Cache hit: the record restores the same contents, nothing to write.
    let (restored, back) = CacheManager::load_or_build_trie(Some(&record), text).unwrap();
    assert!(back.is_none());
    assert_eq!(restored.search_prefix("hel", 10), built.search_prefix("hel", 10));
}

#[test]
fn test_load_or_build_trie_bad_cache_falls_back() {
    let text = b"hello\tA\tK\n";
    let junk = vec![9, 9, 9];
    let (built, record) = CacheManager::load_or_build_trie(Some(&junk), text).unwrap();
    assert_eq!(built.len(), 1);
    assert!(record.is_some());
}

#[test]
fn test_load_or_decompress_uses_valid_cache() {
    let cached = b"cached text".to_vec();
    let source = gzip(b"source text");
    let (content, persist) =
        CacheManager::load_or_decompress_dict(Some(cached.clone()), &source).unwrap();
    assert_eq!(content, cached);
    assert!(!persist);
}

#[test]
fn test_load_or_decompress_rebuilds_without_cache() {
    let source = gzip(b"source text");
    let (content, persist) = CacheManager::load_or_decompress_dict(None, &source).unwrap();
    assert_eq!(content, b"source text".to_vec());
    assert!(persist);
}

#[test]
fn test_load_or_decompress_bad_gzip() {
    let r = CacheManager::load_or_decompress_dict(None, b"not gzip at all");
    assert_eq!(r.err(), Some(DictError::DecompressionError));
}

#[test]
fn test_load_or_decompress_bad_utf8() {
    let source = gzip(&[0xff, 0xfe, 0xfd]);
    let r = CacheManager::load_or_decompress_dict(None, &source);
    assert_eq!(r.err(), Some(DictError::EncodingError));
}
