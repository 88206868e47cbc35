use alyze::analyze::stemming_cache::{CachedToken, StemmingCache, StemmingCacheEntry};
use alyze::analyze::{AnalysisOptions, Analyzer, ReusableBuffer, StemmingLanguage, TokenizerOptions};

fn stemming(language: StemmingLanguage) -> AnalysisOptions {
    AnalysisOptions {
        tokenizer: TokenizerOptions::UAX29Word(Default::default()),
        maximum_token_length: None,
        case_sensitive: false,
        stopword_removal: None,
        stemming: Some(language),
        ascii_folding: false,
    }
}

#[test]
fn cached_stems_match_fresh_ones() {
    let analyzer = Analyzer::new(stemming(StemmingLanguage::English));
    let mut buffer = ReusableBuffer::new();
    let first: Vec<String> = analyzer
        .analyze("running runs running fruitlessly", &mut buffer)
        .into_iter()
        .map(|t| t.text)
        .collect();
    let second: Vec<String> = analyzer
        .analyze("running runs running fruitlessly", &mut buffer)
        .into_iter()
        .map(|t| t.text)
        .collect();
    assert_eq!(first, vec!["run", "run", "run", "fruitless"]);
    assert_eq!(first, second);
    let key = CachedToken::new_from_str("running").unwrap();
    match buffer.stemming_cache().lookup(&key) {
        Some(StemmingCacheEntry::Stemmed(t)) => assert_eq!(t.as_str(), "run"),
        other => panic!("unexpected cache entry {other:?}"),
    }
}

#[test]
fn a_buffer_reused_for_another_language_does_not_mix_stems() {
    let mut buffer = ReusableBuffer::new();
    let english = Analyzer::new(stemming(StemmingLanguage::English));
    let dutch = Analyzer::new(stemming(StemmingLanguage::Dutch));
    let a: Vec<String> = english.analyze("aalmoezen", &mut buffer).into_iter().map(|t| t.text).collect();
    let b: Vec<String> = dutch.analyze("aalmoezen", &mut buffer).into_iter().map(|t| t.text).collect();
    assert_eq!(b, vec!["aalmoes"]);
    assert_ne!(a, b);
}

#[test]
fn empty_cache_has_nothing() {
    let mut cache = StemmingCache::new_with_capacity(4);
    let key = CachedToken::new_from_str("abc").unwrap();
    assert!(cache.lookup(&key).is_none());
    cache.use_language(StemmingLanguage::English);
    assert!(cache.lookup(&key).is_none());
    assert!(cache.has_remaining_capacity());
}

#[test]
fn cache_has_room_up_to_its_capacity() {
    let mut cache = StemmingCache::new_with_capacity(3);
    cache.use_language(StemmingLanguage::English);
    for word in ["cat", "dog", "owl"] {
        assert!(cache.has_remaining_capacity());
        let key = CachedToken::new_from_str(word).unwrap();
        cache.insert_no_clobber_assume_capacity(key, StemmingCacheEntry::new_unchanged());
    }
    assert!(cache.lookup(&CachedToken::new_from_str("owl").unwrap()).is_some());
}

#[test]
fn only_short_tokens_get_an_entry() {
    let analyzer = Analyzer::new(stemming(StemmingLanguage::English));
    let mut buffer = ReusableBuffer::new();
    analyzer.analyze("cat fruitlessly", &mut buffer);
    let cache = buffer.stemming_cache();
    assert!(matches!(
        cache.lookup(&CachedToken::new_from_str("cat").unwrap()),
        Some(StemmingCacheEntry::Unchanged)
    ));
    // "fruitlessly" is 11 bytes: too long for a key.
    assert!(CachedToken::new_from_str("fruitlessly").is_none());
    assert!(cache.lookup(&CachedToken::new_from_str("fruitless").unwrap()).is_none());
}
