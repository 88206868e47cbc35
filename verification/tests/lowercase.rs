use alyze::analyze::stemming_cache::{CachedToken, ShortToken, StemmingCacheEntry};
use alyze::analyze::u17_to_lower::unicode_v17_char_to_lower;
use alyze::analyze::{stem, StemmingLanguage};

fn lower(c: char) -> String {
    unicode_v17_char_to_lower(c).as_slice().iter().collect()
}

#[test]
fn lowercases_by_the_unicode_tables() {
    assert_eq!(lower('A'), "a");
    assert_eq!(lower('z'), "z");
    assert_eq!(lower('\0'), "\0");
    assert_eq!(lower('À'), "à");
    assert_eq!(lower('Σ'), "σ");
    assert_eq!(lower('Ā'), "ā");
    // Every other code point of a step-by-2 run: ā is already lower.
    assert_eq!(lower('ā'), "ā");
    assert_eq!(lower('Ÿ'), "ÿ");
    assert_eq!(lower('İ'), "i\u{307}");
    assert_eq!(unicode_v17_char_to_lower('İ').len(), 2);
    // Cherokee capitals map below 0x13A0 by a negative offset that wraps.
    assert_eq!(lower('\u{13A0}'), "\u{AB70}");
    assert_eq!(lower('Ａ'), "ａ");
    // Plane 1: Deseret.
    assert_eq!(lower('\u{10400}'), "\u{10428}");
    // Unchanged.
    assert_eq!(lower('ß'), "ß");
    assert_eq!(lower('中'), "中");
    assert_eq!(lower('\u{1F600}'), "\u{1F600}");
}

#[test]
fn short_tokens_hold_one_to_n_bytes() {
    assert!(CachedToken::new_from_str("").is_none());
    assert!(CachedToken::new_from_str("12345678901").is_none());
    let t = CachedToken::new_from_str("naïve").unwrap();
    assert_eq!(t.as_str(), "naïve");
    let t = ShortToken::<3>::new_from_str("ab").unwrap();
    assert_eq!(t.as_str(), "ab");
    assert!(matches!(StemmingCacheEntry::new_unchanged(), StemmingCacheEntry::Unchanged));
    let e = StemmingCacheEntry::new_stemmed(CachedToken::new_from_str("run").unwrap());
    match e {
        StemmingCacheEntry::Stemmed(t) => assert_eq!(t.as_str(), "run"),
        StemmingCacheEntry::Unchanged => panic!("expected a stem"),
    }
}

#[test]
fn stem_calls_the_language_algorithm() {
    assert_eq!(stem(StemmingLanguage::English, "running"), "run");
    assert_eq!(stem(StemmingLanguage::Dutch, "aalmoezen"), "aalmoes");
    assert_eq!(stem(StemmingLanguage::DutchPorter, "aalmoezen"), "aalmoez");
    assert_eq!(StemmingLanguage::DutchPorter.algorithm(), "dutch_porter");
}
