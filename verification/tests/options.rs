use alyze::analyze::options::{build_options, stemming_language, stopword_language, OptionsError};
use alyze::analyze::{LanguageWithStopwords, StemmingLanguage, StopwordRemoval};

#[test]
fn language_names_map_to_algorithms() {
    assert_eq!(stemming_language("english"), Some(StemmingLanguage::English));
    assert_eq!(stemming_language("turkish"), Some(StemmingLanguage::Turkish));
    assert_eq!(stemming_language("klingon"), None);
    assert_eq!(stemming_language("English"), None);
    assert!(matches!(stopword_language("danish"), Some(LanguageWithStopwords::Danish)));
    // Tamil, Arabic, Greek, Romanian and Turkish stem but have no stopwords.
    for l in ["tamil", "arabic", "greek", "romanian", "turkish"] {
        assert!(stemming_language(l).is_some());
        assert!(stopword_language(l).is_none());
    }
}

#[test]
fn build_options_checks_in_order() {
    let e = build_options(true, false, true, true, Some("english"), None).unwrap_err();
    assert!(matches!(e, OptionsError::StemmingCaseSensitive));
    assert_eq!(
        e.message(),
        "stemming is not supported when case sensitivity is enabled"
    );
    let e = build_options(true, false, false, true, Some("english"), None).unwrap_err();
    assert!(matches!(e, OptionsError::StopwordsCaseSensitive));
    let e = build_options(false, false, true, false, None, None).unwrap_err();
    assert!(matches!(e, OptionsError::LanguageRequired));
    let e = build_options(false, false, true, false, Some("klingon"), None).unwrap_err();
    assert_eq!(e.message(), "stemming is not supported for language: klingon");
    let e = build_options(false, false, false, true, Some("tamil"), None).unwrap_err();
    assert_eq!(
        e.message(),
        "stopword removal is not supported for language: tamil"
    );
    for bad in [0usize, 256] {
        let e = build_options(false, false, false, false, None, Some(bad)).unwrap_err();
        assert!(matches!(e, OptionsError::MaxTokenLength));
        assert_eq!(e.message(), "max_token_length must be between 1 and 255");
    }
}

#[test]
fn build_options_accepts_valid_flags() {
    let o = build_options(false, true, true, true, Some("english"), Some(39)).unwrap();
    assert!(o.valid());
    assert_eq!(o.stemming, Some(StemmingLanguage::English));
    assert!(matches!(
        o.stopword_removal,
        Some(StopwordRemoval::ForLanguage(LanguageWithStopwords::English))
    ));
    assert_eq!(o.maximum_token_length, Some(39));
    assert!(o.ascii_folding);
    assert!(!o.case_sensitive);
    let o = build_options(true, false, false, false, None, None).unwrap();
    assert!(o.valid());
    assert_eq!(o.stemming, None);
    assert!(o.stopword_removal.is_none());
    assert_eq!(o.maximum_token_length, None);
}
