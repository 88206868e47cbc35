use alyze::analyze::{
    AnalysisOptions, Analyzer, ReusableBuffer, StemmingLanguage, StopwordRemoval,
    LanguageWithStopwords, Token, TokenizerOptions,
};

fn collect_inputs(opts: AnalysisOptions, inputs: &[&str]) -> Vec<Token> {
    Analyzer::new(opts).analyze_inputs(inputs, &mut ReusableBuffer::new())
}

fn collect(opts: AnalysisOptions, input: &str) -> Vec<Token> {
    Analyzer::new(opts).analyze(input, &mut ReusableBuffer::new())
}

fn opts() -> AnalysisOptions {
    AnalysisOptions {
        tokenizer: TokenizerOptions::UAX29Word(Default::default()),
        maximum_token_length: None,
        case_sensitive: false,
        stopword_removal: None,
        stemming: None,
        ascii_folding: false,
    }
}

#[test]
fn byte_range_recovers_raw_substring_when_normalized() {
    let input = "Hello WORLD";
    let tokens = collect(opts(), input);
    assert_eq!(tokens[0].text, "hello");
    assert_eq!(&input[tokens[0].byte_range.clone()], "Hello");
    assert_eq!(&input[tokens[1].byte_range.clone()], "WORLD");
}

#[test]
fn byte_range_recovers_raw_when_lowercasing_changes_char() {
    let input = "ΣΟΦΟΣ";
    let tokens = collect(opts(), input);
    assert_eq!(tokens[0].text, "σοφοσ");
    assert_eq!(&input[tokens[0].byte_range.clone()], "ΣΟΦΟΣ");
}

#[test]
fn byte_range_recovers_raw_when_stemming_shrinks_bytes() {
    let mut o = opts();
    o.stemming = Some(StemmingLanguage::English);
    let input = "running";
    let tokens = collect(o, input);
    assert_eq!(tokens[0].text, "run");
    assert_eq!(&input[tokens[0].byte_range.clone()], "running");
}

#[test]
fn input_index_and_byte_range_across_multiple_inputs() {
    let inputs = ["Hello world", "Foo"];
    let tokens = collect_inputs(opts(), &inputs);
    assert_eq!(tokens[0].input_index, 0);
    assert_eq!(
        &inputs[tokens[0].input_index][tokens[0].byte_range.clone()],
        "Hello"
    );
    assert_eq!(tokens[1].input_index, 0);
    assert_eq!(
        &inputs[tokens[1].input_index][tokens[1].byte_range.clone()],
        "world"
    );
    assert_eq!(tokens[2].input_index, 1);
    assert_eq!(
        &inputs[tokens[2].input_index][tokens[2].byte_range.clone()],
        "Foo"
    );
    assert_eq!(
        [tokens[0].position, tokens[1].position, tokens[2].position],
        [0, 1, 2]
    );
}

#[test]
fn byte_range_correct_after_filtering_with_given_stopwords() {
    let mut o = opts();
    o.stopword_removal = Some(StopwordRemoval::ForLanguage(LanguageWithStopwords::English));
    let input = "the Quick fox";
    let tokens = Analyzer::with_stopwords(o, vec!["the".to_string()])
        .analyze(input, &mut ReusableBuffer::new());
    // "the" is dropped but still takes position 0.
    assert_eq!(tokens[0].position, 1);
    assert_eq!(&input[tokens[0].byte_range.clone()], "Quick");
    assert_eq!(&input[tokens[1].byte_range.clone()], "fox");
}

#[test]
fn length_limit_drops_long_tokens_but_keeps_positions() {
    let mut o = opts();
    o.maximum_token_length = Some(3);
    let input = "a quick fox";
    let tokens = collect(o, input);
    assert_eq!(tokens.len(), 2);
    assert_eq!(tokens[0].text, "a");
    assert_eq!(tokens[0].position, 0);
    assert_eq!(tokens[1].text, "fox");
    assert_eq!(tokens[1].position, 2);
}

#[test]
fn case_sensitive_keeps_text() {
    let mut o = opts();
    o.case_sensitive = true;
    let tokens = collect(o, "Hello, World!");
    let texts: Vec<&str> = tokens.iter().map(|t| t.text.as_str()).collect();
    assert_eq!(texts, vec!["Hello", "World"]);
    assert_eq!(tokens[1].byte_range, 7..12);
}

#[test]
fn multi_char_lowercase_and_empty_input() {
    let tokens = collect(opts(), "İstanbul");
    assert_eq!(tokens[0].text, "i\u{307}stanbul");
    assert!(collect(opts(), "").is_empty());
    assert!(collect(opts(), " ,. ").is_empty());
}

#[test]
fn options_validity() {
    let mut o = opts();
    assert!(o.valid());
    o.case_sensitive = true;
    assert!(o.valid());
    o.stemming = Some(StemmingLanguage::English);
    assert!(!o.valid());
    o.stemming = None;
    o.stopword_removal = Some(StopwordRemoval::ForLanguage(LanguageWithStopwords::Danish));
    assert!(!o.valid());
}

const ALL_STEMMING_LANGUAGES: [StemmingLanguage; 35] = [
    StemmingLanguage::Arabic,
    StemmingLanguage::Armenian,
    StemmingLanguage::Basque,
    StemmingLanguage::Catalan,
    StemmingLanguage::Czech,
    StemmingLanguage::Danish,
    StemmingLanguage::Dutch,
    StemmingLanguage::DutchPorter,
    StemmingLanguage::English,
    StemmingLanguage::Esperanto,
    StemmingLanguage::Estonian,
    StemmingLanguage::Finnish,
    StemmingLanguage::French,
    StemmingLanguage::German,
    StemmingLanguage::Greek,
    StemmingLanguage::Hindi,
    StemmingLanguage::Hungarian,
    StemmingLanguage::Indonesian,
    StemmingLanguage::Irish,
    StemmingLanguage::Italian,
    StemmingLanguage::Lithuanian,
    StemmingLanguage::Nepali,
    StemmingLanguage::Norwegian,
    StemmingLanguage::Persian,
    StemmingLanguage::Polish,
    StemmingLanguage::Portuguese,
    StemmingLanguage::Romanian,
    StemmingLanguage::Russian,
    StemmingLanguage::Serbian,
    StemmingLanguage::Sesotho,
    StemmingLanguage::Spanish,
    StemmingLanguage::Swedish,
    StemmingLanguage::Tamil,
    StemmingLanguage::Turkish,
    StemmingLanguage::Yiddish,
];

fn stem_one(language: StemmingLanguage, input: &str) -> String {
    let mut o = opts();
    o.stemming = Some(language);
    let tokens = collect(o, input);
    assert_eq!(tokens.len(), 1, "{language:?} did not produce one token");
    tokens.into_iter().next().unwrap().text
}

#[test]
fn each_language_applies_its_own_snowball_algorithm() {
    let expected: [(StemmingLanguage, &str, &str); 35] = [
        (StemmingLanguage::Arabic, "الكتاب", "كتاب"),
        (StemmingLanguage::Armenian, "աբբայության", "աբբայ"),
        (StemmingLanguage::Basque, "etxeetan", "etxe"),
        (StemmingLanguage::Catalan, "professora", "profes"),
        (StemmingLanguage::Czech, "krásného", "krásn"),
        (StemmingLanguage::Danish, "bueskytten", "bueskyt"),
        (StemmingLanguage::Dutch, "aalmoezen", "aalmoes"),
        (StemmingLanguage::DutchPorter, "aalmoezen", "aalmoez"),
        (StemmingLanguage::English, "fruitlessly", "fruitless"),
        (StemmingLanguage::Esperanto, "libroj", "libr"),
        (StemmingLanguage::Estonian, "raamatutest", "raama"),
        (StemmingLanguage::Finnish, "voimakkaasti", "voimak"),
        (StemmingLanguage::French, "continuellement", "continuel"),
        (StemmingLanguage::German, "abgeleitete", "abgeleit"),
        (StemmingLanguage::Greek, "έκπληκτα", "εκπληκτ"),
        (StemmingLanguage::Hindi, "लड़कियों", "लड़क"),
        (StemmingLanguage::Hungarian, "alkotmányt", "alkotmány"),
        (StemmingLanguage::Indonesian, "membaca", "baca"),
        (StemmingLanguage::Irish, "abairteach", "abairt"),
        (StemmingLanguage::Italian, "abbandonata", "abbandon"),
        (StemmingLanguage::Lithuanian, "knygomis", "knyg"),
        (StemmingLanguage::Nepali, "दिछिन्", "दि"),
        (StemmingLanguage::Norwegian, "havnebyen", "havneby"),
        (StemmingLanguage::Persian, "کتابها", "کتاب"),
        (StemmingLanguage::Polish, "cieszyć", "cieszyc"),
        (StemmingLanguage::Portuguese, "apontando", "apont"),
        (StemmingLanguage::Romanian, "abandonați", "abandon"),
        (StemmingLanguage::Russian, "красивый", "красив"),
        (StemmingLanguage::Serbian, "beležnika", "beležnik"),
        (StemmingLanguage::Sesotho, "dibuka", "dibuk"),
        (StemmingLanguage::Spanish, "abandonada", "abandon"),
        (StemmingLanguage::Swedish, "aftonbladet", "aftonblad"),
        (StemmingLanguage::Tamil, "அகப்பேய்ச்", "அகப்பேய்"),
        (StemmingLanguage::Turkish, "almasının", "alma"),
        (StemmingLanguage::Yiddish, "ביכער", "ביכ"),
    ];
    let mut seen = std::collections::HashSet::new();
    for (i, language) in ALL_STEMMING_LANGUAGES.into_iter().enumerate() {
        assert!(seen.insert(language), "{language:?} listed twice");
        let (covered, input, want) = expected[i];
        assert_eq!(covered, language, "expected[] is out of order");
        assert_eq!(stem_one(language, input), want, "{language:?}");
    }
}

#[test]
fn dutch_and_dutch_porter_differ() {
    assert_ne!(
        stem_one(StemmingLanguage::Dutch, "aalmoezen"),
        stem_one(StemmingLanguage::DutchPorter, "aalmoezen"),
    );
}

#[test]
fn analyze_is_analyze_inputs_of_one_input() {
    let input = "Quick brown, quick fox.";
    let one = collect(opts(), input);
    let list = collect_inputs(opts(), &[input]);
    assert_eq!(one.len(), 4);
    assert_eq!(one.len(), list.len());
    for (a, b) in one.iter().zip(list.iter()) {
        assert_eq!(a.input_index, 0);
        assert_eq!(a.text, b.text);
        assert_eq!(a.position, b.position);
        assert_eq!(a.byte_range, b.byte_range);
        assert_eq!(a.input_index, b.input_index);
    }
}
