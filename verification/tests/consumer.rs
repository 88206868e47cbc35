use alyze::analyze::{AnalysisOptions, Analyzer, ReusableBuffer, Token, TokenizerOptions};
use alyze::consumer::FirstItems;
use alyze::uax29::word::{tokenize, tokenize_with, Options, TokenProperties};

#[test]
fn word_breakpoints_stop_when_the_consumer_says_so() {
    let text = "one two three";
    let full = tokenize(text, Options::default());
    for k in 1..=full.len() {
        let mut first: FirstItems<(usize, TokenProperties)> = FirstItems::new(k);
        tokenize_with(text, Options::default(), &mut first);
        assert_eq!(first.into_items(), full[..k].to_vec());
    }
    let mut all: FirstItems<(usize, TokenProperties)> = FirstItems::new(usize::MAX);
    tokenize_with(text, Options::default(), &mut all);
    assert_eq!(all.into_items(), full);
}

fn opts() -> AnalysisOptions {
    AnalysisOptions {
        tokenizer: TokenizerOptions::UAX29Word(Default::default()),
        maximum_token_length: None,
        case_sensitive: false,
        stopword_removal: None,
        stemming: None,
        ascii_folding: false,
    }
}

#[test]
fn analysis_stops_when_the_consumer_says_so() {
    let analyzer = Analyzer::new(opts());
    let inputs = ["Alpha beta", "gamma delta"];
    let mut one: FirstItems<Token> = FirstItems::new(1);
    analyzer.analyze_inputs_with(&inputs, &mut ReusableBuffer::new(), &mut one);
    assert_eq!(one.into_items().len(), 1);
    let mut first: FirstItems<Token> = FirstItems::new(3);
    analyzer.analyze_inputs_with(&inputs, &mut ReusableBuffer::new(), &mut first);
    let texts: Vec<(String, usize)> =
        first.into_items().into_iter().map(|t| (t.text, t.position)).collect();
    assert_eq!(
        texts,
        vec![("alpha".to_string(), 0), ("beta".to_string(), 1), ("gamma".to_string(), 2)]
    );
}
