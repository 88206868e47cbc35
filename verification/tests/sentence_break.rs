use alyze::uax29::sentence::properties::{
    ascii_sentence_break_property, lookup_sentence_break_property, SentenceBreakProperty,
};
use alyze::uax29::sentence::{tokenize, Options};

fn assert_breaks(s: &str, expected: Vec<usize>) {
    let mut breakpoints = Vec::new();
    tokenize(s, &mut breakpoints, Options::default());
    assert_eq!(breakpoints, expected, "input: {:?}", s);
}

#[test]
fn mod_tokenizer_sanity() {
    assert_breaks("", vec![]);
    assert_breaks("a", vec![0, 1]);
    assert_breaks(".", vec![0, 1]);
    assert_breaks("Hello world", vec![0, 11]);
    assert_breaks("\r\n", vec![0, 2]);
    assert_breaks("a\nb", vec![0, 2, 3]);
    assert_breaks("a\r\nb", vec![0, 3, 4]);
    assert_breaks("a\rb", vec![0, 2, 3]);
    assert_breaks("a\u{0308}b", vec![0, 4]);
    assert_breaks("3.4", vec![0, 3]);
    assert_breaks("U.S.A.", vec![0, 6]);
    assert_breaks("U.S.", vec![0, 4]);
    assert_breaks("c.D", vec![0, 3]);
    assert_breaks("c.d", vec![0, 3]);
    assert_breaks("etc. the", vec![0, 8]);
    assert_breaks("the resp. leaders are", vec![0, 21]);
    assert_breaks("etc.)'\u{a0}the", vec![0, 11]);
    assert_breaks(".,", vec![0, 2]);
    assert_breaks("..", vec![0, 2]);
    assert_breaks("!,", vec![0, 2]);
    assert_breaks("!.", vec![0, 2]);
    assert_breaks("Hello. World", vec![0, 7, 12]);
    assert_breaks("Hello!) World", vec![0, 8, 13]);
    assert_breaks("Hello.  World", vec![0, 8, 13]);
    assert_breaks("Hello.\nWorld", vec![0, 7, 12]);
    assert_breaks("Hello! world", vec![0, 7, 12]);
    assert_breaks("Hello. World", vec![0, 7, 12]);
    assert_breaks("c.d", vec![0, 3]);
    assert_breaks("3.4", vec![0, 3]);
    assert_breaks("U.S.", vec![0, 4]);
    assert_breaks("the resp. leaders are", vec![0, 21]);
    assert_breaks("etc.)\u{2019}\u{a0}\u{2018}(the", vec![0, 17]);
    assert_breaks(
        "She said \"See spot run.\" John shook his head.",
        vec![0, 25, 45],
    );
}

#[test]
fn properties_test_ascii_table_correct() {
    for c in 0u8..=0x7F {
        let expected: SentenceBreakProperty = lookup_sentence_break_property(c as char);
        assert_eq!(ascii_sentence_break_property(c), expected, "byte {c}");
    }
}

/// Breakpoints are appended after what the vector already holds.
#[test]
fn sentence_breaks_append() {
    let mut breakpoints = vec![99];
    tokenize("Hi. Yo.", &mut breakpoints, Options::default());
    assert_eq!(breakpoints, vec![99, 0, 4, 7]);
}
