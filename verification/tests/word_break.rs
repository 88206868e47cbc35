use alyze::uax29::word::properties::{
    ascii_word_break_property, lookup_word_break_property_from_dictionary, WordBreakProperty,
};
use alyze::uax29::word::{tokenize, Options, TokenProperties};

fn collect(s: &str) -> Vec<(usize, TokenProperties)> {
    tokenize(s, Options::default())
}

fn assert_breaks(s: &str, expected: Vec<usize>) {
    let breakpoints: Vec<usize> = collect(s).into_iter().map(|(bp, _)| bp).collect();
    assert_eq!(breakpoints, expected, "input: {:?}", s);
}

#[test]
fn tokenizer_sanity() {
    // Empty string yields no breakpoints.
    assert_breaks("", vec![]);

    // Non-empty strings break at the start & end.
    assert_breaks("a", vec![0, 1]);
    assert_breaks(".", vec![0, 1]);
    assert_breaks("\n", vec![0, 1]);

    // WB5: ALetter × ALetter
    assert_breaks("hello", vec![0, 5]);

    // WB8: Numeric × Numeric
    assert_breaks("123", vec![0, 3]);

    // WB9/WB10: ALetter × Numeric, Numeric × ALetter
    assert_breaks("abc123", vec![0, 6]);
    assert_breaks("123abc", vec![0, 6]);
    assert_breaks("a1b2", vec![0, 4]);

    // WB3: CR × LF (stay together)
    assert_breaks("\r\n", vec![0, 2]);
    assert_breaks("\r\n\r\n", vec![0, 2, 4]);

    // CR and LF alone break normally
    assert_breaks("\r", vec![0, 1]);
    assert_breaks("\n\n", vec![0, 1, 2]);

    // Mixed with newlines
    assert_breaks("a\r\nb", vec![0, 1, 3, 4]);
    assert_breaks("ab\r\ncd", vec![0, 2, 4, 6]);

    // Keep horizontal whitespace together (WB3d)
    assert_breaks("a   c", vec![0, 1, 4, 5]);

    // Do not break letters across certain punctuation.
    assert_breaks("e.g. hello", vec![0, 3, 4, 5, 10]);
    assert_breaks("example.com", vec![0, 11]);
    assert_breaks("won't", vec![0, 5]);

    // WB13a/WB13b: ExtendNumLet connects letters, numbers, katakana
    assert_breaks("a_1", vec![0, 3]);
    assert_breaks("_a", vec![0, 2]);

    // Edge cases with deferred breaks.
    assert_breaks("can'", vec![0, 3, 4]);
    assert_breaks("can' hi", vec![0, 3, 4, 5, 7]);

    // WB7a and WB6/WB7 with Hebrew_Letter and Single_Quote.
    assert_breaks("א'", vec![0, "א'".len()]);
    assert_breaks("א'א", vec![0, "א'א".len()]);
    assert_breaks("א'\u{2060}א", vec![0, "א'\u{2060}א".len()]);
    assert_breaks("א'a", vec![0, "א'a".len()]);
    assert_breaks("הצ'קרות", vec![0, "הצ'קרות".len()]);
    assert_breaks(
        "לייף אנרג'י",
        vec![0, "לייף".len(), "לייף ".len(), "לייף אנרג'י".len()],
    );

    // WB7b/WB7c: Hebrew_Letter × Double_Quote × Hebrew_Letter.
    assert_breaks("צה\u{05F4}ל", vec![0, "צה\u{05F4}ל".len()]);
    assert_breaks(
        "אקספרס\u{05F4} מהיום",
        vec![
            0,
            "אקספרס".len(),
            "אקספרס\u{05F4}".len(),
            "אקספרס\u{05F4} ".len(),
            "אקספרס\u{05F4} מהיום".len(),
        ],
    );
    assert_breaks(
        "\u{05F4}אקספרס\u{05F4} מהיום",
        vec![
            0,
            "\u{05F4}".len(),
            "\u{05F4}אקספרס".len(),
            "\u{05F4}אקספרס\u{05F4}".len(),
            "\u{05F4}אקספרס\u{05F4} ".len(),
            "\u{05F4}אקספרס\u{05F4} מהיום".len(),
        ],
    );

    // WB3c: ZWJ × Extended_Pictographic (emoji ZWJ sequences)
    assert_breaks("👨\u{200D}👩", vec![0, 11]);
    assert_breaks("👨👩", vec![0, 4, 8]);

    // Letters that are also extended pictographic
    assert_breaks("🇦", vec![0, 4]);
    assert_breaks("🇦🇦", vec![0, 8]);
    assert_breaks("🇦🇦🇦", vec![0, 8, 12]);

    // Circled letters
    assert_breaks("\u{200d}Ⓜ", vec![0, 6]);
}

fn assert_props(s: &str, f: fn(&TokenProperties) -> bool, expected: Vec<(usize, bool)>) {
    let got: Vec<(usize, bool)> = collect(s).into_iter().map(|(bp, p)| (bp, f(&p))).collect();
    assert_eq!(got, expected, "input: {:?}", s);
}

#[test]
fn tokenizer_properties_sanity() {
    let is_ascii: fn(&TokenProperties) -> bool = |p| p.is_ascii();
    assert_props("hello", is_ascii, vec![(0, true), (5, true)]);
    assert_props("🛑", is_ascii, vec![(0, true), (4, false)]);
    assert_props("ab🛑", is_ascii, vec![(0, true), (2, true), (6, false)]);
}

#[test]
fn tokenizer_has_ascii_upper_sanity() {
    let upper: fn(&TokenProperties) -> bool = |p| p.has_ascii_upper();
    assert_props("hello", upper, vec![(0, false), (5, false)]);
    assert_props("Hello", upper, vec![(0, false), (5, true)]);
    assert_props("HELLO", upper, vec![(0, false), (5, true)]);
    assert_props("aB", upper, vec![(0, false), (2, true)]);
    assert_props("123", upper, vec![(0, false), (3, false)]);
    assert_props("ab🛑", upper, vec![(0, false), (2, false), (6, false)]);
}

fn assert_word_like(s: &str, expected: Vec<(usize, bool)>) {
    assert_props(s, |p| p.is_word_like(), expected);
}

#[test]
fn tokenizer_word_like_ascii_sanity() {
    assert_word_like("hello", vec![(0, false), (5, true)]);
    assert_word_like("123", vec![(0, false), (3, true)]);
    assert_word_like("abc123", vec![(0, false), (6, true)]);
    assert_word_like("won't", vec![(0, false), (5, true)]);
    assert_word_like("___", vec![(0, false), (3, false)]);
    assert_word_like("   ", vec![(0, false), (3, false)]);
    assert_word_like("!!!", vec![(0, false), (1, false), (2, false), (3, false)]);
}

#[test]
fn tokenizer_word_like_strict_sanity() {
    assert_word_like("ש", vec![(0, false), (2, true)]);
    assert_word_like("中", vec![(0, false), (3, true)]);
    assert_word_like("々", vec![(0, false), (3, true)]);
    assert_word_like("①", vec![(0, false), (3, true)]);
    assert_word_like("अ", vec![(0, false), (3, true)]);
    assert_word_like("ก", vec![(0, false), (3, true)]);
    assert_word_like("👍", vec![(0, false), (4, true)]);
    assert_word_like("リ", vec![(0, false), (3, true)]);
    assert_word_like("ー", vec![(0, false), (3, false)]);
    assert_word_like("\u{05F4}", vec![(0, false), ("\u{05F4}".len(), true)]);
}

#[test]
fn deferred_break_does_not_misattribute_props() {
    let s = "אקספרס\u{05F4} ";
    assert_word_like(
        s,
        vec![
            (0, false),
            ("אקספרס".len(), true),
            ("אקספרס\u{05F4}".len(), true),
            (s.len(), false),
        ],
    );

    let s = "\u{05F4}אקספרס\u{05F4} מהיום";
    assert_word_like(
        s,
        vec![
            (0, false),
            ("\u{05F4}".len(), true),
            ("\u{05F4}אקספרס".len(), true),
            ("\u{05F4}אקספרס\u{05F4}".len(), true),
            ("\u{05F4}אקספרס\u{05F4} ".len(), false),
            (s.len(), true),
        ],
    );
}

#[test]
fn test_ascii_table_correct() {
    for c in 0u8..=0x7F {
        let expected: WordBreakProperty = lookup_word_break_property_from_dictionary(c as char);
        assert_eq!(ascii_word_break_property(c), expected, "byte {c}");
    }
}

/// Library example: the breakpoints of a short greeting.
#[test]
fn doc_example_hello_world() {
    assert_breaks("Hello, world!", vec![0, 5, 6, 7, 12, 13]);
}

/// Law check on concrete values: breakpoints start at 0, end at the byte
/// length and strictly increase; an all-ASCII token reports is_ascii.
#[test]
fn breakpoints_partition_concrete() {
    let s = "The quick (“brown”) fox can’t jump 32.3 feet, right?";
    let got = collect(s);
    assert_eq!(got[0].0, 0);
    assert_eq!(got.last().unwrap().0, s.len());
    for w in got.windows(2) {
        assert!(w[0].0 < w[1].0);
        let span = &s[w[0].0..w[1].0];
        assert_eq!(w[1].1.is_ascii(), span.is_ascii(), "span {span:?}");
        assert_eq!(w[1].1.has_ascii_upper(), span.bytes().any(|b| b.is_ascii_uppercase()));
    }
    assert_eq!(got[0].1, TokenProperties::default());
}
