use alyze::uax29::sentence;
use alyze::uax29::word;

fn word_breaks(s: &str) -> Vec<usize> {
    word::tokenize(s, word::Options::default()).into_iter().map(|(bp, _)| bp).collect()
}

fn sentence_breaks(s: &str) -> Vec<usize> {
    let mut breakpoints = Vec::new();
    sentence::tokenize(s, &mut breakpoints, sentence::Options::default());
    breakpoints
}

#[test]
fn word_breaks_around_newlines() {
    assert_eq!(word_breaks("a\nb"), vec![0, 1, 2, 3]);
    assert_eq!(word_breaks("a\r\nb"), vec![0, 1, 3, 4]);
    assert_eq!(word_breaks("\n\n"), vec![0, 1, 2]);
}

#[test]
fn word_extend_joins_the_char_before() {
    assert_eq!(word_breaks("a\u{0308}b"), vec![0, 4]);
    assert_eq!(word_breaks("\n\u{0308}"), vec![0, 1, 3]);
}

#[test]
fn word_joined_classes_do_not_break() {
    assert_eq!(word_breaks("\u{30A2}\u{30A4}"), vec![0, 6]);
    assert_eq!(word_breaks("a_b"), vec![0, 3]);
    assert_eq!(word_breaks("_1"), vec![0, 2]);
    assert_eq!(word_breaks("  "), vec![0, 2]);
    assert_eq!(word_breaks("x1y"), vec![0, 3]);
}

#[test]
fn word_joined_over_middle_chars() {
    assert_eq!(word_breaks("a.b"), vec![0, 3]);
    assert_eq!(word_breaks("can't"), vec![0, 5]);
    assert_eq!(word_breaks("1,5"), vec![0, 3]);
}

#[test]
fn word_unjoined_middle_chars_break() {
    assert_eq!(word_breaks("a."), vec![0, 1, 2]);
    assert_eq!(word_breaks("a.1"), vec![0, 1, 2, 3]);
    assert_eq!(word_breaks("1.a"), vec![0, 1, 2, 3]);
}

#[test]
fn word_breaks_after_letters_where_no_rule_joins() {
    assert_eq!(word_breaks("a b"), vec![0, 1, 2, 3]);
    assert_eq!(word_breaks("a!"), vec![0, 1, 2]);
    assert_eq!(word_breaks("\u{30A2}a"), vec![0, 3, 4]);
    assert_eq!(word_breaks("!a"), vec![0, 1, 2]);
}

#[test]
fn word_breaks_after_spaces() {
    assert_eq!(word_breaks(" a"), vec![0, 1, 2]);
    assert_eq!(word_breaks(" \u{0308} "), vec![0, 3, 4]);
}

#[test]
fn word_regional_indicators_pair_up() {
    // Two flags: a break between the pairs, none inside them.
    assert_eq!(word_breaks("\u{1F1FA}\u{1F1F8}\u{1F1EB}\u{1F1F7}"), vec![0, 8, 16]);
    assert_eq!(word_breaks("\u{1F1FA}\u{1F1F8}\u{1F1EB}"), vec![0, 8, 12]);
}

#[test]
fn sentence_breaks_after_sterm() {
    assert_eq!(sentence_breaks("Hi! There"), vec![0, 4, 9]);
    assert_eq!(sentence_breaks("Hi!! There"), vec![0, 5, 10]);
    assert_eq!(sentence_breaks("Hi!\nThere"), vec![0, 4, 9]);
}

#[test]
fn sentence_letters_do_not_end_sentences() {
    assert_eq!(sentence_breaks("Hello world"), vec![0, 11]);
    assert_eq!(sentence_breaks("a\u{0308}b"), vec![0, 4]);
}

#[test]
fn sentence_full_stop_before_digit_or_capital() {
    assert_eq!(sentence_breaks("3.4"), vec![0, 3]);
    assert_eq!(sentence_breaks("c.D"), vec![0, 3]);
}

#[test]
fn sentence_paragraph_separators() {
    assert_eq!(sentence_breaks("a\r\nb"), vec![0, 3, 4]);
    assert_eq!(sentence_breaks("a\u{2029}b"), vec![0, 4, 5]);
}

#[test]
fn sentence_full_stop_before_lowercase_does_not_break() {
    assert_eq!(sentence_breaks("etc. (5) the"), vec![0, 12]);
    assert_eq!(sentence_breaks("etc. The"), vec![0, 5, 8]);
}

#[test]
fn word_rules_decide_after_letters_digits_spaces_and_newlines() {
    // Each pair below: the break, or not, that the word rules give.
    assert_eq!(word_breaks("a\u{0301}b"), vec![0, 4]);
    assert_eq!(word_breaks("a\u{0301}.b"), vec![0, 5]);
    assert_eq!(word_breaks("a\u{0301}.\u{0301}"), vec![0, 3, 6]);
    assert_eq!(word_breaks("1\u{0301}.2"), vec![0, 5]);
    assert_eq!(word_breaks("a\u{0301} b"), vec![0, 3, 4, 5]);
    assert_eq!(word_breaks("\r\n a"), vec![0, 2, 3, 4]);
}

#[test]
fn word_zwj_keeps_a_pictograph_with_the_word() {
    assert_eq!(word_breaks("a\u{200D}\u{261D}"), vec![0, 7]);
    assert_eq!(word_breaks("!\u{200D}\u{261D}"), vec![0, 7]);
}

#[test]
fn sentence_rules_decide_after_letters_terminators_and_separators() {
    assert_eq!(sentence_breaks("Hi!\u{0301} there"), vec![0, 6, 11]);
    assert_eq!(sentence_breaks("Hi!\u{0301}?"), vec![0, 6]);
    assert_eq!(sentence_breaks("a\nb\r\nc"), vec![0, 2, 5, 6]);
}
