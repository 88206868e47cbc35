use alyze::kuromoji::{tokenize, tokenize_to_strings, CharCategory, Dictionary};

/// An excerpt of IPADIC's char.def.
const CHAR_DEF: &str = "\
#
# Japanese charcter category map
#
DEFAULT        0 1 0  # DEFAULT is a mandatory category!
SPACE          0 1 0
KANJI          0 0 2
SYMBOL         1 1 0
NUMERIC        1 1 0
ALPHA          1 1 0
HIRAGANA       0 1 2
KATAKANA       1 1 2
KANJINUMERIC   1 1 0
GREEK          1 1 0
CYRILLIC       1 1 0

# SPACE
0x0020 SPACE  # DO NOT REMOVE THIS LINE, 0x0020 is reserved for SPACE
0x00D0 SPACE
0x0009 SPACE
0x000B SPACE
0x000A SPACE

# ASCII
0x0021..0x002F SYMBOL
0x0030..0x0039 NUMERIC
0x003A..0x0040 SYMBOL
0x0041..0x005A ALPHA
0x005B..0x0060 SYMBOL
0x0061..0x007A ALPHA
0x007B..0x007E SYMBOL

# CJK Symbols and Punctuation
0x3000..0x303F SYMBOL
0x3005 KANJI
0x3007 SYMBOL KANJINUMERIC

# HIRAGANA
0x3041..0x309F HIRAGANA

# KATAKANA
0x30A1..0x30FF KATAKANA
0x30FC KATAKANA HIRAGANA

# KANJI
0x4E00..0x9FA5 KANJI
0x4E00 KANJINUMERIC
";

/// An excerpt of IPADIC's unk.def.
const UNK_DEF: &str = "\
DEFAULT,5,5,4769,記号,一般,*,*,*,*,*
SPACE,9,9,8903,記号,空白,*,*,*,*,*
KANJI,1285,1285,11426,名詞,一般,*,*,*,*,*
KANJI,1283,1283,17290,名詞,サ変接続,*,*,*,*,*
SYMBOL,5,5,4216,記号,一般,*,*,*,*,*
NUMERIC,1295,1295,27386,名詞,数,*,*,*,*,*
ALPHA,1285,1285,13398,名詞,一般,*,*,*,*,*
HIRAGANA,1285,1285,13069,名詞,一般,*,*,*,*,*
KATAKANA,1285,1285,9461,名詞,一般,*,*,*,*,*
KANJINUMERIC,1295,1295,27473,名詞,数,*,*,*,*,*
GREEK,1285,1285,7884,名詞,一般,*,*,*,*,*
CYRILLIC,1285,1285,7966,名詞,一般,*,*,*,*,*
";

/// A few IPADIC words.
const WORDS_CSV: &str = "\
猫,1285,1285,5687,名詞,一般,*,*,*,*,猫,ネコ,ネコ
が,148,148,3866,助詞,格助詞,一般,*,*,*,が,ガ,ガ
好き,1287,1287,4781,名詞,形容動詞語幹,*,*,*,*,好き,スキ,スキ
です,25,25,3873,助動詞,*,*,*,特殊・デス,基本形,です,デス,デス
好,1285,1285,9000,名詞,一般,*,*,*,*,好,コウ,コー
で,148,148,5000,助詞,格助詞,一般,*,*,*,で,デ,デ
";

/// A matrix of IPADIC's size with a few costs.
const MATRIX_DEF: &str = "\
1316 1316
0 1285 -283
1285 148 -3547
148 1287 -409
1287 25 -1390
25 0 -1258
";

fn dict() -> Dictionary {
    Dictionary::load(&[WORDS_CSV], MATRIX_DEF, CHAR_DEF, UNK_DEF).expect("dictionary loads")
}

#[test]
fn test_empty_input() {
    let dict = dict();
    let tokens = tokenize_to_strings("", &dict);
    assert!(tokens.is_empty());
}

#[test]
fn test_single_char() {
    let dict = dict();
    let tokens = tokenize_to_strings("a", &dict);
    assert_eq!(tokens, vec!["a"]);
}

#[test]
fn test_basic_japanese() {
    let dict = dict();
    let tokens = tokenize_to_strings("猫が好きです", &dict);
    assert_eq!(tokens, vec!["猫", "が", "好き", "です"]);
}

#[test]
fn test_char_categories() {
    let dict = dict();
    assert_eq!(dict.char_category('あ'), CharCategory::Hiragana);
    assert_eq!(dict.char_category('ア'), CharCategory::Katakana);
    assert_eq!(dict.char_category('漢'), CharCategory::Kanji);
    assert_eq!(dict.char_category('A'), CharCategory::Alpha);
    assert_eq!(dict.char_category('1'), CharCategory::Numeric);
    assert_eq!(dict.char_category(' '), CharCategory::Space);
    assert_eq!(dict.char_category('!'), CharCategory::Symbol);
    // 々 (U+3005) is KANJI despite the 0x3000..0x303F SYMBOL range.
    assert_eq!(dict.char_category('々'), CharCategory::Kanji);
    // ー (U+30FC) is KATAKANA.
    assert_eq!(dict.char_category('ー'), CharCategory::Katakana);
}

#[test]
fn dictionary_sizes_from_files() {
    let dict = dict();
    assert_eq!(dict.forward_size(), 1316);
    assert_eq!(dict.backward_size(), 1316);
    assert_eq!(dict.entry_count(), 6);
}

#[test]
fn categories_of_a_char_in_several_entries() {
    let dict = dict();
    assert_eq!(
        dict.char_categories('ー'),
        vec![CharCategory::Katakana, CharCategory::Hiragana]
    );
    assert_eq!(
        dict.char_categories('一'),
        vec![CharCategory::KanjiNumeric, CharCategory::Kanji]
    );
    assert_eq!(dict.char_categories('é'), vec![CharCategory::Default]);
}

#[test]
fn boundaries_split_the_text() {
    let dict = dict();
    let text = "猫が好きです";
    let bounds = tokenize(text, &dict);
    assert_eq!(bounds, vec![0, 3, 6, 12, 18]);
    let ascii = tokenize("abc 123", &dict);
    assert_eq!(ascii, vec![0, 3, 4, 7]);
}

#[test]
fn malformed_files_are_refused() {
    assert!(Dictionary::load(&[WORDS_CSV], "1316\n", CHAR_DEF, UNK_DEF).is_none());
    assert!(Dictionary::load(&["猫,x,1285,5687"], MATRIX_DEF, CHAR_DEF, UNK_DEF).is_none());
    assert!(Dictionary::load(&["猫,1285,1285,5687"], MATRIX_DEF, "0xZZ SPACE\n", UNK_DEF).is_none());
    assert!(Dictionary::load(&["猫,1285,1285,5687"], "2 2\n5 5 1\n", CHAR_DEF, UNK_DEF).is_none());
}

#[test]
fn ids_outside_the_matrix_still_load() {
    // The ids are only looked up when the search steps through the word.
    let dict = Dictionary::load(&["猫,1285,1285,5687"], "2 2\n", CHAR_DEF, UNK_DEF)
        .expect("dictionary loads");
    assert_eq!(dict.forward_size(), 2);
    assert_eq!(dict.entry_count(), 1);
    assert!(!dict.ids_fit());
    // An empty matrix loads too.
    let empty = Dictionary::load(&[WORDS_CSV], "0 0\n", CHAR_DEF, UNK_DEF).expect("dictionary loads");
    assert_eq!(empty.forward_size(), 0);
    assert!(!empty.ids_fit());
    assert!(tokenize("", &empty).is_empty());
}

#[test]
fn ids_fit_tells_whether_every_id_lies_in_the_matrix() {
    assert!(dict().ids_fit());
    let left_outside = Dictionary::load(&[WORDS_CSV, "猫,1400,0,5"], MATRIX_DEF, CHAR_DEF, UNK_DEF)
        .expect("dictionary loads");
    assert!(!left_outside.ids_fit());
    let right_outside = Dictionary::load(&[WORDS_CSV, "猫,0,1316,5"], MATRIX_DEF, CHAR_DEF, UNK_DEF)
        .expect("dictionary loads");
    assert!(!right_outside.ids_fit());
    let inside = Dictionary::load(&[WORDS_CSV, "猫,1315,1315,5"], MATRIX_DEF, CHAR_DEF, UNK_DEF)
        .expect("dictionary loads");
    assert!(inside.ids_fit());
}

#[test]
fn quoted_csv_fields_keep_their_commas() {
    let dict = Dictionary::load(&["\"a,b\",1285,1285,1"], MATRIX_DEF, CHAR_DEF, UNK_DEF)
        .expect("dictionary loads");
    assert_eq!(dict.entry_count(), 1);
    let tokens = tokenize_to_strings("a,b", &dict);
    assert_eq!(tokens, vec!["a,b"]);
}

#[test]
fn tokens_concatenate_to_the_text() {
    let dict = dict();
    for text in ["猫が好きです", "abc 123", "猫が好きです。ABCは123", "好きで"] {
        let tokens = tokenize_to_strings(text, &dict);
        assert_eq!(tokens.concat(), text);
        assert!(tokens.iter().all(|t| !t.is_empty()));
    }
}

/// Without a DEFAULT template a character outside every range has no
/// candidate, so no path covers the text and the char starts come back.
#[test]
fn text_without_a_path_falls_back_to_char_starts() {
    let unk = "SPACE,9,9,8903,記号,空白,*,*,*,*,*\nALPHA,1285,1285,13398,名詞,一般,*,*,*,*,*\n";
    let dict = Dictionary::load(&[WORDS_CSV], MATRIX_DEF, CHAR_DEF, unk).expect("dictionary loads");
    assert_eq!(tokenize("é", &dict), vec![0]);
    assert_eq!(tokenize("aé", &dict), vec![0, 1]);
    assert!(tokenize_to_strings("é", &dict).is_empty());
    assert_eq!(tokenize_to_strings("aé", &dict), vec!["a"]);
}

/// "ab" as one word and "a" + "b" cost the same; the word that the search
/// added first (from the earlier start) is kept.
#[test]
fn equal_costs_keep_the_edge_added_first() {
    let unk = "DEFAULT,1,1,1000\nALPHA,1,1,1000\n";
    let words = "a,1,1,10\nb,1,1,10\nab,1,1,20\n";
    let dict = Dictionary::load(&[words], "2 2\n", CHAR_DEF, unk).expect("dictionary loads");
    assert_eq!(tokenize("ab", &dict), vec![0, 2]);
    assert_eq!(tokenize_to_strings("ab", &dict), vec!["ab"]);
    // A cheaper split wins over the word.
    let cheaper = "a,1,1,9\nb,1,1,10\nab,1,1,20\n";
    let dict = Dictionary::load(&[cheaper], "2 2\n", CHAR_DEF, unk).expect("dictionary loads");
    assert_eq!(tokenize_to_strings("ab", &dict), vec!["a", "b"]);
}
