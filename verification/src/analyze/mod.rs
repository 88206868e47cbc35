//! The analysis pipeline: UAX #29 word segmentation, then per word-like token
//! a length limit, lowercasing and stemming, in that order.
pub mod laws;
pub mod options;
pub mod stemming_cache;
pub mod u17_to_lower;

use vstd::prelude::*;
use vstd::string::StringSliceAdditionalSpecFns;

use crate::consumer::{extends, hand_over, handed_since, handed_until_stop, Consumer};
use crate::analyze::stemming_cache::{CachedToken, StemmingCache, StemmingCacheEntry};
use crate::analyze::u17_to_lower::{spec_char_to_lower, unicode_v17_char_to_lower};
use crate::text::{
    byte_offset, char_len_utf8, chars_of, lemma_byte_offset_span, lemma_byte_offset_step,
    lemma_byte_offset_strictly_increasing, push_char, push_chars, utf8_len,
};
use crate::uax29::word::laws::law_word_segments_partition;
use crate::uax29;
use crate::uax29::word::{word_segments, TokenProperties};

verus! {

/// Options of an `Analyzer`. The optional stages are listed in the order in
/// which they apply.
#[derive(Clone, Copy, Debug)]
pub struct AnalysisOptions {
    pub tokenizer: TokenizerOptions,
    pub maximum_token_length: Option<usize>,
    pub case_sensitive: bool,
    pub stopword_removal: Option<StopwordRemoval>,
    pub stemming: Option<StemmingLanguage>,
    pub ascii_folding: bool,
}

impl AnalysisOptions {
    /// Whether the options can be combined: stemming and stopword removal
    /// both need case-insensitive (lowercased) tokens.
    pub open spec fn spec_valid(&self) -> bool {
        !(self.stemming is Some && self.case_sensitive) && !(self.stopword_removal is Some
            && self.case_sensitive)
    }

    /// Whether the options can be combined: stemming and stopword removal
    /// both need case-insensitive (lowercased) tokens.
    pub fn valid(&self) -> (r: bool)
        ensures
            r == self.spec_valid(),
    {
        if self.stemming.is_some() && self.case_sensitive {
            return false;  // stemming requires case insensitivity
        }
        if self.stopword_removal.is_some() && self.case_sensitive {
            return false;  // stopword removal requires case insensitivity
        }
        true
    }
}

/// The tokenizer that splits the input into tokens.
#[derive(Clone, Copy, Debug)]
pub enum TokenizerOptions {
    UAX29Word(uax29::word::Options),
}

/// Which stopwords to remove.
#[derive(Copy, Clone, Debug)]
pub enum StopwordRemoval {
    ForLanguage(LanguageWithStopwords),
}

/// Languages with a stopword list.
#[derive(Copy, Clone, Debug, PartialEq, Eq, Structural)]
pub enum LanguageWithStopwords {
    Danish,
    Dutch,
    English,
    Finnish,
    French,
    German,
    Hungarian,
    Italian,
    Norwegian,
    Portuguese,
    Russian,
    Spanish,
    Swedish,
}

/// A language whose Snowball stemming algorithm can be applied. Each variant
/// maps to one algorithm of <https://snowballstem.org>, run by `frostem`.
#[derive(Copy, Clone, Debug, PartialEq, Eq, Hash, Structural)]
pub enum StemmingLanguage {
    Arabic,
    Armenian,
    Basque,
    Catalan,
    Czech,
    Danish,
    Dutch,
    /// Snowball's pre-2023 Dutch algorithm, kept under its upstream name so
    /// that indexes built before `Dutch` switched algorithms keep their terms.
    DutchPorter,
    English,
    Esperanto,
    Estonian,
    Finnish,
    French,
    German,
    Greek,
    Hindi,
    Hungarian,
    Indonesian,
    Irish,
    Italian,
    Lithuanian,
    Nepali,
    Norwegian,
    Persian,
    Polish,
    Portuguese,
    Romanian,
    Russian,
    Serbian,
    Sesotho,
    Spanish,
    Swedish,
    Tamil,
    Turkish,
    Yiddish,
}

impl StemmingLanguage {
    /// The Snowball algorithm id of the language.
    pub open spec fn spec_algorithm(self) -> Seq<char> {
        match self {
            StemmingLanguage::Arabic => "arabic"@,
            StemmingLanguage::Armenian => "armenian"@,
            StemmingLanguage::Basque => "basque"@,
            StemmingLanguage::Catalan => "catalan"@,
            StemmingLanguage::Czech => "czech"@,
            StemmingLanguage::Danish => "danish"@,
            StemmingLanguage::Dutch => "dutch"@,
            StemmingLanguage::DutchPorter => "dutch_porter"@,
            StemmingLanguage::English => "english"@,
            StemmingLanguage::Esperanto => "esperanto"@,
            StemmingLanguage::Estonian => "estonian"@,
            StemmingLanguage::Finnish => "finnish"@,
            StemmingLanguage::French => "french"@,
            StemmingLanguage::German => "german"@,
            StemmingLanguage::Greek => "greek"@,
            StemmingLanguage::Hindi => "hindi"@,
            StemmingLanguage::Hungarian => "hungarian"@,
            StemmingLanguage::Indonesian => "indonesian"@,
            StemmingLanguage::Irish => "irish"@,
            StemmingLanguage::Italian => "italian"@,
            StemmingLanguage::Lithuanian => "lithuanian"@,
            StemmingLanguage::Nepali => "nepali"@,
            StemmingLanguage::Norwegian => "norwegian"@,
            StemmingLanguage::Persian => "persian"@,
            StemmingLanguage::Polish => "polish"@,
            StemmingLanguage::Portuguese => "portuguese"@,
            StemmingLanguage::Romanian => "romanian"@,
            StemmingLanguage::Russian => "russian"@,
            StemmingLanguage::Serbian => "serbian"@,
            StemmingLanguage::Sesotho => "sesotho"@,
            StemmingLanguage::Spanish => "spanish"@,
            StemmingLanguage::Swedish => "swedish"@,
            StemmingLanguage::Tamil => "tamil"@,
            StemmingLanguage::Turkish => "turkish"@,
            StemmingLanguage::Yiddish => "yiddish"@,
        }
    }

    /// The Snowball algorithm id of the language (the name `frostem` knows it by).
    pub fn algorithm(self) -> (r: &'static str)
        ensures
            r@ == self.spec_algorithm(),
    {
        match self {
            StemmingLanguage::Arabic => "arabic",
            StemmingLanguage::Armenian => "armenian",
            StemmingLanguage::Basque => "basque",
            StemmingLanguage::Catalan => "catalan",
            StemmingLanguage::Czech => "czech",
            StemmingLanguage::Danish => "danish",
            StemmingLanguage::Dutch => "dutch",
            StemmingLanguage::DutchPorter => "dutch_porter",
            StemmingLanguage::English => "english",
            StemmingLanguage::Esperanto => "esperanto",
            StemmingLanguage::Estonian => "estonian",
            StemmingLanguage::Finnish => "finnish",
            StemmingLanguage::French => "french",
            StemmingLanguage::German => "german",
            StemmingLanguage::Greek => "greek",
            StemmingLanguage::Hindi => "hindi",
            StemmingLanguage::Hungarian => "hungarian",
            StemmingLanguage::Indonesian => "indonesian",
            StemmingLanguage::Irish => "irish",
            StemmingLanguage::Italian => "italian",
            StemmingLanguage::Lithuanian => "lithuanian",
            StemmingLanguage::Nepali => "nepali",
            StemmingLanguage::Norwegian => "norwegian",
            StemmingLanguage::Persian => "persian",
            StemmingLanguage::Polish => "polish",
            StemmingLanguage::Portuguese => "portuguese",
            StemmingLanguage::Romanian => "romanian",
            StemmingLanguage::Russian => "russian",
            StemmingLanguage::Serbian => "serbian",
            StemmingLanguage::Sesotho => "sesotho",
            StemmingLanguage::Spanish => "spanish",
            StemmingLanguage::Swedish => "swedish",
            StemmingLanguage::Tamil => "tamil",
            StemmingLanguage::Turkish => "turkish",
            StemmingLanguage::Yiddish => "yiddish",
        }
    }
}

/// The length and first three chars of `name`.
pub open spec fn name_key(name: Seq<char>) -> (int, char, char, char) {
    (name.len() as int, name[0], name[1], name[2])
}

impl StemmingLanguage {
    /// The length and first three chars of the language's Snowball name.
    spec fn algorithm_key(self) -> (int, char, char, char) {
        match self {
            StemmingLanguage::Arabic => (6, 'a', 'r', 'a'),
            StemmingLanguage::Armenian => (8, 'a', 'r', 'm'),
            StemmingLanguage::Basque => (6, 'b', 'a', 's'),
            StemmingLanguage::Catalan => (7, 'c', 'a', 't'),
            StemmingLanguage::Czech => (5, 'c', 'z', 'e'),
            StemmingLanguage::Danish => (6, 'd', 'a', 'n'),
            StemmingLanguage::Dutch => (5, 'd', 'u', 't'),
            StemmingLanguage::DutchPorter => (12, 'd', 'u', 't'),
            StemmingLanguage::English => (7, 'e', 'n', 'g'),
            StemmingLanguage::Esperanto => (9, 'e', 's', 'p'),
            StemmingLanguage::Estonian => (8, 'e', 's', 't'),
            StemmingLanguage::Finnish => (7, 'f', 'i', 'n'),
            StemmingLanguage::French => (6, 'f', 'r', 'e'),
            StemmingLanguage::German => (6, 'g', 'e', 'r'),
            StemmingLanguage::Greek => (5, 'g', 'r', 'e'),
            StemmingLanguage::Hindi => (5, 'h', 'i', 'n'),
            StemmingLanguage::Hungarian => (9, 'h', 'u', 'n'),
            StemmingLanguage::Indonesian => (10, 'i', 'n', 'd'),
            StemmingLanguage::Irish => (5, 'i', 'r', 'i'),
            StemmingLanguage::Italian => (7, 'i', 't', 'a'),
            StemmingLanguage::Lithuanian => (10, 'l', 'i', 't'),
            StemmingLanguage::Nepali => (6, 'n', 'e', 'p'),
            StemmingLanguage::Norwegian => (9, 'n', 'o', 'r'),
            StemmingLanguage::Persian => (7, 'p', 'e', 'r'),
            StemmingLanguage::Polish => (6, 'p', 'o', 'l'),
            StemmingLanguage::Portuguese => (10, 'p', 'o', 'r'),
            StemmingLanguage::Romanian => (8, 'r', 'o', 'm'),
            StemmingLanguage::Russian => (7, 'r', 'u', 's'),
            StemmingLanguage::Serbian => (7, 's', 'e', 'r'),
            StemmingLanguage::Sesotho => (7, 's', 'e', 's'),
            StemmingLanguage::Spanish => (7, 's', 'p', 'a'),
            StemmingLanguage::Swedish => (7, 's', 'w', 'e'),
            StemmingLanguage::Tamil => (5, 't', 'a', 'm'),
            StemmingLanguage::Turkish => (7, 't', 'u', 'r'),
            StemmingLanguage::Yiddish => (7, 'y', 'i', 'd'),
        }
    }

    proof fn lemma_algorithm_key(self)
        ensures
            name_key(self.spec_algorithm()) == self.algorithm_key(),
    {
        match self {
            StemmingLanguage::Arabic => {
                reveal_strlit("arabic");
            },
            StemmingLanguage::Armenian => {
                reveal_strlit("armenian");
            },
            StemmingLanguage::Basque => {
                reveal_strlit("basque");
            },
            StemmingLanguage::Catalan => {
                reveal_strlit("catalan");
            },
            StemmingLanguage::Czech => {
                reveal_strlit("czech");
            },
            StemmingLanguage::Danish => {
                reveal_strlit("danish");
            },
            StemmingLanguage::Dutch => {
                reveal_strlit("dutch");
            },
            StemmingLanguage::DutchPorter => {
                reveal_strlit("dutch_porter");
            },
            StemmingLanguage::English => {
                reveal_strlit("english");
            },
            StemmingLanguage::Esperanto => {
                reveal_strlit("esperanto");
            },
            StemmingLanguage::Estonian => {
                reveal_strlit("estonian");
            },
            StemmingLanguage::Finnish => {
                reveal_strlit("finnish");
            },
            StemmingLanguage::French => {
                reveal_strlit("french");
            },
            StemmingLanguage::German => {
                reveal_strlit("german");
            },
            StemmingLanguage::Greek => {
                reveal_strlit("greek");
            },
            StemmingLanguage::Hindi => {
                reveal_strlit("hindi");
            },
            StemmingLanguage::Hungarian => {
                reveal_strlit("hungarian");
            },
            StemmingLanguage::Indonesian => {
                reveal_strlit("indonesian");
            },
            StemmingLanguage::Irish => {
                reveal_strlit("irish");
            },
            StemmingLanguage::Italian => {
                reveal_strlit("italian");
            },
            StemmingLanguage::Lithuanian => {
                reveal_strlit("lithuanian");
            },
            StemmingLanguage::Nepali => {
                reveal_strlit("nepali");
            },
            StemmingLanguage::Norwegian => {
                reveal_strlit("norwegian");
            },
            StemmingLanguage::Persian => {
                reveal_strlit("persian");
            },
            StemmingLanguage::Polish => {
                reveal_strlit("polish");
            },
            StemmingLanguage::Portuguese => {
                reveal_strlit("portuguese");
            },
            StemmingLanguage::Romanian => {
                reveal_strlit("romanian");
            },
            StemmingLanguage::Russian => {
                reveal_strlit("russian");
            },
            StemmingLanguage::Serbian => {
                reveal_strlit("serbian");
            },
            StemmingLanguage::Sesotho => {
                reveal_strlit("sesotho");
            },
            StemmingLanguage::Spanish => {
                reveal_strlit("spanish");
            },
            StemmingLanguage::Swedish => {
                reveal_strlit("swedish");
            },
            StemmingLanguage::Tamil => {
                reveal_strlit("tamil");
            },
            StemmingLanguage::Turkish => {
                reveal_strlit("turkish");
            },
            StemmingLanguage::Yiddish => {
                reveal_strlit("yiddish");
            },
        }
    }
}

/// Distinct stemming languages name distinct Snowball algorithms: each
/// language is stemmed by an algorithm of its own.
pub proof fn law_distinct_algorithms(a: StemmingLanguage, b: StemmingLanguage)
    requires
        a != b,
    ensures
        a.spec_algorithm() != b.spec_algorithm(),
{
    a.lemma_algorithm_key();
    b.lemma_algorithm_key();
}

/// Whether `name` is the Snowball id of one of the languages above.
pub open spec fn is_stemming_algorithm(name: Seq<char>) -> bool {
    exists|l: StemmingLanguage| l.spec_algorithm() == name
}

/// The stem that the Snowball algorithm `algorithm` gives `word`.
pub uninterp spec fn snowball_stem(algorithm: Seq<char>, word: Seq<char>) -> Seq<char>;

/// Stems `word` with `frostem::Stemmer::try_from_name(algorithm)` and
/// `Stemmer::stem`. `Algorithm::from_name` accepts every canonical id of the
/// languages above (all of frostem's algorithms are enabled by default), so
/// the `Err` arm is never taken for the inputs that `requires` admits. The
/// contract only names the stem: it is a function of the algorithm and the
/// word alone.
#[verifier::external_body]
fn frostem_stem(algorithm: &str, word: &str) -> (r: String)
    requires
        is_stemming_algorithm(algorithm@),
    ensures
        r@ == snowball_stem(algorithm@, word@),
{
    match frostem::Stemmer::try_from_name(algorithm) {
        Ok(stemmer) => stemmer.stem(word).into_owned(),
        Err(_) => String::new(),
    }
}

/// The stem of `word` in `language`.
pub fn stem(language: StemmingLanguage, word: &str) -> (r: String)
    ensures
        r@ == snowball_stem(language.spec_algorithm(), word@),
{
    let algorithm = language.algorithm();
    frostem_stem(algorithm, word)
}

/// The word-like tokens among the segments `segs`, as spans of char indices.
pub open spec fn word_like_spans(segs: Seq<(int, TokenProperties)>) -> Seq<(int, int)>
    decreases segs.len(),
{
    if segs.len() <= 1 {
        Seq::empty()
    } else {
        let k = segs.len() - 1;
        let prev = word_like_spans(segs.drop_last());
        if segs[k].1.spec_word_like() {
            prev.push((segs[k - 1].0, segs[k].0))
        } else {
            prev
        }
    }
}

/// The word-like tokens of `chars`, as spans of char indices.
pub open spec fn word_spans(chars: Seq<char>) -> Seq<(int, int)> {
    word_like_spans(word_segments(chars))
}

/// `s` lowercased char by char.
pub open spec fn lower_chars(s: Seq<char>) -> Seq<char>
    decreases s.len(),
{
    if s.len() == 0 {
        Seq::empty()
    } else {
        lower_chars(s.drop_last()) + spec_char_to_lower(s.last())
    }
}

/// A token as the contracts see it.
pub struct TokenView {
    pub text: Seq<char>,
    pub position: int,
    pub start: int,
    pub end: int,
    pub input_index: int,
}

impl AnalysisOptions {
    /// What the filter stages make of the raw token `raw`, in order: the
    /// length limit (in bytes), lowercasing, stopword removal (against
    /// `stopwords`), stemming; `None` where a stage drops the token.
    pub open spec fn normalize(self, stopwords: Seq<Seq<char>>, raw: Seq<char>) -> Option<
        Seq<char>,
    > {
        if self.maximum_token_length matches Some(m) && utf8_len(raw) > m {
            None
        } else {
            let lowered = if self.case_sensitive {
                raw
            } else {
                lower_chars(raw)
            };
            if self.stopword_removal is Some && stopwords.contains(lowered) {
                None
            } else {
                match self.stemming {
                    Some(language) => Some(snowball_stem(language.spec_algorithm(), lowered)),
                    None => Some(lowered),
                }
            }
        }
    }

    /// The token, if any, of the word-like span `span` of the input `chars`,
    /// number `input_index`, at `position`.
    pub open spec fn span_token(
        self,
        stopwords: Seq<Seq<char>>,
        chars: Seq<char>,
        span: (int, int),
        input_index: int,
        position: int,
    ) -> Seq<TokenView> {
        match self.normalize(stopwords, chars.subrange(span.0, span.1)) {
            Some(text) => seq![
                TokenView {
                    text,
                    position,
                    start: byte_offset(chars, span.0) as int,
                    end: byte_offset(chars, span.1) as int,
                    input_index,
                },
            ],
            None => Seq::empty(),
        }
    }

    /// The tokens of the input `chars`, number `input_index`, from its
    /// word-like spans `spans`: the span at index `j` takes position
    /// `first_position + j`, whether or not a stage drops it.
    pub open spec fn span_tokens(
        self,
        stopwords: Seq<Seq<char>>,
        chars: Seq<char>,
        spans: Seq<(int, int)>,
        input_index: int,
        first_position: int,
    ) -> Seq<TokenView>
        decreases spans.len(),
    {
        if spans.len() == 0 {
            Seq::empty()
        } else {
            let j = spans.len() - 1;
            let prev = self.span_tokens(
                stopwords,
                chars,
                spans.drop_last(),
                input_index,
                first_position,
            );
            match self.normalize(stopwords, chars.subrange(spans[j].0, spans[j].1)) {
                Some(text) => prev.push(
                    TokenView {
                        text,
                        position: first_position + j,
                        start: byte_offset(chars, spans[j].0) as int,
                        end: byte_offset(chars, spans[j].1) as int,
                        input_index,
                    },
                ),
                None => prev,
            }
        }
    }

    /// The tokens of the input `chars`, number `input_index`, whose first
    /// word-like token takes position `first_position`.
    pub open spec fn input_tokens(
        self,
        stopwords: Seq<Seq<char>>,
        chars: Seq<char>,
        input_index: int,
        first_position: int,
    ) -> Seq<TokenView> {
        self.span_tokens(stopwords, chars, word_spans(chars), input_index, first_position)
    }

    /// The tokens of all `inputs`, positions running on across them.
    pub open spec fn inputs_tokens(self, stopwords: Seq<Seq<char>>, inputs: Seq<Seq<char>>) -> Seq<
        TokenView,
    >
        decreases inputs.len(),
    {
        if inputs.len() == 0 {
            Seq::empty()
        } else {
            let k = inputs.len() - 1;
            self.inputs_tokens(stopwords, inputs.drop_last()) + self.input_tokens(
                stopwords,
                inputs[k],
                k,
                word_count(inputs.drop_last()) as int,
            )
        }
    }
}

/// Number of word-like tokens in all of `inputs`.
pub open spec fn word_count(inputs: Seq<Seq<char>>) -> nat
    decreases inputs.len(),
{
    if inputs.len() == 0 {
        0
    } else {
        word_count(inputs.drop_last()) + word_spans(inputs.last()).len()
    }
}

/// A token: its normalized text, its position, where its raw text lies in
/// its input, and which input that is.
#[non_exhaustive]
pub struct Token {
    /// Normalized text of the token.
    pub text: String,
    /// Position of the token among the word-like tokens of all inputs. Every
    /// word-like token takes one, even one that a stage drops.
    pub position: usize,
    /// Byte range of the token's raw text within its input (not within
    /// `text`). Always on UTF-8 boundaries.
    pub byte_range: std::ops::Range<usize>,
    /// Index of the input that `byte_range` refers to.
    pub input_index: usize,
}

impl View for Token {
    type V = TokenView;

    open spec fn view(&self) -> TokenView {
        TokenView {
            text: self.text@,
            position: self.position as int,
            start: self.byte_range.start as int,
            end: self.byte_range.end as int,
            input_index: self.input_index as int,
        }
    }
}

/// The views of `tokens`.
pub open spec fn token_views(tokens: Seq<Token>) -> Seq<TokenView> {
    tokens.map_values(|t: Token| t@)
}

/// The tokens handed to a consumer, by their views, with its answers.
pub open spec fn call_views(calls: Seq<(Token, bool)>) -> Seq<(TokenView, bool)> {
    calls.map_values(|p: (Token, bool)| (p.0@, p.1))
}

/// Handing over tokens until a stop is handing over their views until it.
proof fn lemma_handed_views(full: Seq<Token>, calls: Seq<(Token, bool)>)
    requires
        handed_until_stop(full, calls),
    ensures
        handed_until_stop(token_views(full), call_views(calls)),
{
    let v = call_views(calls);
    assert forall|i: int| 0 <= i < v.len() implies (#[trigger] v[i]).0 == token_views(full)[i] by {
        assert(calls[i].0 == full[i]);
    }
    assert forall|i: int| 0 <= i < v.len() - 1 implies (#[trigger] v[i]).1 by {
        assert(calls[i].1);
    }
    if v.len() < full.len() {
        assert(v.last() == v[v.len() - 1]);
        assert(calls.last() == calls[calls.len() - 1]);
    }
}

/// The views of the strings `inputs`.
pub open spec fn str_views(inputs: Seq<&str>) -> Seq<Seq<char>> {
    inputs.map_values(|s: &str| s@)
}

/// State kept across calls of `Analyzer::analyze`: the stemming cache.
pub struct ReusableBuffer {
    stemming_cache: StemmingCache,
}

impl ReusableBuffer {
    /// A fresh buffer, its cache empty, with room for 32 000 stems.
    pub fn new() -> (b: Self)
        ensures
            b.spec_stemming_cache().spec_language() is None,
            b.spec_stemming_cache().contents() == Map::<Seq<char>, Option<Seq<char>>>::empty(),
            b.spec_stemming_cache().spec_capacity() == 32_000,
    {
        ReusableBuffer { stemming_cache: StemmingCache::new_with_capacity(32_000) }
    }

    /// The stemming cache of the buffer.
    pub closed spec fn spec_stemming_cache(&self) -> StemmingCache {
        self.stemming_cache
    }

    /// The stemming cache of the buffer.
    pub fn stemming_cache(&mut self) -> (c: &mut StemmingCache)
        ensures
            *c == old(self).spec_stemming_cache(),
            final(self).spec_stemming_cache() == *final(c),
    {
        &mut self.stemming_cache
    }

    /// Resets what the buffer holds for one call; the stemming cache stays
    /// (the tokens own their text, so nothing else is kept).
    pub fn reset_keep_stemming_cache(&mut self)
        ensures
            final(self).spec_stemming_cache() == old(self).spec_stemming_cache(),
    {
    }
}

/// What the stemming cache keeps for a token whose stem is `stem`: `None`
/// when the stem is the token, else the stem; an entry is kept only for a
/// token of 1 to 10 bytes whose stem, where it differs, is 1 to 10 bytes too.
pub open spec fn cache_entry_for(token: Seq<char>, stem: Seq<char>) -> Option<Option<Seq<char>>> {
    if !(0 < utf8_len(token) <= 10) {
        None
    } else if stem == token {
        Some(None)
    } else if 0 < utf8_len(stem) <= 10 {
        Some(Some(stem))
    } else {
        None
    }
}

/// The byte length of a string is the UTF-8 length of its chars.
proof fn lemma_str_bytes_len(s: &str)
    ensures
        s.spec_bytes().len() == utf8_len(s@),
{
    crate::text::lemma_byte_offset_end(s);
    assert(s@.take(s@.len() as int) =~= s@);
}

/// The stem of `text` in `language`, from `cache` where it holds the token,
/// else computed and, where the token is short and the cache has room,
/// remembered: old entries stay as they were, and the only entry that can
/// be added is the token's own, which is added whenever the cache holds
/// fewer entries than it was made for (the map may have room for more).
fn stem_in_place(language: StemmingLanguage, text: String, cache: &mut StemmingCache) -> (r: String)
    requires
        old(cache).spec_language() == Some(language),
    ensures
        r@ == snowball_stem(language.spec_algorithm(), text@),
        final(cache).spec_language() == Some(language),
        final(cache).spec_capacity() == old(cache).spec_capacity(),
        final(cache).contents() == old(cache).contents() || (!old(cache).contents().contains_key(
            text@,
        ) && cache_entry_for(text@, r@) is Some
            && final(cache).contents() == old(cache).contents().insert(
            text@,
            cache_entry_for(text@, r@)->0,
        )),
        (!old(cache).contents().contains_key(text@) && old(cache).contents().dom().len()
            < old(cache).spec_capacity() && cache_entry_for(text@, r@) is Some) ==> final(cache).contents() == old(cache).contents().insert(
            text@,
            cache_entry_for(text@, r@)->0,
        ),
{
    let text_str = text.as_str();
    proof {
        lemma_str_bytes_len(text_str);
    }
    let cache_key = CachedToken::new_from_str(text_str);
    if let Some(key) = cache_key {
        match cache.lookup(&key) {
            Some(entry) => {
                match entry {
                    StemmingCacheEntry::Stemmed(s) => {
                        let mut out = String::new();
                        crate::text::push_str(&mut out, s.as_str());
                        return out;
                    },
                    StemmingCacheEntry::Unchanged => {
                        return text;
                    },
                }
            },
            None => {},
        }
    }
    let stemmed = stem(language, text.as_str());
    let unchanged = stemmed == text;
    let stemmed_str = stemmed.as_str();
    proof {
        lemma_str_bytes_len(stemmed_str);
    }
    if let Some(key) = cache_key {
        let value = if unchanged {
            Some(StemmingCacheEntry::new_unchanged())
        } else {
            match CachedToken::new_from_str(stemmed_str) {
                Some(t) => Some(StemmingCacheEntry::new_stemmed(t)),
                None => None,
            }
        };
        if let Some(entry) = value {
            if cache.has_remaining_capacity() {
                cache.insert_no_clobber_assume_capacity(key, entry);
            }
        }
    }
    stemmed
}

/// Splits text into normalized tokens by its options.
pub struct Analyzer {
    options: AnalysisOptions,
    stopwords: Vec<String>,
}

impl Analyzer {
    /// The options the analyzer runs with.
    pub closed spec fn spec_options(&self) -> AnalysisOptions {
        self.options
    }

    /// The stopwords the analyzer removes.
    pub closed spec fn spec_stopwords(&self) -> Seq<Seq<char>> {
        self.stopwords@.map_values(|w: String| w@)
    }

    /// The tokens of `inputs` under this analyzer.
    pub open spec fn spec_analyze(&self, inputs: Seq<Seq<char>>) -> Seq<TokenView> {
        self.spec_options().inputs_tokens(self.spec_stopwords(), inputs)
    }

    /// Whether `cache` holds stems of the analyzer's stemming language, if
    /// it stems.
    pub closed spec fn cache_ready(&self, cache: &StemmingCache) -> bool {
        self.options.stemming matches Some(l) ==> cache.spec_language() == Some(l)
    }

    /// An analyzer for `options`, which must be valid.
    pub fn new(options: AnalysisOptions) -> (a: Self)
        requires
            options.spec_valid(),
            options.stopword_removal is None,
            !options.ascii_folding,
        ensures
            a.spec_options() == options,
            a.spec_stopwords() == Seq::<Seq<char>>::empty(),
    {
        let a = Analyzer { options, stopwords: Vec::new() };
        assert(a.spec_stopwords() =~= Seq::<Seq<char>>::empty());
        a
    }

    /// An analyzer for `options`, which must be valid, that removes the
    /// words of `stopwords` when `options` ask for stopword removal.
    pub fn with_stopwords(options: AnalysisOptions, stopwords: Vec<String>) -> (a: Self)
        requires
            options.spec_valid(),
            !options.ascii_folding,
        ensures
            a.spec_options() == options,
            a.spec_stopwords() == stopwords@.map_values(|w: String| w@),
    {
        Analyzer { options, stopwords }
    }

    /// Whether `word` is one of the stopwords.
    fn is_stopword(&self, word: &String) -> (r: bool)
        ensures
            r == self.spec_stopwords().contains(word@),
    {
        let mut i: usize = 0;
        while i < self.stopwords.len()
            invariant
                i <= self.stopwords@.len(),
                forall|k: int| 0 <= k < i ==> (#[trigger] self.stopwords@[k])@ != word@,
            decreases self.stopwords@.len() - i,
        {
            if self.stopwords[i] == *word {
                proof {
                    assert(self.spec_stopwords()[i as int] == word@);
                }
                return true;
            }
            i = i + 1;
        }
        proof {
            if self.spec_stopwords().contains(word@) {
                let k = choose|k: int|
                    0 <= k < self.spec_stopwords().len() && self.spec_stopwords()[k] == word@;
                assert(self.stopwords@[k]@ == word@);
            }
        }
        false
    }

    /// The normalized text of the raw token `chars[a..b]`, or `None` where
    /// a stage drops it; `raw_bytes` is its length in bytes.
    fn normalize_span(
        &self,
        chars: &Vec<char>,
        a: usize,
        b: usize,
        raw_bytes: usize,
        cache: &mut StemmingCache,
    ) -> (r: Option<String>)
        requires
            a <= b <= chars@.len(),
            raw_bytes == utf8_len(chars@.subrange(a as int, b as int)),
            self.cache_ready(&*old(cache)),
        ensures
            self.cache_ready(&*final(cache)),
            match r {
                Some(t) => self.spec_options().normalize(
                    self.spec_stopwords(),
                    chars@.subrange(a as int, b as int),
                ) == Some(t@),
                None => self.spec_options().normalize(
                    self.spec_stopwords(),
                    chars@.subrange(a as int, b as int),
                ) is None,
            },
    {
        let ghost raw = chars@.subrange(a as int, b as int);
        if let Some(max_token_length) = self.options.maximum_token_length {
            if raw_bytes > max_token_length {
                return None;
            }
        }
        let mut text = String::new();
        let mut j: usize = a;
        while j < b
            invariant
                a <= j <= b <= chars@.len(),
                text@ == (if self.options.case_sensitive {
                    chars@.subrange(a as int, j as int)
                } else {
                    lower_chars(chars@.subrange(a as int, j as int))
                }),
            decreases b - j,
        {
            let c = chars[j];
            if self.options.case_sensitive {
                push_char(&mut text, c);
            } else {
                let lowered = unicode_v17_char_to_lower(c);
                push_chars(&mut text, lowered.as_slice());
            }
            proof {
                let s = chars@.subrange(a as int, j as int + 1);
                assert(s.drop_last() =~= chars@.subrange(a as int, j as int));
                assert(s.last() == c);
            }
            j = j + 1;
        }
        if self.options.stopword_removal.is_some() && self.is_stopword(&text) {
            return None;
        }
        match self.options.stemming {
            Some(language) => Some(stem_in_place(language, text, cache)),
            None => Some(text),
        }
    }

    /// Appends to `out` the token of the word-like span `chars[a..b]`, at
    /// bytes `start..end`, unless a stage drops it.
    fn emit_span(
        &self,
        chars: &Vec<char>,
        a: usize,
        b: usize,
        start: usize,
        end: usize,
        position: usize,
        input_index: usize,
        out: &mut Vec<Token>,
        cache: &mut StemmingCache,
    )
        requires
            a <= b <= chars@.len(),
            start == byte_offset(chars@, a as int),
            end == byte_offset(chars@, b as int),
            self.cache_ready(&*old(cache)),
        ensures
            self.cache_ready(&*final(cache)),
            token_views(final(out)@) == token_views(old(out)@) + self.spec_options().span_token(
                self.spec_stopwords(),
                chars@,
                (a as int, b as int),
                input_index as int,
                position as int,
            ),
    {
        proof {
            lemma_byte_offset_span(chars@, a as int, b as int);
        }
        let normalized = self.normalize_span(chars, a, b, end - start, cache);
        match normalized {
            Some(text) => {
                let token = Token { text, position, byte_range: start..end, input_index };
                let ghost before = out@;
                out.push(token);
                proof {
                    assert(token_views(out@) =~= token_views(before) + seq![token@]);
                }
            },
            None => {
                proof {
                    assert(token_views(out@) =~= token_views(out@) + Seq::<TokenView>::empty());
                }
            },
        }
    }

    /// Appends the tokens of `input`, number `input_index`, to `out`; its
    /// word-like tokens take positions from `*next_position` on.
    #[verifier::rlimit(60)]
    fn analyze_one(
        &self,
        input: &str,
        input_index: usize,
        next_position: &mut usize,
        out: &mut Vec<Token>,
        cache: &mut StemmingCache,
    )
        requires
            *old(next_position) + word_spans(input@).len() <= usize::MAX,
            self.cache_ready(&*old(cache)),
        ensures
            self.cache_ready(&*final(cache)),
            token_views(final(out)@) == token_views(old(out)@) + self.spec_options().input_tokens(
                self.spec_stopwords(),
                input@,
                input_index as int,
                *old(next_position) as int,
            ),
            *final(next_position) == *old(next_position) + word_spans(input@).len(),
    {
        let ghost chars_v = input@;
        let ghost segs = word_segments(input@);
        let ghost p0 = *next_position as int;
        let ghost out0 = token_views(out@);
        let chars = chars_of(input);
        let tokenizer_options = match self.options.tokenizer {
            TokenizerOptions::UAX29Word(o) => o,
        };
        let breaks = uax29::word::tokenize(input, tokenizer_options);
        proof {
            law_word_segments_partition(input@);
            crate::text::lemma_byte_offset_end(input);
        }
        if breaks.len() == 0 {
            proof {
                assert(word_spans(input@) =~= Seq::<(int, int)>::empty());
                assert(token_views(out@) =~= out0 + Seq::<TokenView>::empty());
            }
            return;
        }
        proof {
            assert(segs.take(1).len() == 1);
            assert(token_views(out@) =~= out0 + Seq::<TokenView>::empty());
            assert(breaks@[0].0 == byte_offset(chars_v, segs[0].0));
        }
        let mut k: usize = 1;
        let mut ci: usize = 0;
        let mut pos: usize = 0;
        while k < breaks.len()
            invariant
                chars@ == chars_v,
                chars_v == input@,
                segs == word_segments(chars_v),
                chars_v.len() > 0,
                uax29::word::breakpoints_match(chars_v, breaks@, segs),
                segs.len() >= 2,
                segs.last().0 == chars_v.len(),
                forall|m: int| 0 <= m < segs.len() ==> 0 <= #[trigger] segs[m].0 <= chars_v.len(),
                forall|m: int| 0 < m < segs.len() ==> segs[m - 1].0 < #[trigger] segs[m].0,
                1 <= k <= breaks@.len(),
                ci == segs[k - 1].0,
                pos == breaks@[k - 1].0,
                pos == byte_offset(chars_v, ci as int),
                p0 + word_spans(chars_v).len() <= usize::MAX,
                self.cache_ready(&*cache),
                token_views(out@) == out0 + self.spec_options().span_tokens(
                    self.spec_stopwords(),
                    chars_v,
                    word_like_spans(segs.take(k as int)),
                    input_index as int,
                    p0,
                ),
                *next_position == p0 + word_like_spans(segs.take(k as int)).len(),
            decreases breaks@.len() - k,
        {
            let (bp, props) = breaks[k];
            let prev_ci = ci;
            let prev_pos = pos;
            let ghost spans = word_like_spans(segs.take(k as int));
            proof {
                let t = segs.take(k as int + 1);
                assert(t.drop_last() =~= segs.take(k as int));
                assert(t[k as int] == segs[k as int]);
                assert(t[k as int - 1] == segs[k as int - 1]);
                lemma_spans_prefix_len(segs, k as int + 1, segs.len() as int);
                assert(segs.take(segs.len() as int) =~= segs);
            }
            let (ci2, pos2) = advance_to(&chars, ci, pos, bp, Ghost(segs[k as int].0));
            ci = ci2;
            pos = pos2;
            if props.is_word_like() {
                let position = *next_position;
                *next_position = *next_position + 1;
                proof {
                    lemma_span_tokens_push(
                        self.spec_options(),
                        self.spec_stopwords(),
                        chars_v,
                        spans,
                        (prev_ci as int, ci as int),
                        input_index as int,
                        p0,
                    );
                }
                self.emit_span(
                    &chars,
                    prev_ci,
                    ci,
                    prev_pos,
                    bp,
                    position,
                    input_index,
                    out,
                    cache,
                );
            }
            k = k + 1;
        }
        proof {
            assert(segs.take(k as int) =~= segs);
        }
    }

    /// The tokens of the single input `input`.
    pub fn analyze(&self, input: &str, buffer: &mut ReusableBuffer) -> (tokens: Vec<Token>)
        ensures
            token_views(tokens@) == self.spec_options().input_tokens(
                self.spec_stopwords(),
                input@,
                0,
                0,
            ),
    {
        let inputs: [&str; 1] = [input];
        let ghost views = str_views(inputs@);
        let n = crate::text::byte_len(input);
        proof {
            assert(views =~= seq![input@]);
            assert(views.drop_last() =~= Seq::<Seq<char>>::empty());
            assert(views.last() == input@);
            assert(views[0] == input@);
            assert(word_count(Seq::<Seq<char>>::empty()) == 0);
            assert(self.spec_options().inputs_tokens(
                self.spec_stopwords(),
                Seq::<Seq<char>>::empty(),
            ) == Seq::<TokenView>::empty());
            lemma_word_spans_fit(input@);
            assert(word_count(views) == word_spans(input@).len());
            assert(self.spec_analyze(views) =~= Seq::<TokenView>::empty()
                + self.spec_options().input_tokens(self.spec_stopwords(), input@, 0, 0));
        }
        self.analyze_inputs(inputs.as_slice(), buffer)
    }

    /// Analyzes `inputs` as `analyze_inputs` does and hands the tokens, in
    /// order, to `consumer`, stopping after the first one after which it
    /// wants no more.
    pub fn analyze_inputs_with<C: Consumer<Token>>(
        &self,
        inputs: &[&str],
        buffer: &mut ReusableBuffer,
        consumer: &mut C,
    )
        requires
            word_count(str_views(inputs@)) <= usize::MAX,
        ensures
            extends(old(consumer).taken(), final(consumer).taken()),
            handed_until_stop(
                self.spec_analyze(str_views(inputs@)),
                call_views(handed_since(old(consumer).taken(), final(consumer).taken())),
            ),
    {
        let tokens = self.analyze_inputs(inputs, buffer);
        let ghost full = tokens@;
        hand_over(tokens, consumer);
        proof {
            lemma_handed_views(full, handed_since(old(consumer).taken(), consumer.taken()));
        }
    }

    /// The tokens of `inputs`, positions running on across them.
    pub fn analyze_inputs(&self, inputs: &[&str], buffer: &mut ReusableBuffer) -> (tokens: Vec<
        Token,
    >)
        requires
            word_count(str_views(inputs@)) <= usize::MAX,
        ensures
            token_views(tokens@) == self.spec_analyze(str_views(inputs@)),
    {
        let ghost views = str_views(inputs@);
        let mut out: Vec<Token> = Vec::new();
        let mut next_position: usize = 0;
        let cache = buffer.stemming_cache();
        if let Some(language) = self.options.stemming {
            cache.use_language(language);
        }
        let mut i: usize = 0;
        proof {
            assert(views.take(0) =~= Seq::<Seq<char>>::empty());
            assert(token_views(out@) =~= Seq::<TokenView>::empty());
        }
        while i < inputs.len()
            invariant
                views == str_views(inputs@),
                i <= inputs@.len(),
                word_count(views) <= usize::MAX,
                token_views(out@) == self.spec_options().inputs_tokens(
                    self.spec_stopwords(),
                    views.take(i as int),
                ),
                next_position == word_count(views.take(i as int)),
                self.cache_ready(&*cache),
            decreases inputs@.len() - i,
        {
            proof {
                let t = views.take(i as int + 1);
                assert(t.drop_last() =~= views.take(i as int));
                assert(t.last() == inputs@[i as int]@);
                lemma_word_count_prefix(views, i as int + 1, views.len() as int);
                assert(views.take(views.len() as int) =~= views);
            }
            self.analyze_one(inputs[i], i, &mut next_position, &mut out, cache);
            i = i + 1;
        }
        proof {
            assert(views.take(i as int) =~= views);
        }
        out
    }
}

/// A prefix of the segments has no more word-like spans than a longer one.
proof fn lemma_spans_prefix_len(segs: Seq<(int, TokenProperties)>, k: int, m: int)
    requires
        0 <= k <= m <= segs.len(),
    ensures
        word_like_spans(segs.take(k)).len() <= word_like_spans(segs.take(m)).len(),
    decreases m - k,
{
    if k < m {
        lemma_spans_prefix_len(segs, k, m - 1);
        assert(segs.take(m).drop_last() =~= segs.take(m - 1));
    }
}

/// A prefix of the inputs has no more word-like tokens than a longer one.
proof fn lemma_word_count_prefix(inputs: Seq<Seq<char>>, k: int, m: int)
    requires
        0 <= k <= m <= inputs.len(),
    ensures
        word_count(inputs.take(k)) <= word_count(inputs.take(m)),
    decreases m - k,
{
    if k < m {
        lemma_word_count_prefix(inputs, k, m - 1);
        assert(inputs.take(m).drop_last() =~= inputs.take(m - 1));
    }
}

/// Moves the char cursor `ci`, at byte `pos`, on to the char at byte `bp`,
/// which is char `target`.
fn advance_to(chars: &Vec<char>, ci: usize, pos: usize, bp: usize, Ghost(target): Ghost<int>) -> (r:
    (usize, usize))
    requires
        ci <= target <= chars@.len(),
        pos == byte_offset(chars@, ci as int),
        bp == byte_offset(chars@, target),
    ensures
        r.0 == target,
        r.1 == bp,
{
    let n = chars.len();
    let mut ci = ci;
    let mut pos = pos;
    while pos < bp
        invariant
            0 <= ci <= target <= chars@.len(),
            n == chars@.len(),
            pos == byte_offset(chars@, ci as int),
            bp == byte_offset(chars@, target),
        decreases target - ci,
    {
        proof {
            assert(ci < target);
            lemma_byte_offset_step(chars@, ci as int);
            crate::text::lemma_byte_offset_monotone(chars@, ci as int + 1, target);
        }
        pos = pos + char_len_utf8(chars[ci]);
        ci = ci + 1;
    }
    proof {
        if ci < target {
            lemma_byte_offset_strictly_increasing(chars@, ci as int, target);
        }
    }
    (ci, pos)
}

/// Extending the spans by one extends the tokens by that span's token.
proof fn lemma_span_tokens_push(
    options: AnalysisOptions,
    stopwords: Seq<Seq<char>>,
    chars: Seq<char>,
    spans: Seq<(int, int)>,
    span: (int, int),
    input_index: int,
    first_position: int,
)
    ensures
        options.span_tokens(stopwords, chars, spans.push(span), input_index, first_position)
            == options.span_tokens(stopwords, chars, spans, input_index, first_position)
            + options.span_token(stopwords, chars, span, input_index, first_position + spans.len()),
{
    let s2 = spans.push(span);
    assert(s2.drop_last() =~= spans);
    let prev = options.span_tokens(stopwords, chars, spans, input_index, first_position);
    match options.normalize(stopwords, chars.subrange(span.0, span.1)) {
        Some(text) => {
            assert(prev.push(
                TokenView {
                    text,
                    position: first_position + spans.len(),
                    start: byte_offset(chars, span.0) as int,
                    end: byte_offset(chars, span.1) as int,
                    input_index,
                },
            ) =~= prev + options.span_token(
                stopwords,
                chars,
                span,
                input_index,
                first_position + spans.len(),
            ));
        },
        None => {
            assert(prev =~= prev + Seq::<TokenView>::empty());
        },
    }
}

/// There are fewer word-like spans than segments.
proof fn lemma_spans_len(segs: Seq<(int, TokenProperties)>)
    ensures
        segs.len() >= 1 ==> word_like_spans(segs).len() <= segs.len() - 1,
        segs.len() == 0 ==> word_like_spans(segs).len() == 0,
    decreases segs.len(),
{
    if segs.len() > 1 {
        lemma_spans_len(segs.drop_last());
    }
}

/// Strictly increasing char indices from 0 reach at least their count less one.
proof fn lemma_segments_spread(segs: Seq<(int, TokenProperties)>, k: int)
    requires
        0 <= k < segs.len(),
        segs[0].0 == 0,
        forall|m: int| 0 < m < segs.len() ==> segs[m - 1].0 < #[trigger] segs[m].0,
    ensures
        segs[k].0 >= k,
    decreases k,
{
    if k > 0 {
        lemma_segments_spread(segs, k - 1);
    }
}

/// A string has no more word-like tokens than bytes.
proof fn lemma_word_spans_fit(chars: Seq<char>)
    requires
        utf8_len(chars) <= usize::MAX,
    ensures
        word_spans(chars).len() <= usize::MAX,
{
    let segs = word_segments(chars);
    law_word_segments_partition(chars);
    lemma_spans_len(segs);
    if chars.len() > 0 {
        lemma_segments_spread(segs, segs.len() - 1);
    }
    crate::text::lemma_chars_at_most_bytes(chars);
}

} // verus!
