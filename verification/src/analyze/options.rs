//! Options of the language bindings: the language names they accept and
//! the checks that turn their flags into `AnalysisOptions`.
use vstd::prelude::*;

use crate::analyze::{
    AnalysisOptions, LanguageWithStopwords, StemmingLanguage, StopwordRemoval, TokenizerOptions,
};
use crate::text::{push_str, str_eq};
use crate::uax29;

verus! {

/// The stemming algorithm of the language named `name`, if there is one.
pub open spec fn spec_stemming_language(name: Seq<char>) -> Option<StemmingLanguage> {
    if name == "arabic"@ {
        Some(StemmingLanguage::Arabic)
    } else if name == "danish"@ {
        Some(StemmingLanguage::Danish)
    } else if name == "dutch"@ {
        Some(StemmingLanguage::Dutch)
    } else if name == "english"@ {
        Some(StemmingLanguage::English)
    } else if name == "finnish"@ {
        Some(StemmingLanguage::Finnish)
    } else if name == "french"@ {
        Some(StemmingLanguage::French)
    } else if name == "german"@ {
        Some(StemmingLanguage::German)
    } else if name == "greek"@ {
        Some(StemmingLanguage::Greek)
    } else if name == "hungarian"@ {
        Some(StemmingLanguage::Hungarian)
    } else if name == "italian"@ {
        Some(StemmingLanguage::Italian)
    } else if name == "norwegian"@ {
        Some(StemmingLanguage::Norwegian)
    } else if name == "portuguese"@ {
        Some(StemmingLanguage::Portuguese)
    } else if name == "romanian"@ {
        Some(StemmingLanguage::Romanian)
    } else if name == "russian"@ {
        Some(StemmingLanguage::Russian)
    } else if name == "spanish"@ {
        Some(StemmingLanguage::Spanish)
    } else if name == "swedish"@ {
        Some(StemmingLanguage::Swedish)
    } else if name == "tamil"@ {
        Some(StemmingLanguage::Tamil)
    } else if name == "turkish"@ {
        Some(StemmingLanguage::Turkish)
    } else {
        None
    }
}

/// The stemming algorithm of the language named `language`, if there is one.
pub fn stemming_language(language: &str) -> (r: Option<StemmingLanguage>)
    ensures
        r == spec_stemming_language(language@),
{
    if str_eq(language, "arabic") {
        Some(StemmingLanguage::Arabic)
    } else if str_eq(language, "danish") {
        Some(StemmingLanguage::Danish)
    } else if str_eq(language, "dutch") {
        Some(StemmingLanguage::Dutch)
    } else if str_eq(language, "english") {
        Some(StemmingLanguage::English)
    } else if str_eq(language, "finnish") {
        Some(StemmingLanguage::Finnish)
    } else if str_eq(language, "french") {
        Some(StemmingLanguage::French)
    } else if str_eq(language, "german") {
        Some(StemmingLanguage::German)
    } else if str_eq(language, "greek") {
        Some(StemmingLanguage::Greek)
    } else if str_eq(language, "hungarian") {
        Some(StemmingLanguage::Hungarian)
    } else if str_eq(language, "italian") {
        Some(StemmingLanguage::Italian)
    } else if str_eq(language, "norwegian") {
        Some(StemmingLanguage::Norwegian)
    } else if str_eq(language, "portuguese") {
        Some(StemmingLanguage::Portuguese)
    } else if str_eq(language, "romanian") {
        Some(StemmingLanguage::Romanian)
    } else if str_eq(language, "russian") {
        Some(StemmingLanguage::Russian)
    } else if str_eq(language, "spanish") {
        Some(StemmingLanguage::Spanish)
    } else if str_eq(language, "swedish") {
        Some(StemmingLanguage::Swedish)
    } else if str_eq(language, "tamil") {
        Some(StemmingLanguage::Tamil)
    } else if str_eq(language, "turkish") {
        Some(StemmingLanguage::Turkish)
    } else {
        None
    }
}

/// The stopword list of the language named `name`, if there is one.
pub open spec fn spec_stopword_language(name: Seq<char>) -> Option<LanguageWithStopwords> {
    if name == "danish"@ {
        Some(LanguageWithStopwords::Danish)
    } else if name == "dutch"@ {
        Some(LanguageWithStopwords::Dutch)
    } else if name == "english"@ {
        Some(LanguageWithStopwords::English)
    } else if name == "finnish"@ {
        Some(LanguageWithStopwords::Finnish)
    } else if name == "french"@ {
        Some(LanguageWithStopwords::French)
    } else if name == "german"@ {
        Some(LanguageWithStopwords::German)
    } else if name == "hungarian"@ {
        Some(LanguageWithStopwords::Hungarian)
    } else if name == "italian"@ {
        Some(LanguageWithStopwords::Italian)
    } else if name == "norwegian"@ {
        Some(LanguageWithStopwords::Norwegian)
    } else if name == "portuguese"@ {
        Some(LanguageWithStopwords::Portuguese)
    } else if name == "russian"@ {
        Some(LanguageWithStopwords::Russian)
    } else if name == "spanish"@ {
        Some(LanguageWithStopwords::Spanish)
    } else if name == "swedish"@ {
        Some(LanguageWithStopwords::Swedish)
    } else {
        None
    }
}

/// The stopword list of the language named `language`, if there is one.
pub fn stopword_language(language: &str) -> (r: Option<LanguageWithStopwords>)
    ensures
        r == spec_stopword_language(language@),
{
    if str_eq(language, "danish") {
        Some(LanguageWithStopwords::Danish)
    } else if str_eq(language, "dutch") {
        Some(LanguageWithStopwords::Dutch)
    } else if str_eq(language, "english") {
        Some(LanguageWithStopwords::English)
    } else if str_eq(language, "finnish") {
        Some(LanguageWithStopwords::Finnish)
    } else if str_eq(language, "french") {
        Some(LanguageWithStopwords::French)
    } else if str_eq(language, "german") {
        Some(LanguageWithStopwords::German)
    } else if str_eq(language, "hungarian") {
        Some(LanguageWithStopwords::Hungarian)
    } else if str_eq(language, "italian") {
        Some(LanguageWithStopwords::Italian)
    } else if str_eq(language, "norwegian") {
        Some(LanguageWithStopwords::Norwegian)
    } else if str_eq(language, "portuguese") {
        Some(LanguageWithStopwords::Portuguese)
    } else if str_eq(language, "russian") {
        Some(LanguageWithStopwords::Russian)
    } else if str_eq(language, "spanish") {
        Some(LanguageWithStopwords::Spanish)
    } else if str_eq(language, "swedish") {
        Some(LanguageWithStopwords::Swedish)
    } else {
        None
    }
}

/// Why a combination of binding options is refused.
#[derive(Debug, Clone)]
pub enum OptionsError {
    /// Stemming needs case-insensitive tokens.
    StemmingCaseSensitive,
    /// Stopword removal needs case-insensitive tokens.
    StopwordsCaseSensitive,
    /// Stemming and stopword removal need a language.
    LanguageRequired,
    /// No stemming algorithm for the language.
    StemmingUnsupported(String),
    /// No stopword list for the language.
    StopwordsUnsupported(String),
    /// The maximum token length is not between 1 and 255.
    MaxTokenLength,
}

impl OptionsError {
    /// The message of the error, as the bindings report it.
    pub open spec fn spec_message(&self) -> Seq<char> {
        match self {
            OptionsError::StemmingCaseSensitive =>
                "stemming is not supported when case sensitivity is enabled"@,
            OptionsError::StopwordsCaseSensitive =>
                "stopword removal is not supported when case sensitivity is enabled"@,
            OptionsError::LanguageRequired =>
                "language must be provided when stemming or stopword removal is enabled"@,
            OptionsError::StemmingUnsupported(l) => "stemming is not supported for language: "@
                + l@,
            OptionsError::StopwordsUnsupported(l) =>
                "stopword removal is not supported for language: "@ + l@,
            OptionsError::MaxTokenLength => "max_token_length must be between 1 and 255"@,
        }
    }

    /// The message of the error, as the bindings report it.
    pub fn message(&self) -> (m: String)
        ensures
            m@ == self.spec_message(),
    {
        let mut m = String::new();
        match self {
            OptionsError::StemmingCaseSensitive => {
                push_str(&mut m, "stemming is not supported when case sensitivity is enabled");
            },
            OptionsError::StopwordsCaseSensitive => {
                push_str(
                    &mut m,
                    "stopword removal is not supported when case sensitivity is enabled",
                );
            },
            OptionsError::LanguageRequired => {
                push_str(
                    &mut m,
                    "language must be provided when stemming or stopword removal is enabled",
                );
            },
            OptionsError::StemmingUnsupported(l) => {
                push_str(&mut m, "stemming is not supported for language: ");
                push_str(&mut m, l.as_str());
            },
            OptionsError::StopwordsUnsupported(l) => {
                push_str(&mut m, "stopword removal is not supported for language: ");
                push_str(&mut m, l.as_str());
            },
            OptionsError::MaxTokenLength => {
                push_str(&mut m, "max_token_length must be between 1 and 255");
            },
        }
        m
    }
}

/// Whether `e` is the error that `build_options` gives for these flags, in
/// the order the bindings check them; `None` where none applies.
pub open spec fn options_error_matches(
    case_sensitive: bool,
    stemming: bool,
    remove_stopwords: bool,
    language: Option<Seq<char>>,
    max_token_length: Option<usize>,
    e: OptionsError,
) -> bool {
    if stemming && case_sensitive {
        e is StemmingCaseSensitive
    } else if remove_stopwords && case_sensitive {
        e is StopwordsCaseSensitive
    } else if (stemming || remove_stopwords) && language is None {
        e is LanguageRequired
    } else if stemming && spec_stemming_language(language->0) is None {
        e matches OptionsError::StemmingUnsupported(l) && l@ == language->0
    } else if remove_stopwords && spec_stopword_language(language->0) is None {
        e matches OptionsError::StopwordsUnsupported(l) && l@ == language->0
    } else if max_token_length matches Some(m) && (m == 0 || m > 255) {
        e is MaxTokenLength
    } else {
        false
    }
}

/// Whether the flags pass every check.
pub open spec fn options_accepted(
    case_sensitive: bool,
    stemming: bool,
    remove_stopwords: bool,
    language: Option<Seq<char>>,
    max_token_length: Option<usize>,
) -> bool {
    &&& !(stemming && case_sensitive)
    &&& !(remove_stopwords && case_sensitive)
    &&& !((stemming || remove_stopwords) && language is None)
    &&& !(stemming && spec_stemming_language(language->0) is None)
    &&& !(remove_stopwords && spec_stopword_language(language->0) is None)
    &&& !(max_token_length matches Some(m) && (m == 0 || m > 255))
}

/// The `AnalysisOptions` for the flags of a binding: stemming and stopword
/// removal for `language`, which must name a language that has them, both
/// only without case sensitivity, and a maximum token length (if any) from 1
/// to 255. Accepted options always satisfy `AnalysisOptions::valid`.
pub fn build_options(
    case_sensitive: bool,
    ascii_folding: bool,
    stemming: bool,
    remove_stopwords: bool,
    language: Option<&str>,
    max_token_length: Option<usize>,
) -> (r: Result<AnalysisOptions, OptionsError>)
    ensures
        ({
            let lang = match language {
                Some(l) => Some(l@),
                None => None,
            };
            match r {
                Ok(o) => options_accepted(
                    case_sensitive,
                    stemming,
                    remove_stopwords,
                    lang,
                    max_token_length,
                ) && o.spec_valid() && o.tokenizer == TokenizerOptions::UAX29Word(
                    uax29::word::Options {  },
                ) && o.maximum_token_length == max_token_length && o.case_sensitive
                    == case_sensitive && o.ascii_folding == ascii_folding && o.stemming == (if stemming {
                    spec_stemming_language(lang->0)
                } else {
                    None
                }) && o.stopword_removal == (if remove_stopwords {
                    Some(StopwordRemoval::ForLanguage(spec_stopword_language(lang->0)->0))
                } else {
                    None
                }),
                Err(e) => options_error_matches(
                    case_sensitive,
                    stemming,
                    remove_stopwords,
                    lang,
                    max_token_length,
                    e,
                ),
            }
        }),
{
    if stemming && case_sensitive {
        return Err(OptionsError::StemmingCaseSensitive);
    }
    if remove_stopwords && case_sensitive {
        return Err(OptionsError::StopwordsCaseSensitive);
    }
    if (stemming || remove_stopwords) && language.is_none() {
        return Err(OptionsError::LanguageRequired);
    }
    let stemming_algorithm = if stemming {
        let name = language.unwrap();
        match stemming_language(name) {
            Some(l) => Some(l),
            None => {
                let mut owned = String::new();
                push_str(&mut owned, name);
                return Err(OptionsError::StemmingUnsupported(owned));
            },
        }
    } else {
        None
    };
    let stopword_removal = if remove_stopwords {
        let name = language.unwrap();
        match stopword_language(name) {
            Some(l) => Some(StopwordRemoval::ForLanguage(l)),
            None => {
                let mut owned = String::new();
                push_str(&mut owned, name);
                return Err(OptionsError::StopwordsUnsupported(owned));
            },
        }
    } else {
        None
    };
    if let Some(m) = max_token_length {
        if m == 0 || m > 255 {
            return Err(OptionsError::MaxTokenLength);
        }
    }
    Ok(
        AnalysisOptions {
            tokenizer: TokenizerOptions::UAX29Word(uax29::word::Options {  }),
            maximum_token_length: max_token_length,
            case_sensitive,
            stopword_removal,
            stemming: stemming_algorithm,
            ascii_folding,
        },
    )
}

} // verus!
