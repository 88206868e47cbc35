//! The Word_Break property of chars, and the per-char contributions to a
//! token's `TokenProperties`.
use vstd::prelude::*;

use tpuf_icu_properties_211::props::{
    ExtendedPictographic, GeneralCategory, Ideographic, Script, WordBreak,
};
use tpuf_icu_properties_211::{CodePointMapData, CodePointSetData};

verus! {

/// Values of the Word_Break property, as defined in
/// [UAX #29](https://www.unicode.org/reports/tr29/#Word_Break_Property).
#[derive(Clone, Copy, Debug, PartialEq, Eq, Structural)]
pub enum WordBreakProperty {
    Other,
    ALetter,
    Format,
    Katakana,
    MidLetter,
    MidNum,
    Numeric,
    ExtendNumLet,
    CR,
    Extend,
    LF,
    MidNumLet,
    Newline,
    RegionalIndicator,
    HebrewLetter,
    SingleQuote,
    DoubleQuote,
    ZWJ,
    WSegSpace,
}

/// Number of `WordBreakProperty` values.
pub const NUM_WORD_BREAK_PROPERTIES: usize = 19;

impl WordBreakProperty {
    /// Position of this value in the declaration order (the column of the
    /// transition table).
    pub open spec fn idx(self) -> int {
        match self {
            WordBreakProperty::Other => 0,
            WordBreakProperty::ALetter => 1,
            WordBreakProperty::Format => 2,
            WordBreakProperty::Katakana => 3,
            WordBreakProperty::MidLetter => 4,
            WordBreakProperty::MidNum => 5,
            WordBreakProperty::Numeric => 6,
            WordBreakProperty::ExtendNumLet => 7,
            WordBreakProperty::CR => 8,
            WordBreakProperty::Extend => 9,
            WordBreakProperty::LF => 10,
            WordBreakProperty::MidNumLet => 11,
            WordBreakProperty::Newline => 12,
            WordBreakProperty::RegionalIndicator => 13,
            WordBreakProperty::HebrewLetter => 14,
            WordBreakProperty::SingleQuote => 15,
            WordBreakProperty::DoubleQuote => 16,
            WordBreakProperty::ZWJ => 17,
            WordBreakProperty::WSegSpace => 18,
        }
    }

    /// Position of this value in the declaration order.
    pub fn index(self) -> (i: usize)
        ensures
            i == self.idx(),
            i < NUM_WORD_BREAK_PROPERTIES,
    {
        match self {
            WordBreakProperty::Other => 0,
            WordBreakProperty::ALetter => 1,
            WordBreakProperty::Format => 2,
            WordBreakProperty::Katakana => 3,
            WordBreakProperty::MidLetter => 4,
            WordBreakProperty::MidNum => 5,
            WordBreakProperty::Numeric => 6,
            WordBreakProperty::ExtendNumLet => 7,
            WordBreakProperty::CR => 8,
            WordBreakProperty::Extend => 9,
            WordBreakProperty::LF => 10,
            WordBreakProperty::MidNumLet => 11,
            WordBreakProperty::Newline => 12,
            WordBreakProperty::RegionalIndicator => 13,
            WordBreakProperty::HebrewLetter => 14,
            WordBreakProperty::SingleQuote => 15,
            WordBreakProperty::DoubleQuote => 16,
            WordBreakProperty::ZWJ => 17,
            WordBreakProperty::WSegSpace => 18,
        }
    }

    /// Whether `c` has the Extended_Pictographic property. A char can be
    /// Extended_Pictographic and have another Word_Break value at once.
    pub fn is_ext_pictographic(c: char) -> (r: bool)
        ensures
            r == icu_extended_pictographic(c),
    {
        icu_is_extended_pictographic(c)
    }
}

/// The Word_Break value that ICU's Unicode data assigns to `c`, as the
/// numeric `UWordBreak` code.
pub uninterp spec fn icu_word_break(c: char) -> u8;

/// Whether ICU's Unicode data gives `c` the Extended_Pictographic property.
pub uninterp spec fn icu_extended_pictographic(c: char) -> bool;

/// Whether ICU's Unicode data gives `c` the Ideographic property.
pub uninterp spec fn icu_ideographic(c: char) -> bool;

/// The Script value that ICU's Unicode data assigns to `c`, as the numeric
/// `UScriptCode`.
pub uninterp spec fn icu_script(c: char) -> u16;

/// The General_Category value that ICU's Unicode data assigns to `c`, as the
/// numeric code of `GeneralCategory`.
pub uninterp spec fn icu_general_category(c: char) -> u8;

/// Looks `c` up in `CodePointMapData::<WordBreak>` (tpuf_icu_properties_211)
/// and returns `WordBreak::to_icu4c_value` of the result. The contract only
/// names the value: it is a function of `c` alone.
#[verifier::external_body]
fn icu_word_break_value(c: char) -> (r: u8)
    ensures
        r == icu_word_break(c),
{
    CodePointMapData::<WordBreak>::new().get(c).to_icu4c_value()
}

/// Calls `CodePointSetDataBorrowed::contains` on the ExtendedPictographic set
/// (tpuf_icu_properties_211). The contract only names the result.
#[verifier::external_body]
fn icu_is_extended_pictographic(c: char) -> (r: bool)
    ensures
        r == icu_extended_pictographic(c),
{
    CodePointSetData::new::<ExtendedPictographic>().contains(c)
}

/// Calls `CodePointSetDataBorrowed::contains` on the Ideographic set
/// (tpuf_icu_properties_211). The contract only names the result.
#[verifier::external_body]
fn icu_is_ideographic(c: char) -> (r: bool)
    ensures
        r == icu_ideographic(c),
{
    CodePointSetData::new::<Ideographic>().contains(c)
}

/// Looks `c` up in `CodePointMapData::<Script>` (tpuf_icu_properties_211) and
/// returns `Script::to_icu4c_value` of the result. The contract only names it.
#[verifier::external_body]
fn icu_script_value(c: char) -> (r: u16)
    ensures
        r == icu_script(c),
{
    CodePointMapData::<Script>::new().get(c).to_icu4c_value()
}

/// Looks `c` up in `CodePointMapData::<GeneralCategory>`
/// (tpuf_icu_properties_211); the result is the `repr(u8)` code of the
/// `GeneralCategory` variant. The contract only names it.
#[verifier::external_body]
fn icu_general_category_value(c: char) -> (r: u8)
    ensures
        r == icu_general_category(c),
{
    CodePointMapData::<GeneralCategory>::new().get(c) as u8
}

/// The library's Word_Break value for an ICU `UWordBreak` code. The obsolete
/// codes (E_Base, E_Base_GAZ, E_Modifier, Glue_After_Zwj), which current
/// Unicode data never assigns, map to `Other`.
pub open spec fn word_break_of_icu(v: u8) -> WordBreakProperty {
    if v == 1 {
        WordBreakProperty::ALetter
    } else if v == 2 {
        WordBreakProperty::Format
    } else if v == 3 {
        WordBreakProperty::Katakana
    } else if v == 4 {
        WordBreakProperty::MidLetter
    } else if v == 5 {
        WordBreakProperty::MidNum
    } else if v == 6 {
        WordBreakProperty::Numeric
    } else if v == 7 {
        WordBreakProperty::ExtendNumLet
    } else if v == 8 {
        WordBreakProperty::CR
    } else if v == 9 {
        WordBreakProperty::Extend
    } else if v == 10 {
        WordBreakProperty::LF
    } else if v == 11 {
        WordBreakProperty::MidNumLet
    } else if v == 12 {
        WordBreakProperty::Newline
    } else if v == 13 {
        WordBreakProperty::RegionalIndicator
    } else if v == 14 {
        WordBreakProperty::HebrewLetter
    } else if v == 15 {
        WordBreakProperty::SingleQuote
    } else if v == 16 {
        WordBreakProperty::DoubleQuote
    } else if v == 21 {
        WordBreakProperty::ZWJ
    } else if v == 22 {
        WordBreakProperty::WSegSpace
    } else {
        WordBreakProperty::Other
    }
}

/// Looks up the Word_Break property of `c` in ICU's Unicode data.
pub fn lookup_word_break_property_from_dictionary(c: char) -> (p: WordBreakProperty)
    ensures
        p == word_break_of_icu(icu_word_break(c)),
{
    let v = icu_word_break_value(c);
    if v == 1 {
        WordBreakProperty::ALetter
    } else if v == 2 {
        WordBreakProperty::Format
    } else if v == 3 {
        WordBreakProperty::Katakana
    } else if v == 4 {
        WordBreakProperty::MidLetter
    } else if v == 5 {
        WordBreakProperty::MidNum
    } else if v == 6 {
        WordBreakProperty::Numeric
    } else if v == 7 {
        WordBreakProperty::ExtendNumLet
    } else if v == 8 {
        WordBreakProperty::CR
    } else if v == 9 {
        WordBreakProperty::Extend
    } else if v == 10 {
        WordBreakProperty::LF
    } else if v == 11 {
        WordBreakProperty::MidNumLet
    } else if v == 12 {
        WordBreakProperty::Newline
    } else if v == 13 {
        WordBreakProperty::RegionalIndicator
    } else if v == 14 {
        WordBreakProperty::HebrewLetter
    } else if v == 15 {
        WordBreakProperty::SingleQuote
    } else if v == 16 {
        WordBreakProperty::DoubleQuote
    } else if v == 21 {
        WordBreakProperty::ZWJ
    } else if v == 22 {
        WordBreakProperty::WSegSpace
    } else {
        WordBreakProperty::Other
    }
}

/// The Word_Break property of the ASCII byte `b` (the precomputed table for
/// the first 128 code points).
pub open spec fn ascii_word_break(b: u8) -> WordBreakProperty {
    if b == 10 {
        WordBreakProperty::LF
    } else if b == 11 || b == 12 {
        WordBreakProperty::Newline
    } else if b == 13 {
        WordBreakProperty::CR
    } else if b == 32 {
        WordBreakProperty::WSegSpace
    } else if b == 34 {
        WordBreakProperty::DoubleQuote
    } else if b == 39 {
        WordBreakProperty::SingleQuote
    } else if b == 44 || b == 59 {
        WordBreakProperty::MidNum
    } else if b == 46 {
        WordBreakProperty::MidNumLet
    } else if 48 <= b <= 57 {
        WordBreakProperty::Numeric
    } else if b == 58 {
        WordBreakProperty::MidLetter
    } else if 65 <= b <= 90 || 97 <= b <= 122 {
        WordBreakProperty::ALetter
    } else if b == 95 {
        WordBreakProperty::ExtendNumLet
    } else {
        WordBreakProperty::Other
    }
}

/// Word_Break property of an ASCII byte, from the precomputed table.
pub fn ascii_word_break_property(b: u8) -> (p: WordBreakProperty)
    requires
        b < 128,
    ensures
        p == ascii_word_break(b),
{
    if b == 10 {
        WordBreakProperty::LF
    } else if b == 11 || b == 12 {
        WordBreakProperty::Newline
    } else if b == 13 {
        WordBreakProperty::CR
    } else if b == 32 {
        WordBreakProperty::WSegSpace
    } else if b == 34 {
        WordBreakProperty::DoubleQuote
    } else if b == 39 {
        WordBreakProperty::SingleQuote
    } else if b == 44 || b == 59 {
        WordBreakProperty::MidNum
    } else if b == 46 {
        WordBreakProperty::MidNumLet
    } else if 48 <= b && b <= 57 {
        WordBreakProperty::Numeric
    } else if b == 58 {
        WordBreakProperty::MidLetter
    } else if (65 <= b && b <= 90) || (97 <= b && b <= 122) {
        WordBreakProperty::ALetter
    } else if b == 95 {
        WordBreakProperty::ExtendNumLet
    } else {
        WordBreakProperty::Other
    }
}

/// The Word_Break property the tokenizer uses for `c`: the ASCII table below
/// 0x80, ICU's data above.
pub open spec fn word_break_property(c: char) -> WordBreakProperty {
    if (c as u32) < 0x80 {
        ascii_word_break(c as u8)
    } else {
        word_break_of_icu(icu_word_break(c))
    }
}

/// The "strict" word-like check, for chars whose Word_Break value alone does
/// not make them word-like: Extended_Pictographic, Ideographic, a Script other
/// than Common (0), Inherited (1) and Unknown (103), or the General_Category
/// Other_Number (11).
pub open spec fn word_like_strict(c: char) -> bool {
    ||| icu_extended_pictographic(c)
    ||| icu_ideographic(c)
    ||| !(icu_script(c) == 0 || icu_script(c) == 1 || icu_script(c) == 103)
    ||| icu_general_category(c) == 11
}

/// The "strict" word-like check of `c`.
pub fn is_word_like_strict(c: char) -> (r: bool)
    ensures
        r == word_like_strict(c),
{
    if icu_is_extended_pictographic(c) || icu_is_ideographic(c) {
        return true;
    }
    let script = icu_script_value(c);
    if !(script == 0 || script == 1 || script == 103) {
        return true;
    }
    icu_general_category_value(c) == 11
}

} // verus!
