//! The Sentence_Break property of chars.
use vstd::prelude::*;

use icu_properties::props::SentenceBreak;
use icu_properties::CodePointMapData;

verus! {

/// Values of the Sentence_Break property, as defined in
/// [UAX #29](https://www.unicode.org/reports/tr29/#Table_Sentence_Break_Property_Values).
#[derive(Clone, Copy, Debug, PartialEq, Eq, Structural)]
pub enum SentenceBreakProperty {
    Other,
    ATerm,
    Close,
    Format,
    Lower,
    Numeric,
    OLetter,
    Sep,
    Sp,
    STerm,
    Upper,
    CR,
    Extend,
    LF,
    SContinue,
}

/// Number of `SentenceBreakProperty` values.
pub const NUM_SENTENCE_BREAK_PROPERTIES: usize = 15;

impl SentenceBreakProperty {
    /// Position of this value in the declaration order (the column of the
    /// transition table).
    pub open spec fn idx(self) -> int {
        match self {
            SentenceBreakProperty::Other => 0,
            SentenceBreakProperty::ATerm => 1,
            SentenceBreakProperty::Close => 2,
            SentenceBreakProperty::Format => 3,
            SentenceBreakProperty::Lower => 4,
            SentenceBreakProperty::Numeric => 5,
            SentenceBreakProperty::OLetter => 6,
            SentenceBreakProperty::Sep => 7,
            SentenceBreakProperty::Sp => 8,
            SentenceBreakProperty::STerm => 9,
            SentenceBreakProperty::Upper => 10,
            SentenceBreakProperty::CR => 11,
            SentenceBreakProperty::Extend => 12,
            SentenceBreakProperty::LF => 13,
            SentenceBreakProperty::SContinue => 14,
        }
    }

    /// Position of this value in the declaration order.
    pub fn index(self) -> (i: usize)
        ensures
            i == self.idx(),
            i < NUM_SENTENCE_BREAK_PROPERTIES,
    {
        match self {
            SentenceBreakProperty::Other => 0,
            SentenceBreakProperty::ATerm => 1,
            SentenceBreakProperty::Close => 2,
            SentenceBreakProperty::Format => 3,
            SentenceBreakProperty::Lower => 4,
            SentenceBreakProperty::Numeric => 5,
            SentenceBreakProperty::OLetter => 6,
            SentenceBreakProperty::Sep => 7,
            SentenceBreakProperty::Sp => 8,
            SentenceBreakProperty::STerm => 9,
            SentenceBreakProperty::Upper => 10,
            SentenceBreakProperty::CR => 11,
            SentenceBreakProperty::Extend => 12,
            SentenceBreakProperty::LF => 13,
            SentenceBreakProperty::SContinue => 14,
        }
    }
}

/// The Sentence_Break value that ICU's Unicode data assigns to `c`, as its
/// numeric code.
pub uninterp spec fn icu_sentence_break(c: char) -> u16;

/// Looks `c` up in `CodePointMapData::<SentenceBreak>` (icu_properties) and
/// converts the result with `From<SentenceBreak> for u16`. The contract only
/// names the value: it is a function of `c` alone.
#[verifier::external_body]
fn icu_sentence_break_value(c: char) -> (r: u16)
    ensures
        r == icu_sentence_break(c),
{
    u16::from(CodePointMapData::<SentenceBreak>::new().get(c))
}

/// The library's Sentence_Break value for an ICU code (codes 0 to 14 in
/// order; no other code is assigned, and any other maps to `Other`).
pub open spec fn sentence_break_of_icu(v: u16) -> SentenceBreakProperty {
    if v == 1 {
        SentenceBreakProperty::ATerm
    } else if v == 2 {
        SentenceBreakProperty::Close
    } else if v == 3 {
        SentenceBreakProperty::Format
    } else if v == 4 {
        SentenceBreakProperty::Lower
    } else if v == 5 {
        SentenceBreakProperty::Numeric
    } else if v == 6 {
        SentenceBreakProperty::OLetter
    } else if v == 7 {
        SentenceBreakProperty::Sep
    } else if v == 8 {
        SentenceBreakProperty::Sp
    } else if v == 9 {
        SentenceBreakProperty::STerm
    } else if v == 10 {
        SentenceBreakProperty::Upper
    } else if v == 11 {
        SentenceBreakProperty::CR
    } else if v == 12 {
        SentenceBreakProperty::Extend
    } else if v == 13 {
        SentenceBreakProperty::LF
    } else if v == 14 {
        SentenceBreakProperty::SContinue
    } else {
        SentenceBreakProperty::Other
    }
}

/// Looks up the Sentence_Break property of `c` in ICU's Unicode data.
pub fn lookup_sentence_break_property(c: char) -> (p: SentenceBreakProperty)
    ensures
        p == sentence_break_of_icu(icu_sentence_break(c)),
{
    let v = icu_sentence_break_value(c);
    if v == 1 {
        SentenceBreakProperty::ATerm
    } else if v == 2 {
        SentenceBreakProperty::Close
    } else if v == 3 {
        SentenceBreakProperty::Format
    } else if v == 4 {
        SentenceBreakProperty::Lower
    } else if v == 5 {
        SentenceBreakProperty::Numeric
    } else if v == 6 {
        SentenceBreakProperty::OLetter
    } else if v == 7 {
        SentenceBreakProperty::Sep
    } else if v == 8 {
        SentenceBreakProperty::Sp
    } else if v == 9 {
        SentenceBreakProperty::STerm
    } else if v == 10 {
        SentenceBreakProperty::Upper
    } else if v == 11 {
        SentenceBreakProperty::CR
    } else if v == 12 {
        SentenceBreakProperty::Extend
    } else if v == 13 {
        SentenceBreakProperty::LF
    } else if v == 14 {
        SentenceBreakProperty::SContinue
    } else {
        SentenceBreakProperty::Other
    }
}

/// The Sentence_Break property of the ASCII byte `b` (the precomputed table
/// for the first 128 code points).
pub open spec fn ascii_sentence_break(b: u8) -> SentenceBreakProperty {
    if b == 9 || b == 11 || b == 12 || b == 32 {
        SentenceBreakProperty::Sp
    } else if b == 10 {
        SentenceBreakProperty::LF
    } else if b == 13 {
        SentenceBreakProperty::CR
    } else if b == 33 || b == 63 {
        SentenceBreakProperty::STerm
    } else if b == 34 || b == 39 || b == 40 || b == 41 || b == 91 || b == 93 || b == 123 || b
        == 125 {
        SentenceBreakProperty::Close
    } else if b == 44 || b == 45 || b == 58 || b == 59 {
        SentenceBreakProperty::SContinue
    } else if b == 46 {
        SentenceBreakProperty::ATerm
    } else if 48 <= b <= 57 {
        SentenceBreakProperty::Numeric
    } else if 65 <= b <= 90 {
        SentenceBreakProperty::Upper
    } else if 97 <= b <= 122 {
        SentenceBreakProperty::Lower
    } else {
        SentenceBreakProperty::Other
    }
}

/// Sentence_Break property of an ASCII byte, from the precomputed table.
pub fn ascii_sentence_break_property(b: u8) -> (p: SentenceBreakProperty)
    requires
        b < 128,
    ensures
        p == ascii_sentence_break(b),
{
    if b == 9 || b == 11 || b == 12 || b == 32 {
        SentenceBreakProperty::Sp
    } else if b == 10 {
        SentenceBreakProperty::LF
    } else if b == 13 {
        SentenceBreakProperty::CR
    } else if b == 33 || b == 63 {
        SentenceBreakProperty::STerm
    } else if b == 34 || b == 39 || b == 40 || b == 41 || b == 91 || b == 93 || b == 123 || b
        == 125 {
        SentenceBreakProperty::Close
    } else if b == 44 || b == 45 || b == 58 || b == 59 {
        SentenceBreakProperty::SContinue
    } else if b == 46 {
        SentenceBreakProperty::ATerm
    } else if 48 <= b && b <= 57 {
        SentenceBreakProperty::Numeric
    } else if 65 <= b && b <= 90 {
        SentenceBreakProperty::Upper
    } else if 97 <= b && b <= 122 {
        SentenceBreakProperty::Lower
    } else {
        SentenceBreakProperty::Other
    }
}

/// The Sentence_Break property the tokenizer uses for `c`: the ASCII table
/// below 0x80, ICU's data above.
pub open spec fn sentence_break_property(c: char) -> SentenceBreakProperty {
    if (c as u32) < 0x80 {
        ascii_sentence_break(c as u8)
    } else {
        sentence_break_of_icu(icu_sentence_break(c))
    }
}

/// The Sentence_Break property of `c`.
pub fn sentence_break_property_of(c: char) -> (p: SentenceBreakProperty)
    ensures
        p == sentence_break_property(c),
{
    let v = c as u32;
    if v < 0x80 {
        ascii_sentence_break_property(v as u8)
    } else {
        lookup_sentence_break_property(c)
    }
}

} // verus!
