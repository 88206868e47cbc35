//! Classifying a block of 64 ASCII bytes at once: one bit mask per byte
//! class, each bit the Word_Break class of its byte as the byte-by-byte
//! automaton sees it. The tokenizer in this crate steps byte by byte and
//! does not call it.
use vstd::prelude::*;

use crate::uax29::word::properties::{ascii_word_break, WordBreakProperty};

verus! {

/// The byte classes the block masks record.
#[derive(Clone, Copy, Debug, PartialEq, Eq, Structural)]
pub enum ByteClass {
    /// Letters, digits and the underscore: bytes that continue a word.
    Word,
    Letter,
    Number,
    /// Letters and digits.
    WordLike,
    Upper,
    Space,
    Cr,
    Lf,
    /// Bytes that may join letters: single quote, period, colon.
    LetterMid,
    /// Bytes that may join digits: single quote, period, comma, semicolon.
    NumberMid,
    SingleQuote,
}

/// Whether the ASCII byte `b` is in class `k`, by its Word_Break property:
/// the classes that the byte-by-byte automaton tells apart.
pub open spec fn in_class(b: u8, k: ByteClass) -> bool {
    let p = ascii_word_break(b);
    match k {
        ByteClass::Word => p == WordBreakProperty::ALetter || p == WordBreakProperty::Numeric
            || p == WordBreakProperty::ExtendNumLet,
        ByteClass::Letter => p == WordBreakProperty::ALetter,
        ByteClass::Number => p == WordBreakProperty::Numeric,
        ByteClass::WordLike => p == WordBreakProperty::ALetter || p == WordBreakProperty::Numeric,
        ByteClass::Upper => 65 <= b <= 90,
        ByteClass::Space => p == WordBreakProperty::WSegSpace,
        ByteClass::Cr => p == WordBreakProperty::CR,
        ByteClass::Lf => p == WordBreakProperty::LF,
        ByteClass::LetterMid => p == WordBreakProperty::SingleQuote || p
            == WordBreakProperty::MidNumLet || p == WordBreakProperty::MidLetter,
        ByteClass::NumberMid => p == WordBreakProperty::SingleQuote || p
            == WordBreakProperty::MidNumLet || p == WordBreakProperty::MidNum,
        ByteClass::SingleQuote => p == WordBreakProperty::SingleQuote,
    }
}

/// Bit `j` of `m`.
pub open spec fn bit(m: u64, j: u64) -> bool {
    (m >> j) & 1u64 == 1u64
}

/// The masks of a block: bit `j` of each is whether byte `j` of the block
/// is in that mask's class.
#[derive(Clone, Copy, Debug)]
pub struct Masks {
    pub word: u64,
    pub letter: u64,
    pub number: u64,
    pub word_like: u64,
    pub upper: u64,
    pub space: u64,
    pub cr: u64,
    pub lf: u64,
    pub letter_mid: u64,
    pub number_mid: u64,
    pub single_quote: u64,
}

impl Masks {
    /// The mask of class `k`.
    pub open spec fn mask(self, k: ByteClass) -> u64 {
        match k {
            ByteClass::Word => self.word,
            ByteClass::Letter => self.letter,
            ByteClass::Number => self.number,
            ByteClass::WordLike => self.word_like,
            ByteClass::Upper => self.upper,
            ByteClass::Space => self.space,
            ByteClass::Cr => self.cr,
            ByteClass::Lf => self.lf,
            ByteClass::LetterMid => self.letter_mid,
            ByteClass::NumberMid => self.number_mid,
            ByteClass::SingleQuote => self.single_quote,
        }
    }
}

/// Setting bit `i` keeps the other bits.
proof fn lemma_set_bit(m: u64, i: u64, j: u64)
    by (bit_vector)
    requires
        i < 64,
        j < 64,
    ensures
        ((m | (1u64 << i)) >> j) & 1u64 == if j == i {
            1u64
        } else {
            (m >> j) & 1u64
        },
{
}

/// No bit of 0 is set.
proof fn lemma_zero_bits(j: u64)
    by (bit_vector)
    ensures
        (0u64 >> j) & 1u64 == 0u64,
{
}

/// Whether the ASCII byte `b` is in class `k`.
fn byte_in_class(b: u8, k: ByteClass) -> (r: bool)
    ensures
        r == in_class(b, k),
{
    let letter = (65 <= b && b <= 90) || (97 <= b && b <= 122);
    let digit = 48 <= b && b <= 57;
    match k {
        ByteClass::Word => letter || digit || b == 95,
        ByteClass::Letter => letter,
        ByteClass::Number => digit,
        ByteClass::WordLike => letter || digit,
        ByteClass::Upper => 65 <= b && b <= 90,
        ByteClass::Space => b == 32,
        ByteClass::Cr => b == 13,
        ByteClass::Lf => b == 10,
        ByteClass::LetterMid => b == 39 || b == 46 || b == 58,
        ByteClass::NumberMid => b == 39 || b == 46 || b == 44 || b == 59,
        ByteClass::SingleQuote => b == 39,
    }
}

/// The mask of class `k` over the 64 bytes of `bytes` from `pos`.
fn class_mask(bytes: &[u8], pos: usize, k: ByteClass) -> (m: u64)
    requires
        pos + 64 <= bytes@.len(),
    ensures
        forall|j: u64| j < 64 ==> #[trigger] bit(m, j) == in_class(bytes@[pos + j], k),
{
    let n = bytes.len();
    let mut m: u64 = 0;
    let mut i: u64 = 0;
    proof {
        assert forall|j: u64| j < 64 implies !#[trigger] bit(m, j) by {
            lemma_zero_bits(j);
        }
    }
    while i < 64
        invariant
            i <= 64,
            pos + 64 <= bytes@.len(),
            n == bytes@.len(),
            forall|j: u64| j < i ==> #[trigger] bit(m, j) == in_class(bytes@[pos + j], k),
            forall|j: u64| i <= j < 64 ==> !#[trigger] bit(m, j),
        decreases 64 - i,
    {
        let b = bytes[pos + i as usize];
        if byte_in_class(b, k) {
            let old_m = m;
            m = m | (1u64 << i);
            proof {
                assert forall|j: u64| j < 64 implies #[trigger] bit(m, j) == (if j == i {
                    true
                } else {
                    bit(old_m, j)
                }) by {
                    lemma_set_bit(old_m, i, j);
                }
            }
        }
        i = i + 1;
    }
    m
}

/// The masks of the 64 bytes of `bytes` from `pos`; `None` where fewer than
/// 64 bytes are left, where one of them is not ASCII, or where the last one
/// may join what follows (a middle byte), whose class needs the bytes after
/// the block: the byte-by-byte automaton decides those.
pub fn classify(bytes: &[u8], pos: usize) -> (r: Option<Masks>)
    ensures
        r is Some <==> (pos + 64 <= bytes@.len() && (forall|i: int|
            pos <= i < pos + 64 ==> #[trigger] bytes@[i] < 0x80) && !in_class(
            bytes@[pos + 63],
            ByteClass::LetterMid,
        ) && !in_class(bytes@[pos + 63], ByteClass::NumberMid)),
        r matches Some(m) ==> forall|k: ByteClass, j: u64|
            j < 64 ==> #[trigger] bit(m.mask(k), j) == in_class(bytes@[pos + j], k),
{
    if pos > bytes.len() || bytes.len() - pos < 64 {
        return None;
    }
    let end = pos + 64;
    let mut i: usize = pos;
    while i < end
        invariant
            end == pos + 64,
            pos <= i <= pos + 64,
            pos + 64 <= bytes@.len(),
            forall|k: int| pos <= k < i ==> #[trigger] bytes@[k] < 0x80,
        decreases pos + 64 - i,
    {
        if bytes[i] >= 0x80 {
            return None;
        }
        i = i + 1;
    }
    let last = bytes[end - 1];
    if byte_in_class(last, ByteClass::LetterMid) || byte_in_class(last, ByteClass::NumberMid) {
        return None;
    }
    let m = Masks {
        word: class_mask(bytes, pos, ByteClass::Word),
        letter: class_mask(bytes, pos, ByteClass::Letter),
        number: class_mask(bytes, pos, ByteClass::Number),
        word_like: class_mask(bytes, pos, ByteClass::WordLike),
        upper: class_mask(bytes, pos, ByteClass::Upper),
        space: class_mask(bytes, pos, ByteClass::Space),
        cr: class_mask(bytes, pos, ByteClass::Cr),
        lf: class_mask(bytes, pos, ByteClass::Lf),
        letter_mid: class_mask(bytes, pos, ByteClass::LetterMid),
        number_mid: class_mask(bytes, pos, ByteClass::NumberMid),
        single_quote: class_mask(bytes, pos, ByteClass::SingleQuote),
    };
    proof {
        assert forall|k: ByteClass, j: u64| j < 64 implies #[trigger] bit(m.mask(k), j) == in_class(
            bytes@[pos + j],
            k,
        ) by {
            match k {
                ByteClass::Word => {},
                ByteClass::Letter => {},
                ByteClass::Number => {},
                ByteClass::WordLike => {},
                ByteClass::Upper => {},
                ByteClass::Space => {},
                ByteClass::Cr => {},
                ByteClass::Lf => {},
                ByteClass::LetterMid => {},
                ByteClass::NumberMid => {},
                ByteClass::SingleQuote => {},
            }
        }
    }
    Some(m)
}

} // verus!
