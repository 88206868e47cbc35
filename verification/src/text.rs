//! UTF-8 helpers shared by the tokenizers: byte widths of chars, byte offsets
//! of char positions, and collecting a `&str` into its chars.
use vstd::prelude::*;
use vstd::std_specs::iter::IteratorSpec;
use vstd::string::StringSliceAdditionalSpecFns;
use vstd::utf8::*;

verus! {

/// Number of bytes of the UTF-8 encoding of `c`.
pub open spec fn utf8_width(c: char) -> nat {
    if (c as u32) < 0x80 {
        1
    } else if (c as u32) < 0x800 {
        2
    } else if (c as u32) < 0x10000 {
        3
    } else {
        4
    }
}

/// Number of bytes of the UTF-8 encoding of `chars`.
pub open spec fn utf8_len(chars: Seq<char>) -> nat
    decreases chars.len(),
{
    if chars.len() == 0 {
        0
    } else {
        utf8_len(chars.drop_last()) + utf8_width(chars.last())
    }
}

/// Byte offset, within the UTF-8 encoding of `chars`, of the char at index `i`.
pub open spec fn byte_offset(chars: Seq<char>, i: int) -> nat {
    utf8_len(chars.take(i))
}

proof fn lemma_encode_scalar_len(c: char)
    ensures
        encode_scalar(c as u32).len() == utf8_width(c),
{
    broadcast use char_is_scalar;
}

proof fn lemma_utf8_len_prepend(c: char, s: Seq<char>)
    ensures
        utf8_len(seq![c] + s) == utf8_width(c) + utf8_len(s),
    decreases s.len(),
{
    if s.len() == 0 {
        assert((seq![c] + s).drop_last() =~= Seq::<char>::empty());
        assert(utf8_len(Seq::<char>::empty()) == 0);
    } else {
        assert((seq![c] + s).drop_last() =~= seq![c] + s.drop_last());
        lemma_utf8_len_prepend(c, s.drop_last());
    }
}

/// The byte length of a string's encoding is the sum of its chars' widths.
pub proof fn lemma_encode_utf8_len(chars: Seq<char>)
    ensures
        encode_utf8(chars).len() == utf8_len(chars),
    decreases chars.len(),
{
    if chars.len() > 0 {
        lemma_encode_utf8_len(chars.drop_first());
        lemma_encode_scalar_len(chars[0]);
        assert(chars =~= seq![chars[0]] + chars.drop_first());
        lemma_utf8_len_prepend(chars[0], chars.drop_first());
    }
}

/// Byte offsets grow by the width of each char.
pub proof fn lemma_byte_offset_step(chars: Seq<char>, i: int)
    requires
        0 <= i < chars.len(),
    ensures
        byte_offset(chars, i + 1) == byte_offset(chars, i) + utf8_width(chars[i]),
{
    assert(chars.take(i + 1).drop_last() =~= chars.take(i));
}

/// Byte offsets are strictly increasing in the char index.
pub proof fn lemma_byte_offset_strictly_increasing(chars: Seq<char>, i: int, j: int)
    requires
        0 <= i < j <= chars.len(),
    ensures
        byte_offset(chars, i) < byte_offset(chars, j),
    decreases j - i,
{
    lemma_byte_offset_step(chars, j - 1);
    if i < j - 1 {
        lemma_byte_offset_strictly_increasing(chars, i, j - 1);
    }
}

/// The byte offset past the last char is the length of the encoding.
pub proof fn lemma_byte_offset_end(s: &str)
    ensures
        byte_offset(s@, s@.len() as int) == s.spec_bytes().len(),
{
    assert(s@.take(s@.len() as int) =~= s@);
    lemma_encode_utf8_len(s@);
}

/// Length in bytes of `text`, which is the sum of its chars' widths.
pub fn byte_len(text: &str) -> (n: usize)
    ensures
        n == utf8_len(text@),
        n == byte_offset(text@, text@.len() as int),
{
    let b = text.as_bytes();
    proof {
        lemma_encode_utf8_len(text@);
        assert(text@.take(text@.len() as int) =~= text@);
    }
    b.len()
}

/// Byte offsets are monotone in the char index.
pub proof fn lemma_byte_offset_monotone(chars: Seq<char>, i: int, j: int)
    requires
        0 <= i <= j <= chars.len(),
    ensures
        byte_offset(chars, i) <= byte_offset(chars, j),
{
    if i < j {
        lemma_byte_offset_strictly_increasing(chars, i, j);
    }
}

/// UTF-8 width of `c`, as `char::len_utf8` computes it.
pub fn char_len_utf8(c: char) -> (n: usize)
    ensures
        n == utf8_width(c),
{
    let v = c as u32;
    if v < 0x80 {
        1
    } else if v < 0x800 {
        2
    } else if v < 0x10000 {
        3
    } else {
        4
    }
}

/// The chars of `text`, in order.
pub fn chars_of(text: &str) -> (v: Vec<char>)
    ensures
        v@ == text@,
{
    broadcast use vstd::string::group_string_axioms;
    let mut v: Vec<char> = Vec::new();
    for c in it: text.chars()
        invariant
            v@ == it.seq().take(it.index() as int),
            it.seq() == text@,
    {
        v.push(c);
    }
    v
}

/// `String::push`, which appends `c` to `s`.
#[verifier::external_body]
pub fn push_char(s: &mut String, c: char)
    ensures
        final(s)@ == old(s)@.push(c),
{
    s.push(c);
}

/// Appends the chars of `cs` to `s`, in order.
pub fn push_chars(s: &mut String, cs: &[char])
    ensures
        final(s)@ == old(s)@ + cs@,
{
    let mut i: usize = 0;
    while i < cs.len()
        invariant
            i <= cs@.len(),
            s@ == old(s)@ + cs@.take(i as int),
        decreases cs@.len() - i,
    {
        push_char(s, cs[i]);
        proof {
            assert(cs@.take(i as int + 1) =~= cs@.take(i as int).push(cs@[i as int]));
        }
        i = i + 1;
    }
    proof {
        assert(cs@.take(cs@.len() as int) =~= cs@);
    }
}

/// The byte length of a concatenation is the sum of the byte lengths.
pub proof fn lemma_utf8_len_concat(s: Seq<char>, t: Seq<char>)
    ensures
        utf8_len(s + t) == utf8_len(s) + utf8_len(t),
    decreases t.len(),
{
    if t.len() == 0 {
        assert(s + t =~= s);
    } else {
        assert((s + t).drop_last() =~= s + t.drop_last());
        lemma_utf8_len_concat(s, t.drop_last());
    }
}

/// The bytes between two char positions are those of the chars between them.
pub proof fn lemma_byte_offset_span(chars: Seq<char>, a: int, b: int)
    requires
        0 <= a <= b <= chars.len(),
    ensures
        byte_offset(chars, b) == byte_offset(chars, a) + utf8_len(chars.subrange(a, b)),
{
    assert(chars.take(b) =~= chars.take(a) + chars.subrange(a, b));
    lemma_utf8_len_concat(chars.take(a), chars.subrange(a, b));
}

/// A string has at most as many chars as bytes.
pub proof fn lemma_chars_at_most_bytes(chars: Seq<char>)
    ensures
        chars.len() <= utf8_len(chars),
    decreases chars.len(),
{
    if chars.len() > 0 {
        lemma_chars_at_most_bytes(chars.drop_last());
    }
}

/// The encoding of a concatenation is the concatenation of the encodings.
pub proof fn lemma_encode_utf8_concat(x: Seq<char>, y: Seq<char>)
    ensures
        encode_utf8(x + y) == encode_utf8(x) + encode_utf8(y),
    decreases x.len(),
{
    if x.len() == 0 {
        assert(x + y =~= y);
        assert(encode_utf8(x) =~= Seq::<u8>::empty());
        assert(encode_utf8(x) + encode_utf8(y) =~= encode_utf8(y));
    } else {
        assert((x + y).drop_first() =~= x.drop_first() + y);
        assert((x + y)[0] == x[0]);
        lemma_encode_utf8_concat(x.drop_first(), y);
        assert(encode_utf8(x + y) =~= encode_utf8(x) + encode_utf8(y));
    }
}

/// The bytes between the byte offsets of chars `a` and `b` encode the chars
/// between them.
pub proof fn lemma_encode_utf8_span(chars: Seq<char>, a: int, b: int)
    requires
        0 <= a <= b <= chars.len(),
    ensures
        encode_utf8(chars).subrange(byte_offset(chars, a) as int, byte_offset(chars, b) as int)
            == encode_utf8(chars.subrange(a, b)),
{
    let x = chars.take(a);
    let y = chars.subrange(a, b);
    let z = chars.skip(b);
    assert(chars =~= x + y + z);
    lemma_encode_utf8_concat(x + y, z);
    lemma_encode_utf8_concat(x, y);
    lemma_encode_utf8_len(x);
    lemma_encode_utf8_len(y);
    lemma_byte_offset_span(chars, a, b);
    let ex = encode_utf8(x);
    let ey = encode_utf8(y);
    let ez = encode_utf8(z);
    assert((ex + ey + ez).subrange(ex.len() as int, (ex.len() + ey.len()) as int) =~= ey);
}

/// Whether `a` and `b` hold the same chars.
pub fn str_eq(a: &str, b: &str) -> (r: bool)
    ensures
        r == (a@ == b@),
{
    let x = chars_of(a);
    let y = chars_of(b);
    if x.len() != y.len() {
        return false;
    }
    let mut i: usize = 0;
    while i < x.len()
        invariant
            i <= x@.len(),
            x@.len() == y@.len(),
            x@ == a@,
            y@ == b@,
            forall|k: int| 0 <= k < i ==> x@[k] == y@[k],
        decreases x@.len() - i,
    {
        if x[i] != y[i] {
            return false;
        }
        i = i + 1;
    }
    assert(x@ =~= y@);
    true
}

/// Appends the chars of `t` to `s`.
pub fn push_str(s: &mut String, t: &str)
    ensures
        final(s)@ == old(s)@ + t@,
{
    let cs = chars_of(t);
    push_chars(s, cs.as_slice());
}

} // verus!
