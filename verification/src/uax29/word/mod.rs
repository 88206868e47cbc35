//! UAX #29 word segmentation.
//!
//! `tokenize` runs the word break automaton over the chars of a text and
//! reports every breakpoint (a byte offset) together with the properties of
//! the token that ends there.
pub mod block;
pub mod properties;
pub mod laws;
pub mod rules;
pub mod transitions;

use vstd::prelude::*;

use crate::text::{
    byte_len, byte_offset, char_len_utf8, chars_of, lemma_byte_offset_monotone,
    lemma_byte_offset_step,
};
use crate::uax29::word::properties::{
    ascii_word_break, ascii_word_break_property, icu_extended_pictographic, is_word_like_strict,
    lookup_word_break_property_from_dictionary, word_break_property, word_like_strict,
    WordBreakProperty,
};
use crate::uax29::word::transitions::{
    lookup, transition_table, word_table, word_transition, State, Transition, NUM_WORD_STATES,
};
use crate::uax29::Action;

use crate::consumer::{extends, hand_over, handed_since, handed_until_stop, Consumer};

verus! {

/// Options of the word tokenizer (none yet; kept for compatibility).
#[derive(Default, Clone, Copy, Debug)]
#[non_exhaustive]
pub struct Options {}

/// What is known of a token (the span between two breakpoints): whether it
/// is word-like, whether it is all ASCII, whether it holds an ASCII capital.
#[derive(Clone, Copy, Debug, PartialEq, Eq, Structural)]
pub struct TokenProperties {
    /// Some char of the span is word-like.
    pub word_like: bool,
    /// Some char of the span is not ASCII.
    pub non_ascii: bool,
    /// Some char of the span is an ASCII capital.
    pub has_ascii_upper: bool,
}

impl Default for TokenProperties {
    fn default() -> (p: Self)
        ensures
            p == empty_props(),
    {
        TokenProperties { word_like: false, non_ascii: false, has_ascii_upper: false }
    }
}

/// The properties of the empty span.
pub open spec fn empty_props() -> TokenProperties {
    TokenProperties { word_like: false, non_ascii: false, has_ascii_upper: false }
}

impl TokenProperties {
    /// Whether any char of the span is word-like: a letter or digit, an
    /// ideograph or pictograph, an Other_Number, or a char of a real script.
    pub open spec fn spec_word_like(self) -> bool {
        self.word_like
    }

    /// Whether every char of the span is ASCII (true for the empty span).
    pub open spec fn spec_ascii(self) -> bool {
        !self.non_ascii
    }

    /// Whether some byte of the span is an ASCII capital (false for the empty span).
    pub open spec fn spec_has_ascii_upper(self) -> bool {
        self.has_ascii_upper
    }

    /// The properties of the concatenation of two spans.
    pub open spec fn union(self, other: Self) -> Self {
        TokenProperties {
            word_like: self.word_like || other.word_like,
            non_ascii: self.non_ascii || other.non_ascii,
            has_ascii_upper: self.has_ascii_upper || other.has_ascii_upper,
        }
    }

    /// Whether the token is word-like.
    pub fn is_word_like(&self) -> (r: bool)
        ensures
            r == self.spec_word_like(),
    {
        self.word_like
    }

    /// Whether the token is all ASCII (vacuously true for the empty span).
    pub fn is_ascii(&self) -> (r: bool)
        ensures
            r == self.spec_ascii(),
    {
        !self.non_ascii
    }

    /// Whether the token holds an ASCII capital A–Z (false for the empty span).
    pub fn has_ascii_upper(&self) -> (r: bool)
        ensures
            r == self.spec_has_ascii_upper(),
    {
        self.has_ascii_upper
    }

    /// The properties of the concatenation of two spans.
    pub fn or(self, other: Self) -> (r: Self)
        ensures
            r == self.union(other),
    {
        TokenProperties {
            word_like: self.word_like || other.word_like,
            non_ascii: self.non_ascii || other.non_ascii,
            has_ascii_upper: self.has_ascii_upper || other.has_ascii_upper,
        }
    }
}

/// Whether `c` is an ASCII letter or digit.
pub open spec fn is_ascii_alnum(c: char) -> bool {
    ('a' <= c <= 'z') || ('A' <= c <= 'Z') || ('0' <= c <= '9')
}

/// Whether `c` continues an ASCII word run: `[a-zA-Z0-9_]`.
pub open spec fn is_ascii_word_continue(c: char) -> bool {
    is_ascii_alnum(c) || c == '_'
}

/// What a single char contributes to the properties of its token.
pub open spec fn char_props(c: char) -> TokenProperties {
    if (c as u32) < 0x80 {
        TokenProperties {
            word_like: is_ascii_alnum(c),
            non_ascii: false,
            has_ascii_upper: 'A' <= c <= 'Z',
        }
    } else {
        let p = word_break_property(c);
        TokenProperties {
            word_like: p == WordBreakProperty::ALetter || p == WordBreakProperty::HebrewLetter
                || p == WordBreakProperty::Numeric || word_like_strict(c),
            non_ascii: true,
            has_ascii_upper: false,
        }
    }
}

/// The state of a run of the word automaton between two chars.
pub struct WordRun {
    /// The automaton's state.
    pub state: State,
    /// Char index where the pending deferred break would fall, if any.
    pub deferred_at: Option<int>,
    /// Whether the last char consumed was a ZWJ (for WB3c).
    pub last_was_zwj: bool,
    /// Properties of the token in progress.
    pub token: TokenProperties,
    /// Properties of the chars consumed since the deferred break position.
    pub deferred: TokenProperties,
}

/// The run state before the first char.
pub open spec fn initial_run() -> WordRun {
    WordRun {
        state: State::StartOfText,
        deferred_at: None,
        last_was_zwj: false,
        token: empty_props(),
        deferred: empty_props(),
    }
}

/// A deferred break resolves to a non-deferred state, and only deferred
/// states resolve deferred breaks.
pub proof fn lemma_deferred_break_resolves(s: State, p: WordBreakProperty)
    ensures
        word_transition(s, p).1 == Action::DeferredBreak ==> s.spec_is_deferred()
            && !word_transition(s, p).0.spec_is_deferred(),
{
    assert(word_transition(s, p).1 == Action::DeferredBreak ==> s.spec_is_deferred()
        && !word_transition(s, p).0.spec_is_deferred()) by {
        match s {
            State::StartOfText => {},
            State::Any => {},
            State::CR => {},
            State::ALetter => {},
            State::Numeric => {},
            State::HLetter => {},
            State::Katakana => {},
            State::ExtendNumLet => {},
            State::WSegSpace => {},
            State::AHLetterMid => {},
            State::Newline => {},
            State::RIOdd => {},
            State::NumericMid => {},
            State::HLetterDQ => {},
            State::HLetterSingleQuote => {},
        }
    }
}

/// The breakpoints (as char indices) and token properties that the
/// automaton emits on `chars[i..]`, from run state `r`.
pub open spec fn word_run(chars: Seq<char>, i: int, r: WordRun) -> Seq<(int, TokenProperties)>
    decreases chars.len() - i, if r.state.spec_is_deferred() { 1int } else { 0int },
{
    if i < 0 || i >= chars.len() {
        if r.state.spec_is_deferred() {
            seq![(r.deferred_at.unwrap(), r.token), (chars.len() as int, r.deferred)]
        } else {
            seq![(chars.len() as int, r.token)]
        }
    } else {
        let c = chars[i];
        let p = word_break_property(c);
        let cp = char_props(c);
        let t = word_transition(r.state, p);
        match t.1 {
            Action::Break => {
                if r.last_was_zwj && icu_extended_pictographic(c) {
                    // WB3c: the pictograph joins the token in progress.
                    word_run(chars, i + 1, WordRun { last_was_zwj: false, token: r.token.union(cp), ..r })
                } else {
                    seq![(i, r.token)] + word_run(
                        chars,
                        i + 1,
                        WordRun {
                            state: t.0,
                            last_was_zwj: p == WordBreakProperty::ZWJ,
                            token: cp,
                            ..r
                        },
                    )
                }
            },
            Action::NoBreak => {
                if t.0.spec_is_deferred() {
                    word_run(
                        chars,
                        i + 1,
                        WordRun {
                            state: t.0,
                            deferred_at: if r.deferred_at is None { Some(i) } else { r.deferred_at },
                            last_was_zwj: false,
                            token: r.token,
                            deferred: r.deferred.union(cp),
                        },
                    )
                } else {
                    let token = if r.deferred_at is Some { r.token.union(r.deferred) } else { r.token };
                    word_run(
                        chars,
                        i + 1,
                        WordRun {
                            state: t.0,
                            deferred_at: None,
                            last_was_zwj: false,
                            token: token.union(cp),
                            deferred: if r.deferred_at is Some { empty_props() } else { r.deferred },
                        },
                    )
                }
            },
            Action::DeferredBreak => {
                proof {
                    lemma_deferred_break_resolves(r.state, p);
                }
                seq![(r.deferred_at.unwrap(), r.token)] + word_run(
                    chars,
                    i,
                    WordRun {
                        state: t.0,
                        deferred_at: None,
                        last_was_zwj: false,
                        token: r.deferred,
                        deferred: empty_props(),
                    },
                )
            },
            Action::Transparent => {
                if r.deferred_at is Some {
                    word_run(
                        chars,
                        i + 1,
                        WordRun {
                            last_was_zwj: p == WordBreakProperty::ZWJ,
                            deferred: r.deferred.union(cp),
                            ..r
                        },
                    )
                } else {
                    word_run(
                        chars,
                        i + 1,
                        WordRun {
                            last_was_zwj: p == WordBreakProperty::ZWJ,
                            token: r.token.union(cp),
                            ..r
                        },
                    )
                }
            },
        }
    }
}

/// The word breakpoints of `chars` as char indices, each with the properties
/// of the token that ends there (the first, at 0, carries the empty span's).
pub open spec fn word_segments(chars: Seq<char>) -> Seq<(int, TokenProperties)> {
    if chars.len() == 0 {
        Seq::empty()
    } else {
        word_run(chars, 0, initial_run())
    }
}


/// The Word_Break property of `c`: the ASCII table for ASCII chars, ICU's
/// data otherwise.
fn word_break_property_of(c: char) -> (p: WordBreakProperty)
    ensures
        p == word_break_property(c),
{
    let v = c as u32;
    if v < 0x80 {
        ascii_word_break_property(v as u8)
    } else {
        lookup_word_break_property_from_dictionary(c)
    }
}

/// What `c`, of Word_Break class `prop`, contributes to its token.
fn char_contribution(c: char, prop: WordBreakProperty) -> (cp: TokenProperties)
    requires
        prop == word_break_property(c),
    ensures
        cp == char_props(c),
{
    if (c as u32) < 0x80 {
        let word_like = ('a' <= c && c <= 'z') || ('A' <= c && c <= 'Z') || ('0' <= c && c <= '9');
        TokenProperties { word_like, non_ascii: false, has_ascii_upper: 'A' <= c && c <= 'Z' }
    } else {
        // Letters and digits are word-like by their Word_Break class; anything
        // else goes through the strict check.
        let cheap = prop == WordBreakProperty::ALetter || prop == WordBreakProperty::HebrewLetter
            || prop == WordBreakProperty::Numeric;
        let word_like = if cheap {
            true
        } else {
            is_word_like_strict(c)
        };
        TokenProperties { word_like, non_ascii: true, has_ascii_upper: false }
    }
}

/// The byte-offset form of the char-indexed segments of `chars`.
pub open spec fn breakpoints_match(
    chars: Seq<char>,
    breaks: Seq<(usize, TokenProperties)>,
    segs: Seq<(int, TokenProperties)>,
) -> bool {
    &&& breaks.len() == segs.len()
    &&& forall|k: int|
        0 <= k < breaks.len() ==> (#[trigger] breaks[k]).0 == byte_offset(chars, segs[k].0)
            && breaks[k].1 == segs[k].1
}

/// Segments `text` into words by the UAX #29 word boundary rules and returns
/// every breakpoint, as a byte offset into `text`, with the properties of the
/// token that ends there. The first breakpoint is 0 (with the empty span's
/// properties), the last is `text.len()`; the empty text has no breakpoints.
pub fn tokenize(text: &str, _options: Options) -> (breaks: Vec<(usize, TokenProperties)>)
    ensures
        breakpoints_match(text@, breaks@, word_segments(text@)),
{
    tokenize_impl(text)
}

/// Segments `text` as `tokenize` does and hands the breakpoints, in order,
/// to `consumer`, stopping after the first one after which it wants no more.
pub fn tokenize_with<C: Consumer<(usize, TokenProperties)>>(
    text: &str,
    options: Options,
    consumer: &mut C,
)
    ensures
        extends(old(consumer).taken(), final(consumer).taken()),
        exists|full: Seq<(usize, TokenProperties)>|
            breakpoints_match(text@, full, word_segments(text@)) && #[trigger] handed_until_stop(
                full,
                handed_since(old(consumer).taken(), final(consumer).taken()),
            ),
{
    let breaks = tokenize(text, options);
    let ghost full = breaks@;
    hand_over(breaks, consumer);
    proof {
        assert(breakpoints_match(text@, full, word_segments(text@)));
    }
}

#[verifier::rlimit(80)]
fn tokenize_impl(text: &str) -> (breaks: Vec<(usize, TokenProperties)>)
    ensures
        breakpoints_match(text@, breaks@, word_segments(text@)),
{
    let mut out: Vec<(usize, TokenProperties)> = Vec::new();
    let chars = chars_of(text);
    let n = chars.len();
    if n == 0 {
        return out;
    }
    let total = byte_len(text);
    let table = transition_table();

    let mut state = State::StartOfText;
    let mut deferred_break_pos: Option<usize> = None;
    let ghost mut deferred_idx: Option<int> = None;
    let mut pos: usize = 0;
    let mut i: usize = 0;
    // WB3c: whether the previous char was a ZWJ.
    let mut last_was_zwj = false;
    // Properties of the token in progress, reset on each break.
    let mut token_props = TokenProperties::default();
    // Properties of the chars consumed while in a deferred state: they start
    // the next token if the deferred break is confirmed, and fold into the
    // current one if it is cancelled.
    let mut deferred_props = TokenProperties::default();
    let ghost mut emitted: Seq<(int, TokenProperties)> = Seq::empty();

    proof {
        assert(chars@.take(0) =~= Seq::<char>::empty());
    }

    while i < n
        invariant
            chars@ == text@,
            n == chars@.len(),
            n > 0,
            total == byte_offset(chars@, n as int),
            table@.len() == NUM_WORD_STATES,
            forall|k: int| 0 <= k < NUM_WORD_STATES ==> #[trigger] table@[k]@ == word_table()[k],
            0 <= i <= n,
            pos == byte_offset(chars@, i as int),
            deferred_break_pos is Some <==> state.spec_is_deferred(),
            deferred_idx is Some <==> state.spec_is_deferred(),
            deferred_idx is Some ==> 0 <= deferred_idx.unwrap() <= i
                && deferred_break_pos.unwrap() == byte_offset(chars@, deferred_idx.unwrap()),
            !state.spec_is_deferred() ==> deferred_props == empty_props(),
            emitted + word_run(
                chars@,
                i as int,
                WordRun {
                    state,
                    deferred_at: deferred_idx,
                    last_was_zwj,
                    token: token_props,
                    deferred: deferred_props,
                },
            ) == word_segments(chars@),
            breakpoints_match(chars@, out@, emitted),
        decreases n - i, if state.spec_is_deferred() { 1int } else { 0int },
    {
        proof {
            lemma_byte_offset_monotone(chars@, i as int, n as int);
        }
        // Fast path for ASCII: after a letter, digit or connector, a run of
        // ASCII [a-zA-Z0-9_] never breaks and never enters a deferred state.
        if state == State::ALetter || state == State::Numeric || state == State::ExtendNumLet
            || state == State::HLetter {
            let scan_start = i;
            while i < n && chars[i] < '\u{80}' && ((chars[i] >= 'a' && chars[i] <= 'z') || (chars[i]
                >= 'A' && chars[i] <= 'Z') || (chars[i] >= '0' && chars[i] <= '9') || chars[i] == '_')
                invariant
                    chars@ == text@,
                    n == chars@.len(),
                    scan_start <= i <= n,
                    pos == byte_offset(chars@, i as int),
                    total == byte_offset(chars@, n as int),
                    state == State::ALetter || state == State::Numeric || state
                        == State::ExtendNumLet || state == State::HLetter,
                    deferred_break_pos is None,
                    deferred_idx is None,
                    deferred_props == empty_props(),
                    i > scan_start ==> !last_was_zwj,
                    emitted + word_run(
                        chars@,
                        i as int,
                        WordRun {
                            state,
                            deferred_at: deferred_idx,
                            last_was_zwj,
                            token: token_props,
                            deferred: deferred_props,
                        },
                    ) == word_segments(chars@),
                decreases n - i,
            {
                let c = chars[i];
                proof {
                    lemma_ascii_word_run_step(chars@, i as int, WordRun {
                        state,
                        deferred_at: deferred_idx,
                        last_was_zwj,
                        token: token_props,
                        deferred: deferred_props,
                    });
                    lemma_byte_offset_step(chars@, i as int);
                    lemma_byte_offset_monotone(chars@, i as int + 1, n as int);
                }
                let cp = TokenProperties {
                    word_like: c != '_',
                    non_ascii: false,
                    has_ascii_upper: c >= 'A' && c <= 'Z',
                };
                token_props = token_props.or(cp);
                state = if c >= '0' && c <= '9' {
                    State::Numeric
                } else if c == '_' {
                    State::ExtendNumLet
                } else {
                    State::ALetter
                };
                last_was_zwj = false;
                i = i + 1;
                pos = pos + 1;
            }
            if i > scan_start {
                continue;
            }
        }

        let c = chars[i];
        let prop = word_break_property_of(c);
        let char_props_c = char_contribution(c, prop);
        let char_len = char_len_utf8(c);
        proof {
            lemma_byte_offset_step(chars@, i as int);
            lemma_byte_offset_monotone(chars@, i as int + 1, n as int);
        }
        let ghost run = WordRun {
            state,
            deferred_at: deferred_idx,
            last_was_zwj,
            token: token_props,
            deferred: deferred_props,
        };
        let Transition(next_state, action) = lookup(&table, state, prop);
        match action {
            Action::Break => {
                let boundary = pos;
                i = i + 1;
                pos = pos + char_len;
                if last_was_zwj {
                    last_was_zwj = false;
                    if WordBreakProperty::is_ext_pictographic(c) {
                        // The pictograph joins the token in progress.
                        token_props = token_props.or(char_props_c);
                        continue;
                    }
                }
                last_was_zwj = prop == WordBreakProperty::ZWJ;
                state = next_state;
                proof {
                    emitted = emitted.push((i - 1, token_props));
                }
                out.push((boundary, token_props));
                // The breaking char starts the next token.
                token_props = char_props_c;
            },
            Action::NoBreak => {
                last_was_zwj = false;
                if next_state.is_deferred() {
                    if deferred_break_pos.is_none() {
                        deferred_break_pos = Some(pos);
                        proof {
                            deferred_idx = Some(i as int);
                        }
                    }
                    deferred_props = deferred_props.or(char_props_c);
                } else {
                    if deferred_break_pos.is_some() {
                        // The word resumed: the deferred chars belong to it.
                        deferred_break_pos = None;
                        proof {
                            deferred_idx = None;
                        }
                        token_props = token_props.or(deferred_props);
                        deferred_props = TokenProperties::default();
                    }
                    token_props = token_props.or(char_props_c);
                }
                state = next_state;
                i = i + 1;
                pos = pos + char_len;
            },
            Action::DeferredBreak => {
                proof {
                    lemma_deferred_break_resolves(state, prop);
                }
                last_was_zwj = false;
                let boundary = match deferred_break_pos {
                    Some(b) => b,
                    None => 0,
                };
                deferred_break_pos = None;
                state = next_state;
                proof {
                    emitted = emitted.push((deferred_idx.unwrap(), token_props));
                    deferred_idx = None;
                }
                // The current char is examined again in the new state.
                out.push((boundary, token_props));
                // The deferred chars start the next token.
                token_props = deferred_props;
                deferred_props = TokenProperties::default();
                continue;
            },
            Action::Transparent => {
                last_was_zwj = prop == WordBreakProperty::ZWJ;
                // The state does not change, but the char is consumed.
                i = i + 1;
                pos = pos + char_len;
                if deferred_break_pos.is_some() {
                    deferred_props = deferred_props.or(char_props_c);
                } else {
                    token_props = token_props.or(char_props_c);
                }
            },
        }
    }

    // A deferred state at the end of the text: the deferral failed.
    if state.is_deferred() {
        let breakpoint = match deferred_break_pos {
            Some(b) => b,
            None => 0,
        };
        proof {
            emitted = emitted.push((deferred_idx.unwrap(), token_props));
        }
        out.push((breakpoint, token_props));
        // The deferred chars become the trailing token.
        token_props = deferred_props;
    }
    // WB2: Any ÷ eot.
    proof {
        emitted = emitted.push((n as int, token_props));
    }
    out.push((total, token_props));
    out
}

/// In a letter, digit or connector state, an ASCII `[a-zA-Z0-9_]` char is
/// consumed without a break and leads to the letter, digit or connector state.
proof fn lemma_ascii_word_run_step(chars: Seq<char>, i: int, r: WordRun)
    requires
        0 <= i < chars.len(),
        (chars[i] as u32) < 0x80,
        is_ascii_word_continue(chars[i]),
        r.state == State::ALetter || r.state == State::Numeric || r.state == State::ExtendNumLet
            || r.state == State::HLetter,
        r.deferred_at is None,
    ensures
        word_run(chars, i, r) == word_run(
            chars,
            i + 1,
            WordRun {
                state: if '0' <= chars[i] <= '9' {
                    State::Numeric
                } else if chars[i] == '_' {
                    State::ExtendNumLet
                } else {
                    State::ALetter
                },
                deferred_at: None,
                last_was_zwj: false,
                token: r.token.union(char_props(chars[i])),
                deferred: r.deferred,
            },
        ),
{
    let c = chars[i];
    let p = word_break_property(c);
    assert(p == ascii_word_break(c as u8));
    if '0' <= c <= '9' {
        assert(p == WordBreakProperty::Numeric);
    } else if c == '_' {
        assert(p == WordBreakProperty::ExtendNumLet);
    } else {
        assert(p == WordBreakProperty::ALetter);
    }
    assert(word_transition(r.state, p) == Transition(
        if '0' <= c <= '9' {
            State::Numeric
        } else if c == '_' {
            State::ExtendNumLet
        } else {
            State::ALetter
        },
        Action::NoBreak,
    ));
}

} // verus!
