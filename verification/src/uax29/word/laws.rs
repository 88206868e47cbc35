//! What holds of every word segmentation: breakpoints partition the text, and
//! each token's properties are exactly those of its chars.
use vstd::prelude::*;

use crate::text::{byte_offset, lemma_byte_offset_strictly_increasing};
use crate::uax29::word::properties::{word_break_property, WordBreakProperty};
use crate::uax29::word::transitions::{word_transition, State};
use crate::uax29::word::{
    breakpoints_match, char_props, empty_props, word_run, word_segments,
    TokenProperties, WordRun,
};
use crate::uax29::Action;

verus! {

/// The properties of the span `chars[a..b]`: the union of its chars'
/// contributions (the empty span's properties when `b <= a`).
pub open spec fn span_props(chars: Seq<char>, a: int, b: int) -> TokenProperties
    decreases b - a,
{
    if b <= a {
        empty_props()
    } else {
        span_props(chars, a, b - 1).union(char_props(chars[b - 1]))
    }
}

proof fn lemma_span_concat(chars: Seq<char>, a: int, b: int, c: int)
    requires
        a <= b <= c,
    ensures
        span_props(chars, a, b).union(span_props(chars, b, c)) == span_props(chars, a, c),
    decreases c - b,
{
    if c > b {
        lemma_span_concat(chars, a, b, c - 1);
    }
}

proof fn lemma_span_step(chars: Seq<char>, a: int, b: int)
    requires
        a <= b,
    ensures
        span_props(chars, a, b).union(char_props(chars[b])) == span_props(chars, a, b + 1),
{
}

/// Breaks leave and enter non-deferred states only; transparent chars keep
/// the state; the start state breaks before every char.
proof fn lemma_table_facts(s: State, p: WordBreakProperty)
    ensures
        word_transition(s, p).1 == Action::Break ==> !s.spec_is_deferred()
            && !word_transition(s, p).0.spec_is_deferred(),
        word_transition(s, p).1 == Action::DeferredBreak ==> s.spec_is_deferred()
            && !word_transition(s, p).0.spec_is_deferred(),
        s == State::StartOfText ==> word_transition(s, p).1 == Action::Break,
{
    match s {
        State::StartOfText => {},
        State::Any => {},
        State::CR => {},
        State::ALetter => {},
        State::Numeric => {},
        State::HLetter => {},
        State::Katakana => {},
        State::ExtendNumLet => {},
        State::WSegSpace => {},
        State::AHLetterMid => {},
        State::Newline => {},
        State::RIOdd => {},
        State::NumericMid => {},
        State::HLetterDQ => {},
        State::HLetterSingleQuote => {},
    }
}

/// `out` lists breakpoints after `prev`: each strictly after the one before,
/// the last at the end of the text, each with the properties of the span it
/// closes.
pub open spec fn segments_from(chars: Seq<char>, prev: int, out: Seq<(int, TokenProperties)>) -> bool
    decreases out.len(),
{
    if out.len() == 0 {
        false
    } else {
        &&& prev < out[0].0 <= chars.len()
        &&& out[0].1 == span_props(chars, prev, out[0].0)
        &&& if out.len() == 1 {
            out[0].0 == chars.len()
        } else {
            segments_from(chars, out[0].0, out.drop_first())
        }
    }
}

/// The run invariant: the token in progress holds the chars since the last
/// breakpoint (up to the deferred position, if any), and the deferred
/// properties hold the chars since the deferred position.
pub open spec fn run_inv(chars: Seq<char>, prev: int, i: int, r: WordRun) -> bool {
    &&& 0 <= prev < i <= chars.len()
    &&& (r.deferred_at is Some <==> r.state.spec_is_deferred())
    &&& match r.deferred_at {
        Some(d) => {
            &&& prev < d < i
            &&& r.token == span_props(chars, prev, d)
            &&& r.deferred == span_props(chars, d, i)
        },
        None => {
            &&& r.token == span_props(chars, prev, i)
            &&& r.deferred == empty_props()
        },
    }
}

proof fn lemma_prepend_segment(chars: Seq<char>, prev: int, x: int, p: TokenProperties, rest: Seq<(int, TokenProperties)>)
    requires
        prev < x,
        p == span_props(chars, prev, x),
        segments_from(chars, x, rest),
    ensures
        segments_from(chars, prev, seq![(x, p)] + rest),
{
    let out = seq![(x, p)] + rest;
    assert(out.drop_first() =~= rest);
    assert(rest.len() > 0);
    assert(rest[0].0 <= chars.len());
}

proof fn lemma_word_run_segments(chars: Seq<char>, prev: int, i: int, r: WordRun)
    requires
        run_inv(chars, prev, i, r),
    ensures
        segments_from(chars, prev, word_run(chars, i, r)),
    decreases chars.len() - i, if r.state.spec_is_deferred() { 1int } else { 0int },
{
    let out = word_run(chars, i, r);
    if i >= chars.len() {
        if r.state.spec_is_deferred() {
            let d = r.deferred_at.unwrap();
            let tail = seq![(chars.len() as int, r.deferred)];
            assert(segments_from(chars, d, tail));
            lemma_prepend_segment(chars, prev, d, r.token, tail);
            assert(out =~= seq![(d, r.token)] + tail);
        } else {
            assert(segments_from(chars, prev, out));
        }
    } else {
        let c = chars[i];
        let p = word_break_property(c);
        let cp = char_props(c);
        let t = word_transition(r.state, p);
        lemma_table_facts(r.state, p);
        lemma_span_step(chars, prev, i);
        match t.1 {
            Action::Break => {
                if r.last_was_zwj && crate::uax29::word::properties::icu_extended_pictographic(c) {
                    let r2 = WordRun { last_was_zwj: false, token: r.token.union(cp), ..r };
                    lemma_word_run_segments(chars, prev, i + 1, r2);
                } else {
                    let r2 = WordRun {
                        state: t.0,
                        last_was_zwj: p == WordBreakProperty::ZWJ,
                        token: cp,
                        ..r
                    };
                    lemma_span_step(chars, i, i);
                    assert(span_props(chars, i, i) == empty_props());
                    assert(empty_props().union(cp) == cp);
                    lemma_word_run_segments(chars, i, i + 1, r2);
                    lemma_prepend_segment(chars, prev, i, r.token, word_run(chars, i + 1, r2));
                }
            },
            Action::NoBreak => {
                if t.0.spec_is_deferred() {
                    let d = if r.deferred_at is None { i } else { r.deferred_at.unwrap() };
                    let r2 = WordRun {
                        state: t.0,
                        deferred_at: Some(d),
                        last_was_zwj: false,
                        token: r.token,
                        deferred: r.deferred.union(cp),
                    };
                    if r.deferred_at is None {
                        lemma_span_step(chars, i, i);
                        assert(empty_props().union(cp) == cp);
                    } else {
                        lemma_span_step(chars, d, i);
                    }
                    lemma_word_run_segments(chars, prev, i + 1, r2);
                } else {
                    let token = if r.deferred_at is Some { r.token.union(r.deferred) } else { r.token };
                    if r.deferred_at is Some {
                        lemma_span_concat(chars, prev, r.deferred_at.unwrap(), i);
                    }
                    let r2 = WordRun {
                        state: t.0,
                        deferred_at: None,
                        last_was_zwj: false,
                        token: token.union(cp),
                        deferred: if r.deferred_at is Some { empty_props() } else { r.deferred },
                    };
                    lemma_word_run_segments(chars, prev, i + 1, r2);
                }
            },
            Action::DeferredBreak => {
                let d = r.deferred_at.unwrap();
                let r2 = WordRun {
                    state: t.0,
                    deferred_at: None,
                    last_was_zwj: false,
                    token: r.deferred,
                    deferred: empty_props(),
                };
                lemma_word_run_segments(chars, d, i, r2);
                lemma_prepend_segment(chars, prev, d, r.token, word_run(chars, i, r2));
            },
            Action::Transparent => {
                if r.deferred_at is Some {
                    lemma_span_step(chars, r.deferred_at.unwrap(), i);
                    let r2 = WordRun {
                        last_was_zwj: p == WordBreakProperty::ZWJ,
                        deferred: r.deferred.union(cp),
                        ..r
                    };
                    lemma_word_run_segments(chars, prev, i + 1, r2);
                } else {
                    let r2 = WordRun {
                        last_was_zwj: p == WordBreakProperty::ZWJ,
                        token: r.token.union(cp),
                        ..r
                    };
                    lemma_word_run_segments(chars, prev, i + 1, r2);
                }
            },
        }
    }
}

proof fn lemma_segments_from_facts(chars: Seq<char>, prev: int, out: Seq<(int, TokenProperties)>)
    requires
        segments_from(chars, prev, out),
    ensures
        out.len() > 0,
        out.last().0 == chars.len(),
        out[0].1 == span_props(chars, prev, out[0].0),
        forall|k: int| 0 <= k < out.len() ==> prev < #[trigger] out[k].0 <= chars.len(),
        forall|k: int|
            0 < k < out.len() ==> out[k - 1].0 < #[trigger] out[k].0 && out[k].1 == span_props(
                chars,
                out[k - 1].0,
                out[k].0,
            ),
    decreases out.len(),
{
    if out.len() > 1 {
        let rest = out.drop_first();
        lemma_segments_from_facts(chars, out[0].0, rest);
        assert forall|k: int| 0 <= k < out.len() implies prev < #[trigger] out[k].0 <= chars.len() by {
            if k > 0 {
                assert(out[k] == rest[k - 1]);
            }
        }
        assert forall|k: int| 0 < k < out.len() implies out[k - 1].0 < #[trigger] out[k].0
            && out[k].1 == span_props(chars, out[k - 1].0, out[k].0) by {
            assert(out[k] == rest[k - 1]);
            if k > 1 {
                assert(out[k - 1] == rest[k - 2]);
            }
        }
    }
}

/// Word segmentation partitions the text. The empty text has no breakpoints;
/// for any other text the first breakpoint is char 0 (with the properties of
/// the empty span), the last is the end of the text, breakpoints strictly
/// increase, and the properties reported with each breakpoint are exactly
/// the union of what the chars since the previous breakpoint contribute:
/// the token is word-like iff one of its chars is, ASCII iff all its chars
/// are, and holds an ASCII capital iff one of its chars is one.
pub proof fn law_word_segments_partition(chars: Seq<char>)
    ensures
        chars.len() == 0 ==> word_segments(chars).len() == 0,
        chars.len() > 0 ==> {
            let s = word_segments(chars);
            &&& s.len() >= 2
            &&& s[0] == (0int, empty_props())
            &&& s.last().0 == chars.len()
            &&& forall|k: int| 0 <= k < s.len() ==> 0 <= #[trigger] s[k].0 <= chars.len()
            &&& forall|k: int|
                0 < k < s.len() ==> s[k - 1].0 < #[trigger] s[k].0 && s[k].1 == span_props(
                    chars,
                    s[k - 1].0,
                    s[k].0,
                )
        },
{
    if chars.len() > 0 {
        let c = chars[0];
        let p = word_break_property(c);
        let t = word_transition(State::StartOfText, p);
        lemma_table_facts(State::StartOfText, p);
        let r1 = WordRun {
            state: t.0,
            deferred_at: None,
            last_was_zwj: p == WordBreakProperty::ZWJ,
            token: char_props(c),
            deferred: empty_props(),
        };
        lemma_span_step(chars, 0, 0);
        assert(empty_props().union(char_props(c)) == char_props(c));
        lemma_word_run_segments(chars, 0, 1, r1);
        let rest = word_run(chars, 1, r1);
        let s = word_segments(chars);
        assert(s == seq![(0int, empty_props())] + rest);
        lemma_segments_from_facts(chars, 0, rest);
        assert(s.drop_first() =~= rest);
        assert forall|k: int| 0 < k < s.len() implies s[k - 1].0 < #[trigger] s[k].0
            && s[k].1 == span_props(chars, s[k - 1].0, s[k].0) by {
            assert(s[k] == rest[k - 1]);
            if k > 1 {
                assert(s[k - 1] == rest[k - 2]);
            }
        }
        assert forall|k: int| 0 <= k < s.len() implies 0 <= #[trigger] s[k].0 <= chars.len() by {
            if k > 0 {
                assert(s[k] == rest[k - 1]);
            }
        }
    }
}

/// The same at the level of `tokenize`'s result: for a non-empty text the
/// breakpoints are byte offsets that start at 0, end at the byte length of
/// the text, and strictly increase.
pub proof fn law_word_breakpoints_bytes(chars: Seq<char>, breaks: Seq<(usize, TokenProperties)>)
    requires
        breakpoints_match(chars, breaks, word_segments(chars)),
    ensures
        chars.len() == 0 ==> breaks.len() == 0,
        chars.len() > 0 ==> {
            &&& breaks.len() >= 2
            &&& breaks[0] == (0usize, empty_props())
            &&& breaks.last().0 == byte_offset(chars, chars.len() as int)
            &&& forall|k: int| 0 < k < breaks.len() ==> breaks[k - 1].0 < #[trigger] breaks[k].0
        },
{
    law_word_segments_partition(chars);
    if chars.len() > 0 {
        let s = word_segments(chars);
        assert(chars.take(0) =~= Seq::<char>::empty());
        assert(breaks[0].0 == byte_offset(chars, 0));
        assert(breaks.last() == breaks[breaks.len() - 1]);
        assert forall|k: int| 0 < k < breaks.len() implies breaks[k - 1].0 < #[trigger] breaks[k].0 by {
            assert(s[k - 1].0 < s[k].0);
            assert(0 <= s[k - 1].0);
            assert(s[k].0 <= chars.len());
            lemma_byte_offset_strictly_increasing(chars, s[k - 1].0, s[k].0);
        }
    }
}

} // verus!
