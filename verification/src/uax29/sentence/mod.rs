//! UAX #29 sentence segmentation.
pub mod laws;
pub mod rules;
pub mod properties;
pub mod transitions;

use vstd::prelude::*;

use crate::text::{
    byte_len, byte_offset, char_len_utf8, chars_of, lemma_byte_offset_monotone,
    lemma_byte_offset_step,
};
use crate::uax29::sentence::properties::{
    sentence_break_property, sentence_break_property_of, SentenceBreakProperty,
};
use crate::uax29::sentence::transitions::{
    lookup, sentence_table, sentence_transition, transition_table, State, Transition,
    NUM_SENTENCE_STATES,
};
use crate::uax29::Action;

verus! {

/// Options of the sentence tokenizer (none yet; kept for compatibility).
#[derive(Default)]
#[non_exhaustive]
pub struct Options {}

/// The state of a run of the sentence automaton between two chars.
pub struct SentenceRun {
    pub state: State,
    /// Char index where the pending deferred break would fall, if any.
    pub deferred_at: Option<int>,
}

/// Breaks happen in and lead to non-deferred states; deferred breaks are
/// resolved only in the deferred state and lead out of it; the start state
/// breaks before every char.
pub proof fn lemma_sentence_table_facts(s: State, p: SentenceBreakProperty)
    ensures
        sentence_transition(s, p).1 == Action::Break ==> !s.spec_is_deferred()
            && !sentence_transition(s, p).0.spec_is_deferred(),
        sentence_transition(s, p).1 == Action::DeferredBreak ==> s.spec_is_deferred()
            && !sentence_transition(s, p).0.spec_is_deferred(),
        s == State::StartOfText ==> sentence_transition(s, p).1 == Action::Break,
{
    match s {
        State::StartOfText => {},
        State::Any => {},
        State::CR => {},
        State::ParaSep => {},
        State::Upper => {},
        State::Lower => {},
        State::ATerm => {},
        State::LetterATerm => {},
        State::STerm => {},
        State::ATermClose => {},
        State::ATermCloseSp => {},
        State::STermClose => {},
        State::STermCloseSp => {},
        State::SB8Pending => {},
    }
}

/// The breakpoints (char indices) that the automaton emits on `chars[i..]`
/// from run state `r`.
pub open spec fn sentence_run(chars: Seq<char>, i: int, r: SentenceRun) -> Seq<int>
    decreases chars.len() - i, if r.state.spec_is_deferred() { 1int } else { 0int },
{
    if i < 0 || i >= chars.len() {
        if r.state.spec_is_deferred() {
            seq![r.deferred_at.unwrap(), chars.len() as int]
        } else {
            seq![chars.len() as int]
        }
    } else {
        let p = sentence_break_property(chars[i]);
        let t = sentence_transition(r.state, p);
        match t.1 {
            Action::Break => seq![i] + sentence_run(
                chars,
                i + 1,
                SentenceRun { state: t.0, deferred_at: r.deferred_at },
            ),
            Action::NoBreak => {
                if t.0.spec_is_deferred() {
                    sentence_run(
                        chars,
                        i + 1,
                        SentenceRun {
                            state: t.0,
                            deferred_at: if r.deferred_at is None { Some(i) } else { r.deferred_at },
                        },
                    )
                } else {
                    sentence_run(chars, i + 1, SentenceRun { state: t.0, deferred_at: None })
                }
            },
            Action::Transparent => sentence_run(chars, i + 1, r),
            Action::DeferredBreak => {
                proof {
                    lemma_sentence_table_facts(r.state, p);
                }
                seq![r.deferred_at.unwrap()] + sentence_run(
                    chars,
                    i,
                    SentenceRun { state: t.0, deferred_at: None },
                )
            },
        }
    }
}

/// The sentence breakpoints of `chars`, as char indices.
pub open spec fn sentence_segments(chars: Seq<char>) -> Seq<int> {
    if chars.len() == 0 {
        Seq::empty()
    } else {
        sentence_run(chars, 0, SentenceRun { state: State::StartOfText, deferred_at: None })
    }
}

/// `breaks` holds the byte offsets of the char indices `segs`.
pub open spec fn byte_breakpoints(chars: Seq<char>, breaks: Seq<usize>, segs: Seq<int>) -> bool {
    &&& breaks.len() == segs.len()
    &&& forall|k: int| 0 <= k < breaks.len() ==> #[trigger] breaks[k] == byte_offset(chars, segs[k])
}

/// Segments `text` into sentences by the UAX #29 sentence boundary rules and
/// appends every breakpoint, as a byte offset into `text`, to `breakpoints`:
/// 0 first and `text.len()` last, nothing for the empty text.
pub fn tokenize(text: &str, breakpoints: &mut Vec<usize>, _options: Options)
    ensures
        final(breakpoints)@.len() >= old(breakpoints)@.len(),
        final(breakpoints)@.subrange(0, old(breakpoints)@.len() as int) == old(breakpoints)@,
        byte_breakpoints(
            text@,
            final(breakpoints)@.subrange(old(breakpoints)@.len() as int, final(breakpoints)@.len() as int),
            sentence_segments(text@),
        ),
{
    let ghost start = breakpoints@.len();
    let chars = chars_of(text);
    let n = chars.len();
    if n == 0 {
        assert(breakpoints@.subrange(start as int, start as int) =~= Seq::<usize>::empty());
        assert(breakpoints@.subrange(0, start as int) =~= breakpoints@);
        return;
    }
    let total = byte_len(text);
    let table = transition_table();
    let mut state = State::StartOfText;
    let mut deferred_break_pos: Option<usize> = None;
    let ghost mut deferred_idx: Option<int> = None;
    let mut pos: usize = 0;
    let mut i: usize = 0;
    let ghost mut emitted: Seq<int> = Seq::empty();
    proof {
        assert(chars@.take(0) =~= Seq::<char>::empty());
    }
    while i < n
        invariant
            chars@ == text@,
            n == chars@.len(),
            n > 0,
            total == byte_offset(chars@, n as int),
            table@.len() == NUM_SENTENCE_STATES,
            forall|k: int| 0 <= k < NUM_SENTENCE_STATES ==> #[trigger] table@[k]@ == sentence_table()[k],
            0 <= i <= n,
            pos == byte_offset(chars@, i as int),
            deferred_break_pos is Some <==> state.spec_is_deferred(),
            deferred_idx is Some <==> state.spec_is_deferred(),
            deferred_idx is Some ==> 0 <= deferred_idx.unwrap() <= i
                && deferred_break_pos.unwrap() == byte_offset(chars@, deferred_idx.unwrap()),
            emitted + sentence_run(chars@, i as int, SentenceRun { state, deferred_at: deferred_idx })
                == sentence_segments(chars@),
            breakpoints@.len() == start + emitted.len(),
            breakpoints@.subrange(0, start as int) == old(breakpoints)@,
            forall|k: int| 0 <= k < emitted.len() ==> #[trigger] breakpoints@[start + k] == byte_offset(chars@, emitted[k]),
        decreases n - i, if state.spec_is_deferred() { 1int } else { 0int },
    {
        let c = chars[i];
        let prop = sentence_break_property_of(c);
        let char_len = char_len_utf8(c);
        proof {
            lemma_byte_offset_step(chars@, i as int);
            lemma_byte_offset_monotone(chars@, i as int + 1, n as int);
            lemma_sentence_table_facts(state, prop);
        }
        let Transition(next_state, action) = lookup(&table, state, prop);
        match action {
            Action::Break => {
                state = next_state;
                proof {
                    emitted = emitted.push(i as int);
                }
                breakpoints.push(pos);
                i = i + 1;
                pos = pos + char_len;
                continue;
            },
            Action::NoBreak => {
                if next_state.is_deferred() {
                    if deferred_break_pos.is_none() {
                        deferred_break_pos = Some(pos);
                        proof {
                            deferred_idx = Some(i as int);
                        }
                    }
                } else {
                    deferred_break_pos = None;
                    proof {
                        deferred_idx = None;
                    }
                }
                state = next_state;
                i = i + 1;
                pos = pos + char_len;
            },
            Action::Transparent => {
                // The state does not change, but the char is consumed.
                i = i + 1;
                pos = pos + char_len;
            },
            Action::DeferredBreak => {
                let boundary = match deferred_break_pos {
                    Some(b) => b,
                    None => 0,
                };
                deferred_break_pos = None;
                proof {
                    emitted = emitted.push(deferred_idx.unwrap());
                    deferred_idx = None;
                }
                state = next_state;
                // The current char is examined again in the new state.
                breakpoints.push(boundary);
                continue;
            },
        }
    }
    // A deferred state at the end of the text: confirm the break.
    if state.is_deferred() {
        let b = match deferred_break_pos {
            Some(b) => b,
            None => 0,
        };
        proof {
            emitted = emitted.push(deferred_idx.unwrap());
        }
        breakpoints.push(b);
    }
    // SB2: Any ÷ eot.
    proof {
        emitted = emitted.push(n as int);
    }
    breakpoints.push(total);
    assert(breakpoints@.subrange(start as int, breakpoints@.len() as int) =~= breakpoints@.subrange(
        start as int,
        breakpoints@.len() as int,
    ));
    assert forall|k: int| 0 <= k < emitted.len() implies #[trigger] breakpoints@.subrange(
        start as int,
        breakpoints@.len() as int,
    )[k] == byte_offset(chars@, sentence_segments(chars@)[k]) by {
        assert(breakpoints@[start + k] == byte_offset(chars@, emitted[k]));
    }
}

} // verus!
