//! What holds of every sentence segmentation: the breakpoints partition the text.
use vstd::prelude::*;

use crate::text::{byte_offset, lemma_byte_offset_strictly_increasing};
use crate::uax29::sentence::properties::sentence_break_property;
use crate::uax29::sentence::transitions::{sentence_transition, State};
use crate::uax29::sentence::{
    byte_breakpoints, lemma_sentence_table_facts, sentence_run, sentence_segments, SentenceRun,
};
use crate::uax29::Action;

verus! {

/// `out` lists breakpoints after `prev`, strictly increasing, the last at the
/// end of the text.
pub open spec fn breaks_from(len: int, prev: int, out: Seq<int>) -> bool
    decreases out.len(),
{
    if out.len() == 0 {
        false
    } else {
        &&& prev < out[0] <= len
        &&& if out.len() == 1 {
            out[0] == len
        } else {
            breaks_from(len, out[0], out.drop_first())
        }
    }
}

proof fn lemma_prepend(len: int, prev: int, x: int, rest: Seq<int>)
    requires
        prev < x,
        breaks_from(len, x, rest),
    ensures
        breaks_from(len, prev, seq![x] + rest),
{
    assert((seq![x] + rest).drop_first() =~= rest);
    assert(rest[0] <= len);
}

proof fn lemma_sentence_run_breaks(chars: Seq<char>, prev: int, i: int, r: SentenceRun)
    requires
        0 <= prev < i <= chars.len(),
        r.deferred_at is Some <==> r.state.spec_is_deferred(),
        r.deferred_at is Some ==> prev < r.deferred_at.unwrap() < i,
    ensures
        breaks_from(chars.len() as int, prev, sentence_run(chars, i, r)),
    decreases chars.len() - i, if r.state.spec_is_deferred() { 1int } else { 0int },
{
    let len = chars.len() as int;
    if i >= chars.len() {
        if r.state.spec_is_deferred() {
            let d = r.deferred_at.unwrap();
            assert(breaks_from(len, d, seq![len]));
            lemma_prepend(len, prev, d, seq![len]);
            assert(sentence_run(chars, i, r) =~= seq![d] + seq![len]);
        }
    } else {
        let p = sentence_break_property(chars[i]);
        let t = sentence_transition(r.state, p);
        lemma_sentence_table_facts(r.state, p);
        match t.1 {
            Action::Break => {
                let r2 = SentenceRun { state: t.0, deferred_at: r.deferred_at };
                lemma_sentence_run_breaks(chars, i, i + 1, r2);
                lemma_prepend(len, prev, i, sentence_run(chars, i + 1, r2));
            },
            Action::NoBreak => {
                if t.0.spec_is_deferred() {
                    let r2 = SentenceRun {
                        state: t.0,
                        deferred_at: if r.deferred_at is None { Some(i) } else { r.deferred_at },
                    };
                    lemma_sentence_run_breaks(chars, prev, i + 1, r2);
                } else {
                    lemma_sentence_run_breaks(chars, prev, i + 1, SentenceRun { state: t.0, deferred_at: None });
                }
            },
            Action::Transparent => {
                lemma_sentence_run_breaks(chars, prev, i + 1, r);
            },
            Action::DeferredBreak => {
                let d = r.deferred_at.unwrap();
                let r2 = SentenceRun { state: t.0, deferred_at: None };
                lemma_sentence_run_breaks(chars, d, i, r2);
                lemma_prepend(len, prev, d, sentence_run(chars, i, r2));
            },
        }
    }
}

proof fn lemma_breaks_from_facts(len: int, prev: int, out: Seq<int>)
    requires
        breaks_from(len, prev, out),
    ensures
        out.len() > 0,
        out.last() == len,
        forall|k: int| 0 <= k < out.len() ==> prev < #[trigger] out[k] <= len,
        forall|k: int| 0 < k < out.len() ==> out[k - 1] < #[trigger] out[k],
    decreases out.len(),
{
    if out.len() > 1 {
        let rest = out.drop_first();
        lemma_breaks_from_facts(len, out[0], rest);
        assert forall|k: int| 0 <= k < out.len() implies prev < #[trigger] out[k] <= len by {
            if k > 0 {
                assert(out[k] == rest[k - 1]);
            }
        }
        assert forall|k: int| 0 < k < out.len() implies out[k - 1] < #[trigger] out[k] by {
            assert(out[k] == rest[k - 1]);
            if k > 1 {
                assert(out[k - 1] == rest[k - 2]);
            }
        }
    }
}

/// Sentence segmentation partitions the text: no breakpoints for the empty
/// text; otherwise the first is char 0, the last the end of the text, and
/// they strictly increase.
pub proof fn law_sentence_segments_partition(chars: Seq<char>)
    ensures
        chars.len() == 0 ==> sentence_segments(chars).len() == 0,
        chars.len() > 0 ==> {
            let s = sentence_segments(chars);
            &&& s.len() >= 2
            &&& s[0] == 0
            &&& s.last() == chars.len()
            &&& forall|k: int| 0 <= k < s.len() ==> 0 <= #[trigger] s[k] <= chars.len()
            &&& forall|k: int| 0 < k < s.len() ==> s[k - 1] < #[trigger] s[k]
        },
{
    if chars.len() > 0 {
        let len = chars.len() as int;
        let p = sentence_break_property(chars[0]);
        let t = sentence_transition(State::StartOfText, p);
        lemma_sentence_table_facts(State::StartOfText, p);
        let r1 = SentenceRun { state: t.0, deferred_at: None };
        lemma_sentence_run_breaks(chars, 0, 1, r1);
        let rest = sentence_run(chars, 1, r1);
        let s = sentence_segments(chars);
        assert(s == seq![0int] + rest);
        lemma_breaks_from_facts(len, 0, rest);
        assert forall|k: int| 0 <= k < s.len() implies 0 <= #[trigger] s[k] <= chars.len() by {
            if k > 0 {
                assert(s[k] == rest[k - 1]);
            }
        }
        assert forall|k: int| 0 < k < s.len() implies s[k - 1] < #[trigger] s[k] by {
            assert(s[k] == rest[k - 1]);
            if k > 1 {
                assert(s[k - 1] == rest[k - 2]);
            }
        }
    }
}

/// The same in byte offsets, for what `tokenize` appends: for a non-empty
/// text, 0 first, the byte length of the text last, strictly increasing.
pub proof fn law_sentence_breakpoints_bytes(chars: Seq<char>, breaks: Seq<usize>)
    requires
        byte_breakpoints(chars, breaks, sentence_segments(chars)),
    ensures
        chars.len() == 0 ==> breaks.len() == 0,
        chars.len() > 0 ==> {
            &&& breaks.len() >= 2
            &&& breaks[0] == 0
            &&& breaks.last() == byte_offset(chars, chars.len() as int)
            &&& forall|k: int| 0 < k < breaks.len() ==> breaks[k - 1] < #[trigger] breaks[k]
        },
{
    law_sentence_segments_partition(chars);
    if chars.len() > 0 {
        let s = sentence_segments(chars);
        assert(chars.take(0) =~= Seq::<char>::empty());
        assert(breaks[0] == byte_offset(chars, 0));
        assert(breaks.last() == breaks[breaks.len() - 1]);
        assert forall|k: int| 0 < k < breaks.len() implies breaks[k - 1] < #[trigger] breaks[k] by {
            assert(s[k - 1] < s[k]);
            assert(0 <= s[k - 1]);
            assert(s[k] <= chars.len());
            lemma_byte_offset_strictly_increasing(chars, s[k - 1], s[k]);
        }
    }
}

} // verus!
