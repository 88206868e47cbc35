//! The UAX #29 sentence boundary rules that sentence segmentation keeps,
//! each stated over the Sentence_Break classes of the chars and proved of
//! `sentence_segments`.
//!
//! The proofs follow the automaton one char at a time: `run_at` is the run
//! state before a char, `emitted` what the step over that char reports.
use vstd::prelude::*;

use crate::uax29::sentence::laws::law_sentence_segments_partition;
use crate::uax29::sentence::properties::{sentence_break_property, SentenceBreakProperty};
use crate::uax29::sentence::transitions::{sentence_transition, State, Transition};
use crate::uax29::sentence::{sentence_run, sentence_segments, SentenceRun};
use crate::uax29::Action;

verus! {

/// The Sentence_Break class of the char at `i`.
pub open spec fn sb(chars: Seq<char>, i: int) -> SentenceBreakProperty {
    sentence_break_property(chars[i])
}

/// Extend and Format: the classes that SB5 attaches to the char before.
pub open spec fn is_ignorable(p: SentenceBreakProperty) -> bool {
    p == SentenceBreakProperty::Extend || p == SentenceBreakProperty::Format
}

/// ParaSep: Sep, CR or LF.
pub open spec fn is_para_sep(p: SentenceBreakProperty) -> bool {
    p == SentenceBreakProperty::Sep || p == SentenceBreakProperty::CR || p
        == SentenceBreakProperty::LF
}

/// Every char strictly between `j` and `i` is Extend or Format, so that by
/// SB5 the char at `i` follows the one at `j`.
pub open spec fn ignorable_between(chars: Seq<char>, j: int, i: int) -> bool {
    forall|k: int| j < k < i ==> is_ignorable(#[trigger] sb(chars, k))
}

/// Sentence segmentation breaks before the char at `i` (or at the end, for
/// `i` the length).
pub open spec fn is_sentence_break(chars: Seq<char>, i: int) -> bool {
    exists|k: int|
        0 <= k < sentence_segments(chars).len() && #[trigger] sentence_segments(chars)[k] == i
}

/// What may follow `!` or `?` (with Close* Sp* in between) without a break:
/// SB8a, SB9, SB10.
pub open spec fn continues_after_sterm(p: SentenceBreakProperty) -> bool {
    p == SentenceBreakProperty::Close || p == SentenceBreakProperty::Sp || is_para_sep(p) || p
        == SentenceBreakProperty::SContinue || p == SentenceBreakProperty::ATerm || p
        == SentenceBreakProperty::STerm
}

/// The classes that SB8 lets stand between a full stop (with its Close* Sp*)
/// and a lowercase letter: none of OLetter, Upper, Lower, ParaSep, SATerm.
pub open spec fn skipped_by_sb8(p: SentenceBreakProperty) -> bool {
    !(p == SentenceBreakProperty::OLetter || p == SentenceBreakProperty::Upper || p
        == SentenceBreakProperty::Lower || is_para_sep(p) || p == SentenceBreakProperty::ATerm || p
        == SentenceBreakProperty::STerm)
}

/// What the UAX #29 sentence rules decide between a char of class `a` and
/// the next char as SB5 reads the text, of class `b` (not Extend or
/// Format): `true` for a break.
pub open spec fn sentence_rules_break(a: SentenceBreakProperty, b: SentenceBreakProperty) -> bool {
    if a == SentenceBreakProperty::CR && b == SentenceBreakProperty::LF {
        // SB3
        false
    } else if is_para_sep(a) {
        // SB4
        true
    } else if a == SentenceBreakProperty::STerm {
        // SB8a, SB9, SB10, SB11
        !continues_after_sterm(b)
    } else {
        // SB998
        false
    }
}

/// The classes whose char, once SB5 has attached Extend and Format to it,
/// `sentence_rules_break` decides after: Upper, Lower, OLetter, STerm and
/// (with nothing attached) ParaSep.
pub open spec fn sentence_rules_decide_after(p: SentenceBreakProperty) -> bool {
    p == SentenceBreakProperty::Upper || p == SentenceBreakProperty::Lower || p
        == SentenceBreakProperty::OLetter || p == SentenceBreakProperty::STerm || is_para_sep(p)
}

/// The states the automaton passes through after a full stop while SB8 may
/// still hold.
spec fn in_sb8_window(s: State) -> bool {
    s == State::ATerm || s == State::LetterATerm || s == State::ATermClose || s
        == State::ATermCloseSp || s == State::SB8Pending || s == State::Any
}

/// The classes after which the automaton's state is fixed by the class.
spec fn is_anchor(p: SentenceBreakProperty) -> bool {
    p == SentenceBreakProperty::Upper || p == SentenceBreakProperty::Lower || p
        == SentenceBreakProperty::OLetter || p == SentenceBreakProperty::STerm || is_para_sep(p)
}

/// The state the automaton is in after a char of anchor class `p`.
spec fn target(p: SentenceBreakProperty) -> State {
    match p {
        SentenceBreakProperty::Upper => State::Upper,
        SentenceBreakProperty::Lower => State::Lower,
        SentenceBreakProperty::STerm => State::STerm,
        SentenceBreakProperty::CR => State::CR,
        SentenceBreakProperty::LF => State::ParaSep,
        SentenceBreakProperty::Sep => State::ParaSep,
        _ => State::Any,
    }
}

/// The states in which Extend and Format pass without a change (SB5).
spec fn keeps_sb5(s: State) -> bool {
    s != State::StartOfText && s != State::CR && s != State::ParaSep
}

/// The step over the char at `i` from `r` when the transition is not a
/// deferred break.
spec fn single(chars: Seq<char>, i: int, r: SentenceRun) -> (SentenceRun, Seq<int>) {
    let t = sentence_transition(r.state, sb(chars, i));
    match t.1 {
        Action::Break => (SentenceRun { state: t.0, deferred_at: r.deferred_at }, seq![i]),
        Action::NoBreak => {
            if t.0.spec_is_deferred() {
                (
                    SentenceRun {
                        state: t.0,
                        deferred_at: if r.deferred_at is None { Some(i) } else { r.deferred_at },
                    },
                    Seq::empty(),
                )
            } else {
                (SentenceRun { state: t.0, deferred_at: None }, Seq::empty())
            }
        },
        Action::Transparent => (r, Seq::empty()),
        Action::DeferredBreak => (r, Seq::empty()),
    }
}

/// The whole step over the char at `i` from `r`.
spec fn step(chars: Seq<char>, i: int, r: SentenceRun) -> (SentenceRun, Seq<int>) {
    let t = sentence_transition(r.state, sb(chars, i));
    if t.1 == Action::DeferredBreak {
        let s = single(chars, i, SentenceRun { state: t.0, deferred_at: None });
        (s.0, seq![r.deferred_at.unwrap()] + s.1)
    } else {
        single(chars, i, r)
    }
}

/// The run state before the char at `i`.
spec fn run_at(chars: Seq<char>, i: int) -> SentenceRun
    decreases i,
{
    if i <= 0 {
        SentenceRun { state: State::StartOfText, deferred_at: None }
    } else {
        step(chars, i - 1, run_at(chars, i - 1)).0
    }
}

/// The breakpoints reported by the step over the char at `i`.
spec fn emitted(chars: Seq<char>, i: int) -> Seq<int> {
    step(chars, i, run_at(chars, i)).1
}

/// `out` reports a breakpoint at `x`.
spec fn out_has(out: Seq<int>, x: int) -> bool {
    exists|k: int| 0 <= k < out.len() && #[trigger] out[k] == x
}

/// What holds of the run state before the char at `i`, and of the state a
/// deferred break resolves to there.
spec fn run_base(i: int, r: SentenceRun) -> bool {
    &&& (r.deferred_at is Some) == r.state.spec_is_deferred()
    &&& (r.deferred_at matches Some(d) ==> 0 <= d < i)
    &&& (r.state == State::StartOfText) == (i == 0)
}

/// What holds of the run state before the char at `i`.
spec fn run_ok(chars: Seq<char>, i: int, r: SentenceRun) -> bool {
    &&& run_base(i, r)
    &&& (r.state == State::CR ==> 1 <= i && sb(chars, i - 1) == SentenceBreakProperty::CR)
    &&& (r.state == State::ParaSep ==> 1 <= i && (sb(chars, i - 1) == SentenceBreakProperty::LF
        || sb(chars, i - 1) == SentenceBreakProperty::Sep))
}

/// The facts of the transition table that the rules rest on.
proof fn lemma_table(s: State, p: SentenceBreakProperty)
    ensures
        ({
            let t = sentence_transition(s, p);
            &&& t.1 == Action::Break ==> !s.spec_is_deferred() && !t.0.spec_is_deferred()
            &&& t.1 == Action::DeferredBreak ==> s.spec_is_deferred() && !t.0.spec_is_deferred()
            &&& s.spec_is_deferred() ==> t.1 != Action::Break
            &&& t.1 == Action::Transparent ==> keeps_sb5(s)
            &&& s == State::StartOfText ==> t.1 == Action::Break
            &&& t.0 != State::StartOfText
            &&& t.0 == State::CR && t.1 != Action::Transparent ==> p == SentenceBreakProperty::CR
            &&& t.0 == State::ParaSep && t.1 != Action::Transparent ==> p
                == SentenceBreakProperty::LF || p == SentenceBreakProperty::Sep
            &&& is_ignorable(p) ==> if keeps_sb5(s) {
                t.1 == Action::Transparent
            } else {
                t == Transition(State::Any, Action::Break)
            }
            &&& (s == State::CR || s == State::ParaSep) ==> t.1 == Action::Break || (s == State::CR
                && p == SentenceBreakProperty::LF && t == Transition(State::ParaSep, Action::NoBreak))
            &&& is_anchor(p) ==> if s.spec_is_deferred() {
                (t.1 == Action::NoBreak && t.0 == target(p)) || t.1 == Action::DeferredBreak
            } else {
                (t.1 == Action::Break || t.1 == Action::NoBreak) && t.0 == target(p)
            }
            &&& (s == State::Upper || s == State::Lower || s == State::Any) && !is_ignorable(p)
                ==> t.1 == Action::NoBreak && !t.0.spec_is_deferred()
            &&& p == SentenceBreakProperty::ATerm ==> if s.spec_is_deferred() {
                t == Transition(State::ATerm, Action::DeferredBreak)
            } else {
                (t.1 == Action::Break || t.1 == Action::NoBreak) && (t.0 == State::ATerm || t.0
                    == State::LetterATerm)
            }
            &&& (s == State::ATerm || s == State::LetterATerm) && p == SentenceBreakProperty::Numeric
                ==> t == Transition(State::Any, Action::NoBreak)
            &&& (s == State::Upper || s == State::Lower) && p == SentenceBreakProperty::ATerm ==> t
                == Transition(State::LetterATerm, Action::NoBreak)
            &&& s == State::LetterATerm && p == SentenceBreakProperty::Upper ==> t == Transition(
                State::Upper,
                Action::NoBreak,
            )
            &&& s == State::STerm && !is_ignorable(p) ==> if continues_after_sterm(p) {
                t.1 == Action::NoBreak && !t.0.spec_is_deferred()
            } else {
                t.1 == Action::Break
            }
        }),
{
    match s {
        State::StartOfText => {},
        State::Any => {},
        State::CR => {},
        State::ParaSep => {},
        State::Upper => {},
        State::Lower => {},
        State::ATerm => {},
        State::LetterATerm => {},
        State::STerm => {},
        State::ATermClose => {},
        State::ATermCloseSp => {},
        State::STermClose => {},
        State::STermCloseSp => {},
        State::SB8Pending => {},
    }
}

proof fn lemma_out_has_concat(a: Seq<int>, b: Seq<int>, x: int)
    ensures
        out_has(a + b, x) == (out_has(a, x) || out_has(b, x)),
{
    if out_has(a + b, x) {
        let k = choose|k: int| 0 <= k < (a + b).len() && #[trigger] (a + b)[k] == x;
        if k < a.len() {
            assert((a + b)[k] == a[k]);
        } else {
            assert((a + b)[k] == b[k - a.len()]);
        }
    }
    if out_has(a, x) {
        let k = choose|k: int| 0 <= k < a.len() && #[trigger] a[k] == x;
        assert((a + b)[k] == a[k]);
    }
    if out_has(b, x) {
        let k = choose|k: int| 0 <= k < b.len() && #[trigger] b[k] == x;
        assert((a + b)[k + a.len()] == b[k]);
    }
}

/// The run from the char at `i` is the step over it followed by the run
/// from the next char.
proof fn lemma_unfold(chars: Seq<char>, i: int, r: SentenceRun)
    requires
        0 <= i < chars.len(),
    ensures
        sentence_run(chars, i, r) == step(chars, i, r).1 + sentence_run(
            chars,
            i + 1,
            step(chars, i, r).0,
        ),
{
    let p = sb(chars, i);
    let t = sentence_transition(r.state, p);
    lemma_table(r.state, p);
    if t.1 == Action::DeferredBreak {
        let r2 = SentenceRun { state: t.0, deferred_at: None };
        lemma_table(t.0, p);
        let s = single(chars, i, r2);
        assert(sentence_run(chars, i, r2) =~= s.1 + sentence_run(chars, i + 1, s.0));
        let head = seq![r.deferred_at.unwrap()];
        assert(sentence_run(chars, i, r) =~= head + sentence_run(chars, i, r2));
        assert(head + (s.1 + sentence_run(chars, i + 1, s.0)) =~= (head + s.1) + sentence_run(
            chars,
            i + 1,
            s.0,
        ));
    } else {
        let s = single(chars, i, r);
        assert(sentence_run(chars, i, r) =~= s.1 + sentence_run(chars, i + 1, s.0));
    }
}

proof fn lemma_single_ok(chars: Seq<char>, i: int, r: SentenceRun)
    requires
        0 <= i < chars.len(),
        run_base(i, r),
        sentence_transition(r.state, sb(chars, i)).1 != Action::DeferredBreak,
    ensures
        run_ok(chars, i + 1, single(chars, i, r).0),
        single(chars, i, r).0.deferred_at matches Some(d) ==> d == i || r.deferred_at == Some(d),
        forall|k: int|
            0 <= k < single(chars, i, r).1.len() ==> #[trigger] single(chars, i, r).1[k] == i,
{
    lemma_table(r.state, sb(chars, i));
}

/// One step keeps `run_ok`; a pending deferred break is the one held before
/// or starts at `i`; the step reports `i` or the pending deferred break.
proof fn lemma_step_ok(chars: Seq<char>, i: int, r: SentenceRun)
    requires
        0 <= i < chars.len(),
        run_ok(chars, i, r),
    ensures
        run_ok(chars, i + 1, step(chars, i, r).0),
        step(chars, i, r).0.deferred_at matches Some(d) ==> d == i || r.deferred_at == Some(d),
        forall|k: int|
            0 <= k < step(chars, i, r).1.len() ==> #[trigger] step(chars, i, r).1[k] == i
                || r.deferred_at == Some(step(chars, i, r).1[k]),
{
    let p = sb(chars, i);
    let t = sentence_transition(r.state, p);
    lemma_table(r.state, p);
    if t.1 == Action::DeferredBreak {
        let r2 = SentenceRun { state: t.0, deferred_at: None };
        lemma_table(t.0, p);
        lemma_single_ok(chars, i, r2);
        let s = single(chars, i, r2);
        let out = step(chars, i, r).1;
        assert(out == seq![r.deferred_at.unwrap()] + s.1);
        assert forall|k: int| 0 <= k < out.len() implies #[trigger] out[k] == i || r.deferred_at
            == Some(out[k]) by {
            if k > 0 {
                assert(out[k] == s.1[k - 1]);
            }
        }
    } else {
        lemma_single_ok(chars, i, r);
    }
}

/// `run_ok` holds before every char.
proof fn lemma_run_ok(chars: Seq<char>, i: int)
    requires
        0 <= i <= chars.len(),
    ensures
        run_ok(chars, i, run_at(chars, i)),
    decreases i,
{
    if i > 0 {
        lemma_run_ok(chars, i - 1);
        lemma_step_ok(chars, i - 1, run_at(chars, i - 1));
    }
}

/// A deferred break pending before the char at `j` was pending before every
/// char since the one after its position.
proof fn lemma_deferred_continuity(chars: Seq<char>, d: int, e: int, j: int)
    requires
        d < e <= j <= chars.len(),
        run_at(chars, j).deferred_at == Some(d),
    ensures
        run_at(chars, e).deferred_at == Some(d),
    decreases j,
{
    if j > e {
        lemma_run_ok(chars, j - 1);
        lemma_step_ok(chars, j - 1, run_at(chars, j - 1));
        lemma_deferred_continuity(chars, d, e, j - 1);
    }
}

/// The end of the run reports no breakpoint at `x` where no deferred break
/// at `x` is pending before the char at `e`.
proof fn lemma_not_at_end(chars: Seq<char>, x: int, e: int)
    requires
        0 < x < e <= chars.len(),
        run_at(chars, e).deferred_at != Some(x),
    ensures
        !out_has(sentence_run(chars, chars.len() as int, run_at(chars, chars.len() as int)), x),
{
    let n = chars.len() as int;
    let r = run_at(chars, n);
    lemma_run_ok(chars, n);
    let out = sentence_run(chars, n, r);
    if r.state.spec_is_deferred() {
        let d = r.deferred_at.unwrap();
        if d == x {
            lemma_deferred_continuity(chars, x, e, n);
        }
        assert(out == seq![d, n]);
        if out_has(out, x) {
            let k = choose|k: int| 0 <= k < out.len() && #[trigger] out[k] == x;
            assert(k == 0 || k == 1);
        }
    } else {
        assert(out == seq![n]);
        if out_has(out, x) {
            let k = choose|k: int| 0 <= k < out.len() && #[trigger] out[k] == x;
            assert(k == 0);
        }
    }
}

/// The step over the char at `j` does not report `x`, under the conditions
/// of `lemma_not_break`.
proof fn lemma_not_in_step(chars: Seq<char>, x: int, e: int, j: int)
    requires
        0 < x < e <= chars.len(),
        0 <= j < chars.len(),
        forall|l: int| x <= l < e ==> (#[trigger] emitted(chars, l)).len() == 0,
        run_at(chars, e).deferred_at != Some(x),
    ensures
        !out_has(emitted(chars, j), x),
{
    let r = run_at(chars, j);
    lemma_run_ok(chars, j);
    lemma_step_ok(chars, j, r);
    let out = emitted(chars, j);
    if out_has(out, x) && !(x <= j < e) {
        let k = choose|k: int| 0 <= k < out.len() && #[trigger] out[k] == x;
        assert(out[k] == j || r.deferred_at == Some(out[k]));
        if j >= e && r.deferred_at == Some(x) {
            lemma_deferred_continuity(chars, x, e, j);
        }
    }
    if x <= j < e {
        assert(emitted(chars, j).len() == 0);
    }
}

/// No step from `j` on reports `x`, under the conditions of
/// `lemma_not_break`.
proof fn lemma_not_in_run(chars: Seq<char>, x: int, e: int, j: int)
    requires
        0 < x < e <= chars.len(),
        0 <= j <= chars.len(),
        forall|l: int| x <= l < e ==> (#[trigger] emitted(chars, l)).len() == 0,
        run_at(chars, e).deferred_at != Some(x),
    ensures
        !out_has(sentence_run(chars, j, run_at(chars, j)), x),
    decreases chars.len() - j,
{
    if j == chars.len() {
        lemma_not_at_end(chars, x, e);
    } else {
        let r = run_at(chars, j);
        lemma_unfold(chars, j, r);
        assert(run_at(chars, j + 1) == step(chars, j, r).0);
        lemma_not_in_run(chars, x, e, j + 1);
        lemma_not_in_step(chars, x, e, j);
        lemma_out_has_concat(emitted(chars, j), sentence_run(chars, j + 1, run_at(chars, j + 1)), x);
    }
}

/// Segmentation does not break before the char at `x` where the steps from
/// `x` to `e` report nothing and no deferred break at `x` is pending before
/// the char at `e`.
proof fn lemma_not_break(chars: Seq<char>, x: int, e: int)
    requires
        0 < x < e <= chars.len(),
        forall|l: int| x <= l < e ==> (#[trigger] emitted(chars, l)).len() == 0,
        run_at(chars, e).deferred_at != Some(x),
    ensures
        !is_sentence_break(chars, x),
{
    lemma_not_in_run(chars, x, e, 0);
    let segs = sentence_segments(chars);
    assert(segs == sentence_run(chars, 0, run_at(chars, 0)));
    if is_sentence_break(chars, x) {
        let k = choose|k: int| 0 <= k < segs.len() && #[trigger] segs[k] == x;
        assert(out_has(segs, x));
    }
}

/// No break before the char at `i` where its step reports nothing and
/// leaves no deferred break pending at `i`.
proof fn lemma_quiet_step(chars: Seq<char>, i: int)
    requires
        0 < i < chars.len(),
        emitted(chars, i).len() == 0,
        run_at(chars, i + 1).deferred_at != Some(i),
    ensures
        !is_sentence_break(chars, i),
{
    assert forall|l: int| i <= l < i + 1 implies (#[trigger] emitted(chars, l)).len() == 0 by {
        assert(l == i);
    }
    lemma_not_break(chars, i, i + 1);
}

/// A breakpoint that the run from `i` reports is one of the run from `j`.
proof fn lemma_in_run(chars: Seq<char>, j: int, i: int, x: int)
    requires
        0 <= j <= i <= chars.len(),
        out_has(sentence_run(chars, i, run_at(chars, i)), x),
    ensures
        out_has(sentence_run(chars, j, run_at(chars, j)), x),
    decreases i - j,
{
    if j < i {
        lemma_in_run(chars, j + 1, i, x);
        lemma_unfold(chars, j, run_at(chars, j));
        assert(run_at(chars, j + 1) == step(chars, j, run_at(chars, j)).0);
        lemma_out_has_concat(
            emitted(chars, j),
            sentence_run(chars, j + 1, run_at(chars, j + 1)),
            x,
        );
    }
}

/// A breakpoint that the step over the char at `i` reports is a break of
/// the segmentation.
proof fn lemma_emitted_break(chars: Seq<char>, i: int, x: int)
    requires
        0 <= i < chars.len(),
        out_has(emitted(chars, i), x),
    ensures
        is_sentence_break(chars, x),
{
    let r = run_at(chars, i);
    lemma_unfold(chars, i, r);
    lemma_out_has_concat(emitted(chars, i), sentence_run(chars, i + 1, step(chars, i, r).0), x);
    lemma_in_run(chars, 0, i, x);
    let segs = sentence_segments(chars);
    assert(segs == sentence_run(chars, 0, run_at(chars, 0)));
    let k = choose|k: int| 0 <= k < segs.len() && #[trigger] segs[k] == x;
    assert(segs[k] == x);
}

/// After a char of an anchor class, the automaton is in that class's state
/// with no deferred break.
proof fn lemma_after_anchor(chars: Seq<char>, j: int)
    requires
        0 <= j < chars.len(),
        is_anchor(sb(chars, j)),
    ensures
        run_at(chars, j + 1).state == target(sb(chars, j)),
        run_at(chars, j + 1).deferred_at is None,
{
    let r = run_at(chars, j);
    let p = sb(chars, j);
    let t = sentence_transition(r.state, p);
    lemma_run_ok(chars, j);
    lemma_table(r.state, p);
    lemma_table(t.0, p);
    assert(run_at(chars, j + 1) == step(chars, j, r).0);
}

/// Extend and Format chars pass a state that keeps SB5 without a change and
/// without reporting a breakpoint.
proof fn lemma_ignorable_run(chars: Seq<char>, a: int, b: int)
    requires
        0 <= a <= b <= chars.len(),
        forall|k: int| a <= k < b ==> is_ignorable(#[trigger] sb(chars, k)),
        keeps_sb5(run_at(chars, a).state),
    ensures
        run_at(chars, b) == run_at(chars, a),
        forall|k: int| a <= k < b ==> (#[trigger] emitted(chars, k)).len() == 0,
    decreases b - a,
{
    if b > a {
        lemma_ignorable_run(chars, a, b - 1);
        let r = run_at(chars, b - 1);
        assert(is_ignorable(sb(chars, b - 1)));
        lemma_table(r.state, sb(chars, b - 1));
        assert(run_at(chars, b) == step(chars, b - 1, r).0);
    }
}

/// SB1, SB2: a text that is not empty has a break at its start and at its
/// end.
pub proof fn law_sb1_sb2(chars: Seq<char>)
    requires
        chars.len() > 0,
    ensures
        is_sentence_break(chars, 0),
        is_sentence_break(chars, chars.len() as int),
{
    law_sentence_segments_partition(chars);
    let s = sentence_segments(chars);
    assert(s[0] == 0);
    assert(s[s.len() - 1] == chars.len());
}

/// SB3: no break between CR and LF.
pub proof fn law_sb3(chars: Seq<char>, i: int)
    requires
        0 < i < chars.len(),
        sb(chars, i - 1) == SentenceBreakProperty::CR,
        sb(chars, i) == SentenceBreakProperty::LF,
    ensures
        !is_sentence_break(chars, i),
{
    lemma_after_anchor(chars, i - 1);
    let r = run_at(chars, i);
    lemma_table(State::CR, SentenceBreakProperty::LF);
    assert(run_at(chars, i + 1) == step(chars, i, r).0);
    lemma_quiet_step(chars, i);
}

/// SB4: a break after a paragraph separator (but between CR and LF).
pub proof fn law_sb4(chars: Seq<char>, i: int)
    requires
        0 < i < chars.len(),
        is_para_sep(sb(chars, i - 1)),
        !(sb(chars, i - 1) == SentenceBreakProperty::CR && sb(chars, i)
            == SentenceBreakProperty::LF),
    ensures
        is_sentence_break(chars, i),
{
    lemma_after_anchor(chars, i - 1);
    let r = run_at(chars, i);
    lemma_run_ok(chars, i);
    lemma_table(r.state, sb(chars, i));
    assert(emitted(chars, i)[0] == i);
    lemma_emitted_break(chars, i, i);
}

/// SB5: no break before Extend or Format, but after a paragraph separator.
pub proof fn law_sb5(chars: Seq<char>, i: int)
    requires
        0 < i < chars.len(),
        is_ignorable(sb(chars, i)),
        !is_para_sep(sb(chars, i - 1)),
    ensures
        !is_sentence_break(chars, i),
{
    let r = run_at(chars, i);
    lemma_run_ok(chars, i);
    lemma_table(r.state, sb(chars, i));
    assert(run_at(chars, i + 1) == step(chars, i, r).0);
    lemma_quiet_step(chars, i);
}

/// SB998 after a letter: no break after Upper, Lower or OLetter, as SB5
/// reads the text.
pub proof fn law_no_break_after_letter(chars: Seq<char>, j: int, i: int)
    requires
        0 <= j < i < chars.len(),
        ignorable_between(chars, j, i),
        sb(chars, j) == SentenceBreakProperty::Upper || sb(chars, j) == SentenceBreakProperty::Lower
            || sb(chars, j) == SentenceBreakProperty::OLetter,
    ensures
        !is_sentence_break(chars, i),
{
    lemma_after_anchor(chars, j);
    lemma_ignorable_run(chars, j + 1, i);
    let r = run_at(chars, i);
    lemma_table(r.state, sb(chars, i));
    assert(run_at(chars, i + 1) == step(chars, i, r).0);
    if is_ignorable(sb(chars, i)) {
        assert(emitted(chars, i).len() == 0);
    }
    lemma_quiet_step(chars, i);
}

/// SB8a, SB9, SB10, SB11 after `!` or `?` (an STerm): right after it, as SB5
/// reads the text, there is a break exactly when what follows is not a
/// Close, Sp, paragraph separator, SContinue or terminator.
pub proof fn law_after_sterm(chars: Seq<char>, j: int, i: int)
    requires
        0 <= j < i < chars.len(),
        ignorable_between(chars, j, i),
        sb(chars, j) == SentenceBreakProperty::STerm,
        !is_ignorable(sb(chars, i)),
    ensures
        is_sentence_break(chars, i) == !continues_after_sterm(sb(chars, i)),
{
    lemma_after_anchor(chars, j);
    lemma_ignorable_run(chars, j + 1, i);
    let r = run_at(chars, i);
    lemma_table(r.state, sb(chars, i));
    if continues_after_sterm(sb(chars, i)) {
        assert(run_at(chars, i + 1) == step(chars, i, r).0);
        lemma_quiet_step(chars, i);
    } else {
        assert(emitted(chars, i)[0] == i);
        lemma_emitted_break(chars, i, i);
    }
}

/// After a full stop (an ATerm) the automaton is in a full stop state with
/// no deferred break.
proof fn lemma_after_aterm(chars: Seq<char>, j: int)
    requires
        0 <= j < chars.len(),
        sb(chars, j) == SentenceBreakProperty::ATerm,
    ensures
        run_at(chars, j + 1).state == State::ATerm || run_at(chars, j + 1).state
            == State::LetterATerm,
        run_at(chars, j + 1).deferred_at is None,
{
    let r = run_at(chars, j);
    let p = sb(chars, j);
    lemma_run_ok(chars, j);
    lemma_table(r.state, p);
    lemma_table(State::ATerm, p);
    assert(run_at(chars, j + 1) == step(chars, j, r).0);
}

/// SB6: no break between a full stop and a digit, as SB5 reads the text.
pub proof fn law_sb6(chars: Seq<char>, j: int, i: int)
    requires
        0 <= j < i < chars.len(),
        ignorable_between(chars, j, i),
        sb(chars, j) == SentenceBreakProperty::ATerm,
        sb(chars, i) == SentenceBreakProperty::Numeric,
    ensures
        !is_sentence_break(chars, i),
{
    lemma_after_aterm(chars, j);
    lemma_ignorable_run(chars, j + 1, i);
    let r = run_at(chars, i);
    lemma_table(r.state, sb(chars, i));
    assert(run_at(chars, i + 1) == step(chars, i, r).0);
    lemma_quiet_step(chars, i);
}

/// SB7: no break between a letter, a full stop and an uppercase letter, as
/// SB5 reads the text.
pub proof fn law_sb7(chars: Seq<char>, h: int, j: int, i: int)
    requires
        0 <= h < j < i < chars.len(),
        ignorable_between(chars, h, j),
        ignorable_between(chars, j, i),
        sb(chars, h) == SentenceBreakProperty::Upper || sb(chars, h) == SentenceBreakProperty::Lower,
        sb(chars, j) == SentenceBreakProperty::ATerm,
        sb(chars, i) == SentenceBreakProperty::Upper,
    ensures
        !is_sentence_break(chars, i),
{
    lemma_after_anchor(chars, h);
    lemma_ignorable_run(chars, h + 1, j);
    let rj = run_at(chars, j);
    lemma_table(rj.state, sb(chars, j));
    assert(run_at(chars, j + 1) == step(chars, j, rj).0);
    lemma_ignorable_run(chars, j + 1, i);
    let r = run_at(chars, i);
    lemma_table(r.state, sb(chars, i));
    assert(run_at(chars, i + 1) == step(chars, i, r).0);
    lemma_quiet_step(chars, i);
}

proof fn lemma_sb8_table(s: State, p: SentenceBreakProperty)
    requires
        in_sb8_window(s),
    ensures
        ({
            let t = sentence_transition(s, p);
            &&& skipped_by_sb8(p) && !is_ignorable(p) ==> t.1 == Action::NoBreak && in_sb8_window(
                t.0,
            )
            &&& p == SentenceBreakProperty::Lower ==> t == Transition(State::Lower, Action::NoBreak)
        }),
{
    match s {
        State::ATerm => {},
        State::LetterATerm => {},
        State::ATermClose => {},
        State::ATermCloseSp => {},
        State::SB8Pending => {},
        _ => {},
    }
}

/// After a full stop, chars that SB8 skips pass without a break; a break
/// the automaton defers there falls after the full stop.
proof fn lemma_sb8_window(chars: Seq<char>, j: int, k: int)
    requires
        0 <= j < k <= chars.len(),
        sb(chars, j) == SentenceBreakProperty::ATerm,
        forall|l: int| j < l < k ==> skipped_by_sb8(#[trigger] sb(chars, l)),
    ensures
        in_sb8_window(run_at(chars, k).state),
        run_at(chars, k).deferred_at matches Some(d) ==> j < d,
        forall|l: int| j < l < k ==> (#[trigger] emitted(chars, l)).len() == 0,
    decreases k,
{
    if k == j + 1 {
        lemma_after_aterm(chars, j);
    } else {
        lemma_sb8_window(chars, j, k - 1);
        let r = run_at(chars, k - 1);
        let p = sb(chars, k - 1);
        assert(skipped_by_sb8(p));
        lemma_table(r.state, p);
        lemma_sb8_table(r.state, p);
        assert(run_at(chars, k) == step(chars, k - 1, r).0);
    }
}

/// SB8: after a full stop, where only chars that are none of OLetter,
/// Upper, Lower, ParaSep, SATerm stand before a lowercase letter (Close,
/// Sp, Numeric, SContinue, Other, as SB5 reads the text), there is no break
/// anywhere from the full stop to the lowercase letter.
pub proof fn law_sb8(chars: Seq<char>, j: int, i: int)
    requires
        0 <= j < i < chars.len(),
        sb(chars, j) == SentenceBreakProperty::ATerm,
        forall|l: int| j < l < i ==> skipped_by_sb8(#[trigger] sb(chars, l)),
        sb(chars, i) == SentenceBreakProperty::Lower,
    ensures
        forall|x: int| j < x <= i ==> !is_sentence_break(chars, x),
{
    lemma_sb8_window(chars, j, i);
    let r = run_at(chars, i);
    lemma_table(r.state, sb(chars, i));
    lemma_sb8_table(r.state, sb(chars, i));
    assert(run_at(chars, i + 1) == step(chars, i, r).0);
    assert(emitted(chars, i).len() == 0);
    assert forall|x: int| j < x <= i implies !is_sentence_break(chars, x) by {
        assert forall|l: int| x <= l < i + 1 implies (#[trigger] emitted(chars, l)).len() == 0 by {
            if l < i {
                assert(j < l < i);
            }
        }
        lemma_not_break(chars, x, i + 1);
    }
}

/// Sentence segmentation follows the UAX #29 sentence rules: before a char
/// at `i` that is not Extend or Format, whose predecessor as SB5 reads the
/// text is the char at `j`, of a class after which the rules decide (a
/// ParaSep right before `i`), it breaks exactly where
/// `sentence_rules_break` says.
pub proof fn law_sentence_rules(chars: Seq<char>, j: int, i: int)
    requires
        0 <= j < i < chars.len(),
        ignorable_between(chars, j, i),
        !is_ignorable(sb(chars, i)),
        sentence_rules_decide_after(sb(chars, j)),
        is_para_sep(sb(chars, j)) ==> i == j + 1,
    ensures
        is_sentence_break(chars, i) == sentence_rules_break(sb(chars, j), sb(chars, i)),
{
    let a = sb(chars, j);
    let b = sb(chars, i);
    if a == SentenceBreakProperty::CR && b == SentenceBreakProperty::LF {
        law_sb3(chars, i);
    } else if is_para_sep(a) {
        law_sb4(chars, i);
    } else if a == SentenceBreakProperty::STerm {
        law_after_sterm(chars, j, i);
    } else {
        law_no_break_after_letter(chars, j, i);
    }
}

} // verus!
