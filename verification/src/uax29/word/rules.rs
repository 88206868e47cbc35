//! The UAX #29 word boundary rules that word segmentation keeps, each stated
//! over the Word_Break classes of the chars and proved of `word_segments`.
//!
//! The proofs follow the automaton one char at a time: `run_at` is the run
//! state before a char, `emitted` what the step over that char reports.
use vstd::prelude::*;

use crate::uax29::word::laws::law_word_segments_partition;
use crate::uax29::word::properties::{
    icu_extended_pictographic, word_break_property, WordBreakProperty,
};
use crate::uax29::word::transitions::{word_transition, State, Transition};
use crate::uax29::word::{
    char_props, empty_props, initial_run, word_run, word_segments, TokenProperties, WordRun,
};
use crate::uax29::Action;

verus! {

/// The Word_Break class of the char at `i`.
pub open spec fn wb(chars: Seq<char>, i: int) -> WordBreakProperty {
    word_break_property(chars[i])
}

/// Extend, Format and ZWJ: the classes that WB4 attaches to the char before.
pub open spec fn is_ignorable(p: WordBreakProperty) -> bool {
    p == WordBreakProperty::Extend || p == WordBreakProperty::Format || p == WordBreakProperty::ZWJ
}

/// CR, LF and Newline.
pub open spec fn is_newline(p: WordBreakProperty) -> bool {
    p == WordBreakProperty::CR || p == WordBreakProperty::LF || p == WordBreakProperty::Newline
}

/// AHLetter: ALetter or Hebrew_Letter.
pub open spec fn is_ahletter(p: WordBreakProperty) -> bool {
    p == WordBreakProperty::ALetter || p == WordBreakProperty::HebrewLetter
}

/// MidNumLetQ: MidNumLet or Single_Quote.
pub open spec fn is_mid_num_let_q(p: WordBreakProperty) -> bool {
    p == WordBreakProperty::MidNumLet || p == WordBreakProperty::SingleQuote
}

/// WB3c applies before the char at `i`: it is an Extended_Pictographic
/// right after a ZWJ.
pub open spec fn zwj_joined(chars: Seq<char>, i: int) -> bool {
    1 <= i && wb(chars, i - 1) == WordBreakProperty::ZWJ && icu_extended_pictographic(chars[i])
}

/// Every char strictly between `j` and `i` is Extend, Format or ZWJ, so
/// that by WB4 the char at `i` follows the one at `j`.
pub open spec fn ignorable_between(chars: Seq<char>, j: int, i: int) -> bool {
    forall|k: int| j < k < i ==> is_ignorable(#[trigger] wb(chars, k))
}

/// Word segmentation breaks before the char at `i` (or at the end, for `i`
/// the length).
pub open spec fn is_word_break(chars: Seq<char>, i: int) -> bool {
    exists|k: int| 0 <= k < word_segments(chars).len() && (#[trigger] word_segments(chars)[k]).0 == i
}

/// The pairs of classes, the first before the second, between which a rule
/// forbids a break: WB5, WB7a, WB8, WB9, WB10, WB13, WB13a, WB13b, and WB3d
/// (which holds for adjacent chars only).
pub open spec fn joins(a: WordBreakProperty, b: WordBreakProperty) -> bool {
    ||| is_ahletter(a) && is_ahletter(b)
    ||| a == WordBreakProperty::HebrewLetter && b == WordBreakProperty::SingleQuote
    ||| a == WordBreakProperty::Numeric && b == WordBreakProperty::Numeric
    ||| is_ahletter(a) && b == WordBreakProperty::Numeric
    ||| a == WordBreakProperty::Numeric && is_ahletter(b)
    ||| a == WordBreakProperty::Katakana && b == WordBreakProperty::Katakana
    ||| (is_ahletter(a) || a == WordBreakProperty::Numeric || a == WordBreakProperty::Katakana || a
        == WordBreakProperty::ExtendNumLet) && b == WordBreakProperty::ExtendNumLet
    ||| a == WordBreakProperty::ExtendNumLet && (is_ahletter(b) || b == WordBreakProperty::Numeric
        || b == WordBreakProperty::Katakana)
    ||| a == WordBreakProperty::WSegSpace && b == WordBreakProperty::WSegSpace
}

/// `a` then `mid` may start a word that continues over `mid` (WB6, WB7b,
/// WB12): whether it does depends on what follows `mid`.
pub open spec fn starts_mid(a: WordBreakProperty, mid: WordBreakProperty) -> bool {
    ||| is_ahletter(a) && (mid == WordBreakProperty::MidLetter || is_mid_num_let_q(mid))
    ||| a == WordBreakProperty::HebrewLetter && mid == WordBreakProperty::DoubleQuote
    ||| a == WordBreakProperty::Numeric && (mid == WordBreakProperty::MidNum || is_mid_num_let_q(
        mid,
    ))
}

/// `a`, `mid`, `b` is one of the triples over which WB6 and WB7, WB7b and
/// WB7c, or WB11 and WB12 forbid both breaks.
pub open spec fn mid_joins(a: WordBreakProperty, mid: WordBreakProperty, b: WordBreakProperty) -> bool {
    ||| is_ahletter(a) && (mid == WordBreakProperty::MidLetter || is_mid_num_let_q(mid))
        && is_ahletter(b)
    ||| a == WordBreakProperty::HebrewLetter && mid == WordBreakProperty::DoubleQuote && b
        == WordBreakProperty::HebrewLetter
    ||| a == WordBreakProperty::Numeric && (mid == WordBreakProperty::MidNum || is_mid_num_let_q(
        mid,
    )) && b == WordBreakProperty::Numeric
}

/// What the UAX #29 word rules decide between a char of class `a` and the
/// next char as WB4 reads the text, of class `b` (not Extend, Format or
/// ZWJ), where `c` is the class of the char after that one (as WB4 reads
/// the text; `None` at the end of the text) and `adjacent` tells whether the
/// two chars stand next to each other: `true` for a break.
pub open spec fn word_rules_break(
    a: WordBreakProperty,
    b: WordBreakProperty,
    c: Option<WordBreakProperty>,
    adjacent: bool,
) -> bool {
    if a == WordBreakProperty::CR && b == WordBreakProperty::LF {
        // WB3
        false
    } else if is_newline(a) || is_newline(b) {
        // WB3a, WB3b
        true
    } else if a == WordBreakProperty::WSegSpace && b == WordBreakProperty::WSegSpace {
        // WB3d for adjacent spaces, WB999 otherwise
        !adjacent
    } else if joins(a, b) {
        // WB5, WB7a, WB8, WB9, WB10, WB13, WB13a, WB13b
        false
    } else if starts_mid(a, b) {
        // WB6, WB7b, WB12: no break only where the word goes on after `b`
        match c {
            Some(c) => !mid_joins(a, b, c),
            None => true,
        }
    } else {
        // WB999
        true
    }
}

/// The classes whose char, once WB4 has attached Extend, Format and ZWJ to
/// it, `word_rules_break` decides after: letter-like, Other, WSegSpace and
/// (with nothing attached) CR, LF, Newline.
pub open spec fn rules_decide_after(p: WordBreakProperty) -> bool {
    is_letter_like(p) || p == WordBreakProperty::Other || p == WordBreakProperty::WSegSpace
        || is_newline(p)
}

/// The letter-like classes: AHLetter, Numeric, Katakana, ExtendNumLet.
pub open spec fn is_letter_like(p: WordBreakProperty) -> bool {
    is_ahletter(p) || p == WordBreakProperty::Numeric || p == WordBreakProperty::Katakana || p
        == WordBreakProperty::ExtendNumLet
}

/// The classes after which the automaton's state is fixed by the class.
spec fn is_anchor(p: WordBreakProperty) -> bool {
    is_letter_like(p) || p == WordBreakProperty::WSegSpace || is_newline(p) || p
        == WordBreakProperty::Other
}

/// The state the automaton is in after a char of anchor class `p`.
spec fn target(p: WordBreakProperty) -> State {
    match p {
        WordBreakProperty::ALetter => State::ALetter,
        WordBreakProperty::HebrewLetter => State::HLetter,
        WordBreakProperty::Numeric => State::Numeric,
        WordBreakProperty::Katakana => State::Katakana,
        WordBreakProperty::ExtendNumLet => State::ExtendNumLet,
        WordBreakProperty::WSegSpace => State::WSegSpace,
        WordBreakProperty::CR => State::CR,
        WordBreakProperty::LF => State::Newline,
        WordBreakProperty::Newline => State::Newline,
        _ => State::Any,
    }
}

/// The states in which Extend, Format and ZWJ pass without a change (WB4).
spec fn keeps_wb4(s: State) -> bool {
    s != State::StartOfText && s != State::CR && s != State::Newline && s != State::WSegSpace
}

/// The step over the char at `i` from `r` when the transition is not a
/// deferred break: the next run state and the breakpoints reported.
spec fn single(chars: Seq<char>, i: int, r: WordRun) -> (WordRun, Seq<(int, TokenProperties)>) {
    let c = chars[i];
    let p = word_break_property(c);
    let cp = char_props(c);
    let t = word_transition(r.state, p);
    match t.1 {
        Action::Break => {
            if r.last_was_zwj && icu_extended_pictographic(c) {
                (WordRun { last_was_zwj: false, token: r.token.union(cp), ..r }, Seq::empty())
            } else {
                (
                    WordRun {
                        state: t.0,
                        last_was_zwj: p == WordBreakProperty::ZWJ,
                        token: cp,
                        ..r
                    },
                    seq![(i, r.token)],
                )
            }
        },
        Action::NoBreak => {
            if t.0.spec_is_deferred() {
                (
                    WordRun {
                        state: t.0,
                        deferred_at: if r.deferred_at is None { Some(i) } else { r.deferred_at },
                        last_was_zwj: false,
                        token: r.token,
                        deferred: r.deferred.union(cp),
                    },
                    Seq::empty(),
                )
            } else {
                let token = if r.deferred_at is Some { r.token.union(r.deferred) } else { r.token };
                (
                    WordRun {
                        state: t.0,
                        deferred_at: None,
                        last_was_zwj: false,
                        token: token.union(cp),
                        deferred: if r.deferred_at is Some { empty_props() } else { r.deferred },
                    },
                    Seq::empty(),
                )
            }
        },
        Action::Transparent => {
            if r.deferred_at is Some {
                (
                    WordRun {
                        last_was_zwj: p == WordBreakProperty::ZWJ,
                        deferred: r.deferred.union(cp),
                        ..r
                    },
                    Seq::empty(),
                )
            } else {
                (
                    WordRun {
                        last_was_zwj: p == WordBreakProperty::ZWJ,
                        token: r.token.union(cp),
                        ..r
                    },
                    Seq::empty(),
                )
            }
        },
        Action::DeferredBreak => (r, Seq::empty()),
    }
}

/// The run state after a deferred break resolves before the char at `i`.
spec fn resolved(r: WordRun) -> WordRun {
    WordRun {
        state: State::Any,
        deferred_at: None,
        last_was_zwj: false,
        token: r.deferred,
        deferred: empty_props(),
    }
}

/// The whole step over the char at `i` from `r`.
spec fn step(chars: Seq<char>, i: int, r: WordRun) -> (WordRun, Seq<(int, TokenProperties)>) {
    let t = word_transition(r.state, word_break_property(chars[i]));
    if t.1 == Action::DeferredBreak {
        let s = single(chars, i, resolved(r));
        (s.0, seq![(r.deferred_at.unwrap(), r.token)] + s.1)
    } else {
        single(chars, i, r)
    }
}

/// The run state before the char at `i`.
spec fn run_at(chars: Seq<char>, i: int) -> WordRun
    decreases i,
{
    if i <= 0 {
        initial_run()
    } else {
        step(chars, i - 1, run_at(chars, i - 1)).0
    }
}

/// The breakpoints reported by the step over the char at `i`.
spec fn emitted(chars: Seq<char>, i: int) -> Seq<(int, TokenProperties)> {
    step(chars, i, run_at(chars, i)).1
}

/// `out` reports a breakpoint at `x`.
spec fn out_has(out: Seq<(int, TokenProperties)>, x: int) -> bool {
    exists|k: int| 0 <= k < out.len() && (#[trigger] out[k]).0 == x
}

/// What holds of the run state before the char at `i`.
spec fn run_ok(chars: Seq<char>, i: int, r: WordRun) -> bool {
    &&& (r.deferred_at is Some) == r.state.spec_is_deferred()
    &&& (r.deferred_at matches Some(d) ==> 0 <= d < i)
    &&& (r.last_was_zwj ==> 1 <= i && wb(chars, i - 1) == WordBreakProperty::ZWJ)
    &&& (r.state == State::StartOfText) == (i == 0)
    &&& (r.state == State::CR ==> 1 <= i && wb(chars, i - 1) == WordBreakProperty::CR)
    &&& (r.state == State::Newline ==> 1 <= i && (wb(chars, i - 1) == WordBreakProperty::LF || wb(
        chars,
        i - 1,
    ) == WordBreakProperty::Newline))
    &&& (r.state == State::RIOdd ==> 1 <= i && (wb(chars, i - 1)
        == WordBreakProperty::RegionalIndicator || is_ignorable(wb(chars, i - 1)) || zwj_joined(
        chars,
        i - 1,
    )))
}

/// The facts of the transition table that the rules rest on.
proof fn lemma_table(s: State, p: WordBreakProperty)
    ensures
        ({
            let t = word_transition(s, p);
            &&& t.1 == Action::Break ==> !s.spec_is_deferred() && !t.0.spec_is_deferred()
            &&& t.1 == Action::DeferredBreak ==> s.spec_is_deferred() && t.0 == State::Any
            &&& s.spec_is_deferred() ==> t.1 != Action::Break
            &&& t.1 == Action::Transparent ==> keeps_wb4(s)
            &&& s == State::StartOfText ==> t.1 == Action::Break
            &&& t.0 != State::StartOfText
            &&& t.0 == State::CR && t.1 != Action::Transparent ==> p == WordBreakProperty::CR
            &&& t.0 == State::Newline && t.1 != Action::Transparent ==> p == WordBreakProperty::LF
                || p == WordBreakProperty::Newline
            &&& is_ignorable(p) ==> (keeps_wb4(s) ==> t.1 == Action::Transparent) && (s
                == State::WSegSpace ==> t == Transition(State::Any, Action::NoBreak)) && (!keeps_wb4(
                s,
            ) && s != State::WSegSpace ==> t == Transition(State::Any, Action::Break))
            &&& is_newline(p) ==> if s.spec_is_deferred() {
                t.1 == Action::DeferredBreak
            } else {
                t.1 == Action::Break || (s == State::CR && p == WordBreakProperty::LF)
            }
            &&& (s == State::CR || s == State::Newline) ==> t.1 == Action::Break || (s == State::CR
                && p == WordBreakProperty::LF && t == Transition(State::Newline, Action::NoBreak))
            &&& t.0 == State::RIOdd && t.1 != Action::Transparent ==> p
                == WordBreakProperty::RegionalIndicator
            &&& p == WordBreakProperty::RegionalIndicator ==> if s == State::RIOdd {
                t == Transition(State::Any, Action::NoBreak)
            } else if s.spec_is_deferred() {
                t.1 == Action::DeferredBreak
            } else {
                t == Transition(State::RIOdd, Action::Break)
            }
            &&& s == State::Any && !is_ignorable(p) ==> t.1 == Action::Break
            &&& is_anchor(p) ==> if s.spec_is_deferred() {
                (t.1 == Action::NoBreak && t.0 == target(p)) || t.1 == Action::DeferredBreak
            } else {
                (t.1 == Action::Break || t.1 == Action::NoBreak) && t.0 == target(p)
            }
        }),
{
    match s {
        State::StartOfText => {},
        State::Any => {},
        State::CR => {},
        State::ALetter => {},
        State::Numeric => {},
        State::HLetter => {},
        State::Katakana => {},
        State::ExtendNumLet => {},
        State::WSegSpace => {},
        State::AHLetterMid => {},
        State::Newline => {},
        State::RIOdd => {},
        State::NumericMid => {},
        State::HLetterDQ => {},
        State::HLetterSingleQuote => {},
    }
}

proof fn lemma_out_has_concat(a: Seq<(int, TokenProperties)>, b: Seq<(int, TokenProperties)>, x: int)
    ensures
        out_has(a + b, x) == (out_has(a, x) || out_has(b, x)),
{
    if out_has(a + b, x) {
        let k = choose|k: int| 0 <= k < (a + b).len() && (#[trigger] (a + b)[k]).0 == x;
        if k < a.len() {
            assert((a + b)[k] == a[k]);
        } else {
            assert((a + b)[k] == b[k - a.len()]);
        }
    }
    if out_has(a, x) {
        let k = choose|k: int| 0 <= k < a.len() && (#[trigger] a[k]).0 == x;
        assert((a + b)[k] == a[k]);
    }
    if out_has(b, x) {
        let k = choose|k: int| 0 <= k < b.len() && (#[trigger] b[k]).0 == x;
        assert((a + b)[k + a.len()] == b[k]);
    }
}

/// The run from the char at `i` is the step over it followed by the run
/// from the next char.
proof fn lemma_unfold(chars: Seq<char>, i: int, r: WordRun)
    requires
        0 <= i < chars.len(),
    ensures
        word_run(chars, i, r) == step(chars, i, r).1 + word_run(chars, i + 1, step(chars, i, r).0),
{
    let p = word_break_property(chars[i]);
    let t = word_transition(r.state, p);
    lemma_table(r.state, p);
    if t.1 == Action::DeferredBreak {
        let r2 = resolved(r);
        lemma_table(State::Any, p);
        let s = single(chars, i, r2);
        assert(word_run(chars, i, r2) =~= s.1 + word_run(chars, i + 1, s.0));
        let head = seq![(r.deferred_at.unwrap(), r.token)];
        assert(word_run(chars, i, r) =~= head + word_run(chars, i, r2));
        assert(head + (s.1 + word_run(chars, i + 1, s.0)) =~= (head + s.1) + word_run(
            chars,
            i + 1,
            s.0,
        ));
    } else {
        let s = single(chars, i, r);
        assert(word_run(chars, i, r) =~= s.1 + word_run(chars, i + 1, s.0));
    }
}

proof fn lemma_single_ok(chars: Seq<char>, i: int, r: WordRun)
    requires
        0 <= i < chars.len(),
        run_ok(chars, i, r),
        word_transition(r.state, wb(chars, i)).1 != Action::DeferredBreak,
    ensures
        run_ok(chars, i + 1, single(chars, i, r).0),
        single(chars, i, r).0.deferred_at matches Some(d) ==> d == i || r.deferred_at == Some(d),
        forall|k: int|
            0 <= k < single(chars, i, r).1.len() ==> (#[trigger] single(chars, i, r).1[k]).0 == i,
{
    lemma_table(r.state, wb(chars, i));
}

/// One step keeps `run_ok`; a pending deferred break is the one held before
/// or starts at `i`; the step reports `i` or the pending deferred break.
proof fn lemma_step_ok(chars: Seq<char>, i: int, r: WordRun)
    requires
        0 <= i < chars.len(),
        run_ok(chars, i, r),
    ensures
        run_ok(chars, i + 1, step(chars, i, r).0),
        step(chars, i, r).0.deferred_at matches Some(d) ==> d == i || r.deferred_at == Some(d),
        forall|k: int|
            0 <= k < step(chars, i, r).1.len() ==> (#[trigger] step(chars, i, r).1[k]).0 == i
                || r.deferred_at == Some(step(chars, i, r).1[k].0),
{
    let p = wb(chars, i);
    let t = word_transition(r.state, p);
    lemma_table(r.state, p);
    if t.1 == Action::DeferredBreak {
        let r2 = resolved(r);
        lemma_table(State::Any, p);
        lemma_single_ok(chars, i, r2);
        let s = single(chars, i, r2);
        let out = step(chars, i, r).1;
        assert(out == seq![(r.deferred_at.unwrap(), r.token)] + s.1);
        assert forall|k: int| 0 <= k < out.len() implies (#[trigger] out[k]).0 == i || r.deferred_at
            == Some(out[k].0) by {
            if k > 0 {
                assert(out[k] == s.1[k - 1]);
            }
        }
    } else {
        lemma_single_ok(chars, i, r);
    }
}

/// `run_ok` holds before every char.
proof fn lemma_run_ok(chars: Seq<char>, i: int)
    requires
        0 <= i <= chars.len(),
    ensures
        run_ok(chars, i, run_at(chars, i)),
    decreases i,
{
    if i > 0 {
        lemma_run_ok(chars, i - 1);
        lemma_step_ok(chars, i - 1, run_at(chars, i - 1));
    }
}

/// A deferred break pending before the char at `j` was pending before every
/// char since the one after its position.
proof fn lemma_deferred_continuity(chars: Seq<char>, d: int, e: int, j: int)
    requires
        d < e <= j <= chars.len(),
        run_at(chars, j).deferred_at == Some(d),
    ensures
        run_at(chars, e).deferred_at == Some(d),
    decreases j,
{
    if j > e {
        lemma_run_ok(chars, j - 1);
        lemma_step_ok(chars, j - 1, run_at(chars, j - 1));
        lemma_deferred_continuity(chars, d, e, j - 1);
    }
}

/// The end of the run reports no breakpoint at `x` where no deferred break
/// at `x` is pending before the char at `e`.
proof fn lemma_not_at_end(chars: Seq<char>, x: int, e: int)
    requires
        0 < x < e <= chars.len(),
        run_at(chars, e).deferred_at != Some(x),
    ensures
        !out_has(word_run(chars, chars.len() as int, run_at(chars, chars.len() as int)), x),
{
    let n = chars.len() as int;
    let r = run_at(chars, n);
    lemma_run_ok(chars, n);
    let out = word_run(chars, n, r);
    if r.state.spec_is_deferred() {
        let d = r.deferred_at.unwrap();
        if d == x {
            lemma_deferred_continuity(chars, x, e, n);
        }
        assert(out =~= seq![(d, r.token), (n, r.deferred)]);
        if out_has(out, x) {
            let k = choose|k: int| 0 <= k < out.len() && (#[trigger] out[k]).0 == x;
            assert(k == 0 || k == 1);
        }
    } else {
        assert(out =~= seq![(n, r.token)]);
        if out_has(out, x) {
            let k = choose|k: int| 0 <= k < out.len() && (#[trigger] out[k]).0 == x;
            assert(k == 0);
        }
    }
}

/// The step over the char at `j` does not report `x`, under the conditions
/// of `lemma_not_break`.
proof fn lemma_not_in_step(chars: Seq<char>, x: int, e: int, j: int)
    requires
        0 < x < e <= chars.len(),
        0 <= j < chars.len(),
        forall|i: int| x <= i < e ==> !out_has(#[trigger] emitted(chars, i), x),
        run_at(chars, e).deferred_at != Some(x),
    ensures
        !out_has(emitted(chars, j), x),
{
    let r = run_at(chars, j);
    lemma_run_ok(chars, j);
    lemma_step_ok(chars, j, r);
    let out = emitted(chars, j);
    if out_has(out, x) && !(x <= j < e) {
        let k = choose|k: int| 0 <= k < out.len() && (#[trigger] out[k]).0 == x;
        assert(out[k].0 == j || r.deferred_at == Some(out[k].0));
        if j >= e && r.deferred_at == Some(x) {
            lemma_deferred_continuity(chars, x, e, j);
        }
    }
}

/// No step from `j` on reports `x`, under the conditions of
/// `lemma_not_break`.
proof fn lemma_not_in_run(chars: Seq<char>, x: int, e: int, j: int)
    requires
        0 < x < e <= chars.len(),
        0 <= j <= chars.len(),
        forall|i: int| x <= i < e ==> !out_has(#[trigger] emitted(chars, i), x),
        run_at(chars, e).deferred_at != Some(x),
    ensures
        !out_has(word_run(chars, j, run_at(chars, j)), x),
    decreases chars.len() - j,
{
    if j == chars.len() {
        lemma_not_at_end(chars, x, e);
    } else {
        let r = run_at(chars, j);
        lemma_unfold(chars, j, r);
        assert(run_at(chars, j + 1) == step(chars, j, r).0);
        lemma_not_in_run(chars, x, e, j + 1);
        lemma_not_in_step(chars, x, e, j);
        lemma_out_has_concat(emitted(chars, j), word_run(chars, j + 1, run_at(chars, j + 1)), x);
    }
}

/// Segmentation does not break before the char at `x` where no step from
/// `x` to `e` reports `x` and no deferred break at `x` is pending before the
/// char at `e`.
proof fn lemma_not_break(chars: Seq<char>, x: int, e: int)
    requires
        0 < x < e <= chars.len(),
        forall|i: int| x <= i < e ==> !out_has(#[trigger] emitted(chars, i), x),
        run_at(chars, e).deferred_at != Some(x),
    ensures
        !is_word_break(chars, x),
{
    lemma_not_in_run(chars, x, e, 0);
    assert(run_at(chars, 0) == initial_run());
    let segs = word_segments(chars);
    assert(segs == word_run(chars, 0, run_at(chars, 0)));
    if is_word_break(chars, x) {
        let k = choose|k: int| 0 <= k < segs.len() && (#[trigger] segs[k]).0 == x;
        assert(out_has(segs, x));
    }
}

/// A breakpoint that the run from `i` reports is one of the segmentation.
proof fn lemma_in_run(chars: Seq<char>, j: int, i: int, x: int)
    requires
        0 <= j <= i <= chars.len(),
        out_has(word_run(chars, i, run_at(chars, i)), x),
    ensures
        out_has(word_run(chars, j, run_at(chars, j)), x),
    decreases i - j,
{
    if j < i {
        lemma_in_run(chars, j + 1, i, x);
        lemma_unfold(chars, j, run_at(chars, j));
        assert(run_at(chars, j + 1) == step(chars, j, run_at(chars, j)).0);
        lemma_out_has_concat(emitted(chars, j), word_run(chars, j + 1, run_at(chars, j + 1)), x);
    }
}

/// A breakpoint that the run from `i` reports is a break of the segmentation.
proof fn lemma_is_break(chars: Seq<char>, i: int, x: int)
    requires
        0 <= i <= chars.len(),
        chars.len() > 0,
        out_has(word_run(chars, i, run_at(chars, i)), x),
    ensures
        is_word_break(chars, x),
{
    lemma_in_run(chars, 0, i, x);
    assert(run_at(chars, 0) == initial_run());
    let segs = word_segments(chars);
    assert(segs == word_run(chars, 0, run_at(chars, 0)));
    let k = choose|k: int| 0 <= k < segs.len() && (#[trigger] segs[k]).0 == x;
}

/// A breakpoint that the step over the char at `i` reports is a break of the
/// segmentation.
proof fn lemma_emitted_break(chars: Seq<char>, i: int, x: int)
    requires
        0 <= i < chars.len(),
        out_has(emitted(chars, i), x),
    ensures
        is_word_break(chars, x),
{
    let r = run_at(chars, i);
    lemma_unfold(chars, i, r);
    lemma_out_has_concat(emitted(chars, i), word_run(chars, i + 1, step(chars, i, r).0), x);
    lemma_is_break(chars, i, x);
}

proof fn lemma_join_table(a: WordBreakProperty, b: WordBreakProperty)
    requires
        joins(a, b),
    ensures
        word_transition(target(a), b).1 == Action::NoBreak,
        !word_transition(target(a), b).0.spec_is_deferred(),
{
    match a {
        WordBreakProperty::ALetter => {},
        WordBreakProperty::HebrewLetter => {},
        WordBreakProperty::Numeric => {},
        WordBreakProperty::Katakana => {},
        WordBreakProperty::ExtendNumLet => {},
        _ => {},
    }
}

proof fn lemma_mid_table(a: WordBreakProperty, mid: WordBreakProperty)
    requires
        starts_mid(a, mid),
    ensures
        ({
            let t = word_transition(target(a), mid);
            &&& t.1 == Action::NoBreak
            &&& keeps_wb4(t.0)
            &&& t.0.spec_is_deferred() || t.0 == State::HLetterSingleQuote
            &&& (t.0 == State::HLetterSingleQuote) == (a == WordBreakProperty::HebrewLetter && mid
                == WordBreakProperty::SingleQuote)
        }),
{
    match a {
        WordBreakProperty::ALetter => {},
        WordBreakProperty::HebrewLetter => {},
        _ => {},
    }
}

proof fn lemma_resume_table(a: WordBreakProperty, mid: WordBreakProperty, b: WordBreakProperty)
    requires
        starts_mid(a, mid),
        !is_ignorable(b),
    ensures
        ({
            let s = word_transition(target(a), mid).0;
            let t = word_transition(s, b);
            &&& mid_joins(a, mid, b) ==> t.1 == Action::NoBreak && !t.0.spec_is_deferred()
            &&& !mid_joins(a, mid, b) && s.spec_is_deferred() ==> t.1 == Action::DeferredBreak
        }),
{
    lemma_mid_table(a, mid);
    match a {
        WordBreakProperty::ALetter => {},
        WordBreakProperty::HebrewLetter => {},
        _ => {},
    }
}

proof fn lemma_break_table(a: WordBreakProperty, b: WordBreakProperty)
    requires
        is_letter_like(a) || a == WordBreakProperty::Other,
        !is_ignorable(b),
        !joins(a, b),
        !starts_mid(a, b),
    ensures
        word_transition(target(a), b).1 == Action::Break,
{
    match a {
        WordBreakProperty::ALetter => {},
        WordBreakProperty::HebrewLetter => {},
        WordBreakProperty::Numeric => {},
        WordBreakProperty::Katakana => {},
        _ => {},
    }
}

/// After a char of an anchor class that WB3c does not join, the automaton
/// is in that class's state with no deferred break.
proof fn lemma_after_anchor(chars: Seq<char>, j: int)
    requires
        0 <= j < chars.len(),
        is_anchor(wb(chars, j)),
        !zwj_joined(chars, j),
    ensures
        run_at(chars, j + 1).state == target(wb(chars, j)),
        run_at(chars, j + 1).deferred_at is None,
{
    let r = run_at(chars, j);
    let p = wb(chars, j);
    lemma_run_ok(chars, j);
    lemma_table(r.state, p);
    lemma_table(State::Any, p);
    assert(run_at(chars, j + 1) == step(chars, j, r).0);
}

/// Extend, Format and ZWJ chars pass a state that keeps WB4 without a change
/// and without reporting a breakpoint.
proof fn lemma_ignorable_run(chars: Seq<char>, a: int, b: int)
    requires
        0 <= a <= b <= chars.len(),
        forall|k: int| a <= k < b ==> is_ignorable(#[trigger] wb(chars, k)),
        keeps_wb4(run_at(chars, a).state),
    ensures
        run_at(chars, b).state == run_at(chars, a).state,
        run_at(chars, b).deferred_at == run_at(chars, a).deferred_at,
        forall|k: int| a <= k < b ==> (#[trigger] emitted(chars, k)).len() == 0,
    decreases b - a,
{
    if b > a {
        lemma_ignorable_run(chars, a, b - 1);
        let r = run_at(chars, b - 1);
        assert(is_ignorable(wb(chars, b - 1)));
        lemma_table(r.state, wb(chars, b - 1));
        assert(run_at(chars, b) == step(chars, b - 1, r).0);
    }
}

/// No break before the char at `i` where its step reports nothing and
/// leaves no deferred break pending.
proof fn lemma_quiet_step(chars: Seq<char>, i: int)
    requires
        0 < i < chars.len(),
        emitted(chars, i).len() == 0,
        run_at(chars, i + 1).deferred_at is None,
    ensures
        !is_word_break(chars, i),
{
    assert forall|k: int| i <= k < i + 1 implies !out_has(#[trigger] emitted(chars, k), i) by {
        assert(k == i);
    }
    lemma_not_break(chars, i, i + 1);
}

/// WB1, WB2: a text that is not empty has a break at its start and at its
/// end.
pub proof fn law_wb1_wb2(chars: Seq<char>)
    requires
        chars.len() > 0,
    ensures
        is_word_break(chars, 0),
        is_word_break(chars, chars.len() as int),
{
    law_word_segments_partition(chars);
    let s = word_segments(chars);
    assert(s[0].0 == 0);
    assert(s[s.len() - 1].0 == chars.len());
}

/// WB3: no break between CR and LF (where the CR is not itself an
/// Extended_Pictographic that WB3c joins to a ZWJ).
pub proof fn law_wb3(chars: Seq<char>, i: int)
    requires
        0 < i < chars.len(),
        wb(chars, i - 1) == WordBreakProperty::CR,
        wb(chars, i) == WordBreakProperty::LF,
        !zwj_joined(chars, i - 1),
    ensures
        !is_word_break(chars, i),
{
    lemma_after_anchor(chars, i - 1);
    let r = run_at(chars, i);
    lemma_run_ok(chars, i);
    lemma_table(State::CR, WordBreakProperty::LF);
    assert(run_at(chars, i + 1) == step(chars, i, r).0);
    lemma_quiet_step(chars, i);
}

/// WB3a: a break after CR, LF and Newline (but between CR and LF).
pub proof fn law_wb3a(chars: Seq<char>, i: int)
    requires
        0 < i < chars.len(),
        is_newline(wb(chars, i - 1)),
        !(wb(chars, i - 1) == WordBreakProperty::CR && wb(chars, i) == WordBreakProperty::LF),
        !zwj_joined(chars, i - 1),
    ensures
        is_word_break(chars, i),
{
    lemma_after_anchor(chars, i - 1);
    let r = run_at(chars, i);
    lemma_run_ok(chars, i);
    lemma_table(r.state, wb(chars, i));
    assert(emitted(chars, i)[0].0 == i);
    lemma_emitted_break(chars, i, i);
}

/// WB3b: a break before CR, LF and Newline (but between CR and LF), where
/// the char is not an Extended_Pictographic that WB3c joins to a ZWJ.
pub proof fn law_wb3b(chars: Seq<char>, i: int)
    requires
        0 < i < chars.len(),
        is_newline(wb(chars, i)),
        !(wb(chars, i - 1) == WordBreakProperty::CR && wb(chars, i) == WordBreakProperty::LF),
        !zwj_joined(chars, i),
    ensures
        is_word_break(chars, i),
{
    let r = run_at(chars, i);
    let p = wb(chars, i);
    lemma_run_ok(chars, i);
    lemma_table(r.state, p);
    if r.state.spec_is_deferred() {
        lemma_table(State::Any, p);
        let s = single(chars, i, resolved(r));
        assert(emitted(chars, i) == seq![(r.deferred_at.unwrap(), r.token)] + s.1);
        assert(emitted(chars, i)[1].0 == i);
    } else {
        assert(emitted(chars, i)[0].0 == i);
    }
    lemma_emitted_break(chars, i, i);
}

/// WB4: no break before Extend, Format or ZWJ, but after CR, LF and Newline.
pub proof fn law_wb4(chars: Seq<char>, i: int)
    requires
        0 < i < chars.len(),
        is_ignorable(wb(chars, i)),
        !is_newline(wb(chars, i - 1)),
    ensures
        !is_word_break(chars, i),
{
    let r = run_at(chars, i);
    lemma_run_ok(chars, i);
    lemma_table(r.state, wb(chars, i));
    assert(run_at(chars, i + 1) == step(chars, i, r).0);
    assert forall|k: int| i <= k < i + 1 implies !out_has(#[trigger] emitted(chars, k), i) by {
        assert(k == i);
    }
    lemma_not_break(chars, i, i + 1);
}

/// WB5, WB7a, WB8, WB9, WB10, WB13, WB13a, WB13b, WB3d: no break before the
/// char at `i` where it follows the char at `j`, as WB4 reads the text
/// (only Extend, Format and ZWJ between them), and the two classes join;
/// for two WSegSpace the chars must be adjacent. The char at `j` must not
/// be an Extended_Pictographic that WB3c joins to a ZWJ.
pub proof fn law_joined_classes(chars: Seq<char>, j: int, i: int)
    requires
        0 <= j < i < chars.len(),
        ignorable_between(chars, j, i),
        joins(wb(chars, j), wb(chars, i)),
        wb(chars, j) == WordBreakProperty::WSegSpace ==> i == j + 1,
        !zwj_joined(chars, j),
    ensures
        !is_word_break(chars, i),
{
    let a = wb(chars, j);
    let b = wb(chars, i);
    lemma_after_anchor(chars, j);
    if j + 1 < i {
        lemma_ignorable_run(chars, j + 1, i);
    }
    let r = run_at(chars, i);
    lemma_run_ok(chars, i);
    lemma_join_table(a, b);
    lemma_table(r.state, b);
    assert(run_at(chars, i + 1) == step(chars, i, r).0);
    lemma_quiet_step(chars, i);
}

/// WB6 and WB7, WB7b and WB7c, WB11 and WB12: no break on either side of
/// the middle char at `m` in a triple that these rules join, as WB4 reads
/// the text. The char at `j` must not be an Extended_Pictographic that WB3c
/// joins to a ZWJ.
pub proof fn law_joined_over_mid(chars: Seq<char>, j: int, m: int, i: int)
    requires
        0 <= j < m < i < chars.len(),
        ignorable_between(chars, j, m),
        ignorable_between(chars, m, i),
        mid_joins(wb(chars, j), wb(chars, m), wb(chars, i)),
        !zwj_joined(chars, j),
    ensures
        !is_word_break(chars, m),
        !is_word_break(chars, i),
{
    let a = wb(chars, j);
    let mid = wb(chars, m);
    let b = wb(chars, i);
    lemma_after_anchor(chars, j);
    lemma_ignorable_run(chars, j + 1, m);
    let rm = run_at(chars, m);
    lemma_run_ok(chars, m);
    lemma_mid_table(a, mid);
    lemma_table(rm.state, mid);
    assert(run_at(chars, m + 1) == step(chars, m, rm).0);
    lemma_ignorable_run(chars, m + 1, i);
    let ri = run_at(chars, i);
    lemma_run_ok(chars, i);
    lemma_resume_table(a, mid, b);
    lemma_table(ri.state, b);
    assert(run_at(chars, i + 1) == step(chars, i, ri).0);
    lemma_quiet_step(chars, i);
    assert forall|k: int| m <= k < i + 1 implies !out_has(#[trigger] emitted(chars, k), m) by {
        if m < k < i {
            assert(emitted(chars, k).len() == 0);
        }
    }
    lemma_not_break(chars, m, i + 1);
}

/// WB999 after a letter-like char or one of class Other: a break before the
/// char at `i` where it follows the char at `j` as WB4 reads the text and no
/// rule joins them or starts a word over a middle char. Neither char may be
/// an Extended_Pictographic that WB3c joins to a ZWJ.
pub proof fn law_break_after_letter(chars: Seq<char>, j: int, i: int)
    requires
        0 <= j < i < chars.len(),
        ignorable_between(chars, j, i),
        is_letter_like(wb(chars, j)) || wb(chars, j) == WordBreakProperty::Other,
        !is_ignorable(wb(chars, i)),
        !joins(wb(chars, j), wb(chars, i)),
        !starts_mid(wb(chars, j), wb(chars, i)),
        !zwj_joined(chars, j),
        !zwj_joined(chars, i),
    ensures
        is_word_break(chars, i),
{
    let a = wb(chars, j);
    let b = wb(chars, i);
    lemma_after_anchor(chars, j);
    if j + 1 < i {
        lemma_ignorable_run(chars, j + 1, i);
    }
    let r = run_at(chars, i);
    lemma_run_ok(chars, i);
    lemma_break_table(a, b);
    lemma_table(r.state, b);
    assert(emitted(chars, i)[0].0 == i);
    lemma_emitted_break(chars, i, i);
}

/// WB6, WB7b, WB12 unmet: a break before the middle char at `m` after a
/// char that could start a word over it, where what follows it (as WB4
/// reads the text) does not continue the word, or the text ends. The char
/// at `j` must not be an Extended_Pictographic that WB3c joins to a ZWJ.
pub proof fn law_break_before_unjoined_mid(chars: Seq<char>, j: int, m: int, i: int)
    requires
        0 <= j < m < i <= chars.len(),
        ignorable_between(chars, j, m),
        ignorable_between(chars, m, i),
        starts_mid(wb(chars, j), wb(chars, m)),
        !(wb(chars, j) == WordBreakProperty::HebrewLetter && wb(chars, m)
            == WordBreakProperty::SingleQuote),
        i < chars.len() ==> !is_ignorable(wb(chars, i)) && !mid_joins(
            wb(chars, j),
            wb(chars, m),
            wb(chars, i),
        ),
        !zwj_joined(chars, j),
    ensures
        is_word_break(chars, m),
{
    let a = wb(chars, j);
    let mid = wb(chars, m);
    lemma_after_anchor(chars, j);
    lemma_ignorable_run(chars, j + 1, m);
    let rm = run_at(chars, m);
    lemma_run_ok(chars, m);
    lemma_mid_table(a, mid);
    lemma_table(rm.state, mid);
    assert(run_at(chars, m + 1) == step(chars, m, rm).0);
    lemma_ignorable_run(chars, m + 1, i);
    let ri = run_at(chars, i);
    lemma_run_ok(chars, i);
    if i < chars.len() {
        let b = wb(chars, i);
        lemma_resume_table(a, mid, b);
        lemma_table(ri.state, b);
        assert(emitted(chars, i)[0].0 == m);
        lemma_emitted_break(chars, i, m);
    } else {
        let out = word_run(chars, i, ri);
        assert(out[0].0 == m);
        lemma_is_break(chars, i, m);
    }
}

/// Over a run of regional indicators from `j` (after a char that is not
/// one, nor Extend, Format or ZWJ), the automaton pairs them: the first of
/// each pair breaks, the second does not.
proof fn lemma_ri_run(chars: Seq<char>, j: int, k: int)
    requires
        0 <= j <= k < chars.len(),
        forall|l: int| j <= l <= k ==> #[trigger] wb(chars, l) == WordBreakProperty::RegionalIndicator,
        j == 0 || (wb(chars, j - 1) != WordBreakProperty::RegionalIndicator && !is_ignorable(
            wb(chars, j - 1),
        ) && !zwj_joined(chars, j - 1)),
    ensures
        run_at(chars, k + 1).state == if (k - j) % 2 == 0 {
            State::RIOdd
        } else {
            State::Any
        },
        run_at(chars, k + 1).deferred_at is None,
        j < k && (k - j) % 2 == 1 ==> emitted(chars, k).len() == 0,
        j < k && (k - j) % 2 == 0 ==> emitted(chars, k).len() == 1 && emitted(chars, k)[0].0 == k,
    decreases k - j,
{
    let r = run_at(chars, k);
    let p = wb(chars, k);
    assert(p == WordBreakProperty::RegionalIndicator);
    lemma_run_ok(chars, k);
    lemma_table(r.state, p);
    lemma_table(State::Any, p);
    if k > j {
        lemma_ri_run(chars, j, k - 1);
        assert(wb(chars, k - 1) == WordBreakProperty::RegionalIndicator);
    }
    assert(run_at(chars, k + 1) == step(chars, k, r).0);
}

/// WB15, WB16: in a run of regional indicators, with no Extend, Format or
/// ZWJ among them, that starts at `j` (at the start of the text or after a
/// char that is none of these), the break before the one at `i` falls
/// between pairs: there is one exactly when an even number of them
/// precede it in the run.
pub proof fn law_wb15_wb16(chars: Seq<char>, j: int, i: int)
    requires
        0 <= j < i < chars.len(),
        forall|l: int| j <= l <= i ==> #[trigger] wb(chars, l) == WordBreakProperty::RegionalIndicator,
        j == 0 || (wb(chars, j - 1) != WordBreakProperty::RegionalIndicator && !is_ignorable(
            wb(chars, j - 1),
        ) && !zwj_joined(chars, j - 1)),
    ensures
        is_word_break(chars, i) == ((i - j) % 2 == 0),
{
    lemma_ri_run(chars, j, i);
    if (i - j) % 2 == 0 {
        lemma_emitted_break(chars, i, i);
    } else {
        lemma_quiet_step(chars, i);
    }
}

/// WB999 after a space: a break before the char at `i` where it follows the
/// WSegSpace at `j` as WB4 reads the text, unless it is a WSegSpace right
/// after it (WB3d). Neither char may be an Extended_Pictographic that WB3c
/// joins to a ZWJ.
pub proof fn law_break_after_space(chars: Seq<char>, j: int, i: int)
    requires
        0 <= j < i < chars.len(),
        ignorable_between(chars, j, i),
        wb(chars, j) == WordBreakProperty::WSegSpace,
        !is_ignorable(wb(chars, i)),
        !(i == j + 1 && wb(chars, i) == WordBreakProperty::WSegSpace),
        !zwj_joined(chars, j),
        !zwj_joined(chars, i),
    ensures
        is_word_break(chars, i),
{
    let b = wb(chars, i);
    lemma_after_anchor(chars, j);
    if j + 1 < i {
        let r1 = run_at(chars, j + 1);
        assert(is_ignorable(wb(chars, j + 1)));
        lemma_table(r1.state, wb(chars, j + 1));
        assert(run_at(chars, j + 2) == step(chars, j + 1, r1).0);
        lemma_ignorable_run(chars, j + 2, i);
    }
    let r = run_at(chars, i);
    lemma_run_ok(chars, i);
    lemma_table(r.state, b);
    assert(emitted(chars, i)[0].0 == i);
    lemma_emitted_break(chars, i, i);
}

/// Word segmentation follows the UAX #29 word rules: before a char at `i`
/// that is not Extend, Format or ZWJ, whose predecessor as WB4 reads the
/// text is the char at `j` and whose successor is the char at `k` (or the
/// end of the text), it breaks exactly where `word_rules_break` says. The
/// char at `j` is of a class after which the rules decide (a CR, LF or
/// Newline right before `i`), and neither it nor the char at `i` is an
/// Extended_Pictographic that WB3c joins to a ZWJ.
pub proof fn law_word_rules(chars: Seq<char>, j: int, i: int, k: int)
    requires
        0 <= j < i < k <= chars.len(),
        ignorable_between(chars, j, i),
        ignorable_between(chars, i, k),
        k < chars.len() ==> !is_ignorable(wb(chars, k)),
        !is_ignorable(wb(chars, i)),
        rules_decide_after(wb(chars, j)),
        is_newline(wb(chars, j)) ==> i == j + 1,
        !zwj_joined(chars, j),
        !zwj_joined(chars, i),
    ensures
        is_word_break(chars, i) == word_rules_break(
            wb(chars, j),
            wb(chars, i),
            if k < chars.len() {
                Some(wb(chars, k))
            } else {
                None
            },
            i == j + 1,
        ),
{
    let a = wb(chars, j);
    let b = wb(chars, i);
    if a == WordBreakProperty::CR && b == WordBreakProperty::LF {
        law_wb3(chars, i);
    } else if is_newline(a) {
        law_wb3a(chars, i);
    } else if is_newline(b) {
        if i == j + 1 {
            law_wb3b(chars, i);
        } else {
            assert(is_ignorable(wb(chars, i - 1)));
            law_wb3b(chars, i);
        }
    } else if a == WordBreakProperty::WSegSpace {
        if b == WordBreakProperty::WSegSpace && i == j + 1 {
            law_joined_classes(chars, j, i);
        } else {
            law_break_after_space(chars, j, i);
        }
    } else if joins(a, b) {
        law_joined_classes(chars, j, i);
    } else if starts_mid(a, b) {
        if k < chars.len() && mid_joins(a, b, wb(chars, k)) {
            law_joined_over_mid(chars, j, i, k);
        } else {
            law_break_before_unjoined_mid(chars, j, i, k);
        }
    } else {
        law_break_after_letter(chars, j, i);
    }
}

/// WB3c: no break between a ZWJ and an Extended_Pictographic after it, where
/// the ZWJ follows (as WB4 reads the text) a letter-like char or one of
/// class Other at `j`, not itself joined by WB3c, and the pictograph's
/// class does not start a word over a middle char after that char.
pub proof fn law_wb3c(chars: Seq<char>, j: int, i: int)
    requires
        0 <= j < i < chars.len(),
        ignorable_between(chars, j, i),
        wb(chars, i - 1) == WordBreakProperty::ZWJ,
        icu_extended_pictographic(chars[i]),
        is_letter_like(wb(chars, j)) || wb(chars, j) == WordBreakProperty::Other,
        !starts_mid(wb(chars, j), wb(chars, i)),
        !zwj_joined(chars, j),
    ensures
        !is_word_break(chars, i),
{
    let a = wb(chars, j);
    let b = wb(chars, i);
    lemma_after_anchor(chars, j);
    lemma_ignorable_run(chars, j + 1, i - 1);
    let rz = run_at(chars, i - 1);
    lemma_table(rz.state, WordBreakProperty::ZWJ);
    assert(run_at(chars, i) == step(chars, i - 1, rz).0);
    let r = run_at(chars, i);
    assert(r.last_was_zwj);
    lemma_table(r.state, b);
    match a {
        WordBreakProperty::ALetter => {},
        WordBreakProperty::HebrewLetter => {},
        WordBreakProperty::Numeric => {},
        WordBreakProperty::Katakana => {},
        WordBreakProperty::ExtendNumLet => {},
        _ => {},
    }
    assert(run_at(chars, i + 1) == step(chars, i, r).0);
    lemma_quiet_step(chars, i);
}

} // verus!
