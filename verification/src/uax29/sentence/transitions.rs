//! The sentence break automaton: its states and its transition table.
use vstd::prelude::*;

use crate::uax29::sentence::properties::{SentenceBreakProperty, NUM_SENTENCE_BREAK_PROPERTIES};
use crate::uax29::Action;

verus! {

/// States of the sentence break automaton (an implementation detail of
/// UAX #29, not named in the spec).
#[derive(Clone, Copy, Debug, PartialEq, Eq, Structural)]
pub enum State {
    StartOfText,
    Any,
    CR,
    ParaSep,
    Upper,
    Lower,
    ATerm,
    LetterATerm,
    STerm,
    ATermClose,
    ATermCloseSp,
    STermClose,
    STermCloseSp,
    SB8Pending,
}

/// Number of states.
pub const NUM_SENTENCE_STATES: usize = 14;

impl State {
    /// Position of this state in the declaration order (the row of the table).
    pub open spec fn idx(self) -> int {
        match self {
            State::StartOfText => 0,
            State::Any => 1,
            State::CR => 2,
            State::ParaSep => 3,
            State::Upper => 4,
            State::Lower => 5,
            State::ATerm => 6,
            State::LetterATerm => 7,
            State::STerm => 8,
            State::ATermClose => 9,
            State::ATermCloseSp => 10,
            State::STermClose => 11,
            State::STermCloseSp => 12,
            State::SB8Pending => 13,
        }
    }

    /// Position of this state in the declaration order.
    pub fn index(self) -> (i: usize)
        ensures
            i == self.idx(),
            i < NUM_SENTENCE_STATES,
    {
        match self {
            State::StartOfText => 0,
            State::Any => 1,
            State::CR => 2,
            State::ParaSep => 3,
            State::Upper => 4,
            State::Lower => 5,
            State::ATerm => 6,
            State::LetterATerm => 7,
            State::STerm => 8,
            State::ATermClose => 9,
            State::ATermCloseSp => 10,
            State::STermClose => 11,
            State::STermCloseSp => 12,
            State::SB8Pending => 13,
        }
    }

    /// Whether the state holds a deferred break (only SB8Pending does).
    pub open spec fn spec_is_deferred(self) -> bool {
        self == State::SB8Pending
    }

    /// Whether the state holds a deferred break: whether to break depends on
    /// the chars that follow.
    #[verifier::when_used_as_spec(spec_is_deferred)]
    pub fn is_deferred(self) -> (r: bool)
        ensures
            r == self.spec_is_deferred(),
    {
        matches!(self, State::SB8Pending)
    }
}

/// A transition: the next state and the action to take.
#[derive(Clone, Copy, Debug, PartialEq, Eq, Structural)]
pub struct Transition(pub State, pub Action);

pub open spec fn spec_nb(s: State) -> Transition {
    Transition(s, Action::NoBreak)
}

pub open spec fn spec_brk(s: State) -> Transition {
    Transition(s, Action::Break)
}

pub open spec fn spec_deferred(s: State) -> Transition {
    Transition(s, Action::DeferredBreak)
}

pub open spec fn spec_transparent() -> Transition {
    Transition(State::Any, Action::Transparent)
}

pub open spec fn col(p: SentenceBreakProperty) -> int {
    p.idx()
}

/// Break before everything, entering the state of the char's class; SB5
/// makes Extend/Format transparent.
pub open spec fn default_all_break_row() -> Seq<Transition> {
    Seq::new(15, |i: int| spec_brk(State::Any))
        .update(col(SentenceBreakProperty::CR), spec_brk(State::CR))
        .update(col(SentenceBreakProperty::LF), spec_brk(State::ParaSep))
        .update(col(SentenceBreakProperty::Sep), spec_brk(State::ParaSep))
        .update(col(SentenceBreakProperty::Upper), spec_brk(State::Upper))
        .update(col(SentenceBreakProperty::Lower), spec_brk(State::Lower))
        .update(col(SentenceBreakProperty::ATerm), spec_brk(State::ATerm))
        .update(col(SentenceBreakProperty::STerm), spec_brk(State::STerm))
        .update(col(SentenceBreakProperty::Extend), spec_transparent())
        .update(col(SentenceBreakProperty::Format), spec_transparent())
}

/// Break before nothing (SB998), entering the state of the char's class.
pub open spec fn default_no_break_row() -> Seq<Transition> {
    Seq::new(15, |i: int| spec_nb(State::Any))
        .update(col(SentenceBreakProperty::CR), spec_nb(State::CR))
        .update(col(SentenceBreakProperty::LF), spec_nb(State::ParaSep))
        .update(col(SentenceBreakProperty::Sep), spec_nb(State::ParaSep))
        .update(col(SentenceBreakProperty::Upper), spec_nb(State::Upper))
        .update(col(SentenceBreakProperty::Lower), spec_nb(State::Lower))
        .update(col(SentenceBreakProperty::ATerm), spec_nb(State::ATerm))
        .update(col(SentenceBreakProperty::STerm), spec_nb(State::STerm))
        .update(col(SentenceBreakProperty::Extend), spec_transparent())
        .update(col(SentenceBreakProperty::Format), spec_transparent())
}

/// Extend/Format break again, for the states exempt from SB5.
pub open spec fn without_sb5_row(row: Seq<Transition>) -> Seq<Transition> {
    row.update(col(SentenceBreakProperty::Extend), spec_brk(State::Any))
        .update(col(SentenceBreakProperty::Format), spec_brk(State::Any))
}

/// SB8a: SATerm Close* Sp* × (SContinue | SATerm).
pub open spec fn with_sb8a_row(row: Seq<Transition>) -> Seq<Transition> {
    row.update(col(SentenceBreakProperty::SContinue), spec_nb(State::Any))
        .update(col(SentenceBreakProperty::ATerm), spec_nb(State::ATerm))
        .update(col(SentenceBreakProperty::STerm), spec_nb(State::STerm))
}

/// SB9: SATerm Close* × (Close | Sp | ParaSep).
pub open spec fn with_sb9_row(row: Seq<Transition>, close_state: State, sp_state: State) -> Seq<Transition> {
    row.update(col(SentenceBreakProperty::Close), spec_nb(close_state))
        .update(col(SentenceBreakProperty::Sp), spec_nb(sp_state))
        .update(col(SentenceBreakProperty::CR), spec_nb(State::CR))
        .update(col(SentenceBreakProperty::LF), spec_nb(State::ParaSep))
        .update(col(SentenceBreakProperty::Sep), spec_nb(State::ParaSep))
}

/// SB1: sot ÷ Any.
pub open spec fn start_of_text_row() -> Seq<Transition> {
    without_sb5_row(default_all_break_row())
}

/// SB998: Any × Any.
pub open spec fn any_row() -> Seq<Transition> {
    default_no_break_row()
}

/// SB3: CR × LF.
pub open spec fn cr_row() -> Seq<Transition> {
    without_sb5_row(
        default_all_break_row().update(col(SentenceBreakProperty::LF), spec_nb(State::ParaSep)),
    )
}

/// SB4: ParaSep ÷.
pub open spec fn parasep_row() -> Seq<Transition> {
    without_sb5_row(default_all_break_row())
}

/// Like Any, but a full stop leads to LetterATerm (for SB7).
pub open spec fn upper_row() -> Seq<Transition> {
    default_no_break_row().update(col(SentenceBreakProperty::ATerm), spec_nb(State::LetterATerm))
}

/// Like Any, but a full stop leads to LetterATerm (for SB7).
pub open spec fn lower_row() -> Seq<Transition> {
    default_no_break_row().update(col(SentenceBreakProperty::ATerm), spec_nb(State::LetterATerm))
}

/// SB6, SB8, SB8a, SB9, SB11 after a full stop.
pub open spec fn aterm_row() -> Seq<Transition> {
    with_sb9_row(
        with_sb8a_row(
            default_all_break_row()
                .update(col(SentenceBreakProperty::Numeric), spec_nb(State::Any))
                .update(col(SentenceBreakProperty::Lower), spec_nb(State::Lower))
                .update(col(SentenceBreakProperty::Other), spec_nb(State::SB8Pending)),
        ),
        State::ATermClose,
        State::ATermCloseSp,
    )
}

/// SB7: (Upper | Lower) ATerm × Upper, plus the rules after a full stop.
pub open spec fn letter_aterm_row() -> Seq<Transition> {
    aterm_row().update(col(SentenceBreakProperty::Upper), spec_nb(State::Upper))
}

/// SB8a, SB9, SB11 after ! or ?.
pub open spec fn sterm_row() -> Seq<Transition> {
    with_sb9_row(with_sb8a_row(default_all_break_row()), State::STermClose, State::STermCloseSp)
}

/// After ATerm Close+.
pub open spec fn aterm_close_row() -> Seq<Transition> {
    with_sb9_row(
        with_sb8a_row(
            default_all_break_row()
                .update(col(SentenceBreakProperty::Lower), spec_nb(State::Lower))
                .update(col(SentenceBreakProperty::Other), spec_nb(State::SB8Pending))
                .update(col(SentenceBreakProperty::Numeric), spec_nb(State::SB8Pending)),
        ),
        State::ATermClose,
        State::ATermCloseSp,
    )
}

/// After ATerm Close* Sp+ (SB8, SB8a, SB10, SB11).
pub open spec fn aterm_close_sp_row() -> Seq<Transition> {
    with_sb8a_row(
        default_all_break_row()
            .update(col(SentenceBreakProperty::Lower), spec_nb(State::Lower))
            .update(col(SentenceBreakProperty::Other), spec_nb(State::SB8Pending))
            .update(col(SentenceBreakProperty::Numeric), spec_nb(State::SB8Pending))
            .update(col(SentenceBreakProperty::Close), spec_nb(State::SB8Pending)),
    )
        .update(col(SentenceBreakProperty::Sp), spec_nb(State::ATermCloseSp))
        .update(col(SentenceBreakProperty::CR), spec_nb(State::CR))
        .update(col(SentenceBreakProperty::LF), spec_nb(State::ParaSep))
        .update(col(SentenceBreakProperty::Sep), spec_nb(State::ParaSep))
}

/// After STerm Close+.
pub open spec fn sterm_close_row() -> Seq<Transition> {
    with_sb9_row(with_sb8a_row(default_all_break_row()), State::STermClose, State::STermCloseSp)
}

/// After STerm Close* Sp+ (SB8a, SB10, SB11).
pub open spec fn sterm_close_sp_row() -> Seq<Transition> {
    with_sb8a_row(default_all_break_row())
        .update(col(SentenceBreakProperty::Sp), spec_nb(State::STermCloseSp))
        .update(col(SentenceBreakProperty::CR), spec_nb(State::CR))
        .update(col(SentenceBreakProperty::LF), spec_nb(State::ParaSep))
        .update(col(SentenceBreakProperty::Sep), spec_nb(State::ParaSep))
}

/// The deferred break of SB8: a lowercase letter cancels it, the chars that
/// SB8 skips keep it pending, anything else confirms it (SB11).
pub open spec fn sb8_pending_row() -> Seq<Transition> {
    Seq::new(15, |i: int| spec_deferred(State::Any))
        .update(col(SentenceBreakProperty::CR), spec_deferred(State::CR))
        .update(col(SentenceBreakProperty::LF), spec_deferred(State::ParaSep))
        .update(col(SentenceBreakProperty::Sep), spec_deferred(State::ParaSep))
        .update(col(SentenceBreakProperty::Upper), spec_deferred(State::Upper))
        .update(col(SentenceBreakProperty::ATerm), spec_deferred(State::ATerm))
        .update(col(SentenceBreakProperty::STerm), spec_deferred(State::STerm))
        .update(col(SentenceBreakProperty::Extend), spec_transparent())
        .update(col(SentenceBreakProperty::Format), spec_transparent())
        .update(col(SentenceBreakProperty::Lower), spec_nb(State::Lower))
        .update(col(SentenceBreakProperty::Other), spec_nb(State::SB8Pending))
        .update(col(SentenceBreakProperty::Close), spec_nb(State::SB8Pending))
        .update(col(SentenceBreakProperty::Numeric), spec_nb(State::SB8Pending))
        .update(col(SentenceBreakProperty::Sp), spec_nb(State::SB8Pending))
        .update(col(SentenceBreakProperty::SContinue), spec_nb(State::SB8Pending))
}

/// The whole transition table, one row per state in declaration order.
pub open spec fn sentence_table() -> Seq<Seq<Transition>> {
    seq![
        start_of_text_row(),
        any_row(),
        cr_row(),
        parasep_row(),
        upper_row(),
        lower_row(),
        aterm_row(),
        letter_aterm_row(),
        sterm_row(),
        aterm_close_row(),
        aterm_close_sp_row(),
        sterm_close_row(),
        sterm_close_sp_row(),
        sb8_pending_row(),
    ]
}

/// The transition taken in state `s` on a char of class `p`.
pub open spec fn sentence_transition(s: State, p: SentenceBreakProperty) -> Transition {
    sentence_table()[s.idx()][p.idx()]
}

/// A row of the table, as built at run time.
pub type Row = Vec<Transition>;

fn brk(s: State) -> (t: Transition)
    ensures
        t == spec_brk(s),
{
    Transition(s, Action::Break)
}

fn nb(s: State) -> (t: Transition)
    ensures
        t == spec_nb(s),
{
    Transition(s, Action::NoBreak)
}

fn deferred(s: State) -> (t: Transition)
    ensures
        t == spec_deferred(s),
{
    Transition(s, Action::DeferredBreak)
}

fn transparent() -> (t: Transition)
    ensures
        t == spec_transparent(),
{
    Transition(State::Any, Action::Transparent)
}

fn filled_row(t: Transition) -> (row: Row)
    ensures
        row@ == Seq::new(15, |i: int| t),
{
    let mut row: Row = Vec::new();
    let mut i: usize = 0;
    while i < NUM_SENTENCE_BREAK_PROPERTIES
        invariant
            i <= NUM_SENTENCE_BREAK_PROPERTIES,
            row@ == Seq::new(i as nat, |k: int| t),
        decreases NUM_SENTENCE_BREAK_PROPERTIES - i,
    {
        row.push(t);
        i = i + 1;
    }
    row
}

fn set(row: &mut Row, p: SentenceBreakProperty, t: Transition)
    requires
        old(row)@.len() == 15,
    ensures
        final(row)@ == old(row)@.update(col(p), t),
{
    let i = p.index();
    row.set(i, t);
}

fn default_all_break() -> (row: Row)
    ensures
        row@ == default_all_break_row(),
{
    let mut row = filled_row(brk(State::Any));
    set(&mut row, SentenceBreakProperty::CR, brk(State::CR));
    set(&mut row, SentenceBreakProperty::LF, brk(State::ParaSep));
    set(&mut row, SentenceBreakProperty::Sep, brk(State::ParaSep));
    set(&mut row, SentenceBreakProperty::Upper, brk(State::Upper));
    set(&mut row, SentenceBreakProperty::Lower, brk(State::Lower));
    set(&mut row, SentenceBreakProperty::ATerm, brk(State::ATerm));
    set(&mut row, SentenceBreakProperty::STerm, brk(State::STerm));
    // SB5: Format and Extend characters are transparent.
    set(&mut row, SentenceBreakProperty::Extend, transparent());
    set(&mut row, SentenceBreakProperty::Format, transparent());
    row
}

fn default_no_break() -> (row: Row)
    ensures
        row@ == default_no_break_row(),
{
    let mut row = filled_row(nb(State::Any));
    set(&mut row, SentenceBreakProperty::CR, nb(State::CR));
    set(&mut row, SentenceBreakProperty::LF, nb(State::ParaSep));
    set(&mut row, SentenceBreakProperty::Sep, nb(State::ParaSep));
    set(&mut row, SentenceBreakProperty::Upper, nb(State::Upper));
    set(&mut row, SentenceBreakProperty::Lower, nb(State::Lower));
    set(&mut row, SentenceBreakProperty::ATerm, nb(State::ATerm));
    set(&mut row, SentenceBreakProperty::STerm, nb(State::STerm));
    // SB5: Format and Extend characters are transparent.
    set(&mut row, SentenceBreakProperty::Extend, transparent());
    set(&mut row, SentenceBreakProperty::Format, transparent());
    row
}

/// Override Extend/Format back to Break, for the states exempt from SB5
/// (StartOfText, CR, ParaSep).
fn without_sb5(row: &mut Row)
    requires
        old(row)@.len() == 15,
    ensures
        final(row)@ == without_sb5_row(old(row)@),
{
    set(row, SentenceBreakProperty::Extend, brk(State::Any));
    set(row, SentenceBreakProperty::Format, brk(State::Any));
}

/// SB8a: SATerm Close* Sp* × (SContinue | SATerm), common to all the states
/// after a sentence terminator.
fn with_sb8a(row: &mut Row)
    requires
        old(row)@.len() == 15,
    ensures
        final(row)@ == with_sb8a_row(old(row)@),
{
    set(row, SentenceBreakProperty::SContinue, nb(State::Any));
    set(row, SentenceBreakProperty::ATerm, nb(State::ATerm));
    set(row, SentenceBreakProperty::STerm, nb(State::STerm));
}

/// SB9: SATerm Close* × (Close | Sp | ParaSep), with the Close and Sp states
/// of the ATerm or STerm path.
fn with_sb9(row: &mut Row, close_state: State, sp_state: State)
    requires
        old(row)@.len() == 15,
    ensures
        final(row)@ == with_sb9_row(old(row)@, close_state, sp_state),
{
    set(row, SentenceBreakProperty::Close, nb(close_state));
    set(row, SentenceBreakProperty::Sp, nb(sp_state));
    set(row, SentenceBreakProperty::CR, nb(State::CR));
    set(row, SentenceBreakProperty::LF, nb(State::ParaSep));
    set(row, SentenceBreakProperty::Sep, nb(State::ParaSep));
}

fn start_of_text_transitions() -> (row: Row)
    ensures
        row@ == start_of_text_row(),
{
    let mut row = default_all_break();
    without_sb5(&mut row);
    row
}

fn any_transitions() -> (row: Row)
    ensures
        row@ == any_row(),
{
    default_no_break()
}

fn cr_transitions() -> (row: Row)
    ensures
        row@ == cr_row(),
{
    let mut row = default_all_break();
    set(&mut row, SentenceBreakProperty::LF, nb(State::ParaSep));
    without_sb5(&mut row);
    row
}

fn parasep_transitions() -> (row: Row)
    ensures
        row@ == parasep_row(),
{
    let mut row = default_all_break();
    without_sb5(&mut row);
    row
}

fn upper_transitions() -> (row: Row)
    ensures
        row@ == upper_row(),
{
    let mut row = default_no_break();
    set(&mut row, SentenceBreakProperty::ATerm, nb(State::LetterATerm));
    row
}

fn lower_transitions() -> (row: Row)
    ensures
        row@ == lower_row(),
{
    let mut row = default_no_break();
    set(&mut row, SentenceBreakProperty::ATerm, nb(State::LetterATerm));
    row
}

fn aterm_transitions() -> (row: Row)
    ensures
        row@ == aterm_row(),
{
    let mut row = default_all_break();
    // SB6: ATerm × Numeric
    set(&mut row, SentenceBreakProperty::Numeric, nb(State::Any));
    // SB8: ATerm × (¬(OLetter | Upper | Lower | ParaSep | SATerm))* Lower
    set(&mut row, SentenceBreakProperty::Lower, nb(State::Lower));
    set(&mut row, SentenceBreakProperty::Other, nb(State::SB8Pending));
    // SB8a, SB9
    with_sb8a(&mut row);
    with_sb9(&mut row, State::ATermClose, State::ATermCloseSp);
    row
}

fn letter_aterm_transitions() -> (row: Row)
    ensures
        row@ == letter_aterm_row(),
{
    let mut row = aterm_transitions();
    // SB7: (Upper | Lower) ATerm × Upper
    set(&mut row, SentenceBreakProperty::Upper, nb(State::Upper));
    row
}

fn sterm_transitions() -> (row: Row)
    ensures
        row@ == sterm_row(),
{
    let mut row = default_all_break();
    with_sb8a(&mut row);
    with_sb9(&mut row, State::STermClose, State::STermCloseSp);
    row
}

fn aterm_close_transitions() -> (row: Row)
    ensures
        row@ == aterm_close_row(),
{
    let mut row = default_all_break();
    // SB8
    set(&mut row, SentenceBreakProperty::Lower, nb(State::Lower));
    set(&mut row, SentenceBreakProperty::Other, nb(State::SB8Pending));
    set(&mut row, SentenceBreakProperty::Numeric, nb(State::SB8Pending));
    // SB8a, SB9
    with_sb8a(&mut row);
    with_sb9(&mut row, State::ATermClose, State::ATermCloseSp);
    row
}

fn aterm_close_sp_transitions() -> (row: Row)
    ensures
        row@ == aterm_close_sp_row(),
{
    let mut row = default_all_break();
    // SB8
    set(&mut row, SentenceBreakProperty::Lower, nb(State::Lower));
    set(&mut row, SentenceBreakProperty::Other, nb(State::SB8Pending));
    set(&mut row, SentenceBreakProperty::Numeric, nb(State::SB8Pending));
    set(&mut row, SentenceBreakProperty::Close, nb(State::SB8Pending));
    // SB8a
    with_sb8a(&mut row);
    // SB10: SATerm Close* Sp* × (Sp | ParaSep)
    set(&mut row, SentenceBreakProperty::Sp, nb(State::ATermCloseSp));
    set(&mut row, SentenceBreakProperty::CR, nb(State::CR));
    set(&mut row, SentenceBreakProperty::LF, nb(State::ParaSep));
    set(&mut row, SentenceBreakProperty::Sep, nb(State::ParaSep));
    row
}

fn sterm_close_transitions() -> (row: Row)
    ensures
        row@ == sterm_close_row(),
{
    let mut row = default_all_break();
    with_sb8a(&mut row);
    with_sb9(&mut row, State::STermClose, State::STermCloseSp);
    row
}

fn sterm_close_sp_transitions() -> (row: Row)
    ensures
        row@ == sterm_close_sp_row(),
{
    let mut row = default_all_break();
    with_sb8a(&mut row);
    // SB10: SATerm Close* Sp* × (Sp | ParaSep)
    set(&mut row, SentenceBreakProperty::Sp, nb(State::STermCloseSp));
    set(&mut row, SentenceBreakProperty::CR, nb(State::CR));
    set(&mut row, SentenceBreakProperty::LF, nb(State::ParaSep));
    set(&mut row, SentenceBreakProperty::Sep, nb(State::ParaSep));
    row
}

fn sb8_pending_transitions() -> (row: Row)
    ensures
        row@ == sb8_pending_row(),
{
    // Default: SB8 failed, confirm the deferred break.
    let mut row = filled_row(deferred(State::Any));
    set(&mut row, SentenceBreakProperty::CR, deferred(State::CR));
    set(&mut row, SentenceBreakProperty::LF, deferred(State::ParaSep));
    set(&mut row, SentenceBreakProperty::Sep, deferred(State::ParaSep));
    set(&mut row, SentenceBreakProperty::Upper, deferred(State::Upper));
    set(&mut row, SentenceBreakProperty::ATerm, deferred(State::ATerm));
    set(&mut row, SentenceBreakProperty::STerm, deferred(State::STerm));
    // SB5: transparent
    set(&mut row, SentenceBreakProperty::Extend, transparent());
    set(&mut row, SentenceBreakProperty::Format, transparent());
    // SB8 succeeded: a lowercase letter cancels the deferred break.
    set(&mut row, SentenceBreakProperty::Lower, nb(State::Lower));
    // SB8 skip: keep looking for a lowercase letter.
    set(&mut row, SentenceBreakProperty::Other, nb(State::SB8Pending));
    set(&mut row, SentenceBreakProperty::Close, nb(State::SB8Pending));
    set(&mut row, SentenceBreakProperty::Numeric, nb(State::SB8Pending));
    set(&mut row, SentenceBreakProperty::Sp, nb(State::SB8Pending));
    set(&mut row, SentenceBreakProperty::SContinue, nb(State::SB8Pending));
    row
}

/// The transition table, one row per state in declaration order.
pub fn transition_table() -> (table: Vec<Row>)
    ensures
        table@.len() == NUM_SENTENCE_STATES,
        forall|i: int| 0 <= i < NUM_SENTENCE_STATES ==> #[trigger] table@[i]@ == sentence_table()[i],
{
    let mut table: Vec<Row> = Vec::new();
    table.push(start_of_text_transitions());
    table.push(any_transitions());
    table.push(cr_transitions());
    table.push(parasep_transitions());
    table.push(upper_transitions());
    table.push(lower_transitions());
    table.push(aterm_transitions());
    table.push(letter_aterm_transitions());
    table.push(sterm_transitions());
    table.push(aterm_close_transitions());
    table.push(aterm_close_sp_transitions());
    table.push(sterm_close_transitions());
    table.push(sterm_close_sp_transitions());
    table.push(sb8_pending_transitions());
    table
}

/// Looks up the transition of state `s` on class `p`.
pub fn lookup(table: &Vec<Row>, s: State, p: SentenceBreakProperty) -> (t: Transition)
    requires
        table@.len() == NUM_SENTENCE_STATES,
        forall|i: int| 0 <= i < NUM_SENTENCE_STATES ==> #[trigger] table@[i]@ == sentence_table()[i],
    ensures
        t == sentence_transition(s, p),
{
    let row = &table[s.index()];
    assert(row@ == sentence_table()[s.idx()]);
    row[p.index()]
}

} // verus!
