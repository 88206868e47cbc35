//! The word break automaton: its states and its transition table. Each row of
//! the table is built from a default row plus the overrides of the UAX #29
//! rules that apply in that state.
use vstd::prelude::*;

use crate::uax29::word::properties::{WordBreakProperty, NUM_WORD_BREAK_PROPERTIES};
use crate::uax29::Action;

verus! {

/// States of the word break automaton (an implementation detail of UAX #29,
/// not named in the spec).
#[derive(Clone, Copy, Debug, PartialEq, Eq, Structural)]
pub enum State {
    StartOfText,
    Any,
    CR,
    ALetter,
    Numeric,
    HLetter,
    Katakana,
    ExtendNumLet,
    WSegSpace,
    AHLetterMid,
    Newline,
    RIOdd,
    NumericMid,
    HLetterDQ,
    HLetterSingleQuote,
}

/// Number of states.
pub const NUM_WORD_STATES: usize = 15;

impl State {
    /// Position of this state in the declaration order (the row of the table).
    pub open spec fn idx(self) -> int {
        match self {
            State::StartOfText => 0,
            State::Any => 1,
            State::CR => 2,
            State::ALetter => 3,
            State::Numeric => 4,
            State::HLetter => 5,
            State::Katakana => 6,
            State::ExtendNumLet => 7,
            State::WSegSpace => 8,
            State::AHLetterMid => 9,
            State::Newline => 10,
            State::RIOdd => 11,
            State::NumericMid => 12,
            State::HLetterDQ => 13,
            State::HLetterSingleQuote => 14,
        }
    }

    /// Position of this state in the declaration order.
    pub fn index(self) -> (i: usize)
        ensures
            i == self.idx(),
            i < NUM_WORD_STATES,
    {
        match self {
            State::StartOfText => 0,
            State::Any => 1,
            State::CR => 2,
            State::ALetter => 3,
            State::Numeric => 4,
            State::HLetter => 5,
            State::Katakana => 6,
            State::ExtendNumLet => 7,
            State::WSegSpace => 8,
            State::AHLetterMid => 9,
            State::Newline => 10,
            State::RIOdd => 11,
            State::NumericMid => 12,
            State::HLetterDQ => 13,
            State::HLetterSingleQuote => 14,
        }
    }

    /// Whether the state holds a deferred break: whether to break depends on
    /// the chars that follow.
    pub open spec fn spec_is_deferred(self) -> bool {
        self == State::AHLetterMid || self == State::NumericMid || self == State::HLetterDQ
    }

    /// Whether the state holds a deferred break: whether to break depends on
    /// the chars that follow.
    #[verifier::when_used_as_spec(spec_is_deferred)]
    pub fn is_deferred(self) -> (r: bool)
        ensures
            r == self.spec_is_deferred(),
    {
        match self {
            State::AHLetterMid | State::NumericMid | State::HLetterDQ => true,
            State::StartOfText
            | State::Any
            | State::CR
            | State::ALetter
            | State::Numeric
            | State::HLetter
            | State::Katakana
            | State::ExtendNumLet
            | State::WSegSpace
            | State::RIOdd
            | State::Newline
            | State::HLetterSingleQuote => false,
        }
    }
}

/// A transition: the next state and the action to take. The state is ignored
/// when the action is `Transparent`.
#[derive(Clone, Copy, Debug, PartialEq, Eq, Structural)]
pub struct Transition(pub State, pub Action);

pub open spec fn spec_nb(s: State) -> Transition {
    Transition(s, Action::NoBreak)
}

pub open spec fn spec_brk(s: State) -> Transition {
    Transition(s, Action::Break)
}

pub open spec fn spec_deferred(s: State) -> Transition {
    Transition(s, Action::DeferredBreak)
}

pub open spec fn spec_transparent() -> Transition {
    Transition(State::Any, Action::Transparent)
}

/// Column of a property in a row.
pub open spec fn col(p: WordBreakProperty) -> int {
    p.idx()
}

/// The default row: break before everything, entering the state of the
/// char's class; WB4 makes Format/Extend/ZWJ transparent.
pub open spec fn default_all_break_row() -> Seq<Transition> {
    Seq::new(19, |i: int| spec_brk(State::Any))
        .update(col(WordBreakProperty::ALetter), spec_brk(State::ALetter))
        .update(col(WordBreakProperty::Numeric), spec_brk(State::Numeric))
        .update(col(WordBreakProperty::CR), spec_brk(State::CR))
        .update(col(WordBreakProperty::HebrewLetter), spec_brk(State::HLetter))
        .update(col(WordBreakProperty::WSegSpace), spec_brk(State::WSegSpace))
        .update(col(WordBreakProperty::Katakana), spec_brk(State::Katakana))
        .update(col(WordBreakProperty::ExtendNumLet), spec_brk(State::ExtendNumLet))
        .update(col(WordBreakProperty::Format), spec_transparent())
        .update(col(WordBreakProperty::Extend), spec_transparent())
        .update(col(WordBreakProperty::ZWJ), spec_transparent())
        .update(col(WordBreakProperty::LF), spec_brk(State::Newline))
        .update(col(WordBreakProperty::Newline), spec_brk(State::Newline))
        .update(col(WordBreakProperty::RegionalIndicator), spec_brk(State::RIOdd))
}

/// The row of the states that hold a deferred break: resolve the deferred
/// break on anything but Format/Extend/ZWJ.
pub open spec fn default_all_deferred_row() -> Seq<Transition> {
    Seq::new(19, |i: int| spec_deferred(State::Any))
        .update(col(WordBreakProperty::Format), spec_transparent())
        .update(col(WordBreakProperty::Extend), spec_transparent())
        .update(col(WordBreakProperty::ZWJ), spec_transparent())
}

/// Overrides Extend/Format/ZWJ back to a break, for the states exempt from WB4.
pub open spec fn without_wb4_row(row: Seq<Transition>) -> Seq<Transition> {
    row.update(col(WordBreakProperty::Extend), spec_brk(State::Any))
        .update(col(WordBreakProperty::Format), spec_brk(State::Any))
        .update(col(WordBreakProperty::ZWJ), spec_brk(State::Any))
}

pub open spec fn start_of_text_row() -> Seq<Transition> {
    without_wb4_row(default_all_break_row())
}

pub open spec fn any_row() -> Seq<Transition> {
    default_all_break_row()
}

/// WB3: CR × LF.
pub open spec fn cr_row() -> Seq<Transition> {
    without_wb4_row(
        default_all_break_row().update(col(WordBreakProperty::LF), spec_nb(State::Newline)),
    )
}

/// WB5, WB6, WB9, WB13a after a letter.
pub open spec fn aletter_row() -> Seq<Transition> {
    default_all_break_row()
        .update(col(WordBreakProperty::ALetter), spec_nb(State::ALetter))
        .update(col(WordBreakProperty::HebrewLetter), spec_nb(State::HLetter))
        .update(col(WordBreakProperty::Numeric), spec_nb(State::Numeric))
        .update(col(WordBreakProperty::MidLetter), spec_nb(State::AHLetterMid))
        .update(col(WordBreakProperty::MidNumLet), spec_nb(State::AHLetterMid))
        .update(col(WordBreakProperty::SingleQuote), spec_nb(State::AHLetterMid))
        .update(col(WordBreakProperty::ExtendNumLet), spec_nb(State::ExtendNumLet))
}

/// WB8, WB10, WB12, WB13a after a digit.
pub open spec fn numeric_row() -> Seq<Transition> {
    default_all_break_row()
        .update(col(WordBreakProperty::Numeric), spec_nb(State::Numeric))
        .update(col(WordBreakProperty::HebrewLetter), spec_nb(State::HLetter))
        .update(col(WordBreakProperty::ALetter), spec_nb(State::ALetter))
        .update(col(WordBreakProperty::MidNum), spec_nb(State::NumericMid))
        .update(col(WordBreakProperty::MidNumLet), spec_nb(State::NumericMid))
        .update(col(WordBreakProperty::SingleQuote), spec_nb(State::NumericMid))
        .update(col(WordBreakProperty::ExtendNumLet), spec_nb(State::ExtendNumLet))
}

/// WB5, WB6, WB7a, WB7b, WB9, WB13a after a Hebrew letter.
pub open spec fn hletter_row() -> Seq<Transition> {
    default_all_break_row()
        .update(col(WordBreakProperty::HebrewLetter), spec_nb(State::HLetter))
        .update(col(WordBreakProperty::ALetter), spec_nb(State::ALetter))
        .update(col(WordBreakProperty::Numeric), spec_nb(State::Numeric))
        .update(col(WordBreakProperty::MidLetter), spec_nb(State::AHLetterMid))
        .update(col(WordBreakProperty::MidNumLet), spec_nb(State::AHLetterMid))
        .update(col(WordBreakProperty::SingleQuote), spec_nb(State::AHLetterMid))
        .update(col(WordBreakProperty::SingleQuote), spec_nb(State::HLetterSingleQuote))
        .update(col(WordBreakProperty::DoubleQuote), spec_nb(State::HLetterDQ))
        .update(col(WordBreakProperty::ExtendNumLet), spec_nb(State::ExtendNumLet))
}

/// WB13, WB13a after Katakana.
pub open spec fn katakana_row() -> Seq<Transition> {
    default_all_break_row()
        .update(col(WordBreakProperty::Katakana), spec_nb(State::Katakana))
        .update(col(WordBreakProperty::ExtendNumLet), spec_nb(State::ExtendNumLet))
}

/// WB13a, WB13b after a connector.
pub open spec fn extendnumlet_row() -> Seq<Transition> {
    default_all_break_row()
        .update(col(WordBreakProperty::ALetter), spec_nb(State::ALetter))
        .update(col(WordBreakProperty::HebrewLetter), spec_nb(State::HLetter))
        .update(col(WordBreakProperty::Numeric), spec_nb(State::Numeric))
        .update(col(WordBreakProperty::Katakana), spec_nb(State::Katakana))
        .update(col(WordBreakProperty::ExtendNumLet), spec_nb(State::ExtendNumLet))
}

/// WB3d: keep horizontal whitespace together; WB3d precedes WB4, so
/// Extend/Format/ZWJ end the whitespace run without a break.
pub open spec fn wsegspace_row() -> Seq<Transition> {
    default_all_break_row()
        .update(col(WordBreakProperty::WSegSpace), spec_nb(State::WSegSpace))
        .update(col(WordBreakProperty::Extend), spec_nb(State::Any))
        .update(col(WordBreakProperty::Format), spec_nb(State::Any))
        .update(col(WordBreakProperty::ZWJ), spec_nb(State::Any))
}

/// WB6/WB7: a letter followed by a middle char; a letter resumes the word.
pub open spec fn ahletter_mid_row() -> Seq<Transition> {
    default_all_deferred_row()
        .update(col(WordBreakProperty::ALetter), spec_nb(State::ALetter))
        .update(col(WordBreakProperty::HebrewLetter), spec_nb(State::HLetter))
}

pub open spec fn newline_row() -> Seq<Transition> {
    without_wb4_row(default_all_break_row())
}

/// WB11/WB12: a digit followed by a middle char; a digit resumes the number.
pub open spec fn numeric_mid_row() -> Seq<Transition> {
    default_all_deferred_row().update(col(WordBreakProperty::Numeric), spec_nb(State::Numeric))
}

/// WB7b/WB7c: a Hebrew letter followed by a double quote.
pub open spec fn hletter_dq_row() -> Seq<Transition> {
    default_all_deferred_row().update(col(WordBreakProperty::HebrewLetter), spec_nb(State::HLetter))
}

/// WB15/WB16: an odd number of regional indicators so far.
pub open spec fn ri_odd_row() -> Seq<Transition> {
    default_all_break_row().update(col(WordBreakProperty::RegionalIndicator), spec_nb(State::Any))
}

/// WB7: a letter after a Hebrew letter and a single quote (which WB7a keeps
/// with the letter before it) joins the word.
pub open spec fn hletter_single_quote_row() -> Seq<Transition> {
    default_all_break_row()
        .update(col(WordBreakProperty::ALetter), spec_nb(State::ALetter))
        .update(col(WordBreakProperty::HebrewLetter), spec_nb(State::HLetter))
}

/// The whole transition table, one row per state in declaration order.
pub open spec fn word_table() -> Seq<Seq<Transition>> {
    seq![
        start_of_text_row(),
        any_row(),
        cr_row(),
        aletter_row(),
        numeric_row(),
        hletter_row(),
        katakana_row(),
        extendnumlet_row(),
        wsegspace_row(),
        ahletter_mid_row(),
        newline_row(),
        ri_odd_row(),
        numeric_mid_row(),
        hletter_dq_row(),
        hletter_single_quote_row(),
    ]
}

/// The transition taken in state `s` on a char of class `p`.
pub open spec fn word_transition(s: State, p: WordBreakProperty) -> Transition {
    word_table()[s.idx()][p.idx()]
}

/// A row of the table, as built at run time.
pub type Row = Vec<Transition>;

fn nb(s: State) -> (t: Transition)
    ensures
        t == spec_nb(s),
{
    Transition(s, Action::NoBreak)
}

fn brk(s: State) -> (t: Transition)
    ensures
        t == spec_brk(s),
{
    Transition(s, Action::Break)
}

fn deferred(s: State) -> (t: Transition)
    ensures
        t == spec_deferred(s),
{
    Transition(s, Action::DeferredBreak)
}

fn transparent() -> (t: Transition)
    ensures
        t == spec_transparent(),
{
    Transition(State::Any, Action::Transparent)
}

fn filled_row(t: Transition) -> (row: Row)
    ensures
        row@ == Seq::new(19, |i: int| t),
{
    let mut row: Row = Vec::new();
    let mut i: usize = 0;
    while i < NUM_WORD_BREAK_PROPERTIES
        invariant
            i <= NUM_WORD_BREAK_PROPERTIES,
            row@ == Seq::new(i as nat, |k: int| t),
        decreases NUM_WORD_BREAK_PROPERTIES - i,
    {
        row.push(t);
        i = i + 1;
    }
    row
}

fn set(row: &mut Row, p: WordBreakProperty, t: Transition)
    requires
        old(row)@.len() == 19,
    ensures
        final(row)@ == old(row)@.update(col(p), t),
{
    let i = p.index();
    row.set(i, t);
}

fn default_all_break() -> (row: Row)
    ensures
        row@ == default_all_break_row(),
{
    let mut row = filled_row(brk(State::Any));

    // Default transitions to specific states for certain common properties.
    set(&mut row, WordBreakProperty::ALetter, brk(State::ALetter));
    set(&mut row, WordBreakProperty::Numeric, brk(State::Numeric));
    set(&mut row, WordBreakProperty::CR, brk(State::CR));
    set(&mut row, WordBreakProperty::HebrewLetter, brk(State::HLetter));
    set(&mut row, WordBreakProperty::WSegSpace, brk(State::WSegSpace));
    set(&mut row, WordBreakProperty::Katakana, brk(State::Katakana));
    set(&mut row, WordBreakProperty::ExtendNumLet, brk(State::ExtendNumLet));

    // WB4: Format and Extend characters don't affect word boundaries.
    set(&mut row, WordBreakProperty::Format, transparent());
    set(&mut row, WordBreakProperty::Extend, transparent());
    set(&mut row, WordBreakProperty::ZWJ, transparent());
    set(&mut row, WordBreakProperty::LF, brk(State::Newline));
    set(&mut row, WordBreakProperty::Newline, brk(State::Newline));

    // WB15 & 16: Regional Indicators are handled specially.
    set(&mut row, WordBreakProperty::RegionalIndicator, brk(State::RIOdd));
    row
}

fn default_all_deferred() -> (row: Row)
    ensures
        row@ == default_all_deferred_row(),
{
    let mut row = filled_row(deferred(State::Any));
    set(&mut row, WordBreakProperty::Format, transparent());
    set(&mut row, WordBreakProperty::Extend, transparent());
    set(&mut row, WordBreakProperty::ZWJ, transparent());
    row
}

/// Override Extend/Format back to Break, for the states exempt from WB4
/// (StartOfText, CR, Newline).
fn without_wb4(row: &mut Row)
    requires
        old(row)@.len() == 19,
    ensures
        final(row)@ == without_wb4_row(old(row)@),
{
    set(row, WordBreakProperty::Extend, brk(State::Any));
    set(row, WordBreakProperty::Format, brk(State::Any));
    set(row, WordBreakProperty::ZWJ, brk(State::Any));
}

fn start_of_text_transitions() -> (row: Row)
    ensures
        row@ == start_of_text_row(),
{
    let mut row = default_all_break();
    without_wb4(&mut row);
    row
}

fn any_transitions() -> (row: Row)
    ensures
        row@ == any_row(),
{
    default_all_break()
}

fn cr_transitions() -> (row: Row)
    ensures
        row@ == cr_row(),
{
    let mut row = default_all_break();
    set(&mut row, WordBreakProperty::LF, nb(State::Newline));  // WB3
    without_wb4(&mut row);
    row
}

fn aletter_transitions() -> (row: Row)
    ensures
        row@ == aletter_row(),
{
    let mut row = default_all_break();
    // WB5: AHLetter × AHLetter
    set(&mut row, WordBreakProperty::ALetter, nb(State::ALetter));
    set(&mut row, WordBreakProperty::HebrewLetter, nb(State::HLetter));
    // WB9: ALetter × Numeric
    set(&mut row, WordBreakProperty::Numeric, nb(State::Numeric));
    // WB6: AHLetter × (MidLetter | MidNumLetQ) AHLetter
    set(&mut row, WordBreakProperty::MidLetter, nb(State::AHLetterMid));
    set(&mut row, WordBreakProperty::MidNumLet, nb(State::AHLetterMid));
    set(&mut row, WordBreakProperty::SingleQuote, nb(State::AHLetterMid));
    // WB13a: (AHLetter | Numeric | Katakana | ExtendNumLet) × ExtendNumLet
    set(&mut row, WordBreakProperty::ExtendNumLet, nb(State::ExtendNumLet));
    row
}

fn numeric_transitions() -> (row: Row)
    ensures
        row@ == numeric_row(),
{
    let mut row = default_all_break();
    // WB8: Numeric × Numeric
    set(&mut row, WordBreakProperty::Numeric, nb(State::Numeric));
    // WB10: Numeric × AHLetter
    set(&mut row, WordBreakProperty::HebrewLetter, nb(State::HLetter));
    set(&mut row, WordBreakProperty::ALetter, nb(State::ALetter));
    // WB12: Numeric × (MidNum | MidNumLetQ) Numeric
    set(&mut row, WordBreakProperty::MidNum, nb(State::NumericMid));
    set(&mut row, WordBreakProperty::MidNumLet, nb(State::NumericMid));
    set(&mut row, WordBreakProperty::SingleQuote, nb(State::NumericMid));
    // WB13a
    set(&mut row, WordBreakProperty::ExtendNumLet, nb(State::ExtendNumLet));
    row
}

fn hletter_transitions() -> (row: Row)
    ensures
        row@ == hletter_row(),
{
    let mut row = default_all_break();
    // WB5: AHLetter × AHLetter
    set(&mut row, WordBreakProperty::HebrewLetter, nb(State::HLetter));
    set(&mut row, WordBreakProperty::ALetter, nb(State::ALetter));
    // WB9: Numeric × AHLetter
    set(&mut row, WordBreakProperty::Numeric, nb(State::Numeric));
    // WB6: AHLetter × (MidLetter | MidNumLetQ) AHLetter
    set(&mut row, WordBreakProperty::MidLetter, nb(State::AHLetterMid));
    set(&mut row, WordBreakProperty::MidNumLet, nb(State::AHLetterMid));
    set(&mut row, WordBreakProperty::SingleQuote, nb(State::AHLetterMid));
    // WB7a: Hebrew_Letter × Single_Quote; WB7 joins a letter after it
    set(&mut row, WordBreakProperty::SingleQuote, nb(State::HLetterSingleQuote));
    // WB7b: Hebrew_Letter × Double_Quote Hebrew_Letter
    set(&mut row, WordBreakProperty::DoubleQuote, nb(State::HLetterDQ));
    // WB13a
    set(&mut row, WordBreakProperty::ExtendNumLet, nb(State::ExtendNumLet));
    row
}

fn katakana_transitions() -> (row: Row)
    ensures
        row@ == katakana_row(),
{
    let mut row = default_all_break();
    // WB13: Katakana × Katakana
    set(&mut row, WordBreakProperty::Katakana, nb(State::Katakana));
    // WB13a
    set(&mut row, WordBreakProperty::ExtendNumLet, nb(State::ExtendNumLet));
    row
}

fn extendnumlet_transitions() -> (row: Row)
    ensures
        row@ == extendnumlet_row(),
{
    let mut row = default_all_break();
    // WB13b: ExtendNumLet × (AHLetter | Numeric | Katakana)
    set(&mut row, WordBreakProperty::ALetter, nb(State::ALetter));
    set(&mut row, WordBreakProperty::HebrewLetter, nb(State::HLetter));
    set(&mut row, WordBreakProperty::Numeric, nb(State::Numeric));
    set(&mut row, WordBreakProperty::Katakana, nb(State::Katakana));
    // WB13a: ExtendNumLet × ExtendNumLet
    set(&mut row, WordBreakProperty::ExtendNumLet, nb(State::ExtendNumLet));
    row
}

fn wsegspace_transitions() -> (row: Row)
    ensures
        row@ == wsegspace_row(),
{
    let mut row = default_all_break();
    // WB3d: WSegSpace × WSegSpace
    set(&mut row, WordBreakProperty::WSegSpace, nb(State::WSegSpace));
    // WB3d is ordered before WB4: consume Extend/Format/ZWJ but leave the
    // whitespace state.
    set(&mut row, WordBreakProperty::Extend, nb(State::Any));
    set(&mut row, WordBreakProperty::Format, nb(State::Any));
    set(&mut row, WordBreakProperty::ZWJ, nb(State::Any));
    row
}

fn ahletter_mid_transitions() -> (row: Row)
    ensures
        row@ == ahletter_mid_row(),
{
    let mut row = default_all_deferred();
    // The deferred break before the middle char is cancelled by a letter.
    set(&mut row, WordBreakProperty::ALetter, nb(State::ALetter));
    set(&mut row, WordBreakProperty::HebrewLetter, nb(State::HLetter));
    row
}

fn newline_transitions() -> (row: Row)
    ensures
        row@ == newline_row(),
{
    let mut row = default_all_break();
    without_wb4(&mut row);
    row
}

fn numeric_mid_transitions() -> (row: Row)
    ensures
        row@ == numeric_mid_row(),
{
    let mut row = default_all_deferred();
    set(&mut row, WordBreakProperty::Numeric, nb(State::Numeric));
    row
}

fn hletter_dq_transitions() -> (row: Row)
    ensures
        row@ == hletter_dq_row(),
{
    let mut row = default_all_deferred();
    set(&mut row, WordBreakProperty::HebrewLetter, nb(State::HLetter));
    row
}

fn ri_odd_transitions() -> (row: Row)
    ensures
        row@ == ri_odd_row(),
{
    let mut row = default_all_break();
    set(&mut row, WordBreakProperty::RegionalIndicator, nb(State::Any));
    row
}

/// The transition table, one row per state in declaration order.
fn hletter_single_quote_transitions() -> (row: Row)
    ensures
        row@ == hletter_single_quote_row(),
{
    let mut row = default_all_break();
    // WB7: Hebrew_Letter Single_Quote × AHLetter
    set(&mut row, WordBreakProperty::ALetter, nb(State::ALetter));
    set(&mut row, WordBreakProperty::HebrewLetter, nb(State::HLetter));
    row
}

pub fn transition_table() -> (table: Vec<Row>)
    ensures
        table@.len() == NUM_WORD_STATES,
        forall|i: int| 0 <= i < NUM_WORD_STATES ==> #[trigger] table@[i]@ == word_table()[i],
{
    let mut table: Vec<Row> = Vec::new();
    table.push(start_of_text_transitions());
    table.push(any_transitions());
    table.push(cr_transitions());
    table.push(aletter_transitions());
    table.push(numeric_transitions());
    table.push(hletter_transitions());
    table.push(katakana_transitions());
    table.push(extendnumlet_transitions());
    table.push(wsegspace_transitions());
    table.push(ahletter_mid_transitions());
    table.push(newline_transitions());
    table.push(ri_odd_transitions());
    table.push(numeric_mid_transitions());
    table.push(hletter_dq_transitions());
    table.push(hletter_single_quote_transitions());
    table
}

/// Looks up the transition of state `s` on class `p`.
pub fn lookup(table: &Vec<Row>, s: State, p: WordBreakProperty) -> (t: Transition)
    requires
        table@.len() == NUM_WORD_STATES,
        forall|i: int| 0 <= i < NUM_WORD_STATES ==> #[trigger] table@[i]@ == word_table()[i],
    ensures
        t == word_transition(s, p),
{
    let row = &table[s.index()];
    assert(row@ == word_table()[s.idx()]);
    row[p.index()]
}

} // verus!
