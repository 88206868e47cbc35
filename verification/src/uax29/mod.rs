//! UAX #29 text segmentation (word and sentence boundaries), each driven by a
//! deterministic finite automaton whose transitions are looked up per char.
use vstd::prelude::*;

pub mod sentence;
pub mod word;

verus! {

/// What the automaton does on a transition.
#[derive(Clone, Copy, Debug, PartialEq, Eq, Structural)]
pub enum Action {
    /// Break before the current char, which starts the next segment.
    Break,
    /// Do not break before the current char.
    NoBreak,
    /// Break at the position where the pending deferred decision started; the
    /// current char is examined again in the new state.
    DeferredBreak,
    /// The char (Extend/Format/ZWJ) is skipped without a state change.
    Transparent,
}

} // verus!
