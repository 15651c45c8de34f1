//! The vocabulary of the state machine: state identifiers, the error
//! taxonomy, and the lifecycle hook events a transition hands back.

use vstd::prelude::*;

verus! {

/// Identifier of an application state (for example a main menu, an in-game
/// mode, a pause screen), drawn from the set the machine declares at
/// construction.
#[derive(Clone, Copy, PartialEq, Eq, Structural, Hash, Debug)]
pub struct StateId {
    pub id: u64,
}

/// Every failing operation reports exactly one of these and leaves the
/// current state and the stack unchanged; none is fatal to the caller.
#[derive(Clone, Copy, PartialEq, Eq, Structural, Debug)]
pub enum TransitionError {
    /// A hook registration named an undeclared state or came after the
    /// machine had begun processing transitions, or the machine was
    /// declared with a duplicate state.
    ConfigError,
    /// A transition named a state outside the declared set.
    UnknownState,
    /// A transition named the state that is already current.
    NoOpTransition,
    /// A pop was requested with no state suspended beneath the current one.
    EmptyStack,
    /// A transition was requested while the hook events of the previous one
    /// were still outstanding.
    ReentrantTransition,
}

/// One lifecycle hook firing. A successful transition reports its events in
/// the order the host must run them: the old state's exit first, then the
/// new state's enter (fresh entry) or resume (return to a suspended state).
#[derive(Clone, Copy, PartialEq, Eq, Structural, Debug)]
pub enum HookEvent {
    Exit(StateId),
    Enter(StateId),
    Resume(StateId),
}

/// What a successful transition hands back: the new current state and the
/// registered hook events to run, in order.
pub struct TransitionOutcome {
    pub state: StateId,
    pub hooks: Vec<HookEvent>,
}

} // verus!
