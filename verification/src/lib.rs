//! A small application state machine with transition-triggered view
//! lifecycle.
//!
//! The machine owns exactly one current state at a time, drawn from a set
//! of states declared at construction, plus an ordered stack of states
//! suspended beneath the current one (for pause/resume semantics). Every
//! transition validates its request, updates the current state, and reports
//! the lifecycle hook events — exit, enter, resume — that the host must run,
//! in order. The machine itself performs no I/O: view setup and teardown
//! belong to the host that consumes the hook events.

pub mod game;
pub mod machine;
pub mod obstacle;
pub mod player;
pub mod state;
pub mod ui;
