use app_states::machine::StateMachine;
use app_states::state::{HookEvent, StateId, TransitionError};

fn sid(id: u64) -> StateId {
    StateId { id }
}

/// Three declared states: a main menu (0), an in-game mode (1), a pause
/// screen (2), starting at the menu.
fn machine3() -> StateMachine {
    StateMachine::new(vec![sid(0), sid(1), sid(2)], sid(0)).unwrap()
}

#[test]
fn new_sets_initial_state_and_fires_no_hook() {
    let m = machine3();
    assert_eq!(m.current(), sid(0));
    assert_eq!(m.stack_depth(), 0);
    assert!(!m.has_started());
    assert!(!m.is_dispatching());
}

#[test]
fn new_rejects_duplicate_state() {
    let r = StateMachine::new(vec![sid(0), sid(1), sid(0)], sid(0));
    assert!(matches!(r, Err(TransitionError::ConfigError)));
}

#[test]
fn new_rejects_unknown_initial() {
    let r = StateMachine::new(vec![sid(0), sid(1)], sid(5));
    assert!(matches!(r, Err(TransitionError::UnknownState)));
}

#[test]
fn noop_transition_fails_and_changes_nothing() {
    let mut m = machine3();
    let r = m.request_transition(sid(0));
    assert!(matches!(r, Err(TransitionError::NoOpTransition)));
    assert_eq!(m.current(), sid(0));
    assert_eq!(m.stack_depth(), 0);
}

#[test]
fn unknown_target_fails_and_changes_nothing() {
    let mut m = machine3();
    let r = m.request_transition(sid(9));
    assert!(matches!(r, Err(TransitionError::UnknownState)));
    assert_eq!(m.current(), sid(0));
}

#[test]
fn request_fires_exit_then_enter() {
    let mut m = machine3();
    m.register(sid(0), false, true, false).unwrap();
    m.register(sid(1), true, false, false).unwrap();
    let out = m.request_transition(sid(1)).unwrap();
    assert_eq!(out.state, sid(1));
    assert_eq!(out.hooks, vec![HookEvent::Exit(sid(0)), HookEvent::Enter(sid(1))]);
    assert_eq!(m.current(), sid(1));
}

#[test]
fn push_then_pop_resumes_not_enters() {
    let mut m = machine3();
    m.register(sid(0), true, true, true).unwrap();
    m.register(sid(2), true, true, false).unwrap();
    let out = m.push_transition(sid(2)).unwrap();
    assert_eq!(out.hooks, vec![HookEvent::Exit(sid(0)), HookEvent::Enter(sid(2))]);
    assert_eq!(m.current(), sid(2));
    assert_eq!(m.stack_depth(), 1);
    m.complete_transition();
    let out = m.pop_transition().unwrap();
    assert_eq!(out.state, sid(0));
    assert_eq!(out.hooks, vec![HookEvent::Exit(sid(2)), HookEvent::Resume(sid(0))]);
    assert!(!out.hooks.contains(&HookEvent::Enter(sid(0))));
    assert_eq!(m.current(), sid(0));
    assert_eq!(m.stack_depth(), 0);
}

#[test]
fn pop_on_empty_stack_fails_and_changes_nothing() {
    let mut m = machine3();
    let r = m.pop_transition();
    assert!(matches!(r, Err(TransitionError::EmptyStack)));
    assert_eq!(m.current(), sid(0));
    assert_eq!(m.stack_depth(), 0);
}

#[test]
fn register_undeclared_state_fails() {
    let mut m = machine3();
    let r = m.register(sid(9), true, true, true);
    assert!(matches!(r, Err(TransitionError::ConfigError)));
}

#[test]
fn register_after_transition_fails() {
    let mut m = machine3();
    m.request_transition(sid(1)).unwrap();
    m.complete_transition();
    let r = m.register(sid(2), true, false, false);
    assert!(matches!(r, Err(TransitionError::ConfigError)));
}

#[test]
fn register_after_failed_transition_fails_too() {
    let mut m = machine3();
    let _ = m.request_transition(sid(0));
    let r = m.register(sid(2), true, false, false);
    assert!(matches!(r, Err(TransitionError::ConfigError)));
}

#[test]
fn reentrant_transition_rejected_until_completed() {
    let mut m = machine3();
    m.register(sid(1), true, false, false).unwrap();
    m.request_transition(sid(1)).unwrap();
    assert!(m.is_dispatching());
    let r = m.request_transition(sid(2));
    assert!(matches!(r, Err(TransitionError::ReentrantTransition)));
    assert_eq!(m.current(), sid(1));
    m.complete_transition();
    assert!(m.request_transition(sid(2)).is_ok());
    assert_eq!(m.current(), sid(2));
}

#[test]
fn transition_without_hooks_needs_no_completion() {
    let mut m = machine3();
    let out = m.request_transition(sid(1)).unwrap();
    assert!(out.hooks.is_empty());
    assert!(!m.is_dispatching());
    assert!(m.request_transition(sid(2)).is_ok());
}

#[test]
fn request_resumes_a_suspended_target() {
    let mut m = machine3();
    m.register(sid(0), true, false, true).unwrap();
    m.push_transition(sid(1)).unwrap();
    assert_eq!(m.stack_depth(), 1);
    let out = m.request_transition(sid(0)).unwrap();
    assert_eq!(out.hooks, vec![HookEvent::Resume(sid(0))]);
    assert_eq!(m.current(), sid(0));
    assert_eq!(m.stack_depth(), 0);
}

#[test]
fn declared_states_are_reported() {
    let m = machine3();
    assert!(m.is_declared_state(sid(0)));
    assert!(m.is_declared_state(sid(2)));
    assert!(!m.is_declared_state(sid(3)));
}

#[test]
fn scenario_menu_game_pause() {
    // states {MainMenu: 0, InGame: 1, Paused: 2}, starting at the menu
    let mut m = machine3();
    m.register(sid(1), true, true, true).unwrap();

    let out = m.request_transition(sid(1)).unwrap();
    assert_eq!(m.current(), sid(1));
    assert_eq!(out.hooks, vec![HookEvent::Enter(sid(1))]);
    m.complete_transition();

    let out = m.push_transition(sid(2)).unwrap();
    assert_eq!(m.current(), sid(2));
    assert_eq!(m.stack_depth(), 1);
    assert_eq!(out.hooks, vec![HookEvent::Exit(sid(1))]);
    m.complete_transition();

    let out = m.pop_transition().unwrap();
    assert_eq!(m.current(), sid(1));
    assert_eq!(out.hooks, vec![HookEvent::Resume(sid(1))]);
    assert!(!out.hooks.contains(&HookEvent::Enter(sid(1))));
    m.complete_transition();

    let out = m.request_transition(sid(0)).unwrap();
    assert_eq!(m.current(), sid(0));
    assert_eq!(out.hooks, vec![HookEvent::Exit(sid(1))]);
}
