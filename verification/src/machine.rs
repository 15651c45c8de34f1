//! The state machine: one current state, a stack of suspended states, and a
//! registry of lifecycle hooks, mutated only through validated transitions.

use vstd::prelude::*;
use vstd::pervasive::VecAdditionalExecFns;

use crate::state::{HookEvent, StateId, TransitionError, TransitionOutcome};

verus! {

/// One declared state together with which of its lifecycle hooks the host
/// has registered.
#[derive(Clone, Copy, PartialEq, Eq, Structural, Debug)]
pub struct StateEntry {
    pub id: StateId,
    pub enter: bool,
    pub exit: bool,
    pub resume: bool,
}

/// No two entries declare the same state.
pub open spec fn unique_ids(entries: Seq<StateEntry>) -> bool {
    forall|i: int, j: int|
        #![trigger entries[i], entries[j]]
        0 <= i < entries.len() && 0 <= j < entries.len() && entries[i].id == entries[j].id
            ==> i == j
}

/// The state is in the declared set.
pub open spec fn declared_in(entries: Seq<StateEntry>, s: StateId) -> bool {
    exists|i: int| 0 <= i < entries.len() && (#[trigger] entries[i]).id == s
}

/// An enter hook is registered for the state.
pub open spec fn enter_hook_in(entries: Seq<StateEntry>, s: StateId) -> bool {
    exists|i: int| 0 <= i < entries.len() && (#[trigger] entries[i]).id == s && entries[i].enter
}

/// An exit hook is registered for the state.
pub open spec fn exit_hook_in(entries: Seq<StateEntry>, s: StateId) -> bool {
    exists|i: int| 0 <= i < entries.len() && (#[trigger] entries[i]).id == s && entries[i].exit
}

/// A resume hook is registered for the state.
pub open spec fn resume_hook_in(entries: Seq<StateEntry>, s: StateId) -> bool {
    exists|i: int| 0 <= i < entries.len() && (#[trigger] entries[i]).id == s && entries[i].resume
}

/// The state machine. It is well formed from construction on: the current
/// state and every suspended state are members of the declared set.
pub struct StateMachine {
    states: Vec<StateEntry>,
    current: StateId,
    stack: Vec<StateId>,
    started: bool,
    dispatching: bool,
}

impl StateMachine {
    /// The declared states with their hook registrations.
    pub closed spec fn spec_entries(self) -> Seq<StateEntry> {
        self.states@
    }

    /// The active state.
    pub closed spec fn spec_current(self) -> StateId {
        self.current
    }

    /// The suspended states, bottom first; the last is resumed next.
    pub closed spec fn spec_stack(self) -> Seq<StateId> {
        self.stack@
    }

    /// Whether the machine has begun processing transitions (after which
    /// hook registration is refused).
    pub closed spec fn spec_started(self) -> bool {
        self.started
    }

    /// Whether the hook events of the last transition are still
    /// outstanding (until then further transitions are refused).
    pub closed spec fn spec_dispatching(self) -> bool {
        self.dispatching
    }

    /// Whether `s` is in the declared set.
    pub open spec fn is_declared(self, s: StateId) -> bool {
        declared_in(self.spec_entries(), s)
    }

    /// Whether an enter hook is registered for `s`.
    pub open spec fn spec_enter_hook(self, s: StateId) -> bool {
        enter_hook_in(self.spec_entries(), s)
    }

    /// Whether an exit hook is registered for `s`.
    pub open spec fn spec_exit_hook(self, s: StateId) -> bool {
        exit_hook_in(self.spec_entries(), s)
    }

    /// Whether a resume hook is registered for `s`.
    pub open spec fn spec_resume_hook(self, s: StateId) -> bool {
        resume_hook_in(self.spec_entries(), s)
    }

    /// Well-formedness: the declared set has no duplicates, and the current
    /// state and every suspended state are declared.
    pub open spec fn wf(self) -> bool {
        &&& unique_ids(self.spec_entries())
        &&& self.is_declared(self.spec_current())
        &&& forall|i: int|
            0 <= i < self.spec_stack().len() ==> self.is_declared(#[trigger] self.spec_stack()[i])
    }

    /// Constructs the machine over the given declared set with `initial` as
    /// the current state. No lifecycle hook is registered yet and none
    /// fires: entry views for the initial state are built by an explicit
    /// host startup step, not by construction.
    ///
    /// Fails with `ConfigError` if the declared set repeats a state, and
    /// with `UnknownState` if `initial` is not a member of it.
    pub fn new(states: Vec<StateId>, initial: StateId) -> (r: Result<StateMachine, TransitionError>)
        ensures
            r is Ok <==> states@.no_duplicates() && states@.contains(initial),
            match r {
                Ok(m) => {
                    &&& m.wf()
                    &&& m.spec_current() == initial
                    &&& m.spec_stack() == Seq::<StateId>::empty()
                    &&& !m.spec_started()
                    &&& !m.spec_dispatching()
                    &&& forall|s: StateId| #[trigger] m.is_declared(s) <==> states@.contains(s)
                    &&& forall|s: StateId| !(#[trigger] m.spec_enter_hook(s))
                    &&& forall|s: StateId| !(#[trigger] m.spec_exit_hook(s))
                    &&& forall|s: StateId| !(#[trigger] m.spec_resume_hook(s))
                },
                Err(e) => {
                    &&& e == (if !states@.no_duplicates() {
                        TransitionError::ConfigError
                    } else {
                        TransitionError::UnknownState
                    })
                },
            },
    {
        let n: usize = states.len();
        let mut entries: Vec<StateEntry> = Vec::new();
        let mut i: usize = 0;
        while i < n
            invariant
                n == states@.len(),
                i <= n,
                entries@.len() == i,
                forall|k: int| 0 <= k < i ==> (#[trigger] entries@[k]).id == states@[k],
                forall|k: int|
                    0 <= k < i
                        ==> !(#[trigger] entries@[k]).enter && !entries@[k].exit
                            && !entries@[k].resume,
                states@.take(i as int).no_duplicates(),
            decreases n - i,
        {
            // refuse a state that was already declared
            let mut j: usize = 0;
            while j < i
                invariant
                    i < n,
                    j <= i,
                    n == states@.len(),
                    forall|k: int| 0 <= k < j ==> states@[k] != states@[i as int],
                decreases i - j,
            {
                if states[j].id == states[i].id {
                    proof {
                        assert(states@[j as int] == states@[i as int]);
                        assert(!states@.no_duplicates());
                    }
                    return Err(TransitionError::ConfigError);
                }
                j += 1;
            }
            entries.push(StateEntry { id: states[i], enter: false, exit: false, resume: false });
            proof {
                let t = states@.take(i as int + 1);
                assert forall|p: int, q: int|
                    0 <= p < t.len() && 0 <= q < t.len() && p != q implies t[p] != t[q] by {
                    assert(t[p] == states@[p]);
                    assert(t[q] == states@[q]);
                    if p == i as int {
                        assert(states@[q] != states@[i as int]);
                    } else if q == i as int {
                        assert(states@[p] != states@[i as int]);
                    } else {
                        assert(states@.take(i as int)[p] == states@[p]);
                        assert(states@.take(i as int)[q] == states@[q]);
                    }
                }
                assert(t.no_duplicates());
            }
            i += 1;
        }
        proof {
            assert(states@.take(n as int) =~= states@);
        }
        // the declared set is duplicate free; now place the initial state
        let mut found: bool = false;
        let mut k: usize = 0;
        while k < n && !found
            invariant
                n == states@.len(),
                k <= n,
                found ==> states@.contains(initial),
                !found ==> forall|t: int| 0 <= t < k ==> states@[t] != initial,
            decreases n - k,
        {
            if states[k].id == initial.id {
                proof {
                    assert(states@[k as int] == initial);
                }
                found = true;
            }
            k += 1;
        }
        if !found {
            assert(!states@.contains(initial));
            return Err(TransitionError::UnknownState);
        }
        let m = StateMachine {
            states: entries,
            current: initial,
            stack: Vec::new(),
            started: false,
            dispatching: false,
        };
        proof {
            assert(states@.contains(initial));
            assert(m.spec_stack() =~= Seq::<StateId>::empty());
            assert forall|s: StateId| #[trigger] m.is_declared(s) <==> states@.contains(s) by {
                if m.is_declared(s) {
                    let w: int = choose|w: int|
                        0 <= w < m.spec_entries().len() && (#[trigger] m.spec_entries()[w]).id == s;
                    assert(states@[w] == s);
                }
                if states@.contains(s) {
                    let w: int = choose|w: int| 0 <= w < states@.len() && states@[w] == s;
                    assert(m.spec_entries()[w].id == s);
                }
            }
            assert(m.is_declared(initial));
        }
        Ok(m)
    }

    /// The active state; never fails.
    pub fn current(&self) -> (r: StateId)
        ensures
            r == self.spec_current(),
    {
        self.current
    }

    /// Index of the entry declaring `s`, if any.
    fn find_entry(&self, s: StateId) -> (r: Option<usize>)
        ensures
            r is Some <==> self.is_declared(s),
            match r {
                Some(i) => i < self.spec_entries().len() && self.spec_entries()[i as int].id == s,
                None => !self.is_declared(s),
            },
    {
        let n: usize = self.states.len();
        let mut i: usize = 0;
        while i < n
            invariant
                n == self.spec_entries().len(),
                i <= n,
                forall|k: int| 0 <= k < i ==> (#[trigger] self.spec_entries()[k]).id != s,
            decreases n - i,
        {
            if self.states[i].id.id == s.id {
                proof {
                    assert(self.spec_entries()[i as int].id == s);
                }
                return Some(i);
            }
            i += 1;
        }
        None
    }

    /// Index of the topmost (most recently suspended) occurrence of `s` on
    /// the stack, if any.
    fn find_in_stack_last(&self, s: StateId) -> (r: Option<usize>)
        ensures
            r is Some <==> self.spec_stack().contains(s),
            match r {
                Some(i) => {
                    &&& i < self.spec_stack().len()
                    &&& self.spec_stack()[i as int] == s
                    &&& forall|j: int| i < j < self.spec_stack().len() ==> self.spec_stack()[j] != s
                },
                None => !self.spec_stack().contains(s),
            },
    {
        let mut i: usize = self.stack.len();
        while i > 0
            invariant
                i <= self.spec_stack().len(),
                forall|j: int| i <= j < self.spec_stack().len() ==> self.spec_stack()[j] != s,
            decreases i,
        {
            i -= 1;
            if self.stack[i].id == s.id {
                proof {
                    assert(self.spec_stack()[i as int] == s);
                }
                return Some(i);
            }
        }
        None
    }

    /// Registers hooks for `state`: each `true` flag attaches the matching
    /// hook, each `false` flag leaves it as it was. Hooks are startup-only:
    /// once the machine has begun processing transitions, and for a state
    /// outside the declared set, registration fails with `ConfigError` and
    /// changes nothing.
    pub fn register(
        &mut self,
        state: StateId,
        on_enter: bool,
        on_exit: bool,
        on_resume: bool,
    ) -> (r: Result<(), TransitionError>)
        requires
            old(self).wf(),
        ensures
            final(self).wf(),
            final(self).spec_current() == old(self).spec_current(),
            final(self).spec_stack() == old(self).spec_stack(),
            final(self).spec_started() == old(self).spec_started(),
            final(self).spec_dispatching() == old(self).spec_dispatching(),
            forall|s: StateId| #[trigger] final(self).is_declared(s) == old(self).is_declared(s),
            r is Ok <==> !old(self).spec_started() && old(self).is_declared(state),
            match r {
                Ok(()) => {
                    &&& final(self).spec_enter_hook(state) == (old(self).spec_enter_hook(state)
                        || on_enter)
                    &&& final(self).spec_exit_hook(state) == (old(self).spec_exit_hook(state)
                        || on_exit)
                    &&& final(self).spec_resume_hook(state) == (old(self).spec_resume_hook(state)
                        || on_resume)
                    &&& forall|s: StateId|
                        s != state ==> #[trigger] final(self).spec_enter_hook(s) == old(
                            self,
                        ).spec_enter_hook(s)
                    &&& forall|s: StateId|
                        s != state ==> #[trigger] final(self).spec_exit_hook(s) == old(
                            self,
                        ).spec_exit_hook(s)
                    &&& forall|s: StateId|
                        s != state ==> #[trigger] final(self).spec_resume_hook(s) == old(
                            self,
                        ).spec_resume_hook(s)
                },
                Err(e) => e == TransitionError::ConfigError && *final(self) == *old(self),
            },
    {
        if self.started {
            return Err(TransitionError::ConfigError);
        }
        let i: usize = match self.find_entry(state) {
            Some(i) => i,
            None => {
                return Err(TransitionError::ConfigError);
            },
        };
        let old_entry = self.states[i];
        let entry = StateEntry {
            id: old_entry.id,
            enter: old_entry.enter || on_enter,
            exit: old_entry.exit || on_exit,
            resume: old_entry.resume || on_resume,
        };
        self.states.set(i, entry);
        proof {
            let pre = old(self).spec_entries();
            let post = self.spec_entries();
            assert(post =~= pre.update(i as int, entry));
            assert forall|p: int, q: int|
                #![trigger post[p], post[q]]
                0 <= p < post.len() && 0 <= q < post.len() && post[p].id == post[q].id
                    implies p == q by {
                assert(post[p].id == pre[p].id);
                assert(post[q].id == pre[q].id);
            }
            lemma_hook_at_index(pre, i as int, state);
            lemma_hook_at_index(post, i as int, state);
            assert forall|s: StateId| #[trigger] self.is_declared(s) == old(self).is_declared(s) by {
                if s != state {
                    lemma_update_same_id_other_states(pre, i as int, entry, s);
                } else {
                    assert(pre[i as int].id == s);
                    assert(post[i as int].id == s);
                }
            }
            assert forall|s: StateId|
                s != state implies #[trigger] self.spec_enter_hook(s) == old(self).spec_enter_hook(
                s,
            ) by {
                lemma_update_same_id_other_states(pre, i as int, entry, s);
            }
            assert forall|s: StateId|
                s != state implies #[trigger] self.spec_exit_hook(s) == old(self).spec_exit_hook(
                s,
            ) by {
                lemma_update_same_id_other_states(pre, i as int, entry, s);
            }
            assert forall|s: StateId|
                s != state implies #[trigger] self.spec_resume_hook(s) == old(
                self,
            ).spec_resume_hook(s) by {
                lemma_update_same_id_other_states(pre, i as int, entry, s);
            }
            assert(self.spec_stack() == old(self).spec_stack());
            assert(self.is_declared(self.spec_current()));
            assert forall|idx: int|
                0 <= idx < self.spec_stack().len() implies self.is_declared(
                #[trigger] self.spec_stack()[idx],
            ) by {
                assert(old(self).is_declared(old(self).spec_stack()[idx]));
            }
        }
        Ok(())
    }

    /// The lateral transition to `target`, the non-stacking sibling of
    /// `push_transition`/`pop_transition`.
    ///
    /// Fails with `ReentrantTransition` while the previous transition's
    /// hook events are outstanding, with `NoOpTransition` when `target` is
    /// already current, and with `UnknownState` when `target` is not
    /// declared; every failure leaves the state unchanged. On success the
    /// old state's exit event comes first, then the target's resume event
    /// (when it was suspended on the stack, which it leaves) or its enter
    /// event; further transitions are held until `complete_transition`.
    pub fn request_transition(&mut self, target: StateId) -> (r: Result<
        TransitionOutcome,
        TransitionError,
    >)
        requires
            old(self).wf(),
        ensures
            final(self).wf(),
            final(self).spec_started(),
            same_config(*old(self), *final(self)),
            r is Ok <==> !old(self).spec_dispatching() && target != old(self).spec_current()
                && old(self).is_declared(target),
            match r {
                Ok(out) => out.state == target && request_ok(
                    *old(self),
                    target,
                    *final(self),
                    out.hooks@,
                ),
                Err(e) => {
                    &&& unchanged_core(*old(self), *final(self))
                    &&& (e == TransitionError::ReentrantTransition <==> old(
                        self,
                    ).spec_dispatching())
                    &&& !old(self).spec_dispatching() ==> (e == TransitionError::NoOpTransition
                        <==> target == old(self).spec_current())
                    &&& (!old(self).spec_dispatching() && target != old(self).spec_current())
                        ==> e == TransitionError::UnknownState
                },
            },
    {
        self.started = true;
        proof {
            lemma_wf_same_fields(*old(self), *self);
        }
        if self.dispatching {
            return Err(TransitionError::ReentrantTransition);
        }
        if target.id == self.current.id {
            return Err(TransitionError::NoOpTransition);
        }
        let target_idx: usize = match self.find_entry(target) {
            Some(i) => i,
            None => {
                return Err(TransitionError::UnknownState);
            },
        };
        let old_cur = self.current;
        proof {
            assert(self.spec_entries() == old(self).spec_entries());
        }
        let cur_idx: usize = self.find_entry(old_cur).unwrap();
        let mut hooks: Vec<HookEvent> = Vec::new();
        if self.states[cur_idx].exit {
            hooks.push(HookEvent::Exit(old_cur));
        }
        match self.find_in_stack_last(target) {
            Some(pos) => {
                self.stack.remove(pos);
                self.current = target;
                if self.states[target_idx].resume {
                    hooks.push(HookEvent::Resume(target));
                }
                self.dispatching = hooks.len() > 0;
                proof {
                    let pre = *old(self);
                    lemma_hook_at_index(pre.spec_entries(), cur_idx as int, old_cur);
                    lemma_hook_at_index(pre.spec_entries(), target_idx as int, target);
                    let p: int = pos as int;
                    assert(pre.spec_stack().contains(target));
                    assert(self.spec_stack() == pre.spec_stack().remove(p));
                    assert(0 <= p < pre.spec_stack().len() && pre.spec_stack()[p] == target && (
                    forall|j: int| p < j < pre.spec_stack().len() ==> pre.spec_stack()[j] != target)
                        && self.spec_stack() == pre.spec_stack().remove(p));
                    assert(stack_after_resume(pre.spec_stack(), target, self.spec_stack()));
                    assert(hooks@ =~= transition_events(pre, target, true));
                    assert forall|k: int|
                        0 <= k < self.spec_stack().len() implies self.is_declared(
                        #[trigger] self.spec_stack()[k],
                    ) by {
                        if k < pos as int {
                            assert(self.spec_stack()[k] == pre.spec_stack()[k]);
                        } else {
                            assert(self.spec_stack()[k] == pre.spec_stack()[k + 1]);
                        }
                    }
                }
                Ok(TransitionOutcome { state: target, hooks })
            },
            None => {
                self.current = target;
                if self.states[target_idx].enter {
                    hooks.push(HookEvent::Enter(target));
                }
                self.dispatching = hooks.len() > 0;
                proof {
                    let pre = *old(self);
                    lemma_hook_at_index(pre.spec_entries(), cur_idx as int, old_cur);
                    lemma_hook_at_index(pre.spec_entries(), target_idx as int, target);
                    assert(!pre.spec_stack().contains(target));
                    assert(hooks@ =~= transition_events(pre, target, false));
                }
                Ok(TransitionOutcome { state: target, hooks })
            },
        }
    }

    /// Suspends the current state beneath `target` and enters `target`
    /// fresh; `pop_transition` later resumes the suspended state.
    ///
    /// Fails exactly as `request_transition` does, leaving the state
    /// unchanged.
    pub fn push_transition(&mut self, target: StateId) -> (r: Result<
        TransitionOutcome,
        TransitionError,
    >)
        requires
            old(self).wf(),
        ensures
            final(self).wf(),
            final(self).spec_started(),
            same_config(*old(self), *final(self)),
            r is Ok <==> !old(self).spec_dispatching() && target != old(self).spec_current()
                && old(self).is_declared(target),
            match r {
                Ok(out) => out.state == target && push_ok(
                    *old(self),
                    target,
                    *final(self),
                    out.hooks@,
                ),
                Err(e) => {
                    &&& unchanged_core(*old(self), *final(self))
                    &&& (e == TransitionError::ReentrantTransition <==> old(
                        self,
                    ).spec_dispatching())
                    &&& !old(self).spec_dispatching() ==> (e == TransitionError::NoOpTransition
                        <==> target == old(self).spec_current())
                    &&& (!old(self).spec_dispatching() && target != old(self).spec_current())
                        ==> e == TransitionError::UnknownState
                },
            },
    {
        self.started = true;
        proof {
            lemma_wf_same_fields(*old(self), *self);
        }
        if self.dispatching {
            return Err(TransitionError::ReentrantTransition);
        }
        if target.id == self.current.id {
            return Err(TransitionError::NoOpTransition);
        }
        let target_idx: usize = match self.find_entry(target) {
            Some(i) => i,
            None => {
                return Err(TransitionError::UnknownState);
            },
        };
        let old_cur = self.current;
        proof {
            assert(self.spec_entries() == old(self).spec_entries());
        }
        let cur_idx: usize = self.find_entry(old_cur).unwrap();
        let mut hooks: Vec<HookEvent> = Vec::new();
        if self.states[cur_idx].exit {
            hooks.push(HookEvent::Exit(old_cur));
        }
        self.stack.push(old_cur);
        self.current = target;
        if self.states[target_idx].enter {
            hooks.push(HookEvent::Enter(target));
        }
        self.dispatching = hooks.len() > 0;
        proof {
            let pre = *old(self);
            lemma_hook_at_index(pre.spec_entries(), cur_idx as int, old_cur);
            lemma_hook_at_index(pre.spec_entries(), target_idx as int, target);
            assert(hooks@ =~= transition_events(pre, target, false));
            assert(self.spec_stack() == pre.spec_stack().push(pre.spec_current()));
            assert forall|k: int|
                0 <= k < self.spec_stack().len() implies self.is_declared(
                #[trigger] self.spec_stack()[k],
            ) by {
                if k < pre.spec_stack().len() {
                    assert(self.spec_stack()[k] == pre.spec_stack()[k]);
                } else {
                    assert(self.spec_stack()[k] == pre.spec_current());
                }
            }
        }
        Ok(TransitionOutcome { state: target, hooks })
    }

    /// Removes the current state and resumes the state suspended beneath
    /// it, firing its resume hook, never its enter hook.
    ///
    /// Fails with `ReentrantTransition` while hook events are outstanding
    /// and with `EmptyStack` when nothing is suspended; every failure
    /// leaves the state unchanged.
    pub fn pop_transition(&mut self) -> (r: Result<TransitionOutcome, TransitionError>)
        requires
            old(self).wf(),
        ensures
            final(self).wf(),
            final(self).spec_started(),
            same_config(*old(self), *final(self)),
            r is Ok <==> !old(self).spec_dispatching() && old(self).spec_stack().len() > 0,
            match r {
                Ok(out) => out.state == old(self).spec_stack().last() && pop_ok(
                    *old(self),
                    *final(self),
                    out.hooks@,
                ),
                Err(e) => {
                    &&& unchanged_core(*old(self), *final(self))
                    &&& (e == TransitionError::ReentrantTransition <==> old(
                        self,
                    ).spec_dispatching())
                    &&& !old(self).spec_dispatching() ==> (e == TransitionError::EmptyStack <==> old(
                        self,
                    ).spec_stack().len() == 0)
                },
            },
    {
        self.started = true;
        proof {
            lemma_wf_same_fields(*old(self), *self);
        }
        if self.dispatching {
            return Err(TransitionError::ReentrantTransition);
        }
        if self.stack.len() == 0 {
            return Err(TransitionError::EmptyStack);
        }
        let old_cur = self.current;
        let prev = self.stack.pop().unwrap();
        proof {
            assert(self.spec_entries() == old(self).spec_entries());
            assert(prev == old(self).spec_stack().last());
            assert(old(self).is_declared(old(self).spec_stack()[old(self).spec_stack().len() - 1]));
        }
        let cur_idx: usize = self.find_entry(old_cur).unwrap();
        let mut hooks: Vec<HookEvent> = Vec::new();
        if self.states[cur_idx].exit {
            hooks.push(HookEvent::Exit(old_cur));
        }
        self.current = prev;
        let prev_idx: usize = self.find_entry(prev).unwrap();
        if self.states[prev_idx].resume {
            hooks.push(HookEvent::Resume(prev));
        }
        self.dispatching = hooks.len() > 0;
        proof {
            let pre = *old(self);
            lemma_hook_at_index(pre.spec_entries(), cur_idx as int, old_cur);
            lemma_hook_at_index(pre.spec_entries(), prev_idx as int, prev);
            assert(hooks@ =~= transition_events(pre, prev, true));
            assert(self.spec_stack() == pre.spec_stack().drop_last());
            assert forall|k: int|
                0 <= k < self.spec_stack().len() implies self.is_declared(
                #[trigger] self.spec_stack()[k],
            ) by {
                assert(self.spec_stack()[k] == pre.spec_stack()[k]);
            }
        }
        Ok(TransitionOutcome { state: prev, hooks })
    }

    /// Acknowledges that the host has run every hook event of the last
    /// successful transition. Until then, transitions fail with
    /// `ReentrantTransition`, so hooks can never interleave with another
    /// transition. Idempotent; never fails.
    pub fn complete_transition(&mut self)
        requires
            old(self).wf(),
        ensures
            final(self).wf(),
            completed(*old(self), *final(self)),
    {
        self.dispatching = false;
        proof {
            lemma_wf_same_fields(*old(self), *self);
        }
    }

    /// How many states are suspended beneath the current one.
    pub fn stack_depth(&self) -> (n: usize)
        ensures
            n == self.spec_stack().len(),
    {
        self.stack.len()
    }

    /// Whether the machine has begun processing transitions (after which
    /// registration is refused).
    pub fn has_started(&self) -> (r: bool)
        ensures
            r == self.spec_started(),
    {
        self.started
    }

    /// Whether hook events from the last transition are still outstanding.
    pub fn is_dispatching(&self) -> (r: bool)
        ensures
            r == self.spec_dispatching(),
    {
        self.dispatching
    }

    /// Whether `s` is a member of the declared set.
    pub fn is_declared_state(&self, s: StateId) -> (r: bool)
        ensures
            r == self.is_declared(s),
    {
        match self.find_entry(s) {
            Some(_) => true,
            None => false,
        }
    }
}

/// Per successful transition, at most one exit event and one arrival
/// (enter-or-resume) event fire, the exit strictly first. A hook that is
/// not registered only drops its own event, and a resumed state gets a
/// resume event, never an enter event.
pub proof fn lemma_hook_order(
    entries: Seq<StateEntry>,
    from: StateId,
    target: StateId,
    resumed: bool,
)
    ensures
        ({
            let events = exit_events(entries, from) + arrival_events(entries, target, resumed);
            let arrival = if resumed {
                HookEvent::Resume(target)
            } else {
                HookEvent::Enter(target)
            };
            let has_exit = exit_hook_in(entries, from);
            let has_arrival = if resumed {
                resume_hook_in(entries, target)
            } else {
                enter_hook_in(entries, target)
            };
            &&& has_exit && has_arrival ==> events == seq![HookEvent::Exit(from), arrival]
            &&& has_exit && !has_arrival ==> events == seq![HookEvent::Exit(from)]
            &&& !has_exit && has_arrival ==> events == seq![arrival]
            &&& !has_exit && !has_arrival ==> events == Seq::<HookEvent>::empty()
        }),
{
    let events = exit_events(entries, from) + arrival_events(entries, target, resumed);
    let arrival = if resumed {
        HookEvent::Resume(target)
    } else {
        HookEvent::Enter(target)
    };
    let has_exit = exit_hook_in(entries, from);
    let has_arrival = if resumed {
        resume_hook_in(entries, target)
    } else {
        enter_hook_in(entries, target)
    };
    if has_exit && has_arrival {
        assert(events =~= seq![HookEvent::Exit(from), arrival]);
    } else if has_exit {
        assert(events =~= seq![HookEvent::Exit(from)]);
    } else if has_arrival {
        assert(events =~= seq![arrival]);
    } else {
        assert(events =~= Seq::<HookEvent>::empty());
    }
}

/// Suspending a state with a push and then popping (after the push's hook
/// events were acknowledged) returns to it: the pop restores the prior
/// current state and the prior stack, and fires that state's resume hook —
/// never its enter hook — after the exit of the pushed state.
pub proof fn lemma_push_then_pop_resumes(
    pre: StateMachine,
    mid: StateMachine,
    ready: StateMachine,
    post: StateMachine,
    target: StateId,
    push_events: Seq<HookEvent>,
    pop_events: Seq<HookEvent>,
)
    requires
        push_ok(pre, target, mid, push_events),
        completed(mid, ready),
        pop_ok(ready, post, pop_events),
    ensures
        post.spec_current() == pre.spec_current(),
        post.spec_stack() == pre.spec_stack(),
        same_config(pre, post),
        pop_events == transition_events(ready, pre.spec_current(), true),
        pre.spec_resume_hook(pre.spec_current()) ==> pop_events.last() == HookEvent::Resume(
            pre.spec_current(),
        ),
        forall|i: int| 0 <= i < pop_events.len() ==> !((#[trigger] pop_events[i]) is Enter),
{
    let entries = ready.spec_entries();
    let prior = pre.spec_current();
    assert(ready.spec_stack() == pre.spec_stack().push(prior));
    assert(ready.spec_stack().last() == prior);
    assert(ready.spec_stack().drop_last() =~= pre.spec_stack());
    let ex = exit_events(entries, ready.spec_current());
    let ar = arrival_events(entries, prior, true);
    assert(pop_events == ex + ar);
    assert forall|i: int| 0 <= i < pop_events.len() implies !((#[trigger] pop_events[i]) is Enter) by {
        if i < ex.len() {
            assert(pop_events[i] == ex[i]);
        } else {
            assert(pop_events[i] == ar[i - ex.len()]);
        }
    }
    if pre.spec_resume_hook(prior) {
        assert(resume_hook_in(entries, prior));
        assert(ar == seq![HookEvent::Resume(prior)]);
        assert(pop_events.last() == HookEvent::Resume(prior));
    }
}

/// The exit event of leaving `from`: fires exactly when its exit hook is
/// registered.
pub open spec fn exit_events(entries: Seq<StateEntry>, from: StateId) -> Seq<HookEvent> {
    if exit_hook_in(entries, from) {
        seq![HookEvent::Exit(from)]
    } else {
        Seq::empty()
    }
}

/// The arrival event of reaching `target`: its resume hook when a suspended
/// state is resumed, its enter hook on a fresh entry; fires exactly when
/// that hook is registered.
pub open spec fn arrival_events(entries: Seq<StateEntry>, target: StateId, resumed: bool) -> Seq<
    HookEvent,
> {
    if resumed {
        if resume_hook_in(entries, target) {
            seq![HookEvent::Resume(target)]
        } else {
            Seq::empty()
        }
    } else {
        if enter_hook_in(entries, target) {
            seq![HookEvent::Enter(target)]
        } else {
            Seq::empty()
        }
    }
}

/// All the hook events of one successful transition, in order: the old
/// state's exit fully precedes the new state's arrival.
pub open spec fn transition_events(pre: StateMachine, target: StateId, resumed: bool) -> Seq<
    HookEvent,
> {
    exit_events(pre.spec_entries(), pre.spec_current()) + arrival_events(
        pre.spec_entries(),
        target,
        resumed,
    )
}

/// `pre` and `post` declare the same states with the same hooks.
pub open spec fn same_config(pre: StateMachine, post: StateMachine) -> bool {
    post.spec_entries() == pre.spec_entries()
}

/// A failing operation leaves the machine as it was, except that it may
/// mark it started.
pub open spec fn unchanged_core(pre: StateMachine, post: StateMachine) -> bool {
    &&& same_config(pre, post)
    &&& post.spec_current() == pre.spec_current()
    &&& post.spec_stack() == pre.spec_stack()
    &&& post.spec_dispatching() == pre.spec_dispatching()
}

/// `post` is `stack` with its topmost occurrence of `target` removed.
pub open spec fn stack_after_resume(stack: Seq<StateId>, target: StateId, post: Seq<StateId>) -> bool {
    exists|i: int|
        0 <= i < stack.len() && #[trigger] stack[i] == target && (forall|j: int|
            i < j < stack.len() ==> stack[j] != target) && post == stack.remove(i)
}

/// What a successful `request_transition` did: the lateral move to a
/// declared, distinct target. A target suspended on the stack is taken off
/// it and resumed; any other target is entered fresh and the stack is kept.
pub open spec fn request_ok(
    pre: StateMachine,
    target: StateId,
    post: StateMachine,
    events: Seq<HookEvent>,
) -> bool {
    &&& !pre.spec_dispatching()
    &&& target != pre.spec_current()
    &&& pre.is_declared(target)
    &&& same_config(pre, post)
    &&& post.spec_current() == target
    &&& post.spec_started()
    &&& if pre.spec_stack().contains(target) {
        &&& stack_after_resume(pre.spec_stack(), target, post.spec_stack())
        &&& events == transition_events(pre, target, true)
    } else {
        &&& post.spec_stack() == pre.spec_stack()
        &&& events == transition_events(pre, target, false)
    }
    &&& post.spec_dispatching() == (events.len() > 0)
}

/// What a successful `push_transition` did: the old state is suspended on
/// top of the stack and the declared, distinct target is entered fresh.
pub open spec fn push_ok(
    pre: StateMachine,
    target: StateId,
    post: StateMachine,
    events: Seq<HookEvent>,
) -> bool {
    &&& !pre.spec_dispatching()
    &&& target != pre.spec_current()
    &&& pre.is_declared(target)
    &&& same_config(pre, post)
    &&& post.spec_current() == target
    &&& post.spec_stack() == pre.spec_stack().push(pre.spec_current())
    &&& post.spec_started()
    &&& events == transition_events(pre, target, false)
    &&& post.spec_dispatching() == (events.len() > 0)
}

/// What a successful `pop_transition` did: the old state is exited and the
/// topmost suspended state is resumed, never entered fresh.
pub open spec fn pop_ok(pre: StateMachine, post: StateMachine, events: Seq<HookEvent>) -> bool {
    &&& !pre.spec_dispatching()
    &&& pre.spec_stack().len() > 0
    &&& same_config(pre, post)
    &&& post.spec_current() == pre.spec_stack().last()
    &&& post.spec_stack() == pre.spec_stack().drop_last()
    &&& post.spec_started()
    &&& events == transition_events(pre, pre.spec_stack().last(), true)
    &&& post.spec_dispatching() == (events.len() > 0)
}

/// What `complete_transition` did: the outstanding hook events are
/// acknowledged and nothing else moves.
pub open spec fn completed(pre: StateMachine, post: StateMachine) -> bool {
    &&& same_config(pre, post)
    &&& post.spec_current() == pre.spec_current()
    &&& post.spec_stack() == pre.spec_stack()
    &&& post.spec_started() == pre.spec_started()
    &&& !post.spec_dispatching()
}

/// Well-formedness only reads the entries, the current state and the
/// stack, so it carries over whenever those are unchanged.
proof fn lemma_wf_same_fields(pre: StateMachine, post: StateMachine)
    requires
        pre.wf(),
        post.spec_entries() == pre.spec_entries(),
        post.spec_current() == pre.spec_current(),
        post.spec_stack() == pre.spec_stack(),
    ensures
        post.wf(),
{
    assert forall|k: int|
        0 <= k < post.spec_stack().len() implies post.is_declared(
        #[trigger] post.spec_stack()[k],
    ) by {
        assert(pre.is_declared(pre.spec_stack()[k]));
    }
}

/// In a duplicate-free declared set, the hooks of a state are exactly the
/// flags of its one entry.
proof fn lemma_hook_at_index(entries: Seq<StateEntry>, i: int, s: StateId)
    requires
        unique_ids(entries),
        0 <= i < entries.len(),
        entries[i].id == s,
    ensures
        declared_in(entries, s),
        enter_hook_in(entries, s) == entries[i].enter,
        exit_hook_in(entries, s) == entries[i].exit,
        resume_hook_in(entries, s) == entries[i].resume,
{
    if enter_hook_in(entries, s) {
        let k: int = choose|k: int|
            0 <= k < entries.len() && (#[trigger] entries[k]).id == s && entries[k].enter;
        assert(k == i);
    }
    if exit_hook_in(entries, s) {
        let k: int = choose|k: int|
            0 <= k < entries.len() && (#[trigger] entries[k]).id == s && entries[k].exit;
        assert(k == i);
    }
    if resume_hook_in(entries, s) {
        let k: int = choose|k: int|
            0 <= k < entries.len() && (#[trigger] entries[k]).id == s && entries[k].resume;
        assert(k == i);
    }
}

/// Updating an entry in place, keeping its state id, does not change
/// whether any other state is declared nor which hooks it has.
proof fn lemma_update_same_id_other_states(entries: Seq<StateEntry>, i: int, e: StateEntry, s: StateId)
    requires
        0 <= i < entries.len(),
        entries[i].id == e.id,
        s != e.id,
    ensures
        declared_in(entries.update(i, e), s) == declared_in(entries, s),
        enter_hook_in(entries.update(i, e), s) == enter_hook_in(entries, s),
        exit_hook_in(entries.update(i, e), s) == exit_hook_in(entries, s),
        resume_hook_in(entries.update(i, e), s) == resume_hook_in(entries, s),
{
    let post = entries.update(i, e);
    assert forall|k: int| 0 <= k < entries.len() && k != i implies #[trigger] post[k] == entries[k] by {}
    assert(post[i] == e);
    if declared_in(post, s) {
        let k: int = choose|k: int| 0 <= k < post.len() && (#[trigger] post[k]).id == s;
        assert(entries[k].id == s);
    }
    if declared_in(entries, s) {
        let k: int = choose|k: int| 0 <= k < entries.len() && (#[trigger] entries[k]).id == s;
        assert(post[k].id == s);
    }
    if enter_hook_in(post, s) {
        let k: int = choose|k: int|
            0 <= k < post.len() && (#[trigger] post[k]).id == s && post[k].enter;
        assert(entries[k].id == s && entries[k].enter);
    }
    if enter_hook_in(entries, s) {
        let k: int = choose|k: int|
            0 <= k < entries.len() && (#[trigger] entries[k]).id == s && entries[k].enter;
        assert(post[k].id == s && post[k].enter);
    }
    if exit_hook_in(post, s) {
        let k: int = choose|k: int|
            0 <= k < post.len() && (#[trigger] post[k]).id == s && post[k].exit;
        assert(entries[k].id == s && entries[k].exit);
    }
    if exit_hook_in(entries, s) {
        let k: int = choose|k: int|
            0 <= k < entries.len() && (#[trigger] entries[k]).id == s && entries[k].exit;
        assert(post[k].id == s && post[k].exit);
    }
    if resume_hook_in(post, s) {
        let k: int = choose|k: int|
            0 <= k < post.len() && (#[trigger] post[k]).id == s && post[k].resume;
        assert(entries[k].id == s && entries[k].resume);
    }
    if resume_hook_in(entries, s) {
        let k: int = choose|k: int|
            0 <= k < entries.len() && (#[trigger] entries[k]).id == s && entries[k].resume;
        assert(post[k].id == s && post[k].resume);
    }
}

} // verus!
