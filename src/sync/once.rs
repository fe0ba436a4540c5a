use vstd::prelude::*;

verus! {

const INCOMPLETE: usize = 0;

const COMPLETE: usize = 1;

/// Whether a one-time initialization has run.
#[derive(Debug, Clone, Copy, PartialEq, Eq, Structural)]
pub enum OnceState {
    Incomplete,
    Complete,
}

/// A flag recording that a one-time initialization has completed.
pub struct Once {
    state: usize,
}

impl Once {
    pub closed spec fn spec_state(&self) -> OnceState {
        if self.state == COMPLETE {
            OnceState::Complete
        } else {
            OnceState::Incomplete
        }
    }

    pub closed spec fn wf(&self) -> bool {
        self.state == INCOMPLETE || self.state == COMPLETE
    }

    /// A flag that has not completed.
    pub fn new() -> (r: Once)
        ensures
            r.wf(),
            r.spec_state() == OnceState::Incomplete,
    {
        Once { state: INCOMPLETE }
    }

    /// Whether the initialization has completed.
    pub fn is_completed(&self) -> (r: bool)
        ensures
            r == (self.spec_state() == OnceState::Complete),
    {
        self.state == COMPLETE
    }

    /// The current state.
    pub fn state(&mut self) -> (r: OnceState)
        requires
            old(self).wf(),
        ensures
            *final(self) == *old(self),
            r == old(self).spec_state(),
    {
        if self.state == INCOMPLETE {
            OnceState::Incomplete
        } else {
            OnceState::Complete
        }
    }

    /// Records state `s`.
    pub fn set_state(&mut self, s: OnceState)
        ensures
            final(self).wf(),
            final(self).spec_state() == s,
    {
        self.state = match s {
            OnceState::Incomplete => INCOMPLETE,
            OnceState::Complete => COMPLETE,
        };
    }
}

} // verus!
