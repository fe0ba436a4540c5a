use vstd::prelude::*;
use super::once::{Once, OnceState};

verus! {

/// A cell written at most once.
pub struct OnceLock<T> {
    once: Once,
    value: Option<T>,
}

impl<T> OnceLock<T> {
    /// What the cell holds: `None` until it is set.
    pub closed spec fn spec_value(&self) -> Option<T> {
        self.value
    }

    /// The cell's flag is complete exactly when it holds a value.
    pub closed spec fn wf(&self) -> bool {
        &&& self.once.wf()
        &&& (self.once.spec_state() == OnceState::Complete) == (self.value is Some)
    }

    /// An empty cell.
    pub fn new() -> (r: OnceLock<T>)
        ensures
            r.wf(),
            r.spec_value() is None,
    {
        OnceLock { once: Once::new(), value: None }
    }

    /// Stores `v` unless the cell is already set, in which case nothing
    /// changes.
    pub fn initialize(&mut self, v: T)
        requires
            old(self).wf(),
        ensures
            final(self).wf(),
            old(self).spec_value() is Some ==> final(self).spec_value() == old(self).spec_value(),
            old(self).spec_value() is None ==> final(self).spec_value() == Some(v),
    {
        if self.once.is_completed() {
            return;
        }
        self.value = Some(v);
        self.once.set_state(OnceState::Complete);
    }

    /// The value, if the cell is set.
    pub fn get(&self) -> (r: Option<&T>)
        requires
            self.wf(),
        ensures
            r == match self.spec_value() {
                Some(v) => Some(&v),
                None => None::<&T>,
            },
    {
        match &self.value {
            Some(v) => Some(v),
            None => None,
        }
    }

    /// The value for update, if the cell is set.
    pub fn get_mut(&mut self) -> (r: Option<&mut T>)
        requires
            old(self).wf(),
        ensures
            old(self).spec_value() is None <==> r is None,
            r matches Some(v) ==> *v == old(self).spec_value()->Some_0 && final(self).spec_value()
                == Some(*final(v)) && final(self).wf(),
            r is None ==> *final(self) == *old(self),
    {
        match &mut self.value {
            Some(v) => Some(v),
            None => None,
        }
    }
}

} // verus!
