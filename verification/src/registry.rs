//! A checked handle registry: engines live in slots, callers hold slot
//! indices, and a disposed slot turns every later use of its handle into
//! [`TokError::InvalidHandle`] instead of undefined behaviour.

use vstd::prelude::*;

use crate::engine::Engine;
use crate::error::TokError;

verus! {

/// The registry: each slot owns at most one live engine.
pub struct Registry {
    pub slots: Vec<Option<Engine>>,
}

impl Registry {
    /// Whether a handle currently names a live engine.
    pub open spec fn live(&self, h: usize) -> bool {
        h < self.slots@.len() && self.slots@[h as int] is Some
    }

    /// An empty registry.
    pub fn new() -> (r: Registry)
        ensures
            r.slots@.len() == 0,
    {
        Registry { slots: Vec::new() }
    }

    /// Put an engine into a fresh slot and hand its handle out.  Handles
    /// are never reused: a disposed slot stays empty.
    pub fn open(&mut self, e: Engine) -> (h: usize)
        ensures
            final(self).slots@ == old(self).slots@.push(Some(e)),
            h == old(self).slots@.len(),
            final(self).live(h),
    {
        let h = self.slots.len();
        self.slots.push(Some(e));
        h
    }

    /// The engine a handle names.  Fails with
    /// [`TokError::InvalidHandle`] exactly when the handle is outside the
    /// registry or its slot was disposed.
    pub fn engine(&self, h: usize) -> (r: Result<&Engine, TokError>)
        ensures
            (r is Ok) == self.live(h),
            r is Ok ==> *r.unwrap() == self.slots@[h as int].unwrap(),
            r is Err ==> r->Err_0 == TokError::InvalidHandle,
    {
        if h < self.slots.len() {
            match &self.slots[h] {
                Some(e) => Ok(e),
                None => Err(TokError::InvalidHandle),
            }
        } else {
            Err(TokError::InvalidHandle)
        }
    }

    /// Dispose the engine a handle names; the slot stays empty, so a second
    /// disposal of the same handle fails with [`TokError::InvalidHandle`]
    /// instead of freeing twice.  No other slot changes.
    pub fn dispose(&mut self, h: usize) -> (r: Result<(), TokError>)
        ensures
            (r is Ok) == old(self).live(h),
            r is Ok ==> final(self).slots@ == old(self).slots@.update(h as int, None),
            r is Err ==> r->Err_0 == TokError::InvalidHandle && final(self).slots@ == old(
                self,
            ).slots@,
    {
        if h < self.slots.len() {
            let live = self.slots[h].is_some();
            if live {
                self.slots[h] = None;
                Ok(())
            } else {
                Err(TokError::InvalidHandle)
            }
        } else {
            Err(TokError::InvalidHandle)
        }
    }
}

} // verus!
