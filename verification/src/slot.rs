//! The slot that holds the one backend handle between operations.
//!
//! An operation checks the handle out, works on it, and checks it back in,
//! whether the work succeeded or not. While the handle is out the slot is
//! empty, so no second operation can reach it.

use vstd::prelude::*;

verus! {

/// A slot for one handle: the handle is in it, or it is out with one operation.
#[derive(Debug)]
pub struct Slot<T> {
    pub handle: Option<T>,
}

impl<T> Slot<T> {
    /// The handle is in the slot.
    pub open spec fn checked_in(&self) -> bool {
        self.handle is Some
    }

    /// A slot with the handle checked in.
    pub fn new(handle: T) -> (s: Slot<T>)
        ensures
            s.handle == Some(handle),
    {
        Slot { handle: Some(handle) }
    }

    /// Whether the handle is in the slot.
    #[verifier::when_used_as_spec(checked_in)]
    pub fn is_checked_in(&self) -> (r: bool)
        ensures
            r == self.checked_in(),
    {
        self.handle.is_some()
    }

    /// Takes the handle out; the slot is empty afterwards.
    pub fn check_out(&mut self) -> (handle: T)
        requires
            old(self).checked_in(),
        ensures
            old(self).handle == Some(handle),
            final(self).handle is None,
    {
        let taken = self.handle.take();
        taken.unwrap()
    }

    /// Puts a handle in, and hands back what the slot held before.
    pub fn check_in(&mut self, handle: T) -> (previous: Option<T>)
        ensures
            final(self).handle == Some(handle),
            previous == old(self).handle,
    {
        let previous = self.handle.take();
        self.handle = Some(handle);
        previous
    }

    /// Runs one operation on the handle: checks it out, lets `work` have it,
    /// and checks in the handle that `work` gives back.
    pub fn with_handle<R, F: FnOnce(T) -> (R, T)>(&mut self, work: F) -> (result: R)
        requires
            old(self).checked_in(),
            work.requires((old(self).handle->Some_0,)),
        ensures
            final(self).checked_in(),
            work.ensures((old(self).handle->Some_0,), (result, final(self).handle->Some_0)),
    {
        let handle = self.check_out();
        let (result, handle) = work(handle);
        self.check_in(handle);
        result
    }
}

} // verus!
