//! Signals: read/write cells that report their reads and writes to a
//! [`Runtime`].

use vstd::prelude::*;
use crate::runtime::{Runtime, SignalId};

verus! {

/// A reactive cell. Reading it through [`Signal::get`] makes the innermost
/// running effect depend on it; writing it schedules every dependent.
pub struct Signal<T> {
    id: SignalId,
    value: T,
}

/// Allocates a signal holding `value`. Never fails.
pub fn create_signal<T>(rt: &mut Runtime, value: T) -> (r: Signal<T>)
    requires
        old(rt)@.wf(),
        old(rt)@.signal_count < usize::MAX,
    ensures
        r.spec_id().spec_index() == old(rt)@.signal_count,
        r.value() == value,
        forall|e: usize| !final(rt)@.is_dependent(e, r.spec_id().spec_index()),
        final(rt)@ == old(rt)@.with_signal(),
{
    let id = rt.allocate_signal();
    Signal { id, value }
}

impl<T> Signal<T> {
    /// The identity of this signal in its runtime.
    pub closed spec fn spec_id(&self) -> SignalId {
        self.id
    }

    /// The current value.
    pub closed spec fn value(&self) -> T {
        self.value
    }

    pub fn id(&self) -> (r: SignalId)
        ensures
            r == self.spec_id(),
    {
        self.id
    }

    /// A read that the innermost running effect, if any, now depends on.
    pub fn get<'a>(&'a self, rt: &mut Runtime) -> (r: &'a T)
        requires
            old(rt)@.wf(),
            self.spec_id().spec_index() < old(rt)@.signal_count,
        ensures
            *r == self.value(),
            final(rt)@ == old(rt)@.after_read(self.spec_id().spec_index()),
            final(rt)@.wf(),
    {
        rt.record_read(self.id);
        &self.value
    }

    /// A read that creates no dependency.
    pub fn get_untracked(&self) -> (r: &T)
        ensures
            *r == self.value(),
    {
        &self.value
    }

    /// Replaces the value and schedules every current dependent, whether or
    /// not the new value equals the old one.
    pub fn set(&mut self, rt: &mut Runtime, value: T)
        requires
            old(rt)@.wf(),
        ensures
            final(self).value() == value,
            final(self).spec_id() == old(self).spec_id(),
            final(rt)@ == old(rt)@.notified(old(self).spec_id().spec_index()),
            final(rt)@.wf(),
    {
        self.value = value;
        rt.notify(self.id);
    }

    /// Schedules every current dependent and hands out the value for
    /// mutation in place.
    pub fn update<'a>(&'a mut self, rt: &mut Runtime) -> (r: &'a mut T)
        requires
            old(rt)@.wf(),
        ensures
            *r == old(self).value(),
            final(self).value() == *final(r),
            final(self).spec_id() == old(self).spec_id(),
            final(rt)@ == old(rt)@.notified(old(self).spec_id().spec_index()),
            final(rt)@.wf(),
    {
        rt.notify(self.id);
        &mut self.value
    }
}

} // verus!
