//! Triggers: signals without a value, for "something happened".

use vstd::prelude::*;
use crate::runtime::{Runtime, SignalId};

verus! {

/// A dependency-only cell: effects can depend on it and be rerun by it, but
/// it carries no payload.
#[derive(Clone, Copy, Debug, PartialEq, Eq, Structural)]
pub struct Trigger {
    signal: SignalId,
}

impl Trigger {
    /// The identity of this trigger's signal.
    pub closed spec fn spec_id(&self) -> SignalId {
        self.signal
    }

    pub fn id(&self) -> (r: SignalId)
        ensures
            r == self.spec_id(),
    {
        self.signal
    }

    /// Reports that something happened: every current dependent is
    /// scheduled, each time.
    pub fn notify(&self, rt: &mut Runtime)
        requires
            old(rt)@.wf(),
        ensures
            final(rt)@ == old(rt)@.notified(self.spec_id().spec_index()),
            final(rt)@.wf(),
    {
        rt.notify(self.signal);
    }

    /// Makes the innermost running effect, if any, depend on this trigger.
    pub fn track(&self, rt: &mut Runtime)
        requires
            old(rt)@.wf(),
            self.spec_id().spec_index() < old(rt)@.signal_count,
        ensures
            final(rt)@ == old(rt)@.after_read(self.spec_id().spec_index()),
            final(rt)@.wf(),
    {
        rt.record_read(self.signal);
    }
}

/// Allocates a trigger. Never fails.
pub fn create_trigger(rt: &mut Runtime) -> (r: Trigger)
    requires
        old(rt)@.wf(),
        old(rt)@.signal_count < usize::MAX,
    ensures
        r.spec_id().spec_index() == old(rt)@.signal_count,
        forall|e: usize| !final(rt)@.is_dependent(e, r.spec_id().spec_index()),
        final(rt)@ == old(rt)@.with_signal(),
{
    Trigger { signal: rt.allocate_signal() }
}

} // verus!
