//! Whether the daemon is ready.

use vstd::prelude::*;

verus! {

/// The readiness of the daemon.
#[derive(Debug)]
pub struct HealthState {
    pub ready: bool,
}

/// The state in which the readiness was recorded.
pub open spec fn recorded(state: HealthState, ready: bool) -> HealthState {
    HealthState { ready }
}

/// The state after records made one behind the other.
pub open spec fn after_records(state: HealthState, records: Seq<bool>) -> HealthState
    decreases records.len(),
{
    if records.len() == 0 {
        state
    } else {
        recorded(after_records(state, records.drop_last()), records.last())
    }
}

impl HealthState {
    /// At first the daemon is not ready.
    pub fn new() -> (res: HealthState)
        ensures
            !res.ready,
    {
        HealthState { ready: false }
    }

    /// Record the readiness; tell whether it changed, and so is to be logged.
    pub fn set_ready(&mut self, ready: bool) -> (changed: bool)
        ensures
            *final(self) == recorded(*old(self), ready),
            changed == (old(self).ready != ready),
    {
        let previous: bool = self.ready;
        self.ready = ready;
        previous != ready
    }

    /// Whether the daemon is ready.
    pub fn is_ready(&self) -> (res: bool)
        ensures
            res == self.ready,
    {
        self.ready
    }
}

/// The readiness is the one that was recorded last, and the one at first if there was
/// no record; to record the same again changes nothing.
pub proof fn lemma_last_record_counts(state: HealthState, records: Seq<bool>, ready: bool)
    ensures
        after_records(state, records).ready == (if records.len() == 0 {
            state.ready
        } else {
            records.last()
        }),
        recorded(recorded(state, ready), ready) == recorded(state, ready),
{
}

} // verus!
