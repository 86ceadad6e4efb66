use vstd::prelude::*;

use crate::types::{clone_snapshot, snapshot_eq, snapshot_matches, Service};

verus! {

// ---------------------------------------------------------------------------
// Poll-cycle decision. The loop that drives discovery and probing on an
// interval lives with the caller; this module fixes, for one completed
// cycle, what happens to the shared cache, the broadcast, and the retained
// comparison baseline.
// ---------------------------------------------------------------------------

/// The poll loop's retained baseline: the last snapshot that was published
/// (initially empty).
pub struct PollState {
    pub baseline: Vec<Service>,
}

/// What one completed poll cycle dictates: the value the shared cache must
/// take, and the snapshot to publish to subscribers, if any.
pub struct CycleOutcome {
    pub cache: Vec<Service>,
    pub publish: Option<Vec<Service>>,
}

impl PollState {
    pub fn new() -> (r: PollState)
        ensures
            r.baseline@ == Seq::<Service>::empty(),
    {
        PollState { baseline: Vec::new() }
    }

    /// Decide one poll cycle from the freshly scanned snapshot. The cache is
    /// replaced with the new snapshot whether or not it changed; the
    /// snapshot is published, and retained as the new baseline, exactly
    /// when it differs from the previous baseline by full value-and-order
    /// equality. An unchanged snapshot publishes nothing and leaves the
    /// baseline alone.
    pub fn observe(&mut self, scanned: Vec<Service>) -> (r: CycleOutcome)
        ensures
            r.cache@ == scanned@,
            !snapshot_matches(scanned@, old(self).baseline@) ==> (match r.publish {
                Some(p) => p@ == scanned@,
                None => false,
            }) && final(self).baseline@ == scanned@,
            snapshot_matches(scanned@, old(self).baseline@) ==> r.publish is None && *final(self)
                == *old(self),
    {
        if !snapshot_eq(&scanned, &self.baseline) {
            let copy = clone_snapshot(&scanned);
            self.baseline = clone_snapshot(&scanned);
            CycleOutcome { cache: scanned, publish: Some(copy) }
        } else {
            CycleOutcome { cache: scanned, publish: None }
        }
    }
}

} // verus!
