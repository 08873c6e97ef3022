//! The resource dropper: a typed deferred-release queue. Foreign handles
//! tied to the source archive carry a non-trivial teardown cost and
//! destruction-order requirements relative to their parent handles, so a
//! handle is queued on the hot path and released later, in submission (FIFO)
//! order. Dependencies are always submitted before their dependents, so FIFO
//! draining never releases a handle before the handles it depends on were
//! queued.

use vstd::prelude::*;

verus! {

/// The closed set of releasable foreign resource kinds, each identified by
/// the index of the source record it belongs to.
#[derive(Clone, Copy, PartialEq, Eq, Structural, Debug)]
pub enum Droppable {
    Blob(usize),
    Entry(usize),
    Item(usize),
}

/// The deferred-release queue: handles pending release in submission order,
/// and the handles already released, in release order.
pub struct DropQueue {
    pub pending: Vec<Droppable>,
    pub released: Vec<Droppable>,
}

impl DropQueue {
    pub fn new() -> (q: DropQueue)
        ensures
            q.pending@.len() == 0,
            q.released@.len() == 0,
    {
        DropQueue { pending: Vec::new(), released: Vec::new() }
    }

    /// Queues a handle for later release. Amortized O(1); never releases
    /// anything itself.
    pub fn submit(&mut self, h: Droppable)
        ensures
            final(self).pending@ == old(self).pending@.push(h),
            final(self).released@ == old(self).released@,
    {
        self.pending.push(h);
    }

    /// Releases every pending handle, in submission order: the release
    /// schedule extends by exactly the pending handles, first submitted
    /// first released.
    pub fn drain(&mut self)
        ensures
            final(self).pending@.len() == 0,
            final(self).released@ == old(self).released@ + old(self).pending@,
    {
        let mut rest: Vec<Droppable> = Vec::new();
        std::mem::swap(&mut rest, &mut self.pending);
        self.released.append(&mut rest);
    }
}

} // verus!
