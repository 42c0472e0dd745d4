use vstd::prelude::*;

verus! {

/// Identifies one hardware queue: the family it belongs to and the queue's
/// index inside that family.
#[derive(Clone, Copy, Debug, PartialEq, Eq, Structural)]
pub struct QueueId {
    pub family: usize,
    pub index: usize,
}

/// Per-queue epoch counters.
///
/// `next` is the epoch that the next unit of submitted work will carry; it
/// starts at 1 and moves up by exactly one per submission.  `completed` is
/// the newest epoch confirmed finished through a signaled fence; it starts at
/// 0 (nothing finished) and only ever moves forward.
#[derive(Clone, Copy, Debug)]
pub struct QueueCounters {
    pub next: u64,
    pub completed: u64,
}

impl QueueCounters {
    /// Only already-assigned epochs (strictly below `next`) can complete.
    pub open spec fn wf(self) -> bool {
        self.completed < self.next
    }

    /// Epoch monotonicity: neither counter of `post` is behind `pre`.
    pub open spec fn monotone(pre: QueueCounters, post: QueueCounters) -> bool {
        pre.next <= post.next && pre.completed <= post.completed
    }

    pub fn new() -> (c: QueueCounters)
        ensures
            c.wf(),
            c.next == 1,
            c.completed == 0,
    {
        QueueCounters { next: 1, completed: 0 }
    }

    /// Assign the epoch for one discrete submission.  The caller's work is
    /// tagged with the returned epoch; `next` moves up by one.
    pub fn submit(&mut self) -> (epoch: u64)
        requires
            old(self).wf(),
            old(self).next < u64::MAX,
        ensures
            final(self).wf(),
            Self::monotone(*old(self), *final(self)),
            epoch == old(self).next,
            final(self).next == old(self).next + 1,
            final(self).completed == old(self).completed,
    {
        let epoch = self.next;
        self.next = self.next + 1;
        epoch
    }

    /// Fold one confirmed completion signal into the counters: `completed`
    /// becomes the larger of its old value and `epoch`.  Only an epoch that
    /// was actually assigned (strictly below `next`) may be confirmed.
    pub fn advance(&mut self, epoch: u64)
        requires
            old(self).wf(),
            epoch < old(self).next,
        ensures
            final(self).wf(),
            Self::monotone(*old(self), *final(self)),
            final(self).next == old(self).next,
            final(self).completed == if epoch > old(self).completed {
                epoch
            } else {
                old(self).completed
            },
    {
        if epoch > self.completed {
            self.completed = epoch;
        }
    }
}

/// A snapshot of one epoch counter for every queue, indexed by queue family
/// and then by queue index inside the family.
#[derive(Debug)]
pub struct Epochs {
    pub values: Vec<Vec<u64>>,
}

impl Epochs {
    /// The snapshot holds an entry for queue `q`.
    pub open spec fn covers(self, q: QueueId) -> bool {
        q.family < self.values@.len() && q.index < self.values@[q.family as int]@.len()
    }

    /// The snapshot entry for queue `q`.
    pub open spec fn of(self, q: QueueId) -> u64 {
        self.values@[q.family as int]@[q.index as int]
    }

    /// The snapshot confirms that epoch `e` on queue `q` has finished.  A
    /// queue the snapshot does not cover confirms nothing.
    pub open spec fn clears(self, q: QueueId, e: u64) -> bool {
        self.covers(q) && self.of(q) >= e
    }

    /// Runtime check for `clears`.
    pub fn check_clears(&self, q: QueueId, e: u64) -> (r: bool)
        ensures
            r == self.clears(q, e),
    {
        if q.family < self.values.len() {
            let row = &self.values[q.family];
            if q.index < row.len() {
                row[q.index] >= e
            } else {
                false
            }
        } else {
            false
        }
    }
}

} // verus!
