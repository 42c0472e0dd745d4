use vstd::prelude::*;

use crate::error::ResourceError;
use crate::fence::{Fence, FenceState, WaitFor};
use crate::heap::{HeapConfig, Heaps, MemoryUsage};
use crate::queue::{Epochs, QueueCounters, QueueId};
use crate::resource::{
    destroy_one, BufferId, Filter, Format, ImageId, ImageKind, ImageViewId, ResourceKind,
    ResourceState, Resources, SamplerId, Tiling, WrapMode,
};
use crate::upload::FamilyUploads;

verus! {

/// A fence's wait outcome counts: the fence is armed, and (under the "any"
/// policy) its individually re-queried status confirms it signaled.  Under
/// the "all" policy a true combined result is license to take every armed
/// member.
pub open spec fn taken(fences: Seq<Fence>, statuses: Seq<bool>, policy: WaitFor, i: int) -> bool {
    &&& fences[i].state is Armed
    &&& (policy is All || statuses[i])
}

/// The queue (family, index) and epoch a fence is bound to.
pub open spec fn pair_of(f: Fence) -> (usize, usize, u64) {
    match f.state {
        FenceState::Armed { queue, epoch } => (queue.family, queue.index, epoch),
        _ => (0, 0, 0),
    }
}

/// The confirmations gathered from the first `k` fences, in order.
pub open spec fn taken_seq_upto(
    fences: Seq<Fence>,
    statuses: Seq<bool>,
    policy: WaitFor,
    k: int,
) -> Seq<(usize, usize, u64)>
    decreases k,
{
    if k <= 0 {
        Seq::empty()
    } else {
        let prefix = taken_seq_upto(fences, statuses, policy, k - 1);
        if taken(fences, statuses, policy, k - 1) {
            prefix.push(pair_of(fences[k - 1]))
        } else {
            prefix
        }
    }
}

/// Fold one confirmation into a counter matrix: `completed` of the named
/// queue becomes the larger of its old value and the confirmed epoch.
pub open spec fn advance_one(
    m: Seq<Seq<QueueCounters>>,
    p: (usize, usize, u64),
) -> Seq<Seq<QueueCounters>> {
    if p.0 < m.len() && p.1 < m[p.0 as int].len() {
        let c = m[p.0 as int][p.1 as int];
        let c2 = QueueCounters {
            next: c.next,
            completed: if p.2 > c.completed {
                p.2
            } else {
                c.completed
            },
        };
        m.update(p.0 as int, m[p.0 as int].update(p.1 as int, c2))
    } else {
        m
    }
}

/// Fold a batch of confirmations into a counter matrix, in order.
pub open spec fn advance_pairs(
    m: Seq<Seq<QueueCounters>>,
    pairs: Seq<(usize, usize, u64)>,
) -> Seq<Seq<QueueCounters>>
    decreases pairs.len(),
{
    if pairs.len() == 0 {
        m
    } else {
        advance_one(advance_pairs(m, pairs.drop_last()), pairs.last())
    }
}

/// The largest epoch a batch confirms for queue (`f`, `i`); 0 when the batch
/// confirms none (0 is below every assignable epoch).
pub open spec fn max_taken(pairs: Seq<(usize, usize, u64)>, f: int, i: int) -> u64
    decreases pairs.len(),
{
    if pairs.len() == 0 {
        0u64
    } else {
        let m = max_taken(pairs.drop_last(), f, i);
        if pairs.last().0 == f && pairs.last().1 == i && pairs.last().2 > m {
            pairs.last().2
        } else {
            m
        }
    }
}

/// The counter matrix of a family list.
pub open spec fn queues_view(fams: Seq<Family>) -> Seq<Seq<QueueCounters>> {
    fams.map(|f: int, fam: Family| fam.queues@)
}

/// What folding a batch of confirmations does to a counter matrix: `next`
/// counters and the shape never change, and each queue's `completed` counter
/// becomes the larger of its old value and the largest epoch the batch
/// confirms for it.  In particular both counters are monotone, and a queue
/// the batch does not name is untouched.
pub proof fn lemma_advance_pairs(m: Seq<Seq<QueueCounters>>, pairs: Seq<(usize, usize, u64)>)
    ensures
        advance_pairs(m, pairs).len() == m.len(),
        forall|f: int|
            0 <= f < m.len() ==> (#[trigger] advance_pairs(m, pairs)[f]).len() == m[f].len(),
        forall|f: int, i: int|
            0 <= f < m.len() && 0 <= i < m[f].len() ==> (#[trigger] advance_pairs(m, pairs)[f][i])
                == (QueueCounters {
                next: m[f][i].next,
                completed: if max_taken(pairs, f, i) > m[f][i].completed {
                    max_taken(pairs, f, i)
                } else {
                    m[f][i].completed
                },
            }),
    decreases pairs.len(),
{
    if pairs.len() > 0 {
        lemma_advance_pairs(m, pairs.drop_last());
    }
}

/// `c` confirms exactly the epochs that `s`'s completed counters have
/// reached.
pub open spec fn snapshot_matches(s: Factory, c: Epochs) -> bool {
    forall|q: QueueId, e: u64|
        #[trigger] c.clears(q, e) <==> (s.valid_queue(q) && s.completed_of(q) >= e)
}

/// Some flushed record of one of the first `bound` families names catalogue
/// entry `i` as its staging buffer, and `c` confirms its epoch.
pub open spec fn staging_retired_upto(s: Factory, c: Epochs, i: int, bound: int) -> bool {
    exists|f: int, k: int|
        0 <= f < bound && f < s.families@.len() && 0 <= k
            < s.families@[f].uploads.flushed@.len() && (
        #[trigger] s.families@[f].uploads.flushed@[k]).staging.0 == i && c.clears(
            s.families@[f].uploads.flushed@[k].queue,
            s.families@[f].uploads.flushed@[k].epoch,
        )
}

/// Some flushed record of any family names catalogue entry `i` as its
/// staging buffer, and `c` confirms its epoch.
pub open spec fn staging_retired(s: Factory, c: Epochs, i: int) -> bool {
    staging_retired_upto(s, c, i, s.families@.len() as int)
}

/// A confirmation names an existing queue and an epoch that context has
/// actually assigned.
pub open spec fn pair_valid(s: Factory, p: (usize, usize, u64)) -> bool {
    &&& p.0 < s.families@.len()
    &&& p.1 < s.families@[p.0 as int].queues@.len()
    &&& p.2 < s.families@[p.0 as int].queues@[p.1 as int].next
}

/// One queue family: the epoch counters of its queues and its staging
/// state.  Families do not share command state, so uploads are kept per
/// family.
#[derive(Debug)]
pub struct Family {
    pub queues: Vec<QueueCounters>,
    pub uploads: FamilyUploads,
}

impl Family {
    pub open spec fn wf(self, n_items: int) -> bool {
        &&& forall|i: int| 0 <= i < self.queues@.len() ==> (#[trigger] self.queues@[i]).wf()
        &&& self.uploads.ids_valid(n_items)
    }
}

/// The device-resource lifecycle context: memory heaps, the resource
/// catalogue, and per-family queue counters and staging state.  One such
/// handle is created at startup and passed to all entry points.
#[derive(Debug)]
pub struct Factory {
    pub heaps: Heaps,
    pub resources: Resources,
    pub families: Vec<Family>,
}

impl Factory {
    pub open spec fn wf(self) -> bool {
        &&& self.heaps.wf()
        &&& self.resources.wf()
        &&& self.resources.consistent_with(self.heaps)
        &&& forall|f: int|
            0 <= f < self.families@.len() ==> (#[trigger] self.families@[f]).wf(
                self.resources.items@.len() as int,
            )
    }

    /// `q` names an existing queue.
    pub open spec fn valid_queue(self, q: QueueId) -> bool {
        q.family < self.families@.len() && q.index < self.families@[
            q.family as int
        ].queues@.len()
    }

    /// The epoch the next submission on `q` will carry.
    pub open spec fn next_of(self, q: QueueId) -> u64 {
        self.families@[q.family as int].queues@[q.index as int].next
    }

    /// The newest epoch of `q` confirmed finished.
    pub open spec fn completed_of(self, q: QueueId) -> u64 {
        self.families@[q.family as int].queues@[q.index as int].completed
    }

    /// Epoch counters of `post` are nowhere behind those of `pre`, over an
    /// unchanged queue layout.
    pub open spec fn epochs_monotone(pre: Factory, post: Factory) -> bool {
        &&& post.families@.len() == pre.families@.len()
        &&& forall|f: int|
            0 <= f < pre.families@.len() ==> (#[trigger] post.families@[f]).queues@.len()
                == pre.families@[f].queues@.len()
        &&& forall|f: int, i: int|
            0 <= f < pre.families@.len() && 0 <= i < pre.families@[f].queues@.len()
                ==> QueueCounters::monotone(
                pre.families@[f].queues@[i],
                #[trigger] post.families@[f].queues@[i],
            )
    }

    /// A fence is meaningful for this context: an armed fence is bound to an
    /// existing queue and to an epoch that was actually assigned.
    pub open spec fn fence_wf(self, fence: Fence) -> bool {
        match fence.state {
            FenceState::Armed { queue, epoch } => self.valid_queue(queue) && epoch < self.next_of(
                queue,
            ),
            _ => true,
        }
    }

    /// Set up the context: one heap per configuration entry and one family
    /// per entry of `family_queue_counts` with that many queues, all
    /// counters fresh.
    pub fn init(heap_configs: &Vec<HeapConfig>, family_queue_counts: &Vec<usize>) -> (r: Factory)
        ensures
            r.wf(),
            r.heaps.heaps@.len() == heap_configs@.len(),
            forall|h: int|
                0 <= h < heap_configs@.len() ==> {
                    &&& (#[trigger] r.heaps.heaps@[h]).total == heap_configs@[h].size
                    &&& r.heaps.heaps@[h].flags == heap_configs@[h].flags
                    &&& r.heaps.heaps@[h].used == 0
                    &&& r.heaps.heaps@[h].blocks@.len() == 0
                },
            r.resources.items@.len() == 0,
            r.families@.len() == family_queue_counts@.len(),
            forall|f: int|
                0 <= f < family_queue_counts@.len() ==> {
                    &&& (#[trigger] r.families@[f]).queues@.len() == family_queue_counts@[f]
                    &&& r.families@[f].uploads.pending@.len() == 0
                    &&& r.families@[f].uploads.flushed@.len() == 0
                },
            forall|f: int, i: int|
                0 <= f < family_queue_counts@.len() && 0 <= i < family_queue_counts@[f] ==> (
                #[trigger] r.families@[f].queues@[i]).next == 1 && r.families@[f].queues@[i].completed == 0,
    {
        let heaps = Heaps::new(heap_configs);
        let resources = Resources::new();
        let mut families: Vec<Family> = Vec::new();
        let nf = family_queue_counts.len();
        let mut f: usize = 0;
        while f < nf
            invariant
                f <= nf,
                nf == family_queue_counts@.len(),
                families@.len() == f,
                forall|k: int|
                    0 <= k < f ==> {
                        &&& (#[trigger] families@[k]).queues@.len() == family_queue_counts@[k]
                        &&& families@[k].uploads.pending@.len() == 0
                        &&& families@[k].uploads.flushed@.len() == 0
                        &&& families@[k].wf(0)
                    },
                forall|k: int, i: int|
                    0 <= k < f && 0 <= i < family_queue_counts@[k] ==> (
                    #[trigger] families@[k].queues@[i]).next == 1 && families@[k].queues@[i].completed == 0,
            decreases nf - f,
        {
            let nq = family_queue_counts[f];
            let mut queues: Vec<QueueCounters> = Vec::new();
            let mut i: usize = 0;
            while i < nq
                invariant
                    i <= nq,
                    queues@.len() == i,
                    forall|k: int|
                        0 <= k < i ==> (#[trigger] queues@[k]).next == 1 && queues@[k].completed
                            == 0,
                decreases nq - i,
            {
                queues.push(QueueCounters::new());
                i = i + 1;
            }
            families.push(Family { queues, uploads: FamilyUploads::new() });
            f = f + 1;
        }
        Factory { heaps, resources, families }
    }

    /// Snapshot of the `next` counters, indexed by family and queue.
    pub fn next_epochs(&self) -> (r: Epochs)
        ensures
            r.values@.len() == self.families@.len(),
            forall|f: int|
                0 <= f < self.families@.len() ==> (#[trigger] r.values@[f])@.len()
                    == self.families@[f].queues@.len(),
            forall|f: int, i: int|
                0 <= f < self.families@.len() && 0 <= i < self.families@[f].queues@.len() ==> (
                #[trigger] r.values@[f]@[i]) == self.families@[f].queues@[i].next,
    {
        let mut values: Vec<Vec<u64>> = Vec::new();
        let nf = self.families.len();
        let mut f: usize = 0;
        while f < nf
            invariant
                f <= nf,
                nf == self.families@.len(),
                values@.len() == f,
                forall|k: int|
                    0 <= k < f ==> (#[trigger] values@[k])@.len()
                        == self.families@[k].queues@.len(),
                forall|k: int, i: int|
                    0 <= k < f && 0 <= i < self.families@[k].queues@.len() ==> (
                    #[trigger] values@[k]@[i]) == self.families@[k].queues@[i].next,
            decreases nf - f,
        {
            let fam = &self.families[f];
            let nq = fam.queues.len();
            let mut row: Vec<u64> = Vec::new();
            let mut i: usize = 0;
            while i < nq
                invariant
                    i <= nq,
                    nq == fam.queues@.len(),
                    row@.len() == i,
                    forall|k: int| 0 <= k < i ==> (#[trigger] row@[k]) == fam.queues@[k].next,
                decreases nq - i,
            {
                row.push(fam.queues[i].next);
                i = i + 1;
            }
            values.push(row);
            f = f + 1;
        }
        Epochs { values }
    }

    /// Snapshot of the `completed` counters, indexed by family and queue.
    /// The snapshot confirms epoch `e` on queue `q` exactly when `q` exists
    /// and its completed counter has reached `e`.
    pub fn complete_epochs(&self) -> (r: Epochs)
        ensures
            r.values@.len() == self.families@.len(),
            forall|f: int|
                0 <= f < self.families@.len() ==> (#[trigger] r.values@[f])@.len()
                    == self.families@[f].queues@.len(),
            forall|f: int, i: int|
                0 <= f < self.families@.len() && 0 <= i < self.families@[f].queues@.len() ==> (
                #[trigger] r.values@[f]@[i]) == self.families@[f].queues@[i].completed,
            forall|q: QueueId, e: u64|
                #[trigger] r.clears(q, e) <==> (self.valid_queue(q) && self.completed_of(q) >= e),
    {
        let mut values: Vec<Vec<u64>> = Vec::new();
        let nf = self.families.len();
        let mut f: usize = 0;
        while f < nf
            invariant
                f <= nf,
                nf == self.families@.len(),
                values@.len() == f,
                forall|k: int|
                    0 <= k < f ==> (#[trigger] values@[k])@.len()
                        == self.families@[k].queues@.len(),
                forall|k: int, i: int|
                    0 <= k < f && 0 <= i < self.families@[k].queues@.len() ==> (
                    #[trigger] values@[k]@[i]) == self.families@[k].queues@[i].completed,
            decreases nf - f,
        {
            let fam = &self.families[f];
            let nq = fam.queues.len();
            let mut row: Vec<u64> = Vec::new();
            let mut i: usize = 0;
            while i < nq
                invariant
                    i <= nq,
                    nq == fam.queues@.len(),
                    row@.len() == i,
                    forall|k: int| 0 <= k < i ==> (#[trigger] row@[k]) == fam.queues@[k].completed,
                decreases nq - i,
            {
                row.push(fam.queues[i].completed);
                i = i + 1;
            }
            values.push(row);
            f = f + 1;
        }
        Epochs { values }
    }

    /// Assign the epoch for one discrete submission on `q`: the `next`
    /// counter moves up by exactly one and the assigned epoch is returned.
    /// Everything else is untouched.
    pub fn submit(&mut self, q: QueueId) -> (epoch: u64)
        requires
            old(self).wf(),
            old(self).valid_queue(q),
            old(self).next_of(q) < u64::MAX,
        ensures
            final(self).wf(),
            Self::epochs_monotone(*old(self), *final(self)),
            epoch == old(self).next_of(q),
            final(self).next_of(q) == old(self).next_of(q) + 1,
            final(self).completed_of(q) == old(self).completed_of(q),
            forall|q2: QueueId|
                old(self).valid_queue(q2) && q2 != q ==> #[trigger] final(self).next_of(q2) == old(self).next_of(q2) && final(self).completed_of(q2) == old(self).completed_of(q2),
            final(self).heaps == old(self).heaps,
            final(self).resources == old(self).resources,
            final(self).families@.len() == old(self).families@.len(),
            forall|f: int|
                0 <= f < old(self).families@.len() ==> (#[trigger] final(self).families@[f]).uploads
                    == old(self).families@[f].uploads && final(self).families@[f].queues@.len()
                    == old(self).families@[f].queues@.len(),
    {
        let ghost oldfams = self.families@;
        let mut fam = self.families.remove(q.family);
        let mut c = fam.queues[q.index];
        let epoch = c.submit();
        fam.queues.set(q.index, c);
        let ghost newfam = fam;
        self.families.insert(q.family, fam);
        proof {
            assert(self.families@ =~= oldfams.update(q.family as int, newfam));
        }
        epoch
    }

    /// Bind a reset fence to the epoch on `q` that its signal will confirm.
    /// Only an already-assigned epoch may be bound.
    pub fn bind_fence(&self, fence: &mut Fence, q: QueueId, epoch: u64)
        requires
            old(fence).state == FenceState::Reset,
            self.valid_queue(q),
            epoch < self.next_of(q),
        ensures
            final(fence).state == (FenceState::Armed { queue: q, epoch }),
            self.fence_wf(*final(fence)),
    {
        fence.state = FenceState::Armed { queue: q, epoch };
    }

    /// Create a fence, optionally in the signaled state.
    pub fn create_fence(&self, signaled: bool) -> (f: Fence)
        ensures
            f.state == if signaled {
                FenceState::Signaled
            } else {
                FenceState::Reset
            },
            self.fence_wf(f),
    {
        Fence::new(signaled)
    }

    /// Make a signaled fence reusable.
    pub fn reset_fence(&self, fence: &mut Fence)
        requires
            old(fence).state == FenceState::Signaled,
        ensures
            final(fence).state == FenceState::Reset,
    {
        fence.reset();
    }

    /// Reset a batch of fences.  As with a single reset, every member must
    /// already be signaled.
    pub fn reset_fences(&self, fences: &mut Vec<Fence>)
        requires
            forall|i: int|
                0 <= i < old(fences)@.len() ==> (#[trigger] old(fences)@[i]).state
                    == FenceState::Signaled,
        ensures
            final(fences)@.len() == old(fences)@.len(),
            forall|i: int|
                0 <= i < old(fences)@.len() ==> (#[trigger] final(fences)@[i]).state
                    == FenceState::Reset,
    {
        let n = fences.len();
        let mut i: usize = 0;
        while i < n
            invariant
                i <= n,
                n == fences@.len(),
                forall|k: int|
                    i <= k < n ==> (#[trigger] fences@[k]).state == FenceState::Signaled,
                forall|k: int| 0 <= k < i ==> (#[trigger] fences@[k]).state == FenceState::Reset,
            decreases n - i,
        {
            fences.set(i, Fence { state: FenceState::Reset });
            i = i + 1;
        }
    }

    /// Drop a fence.  The handle is consumed; nothing else changes.
    pub fn destroy_fence(&self, fence: Fence)
    {
        let _ = fence;
    }

    /// Fold the outcome of one device-side fence wait into the ledger.
    /// `signaled` is what the device reported within the caller's timeout.
    /// A timed-out wait (`signaled == false`) changes nothing and returns
    /// `false`; on success the fence's bound epoch, if it was armed, is
    /// confirmed: `completed` of its queue becomes the larger of its old
    /// value and that epoch, and the fence is signaled.
    pub fn wait_for_fence(&mut self, fence: &mut Fence, signaled: bool) -> (r: bool)
        requires
            old(self).wf(),
            old(self).fence_wf(*old(fence)),
        ensures
            final(self).wf(),
            Self::epochs_monotone(*old(self), *final(self)),
            r == signaled,
            final(self).heaps == old(self).heaps,
            final(self).resources == old(self).resources,
            forall|f: int|
                0 <= f < old(self).families@.len() ==> (#[trigger] final(self).families@[f]).uploads
                    == old(self).families@[f].uploads,
            forall|q2: QueueId|
                old(self).valid_queue(q2) ==> #[trigger] final(self).next_of(q2) == old(self).next_of(q2),
            !signaled ==> *final(self) == *old(self) && *final(fence) == *old(fence),
            signaled ==> match old(fence).state {
                FenceState::Armed { queue, epoch } => {
                    &&& final(fence).state == FenceState::Signaled
                    &&& final(self).completed_of(queue) == if epoch > old(self).completed_of(queue) {
                        epoch
                    } else {
                        old(self).completed_of(queue)
                    }
                    &&& forall|q2: QueueId|
                        old(self).valid_queue(q2) && q2 != queue ==> #[trigger] final(self).completed_of(q2) == old(self).completed_of(q2)
                },
                _ => *final(self) == *old(self) && *final(fence) == *old(fence),
            },
    {
        if !signaled {
            return false;
        }
        let st = fence.state;
        match st {
            FenceState::Armed { queue, epoch } => {
                let ghost oldfams = self.families@;
                let mut fam = self.families.remove(queue.family);
                let mut c = fam.queues[queue.index];
                c.advance(epoch);
                fam.queues.set(queue.index, c);
                let ghost newfam = fam;
                self.families.insert(queue.family, fam);
                fence.state = FenceState::Signaled;
                proof {
                    assert(self.families@ =~= oldfams.update(queue.family as int, newfam));
                }
                true
            },
            _ => true,
        }
    }

    /// All families stay well-formed when the catalogue only grows.
    proof fn lemma_families_grow(self, n_old: int, n_new: int)
        requires
            forall|f: int|
                0 <= f < self.families@.len() ==> (#[trigger] self.families@[f]).wf(n_old),
            n_old <= n_new,
        ensures
            forall|f: int|
                0 <= f < self.families@.len() ==> (#[trigger] self.families@[f]).wf(n_new),
    {
        assert forall|f: int| 0 <= f < self.families@.len() implies (
        #[trigger] self.families@[f]).wf(n_new) by {
            assert(self.families@[f].wf(n_old));
        }
    }

    /// Epoch monotonicity at rest: in a well-formed context a queue's
    /// completed counter never overtakes its next counter.  Together with
    /// the `epochs_monotone` clauses of every mutating operation this pins
    /// the ledger's ordering: `next` never decreases, `completed` never
    /// decreases, and `completed` stays at or below `next`.
    pub proof fn lemma_completed_le_next(s: Factory, q: QueueId)
        requires
            s.wf(),
            s.valid_queue(q),
        ensures
            s.completed_of(q) <= s.next_of(q),
    {
        assert(s.families@[q.family as int].wf(s.resources.items@.len() as int));
        assert(s.families@[q.family as int].queues@[q.index as int].wf());
    }

    /// The queue families of the context.
    pub fn families(&self) -> (r: &Vec<Family>)
        ensures
            r == &self.families,
    {
        &self.families
    }

    /// One queue family.
    pub fn family(&self, id: usize) -> (r: &Family)
        requires
            id < self.families@.len(),
        ensures
            r == &self.families@[id as int],
    {
        &self.families[id]
    }

    /// Create a buffer that is managed with the specified properties.  See
    /// `Resources::create_buffer` for the exact success condition and heap
    /// effect; queue counters and staged uploads are untouched.
    pub fn create_buffer(&mut self, align: u64, size: u64, usage: MemoryUsage) -> (r: Result<
        BufferId,
        ResourceError,
    >)
        requires
            old(self).wf(),
            size as int <= usize::MAX as int,
        ensures
            final(self).wf(),
            final(self).families == old(self).families,
            final(self).heaps.heaps@.len() == old(self).heaps.heaps@.len(),
            r is Ok <==> (1 <= size && 1 <= align && crate::heap::first_eligible_from(
                old(self).heaps.heaps@,
                usage,
                size as int,
                align as int,
                0,
            ) is Some),
            match r {
                Ok(id) => {
                    &&& id.0 == old(self).resources.items@.len()
                    &&& final(self).resources.items@.len() == old(self).resources.items@.len() + 1
                    &&& forall|i: int|
                        0 <= i < old(self).resources.items@.len() ==> final(self).resources.items@[i] == old(self).resources.items@[i]
                    &&& {
                        let nr = final(self).resources.items@[id.0 as int];
                        let a = nr.alloc->0;
                        &&& nr.kind == (ResourceKind::Buffer { usage })
                        &&& nr.state == ResourceState::Live
                        &&& nr.last_use@.len() == 0
                        &&& nr.alloc is Some
                        &&& a.size == size
                        &&& (a.offset as int) % (align as int) == 0
                        &&& a.heap < old(self).heaps.heaps@.len()
                        &&& crate::heap::heap_matches(
                            old(self).heaps.heaps@[a.heap as int].flags,
                            usage,
                        )
                        &&& a.host_visible == old(self).heaps.heaps@[a.heap as int].flags.host_visible
                        &&& crate::heap::heap_alloc_rel(
                            old(self).heaps.heaps@[a.heap as int],
                            final(self).heaps.heaps@[a.heap as int],
                            a.offset,
                            size,
                            usage,
                        )
                        &&& forall|h: int|
                            0 <= h < old(self).heaps.heaps@.len() && h != a.heap ==> final(self).heaps.heaps@[h] == old(self).heaps.heaps@[h]
                        &&& (a.host_visible ==> nr.data is Some && forall|k: int|
                            0 <= k < size ==> nr.data->0@[k] == 0u8)
                    }
                },
                Err(e) => {
                    &&& final(self).resources == old(self).resources
                    &&& final(self).heaps == old(self).heaps
                    &&& (e == ResourceError::InvalidUsage <==> (size == 0 || align == 0))
                    &&& (e == ResourceError::OutOfMemory <==> (1 <= size && 1 <= align
                        && crate::heap::first_eligible_from(
                        old(self).heaps.heaps@,
                        usage,
                        size as int,
                        align as int,
                        0,
                    ) is None))
                },
            },
    {
        let ghost n_old = self.resources.items@.len() as int;
        let r = self.resources.create_buffer(&mut self.heaps, align, size, usage);
        proof {
            self.lemma_families_grow(n_old, self.resources.items@.len() as int);
        }
        r
    }

    /// Create an image that is managed with the specified properties.  The
    /// model sizes it deterministically from the description; see
    /// `Resources::create_image`.
    pub fn create_image(
        &mut self,
        align: u64,
        kind: ImageKind,
        levels: u32,
        format: Format,
        tiling: Tiling,
        usage: MemoryUsage,
    ) -> (r: Result<ImageId, ResourceError>)
        requires
            old(self).wf(),
            crate::resource::spec_image_size(kind, format, levels) <= u64::MAX,
        ensures
            final(self).wf(),
            final(self).families == old(self).families,
            final(self).heaps.heaps@.len() == old(self).heaps.heaps@.len(),
            r is Ok <==> (1 <= align && 1 <= crate::resource::spec_image_size(kind, format, levels)
                && crate::heap::first_eligible_from(
                old(self).heaps.heaps@,
                usage,
                crate::resource::spec_image_size(kind, format, levels),
                align as int,
                0,
            ) is Some),
            match r {
                Ok(id) => {
                    &&& id.0 == old(self).resources.items@.len()
                    &&& final(self).resources.items@.len() == old(self).resources.items@.len() + 1
                    &&& forall|i: int|
                        0 <= i < old(self).resources.items@.len() ==> final(self).resources.items@[i] == old(self).resources.items@[i]
                    &&& {
                        let nr = final(self).resources.items@[id.0 as int];
                        let a = nr.alloc->0;
                        &&& nr.kind == (ResourceKind::Image {
                            info: crate::resource::ImageInfo { kind, levels, format, tiling },
                        })
                        &&& nr.state == ResourceState::Live
                        &&& nr.last_use@.len() == 0
                        &&& nr.data is None
                        &&& nr.alloc is Some
                        &&& a.size == crate::resource::spec_image_size(kind, format, levels)
                        &&& (a.offset as int) % (align as int) == 0
                        &&& a.heap < old(self).heaps.heaps@.len()
                        &&& crate::heap::heap_matches(
                            old(self).heaps.heaps@[a.heap as int].flags,
                            usage,
                        )
                        &&& crate::heap::heap_alloc_rel(
                            old(self).heaps.heaps@[a.heap as int],
                            final(self).heaps.heaps@[a.heap as int],
                            a.offset,
                            a.size,
                            usage,
                        )
                        &&& forall|h: int|
                            0 <= h < old(self).heaps.heaps@.len() && h != a.heap ==> final(self).heaps.heaps@[h] == old(self).heaps.heaps@[h]
                    }
                },
                Err(e) => {
                    &&& final(self).resources == old(self).resources
                    &&& final(self).heaps == old(self).heaps
                    &&& (e == ResourceError::InvalidUsage <==> (align == 0
                        || crate::resource::spec_image_size(kind, format, levels) == 0))
                    &&& (e == ResourceError::OutOfMemory <==> (1 <= align
                        && 1 <= crate::resource::spec_image_size(kind, format, levels)
                        && crate::heap::first_eligible_from(
                        old(self).heaps.heaps@,
                        usage,
                        crate::resource::spec_image_size(kind, format, levels),
                        align as int,
                        0,
                    ) is None))
                },
            },
    {
        let ghost n_old = self.resources.items@.len() as int;
        let r = self.resources.create_image(&mut self.heaps, align, kind, levels, format, tiling, usage);
        proof {
            self.lemma_families_grow(n_old, self.resources.items@.len() as int);
        }
        r
    }

    /// Create a view of an existing live image; see
    /// `Resources::create_image_view`.
    pub fn create_image_view(
        &mut self,
        image: ImageId,
        view_kind: crate::resource::ViewKind,
        format: Format,
        swizzle: crate::resource::Swizzle,
        range: crate::resource::SubresourceRange,
    ) -> (r: Result<ImageViewId, ResourceError>)
        requires
            old(self).wf(),
            image.0 < old(self).resources.items@.len(),
            old(self).resources.items@[image.0 as int].kind is Image,
            old(self).resources.items@[image.0 as int].state == ResourceState::Live,
        ensures
            final(self).wf(),
            final(self).families == old(self).families,
            final(self).heaps == old(self).heaps,
            r is Ok <==> crate::resource::view_valid(
                old(self).resources.items@[image.0 as int].kind->Image_info,
                range,
            ),
            match r {
                Ok(id) => {
                    &&& id.0 == old(self).resources.items@.len()
                    &&& final(self).resources.items@.len() == old(self).resources.items@.len() + 1
                    &&& forall|i: int|
                        0 <= i < old(self).resources.items@.len() ==> final(self).resources.items@[i] == old(self).resources.items@[i]
                    &&& final(self).resources.items@[id.0 as int].kind == (ResourceKind::ImageView {
                        image: image.0,
                        view_kind,
                        format,
                        swizzle,
                        range,
                    })
                    &&& final(self).resources.items@[id.0 as int].state == ResourceState::Live
                    &&& final(self).resources.items@[id.0 as int].last_use@.len() == 0
                },
                Err(e) => {
                    &&& e == ResourceError::InvalidUsage
                    &&& final(self).resources == old(self).resources
                },
            },
    {
        let ghost n_old = self.resources.items@.len() as int;
        let r = self.resources.create_image_view(image, view_kind, format, swizzle, range);
        proof {
            self.lemma_families_grow(n_old, self.resources.items@.len() as int);
        }
        r
    }

    /// Create a sampler.
    pub fn create_sampler(&mut self, filter: Filter, wrap: WrapMode) -> (r: Result<
        SamplerId,
        ResourceError,
    >)
        requires
            old(self).wf(),
        ensures
            final(self).wf(),
            final(self).families == old(self).families,
            final(self).heaps == old(self).heaps,
            r is Ok,
            match r {
                Ok(id) => {
                    &&& id.0 == old(self).resources.items@.len()
                    &&& final(self).resources.items@.len() == old(self).resources.items@.len() + 1
                    &&& forall|i: int|
                        0 <= i < old(self).resources.items@.len() ==> final(self).resources.items@[i] == old(self).resources.items@[i]
                    &&& final(self).resources.items@[id.0 as int].kind == (ResourceKind::Sampler {
                        filter,
                        wrap,
                    })
                    &&& final(self).resources.items@[id.0 as int].state == ResourceState::Live
                },
                Err(_) => false,
            },
    {
        let ghost n_old = self.resources.items@.len() as int;
        let r = self.resources.create_sampler(filter, wrap);
        proof {
            self.lemma_families_grow(n_old, self.resources.items@.len() as int);
        }
        r
    }

    /// Record that newly submitted work on `q`, tagged `epoch`, references
    /// the buffer; see `Resources::record_use`.
    pub fn record_buffer_use(&mut self, id: BufferId, q: QueueId, epoch: u64)
        requires
            old(self).wf(),
            id.0 < old(self).resources.items@.len(),
            old(self).resources.items@[id.0 as int].state == ResourceState::Live,
        ensures
            final(self).wf(),
            final(self).families == old(self).families,
            final(self).heaps == old(self).heaps,
            final(self).resources.items@.len() == old(self).resources.items@.len(),
            forall|i: int|
                0 <= i < old(self).resources.items@.len() && i != id.0 ==> final(self).resources.items@[i] == old(self).resources.items@[i],
            ({
                let ro = old(self).resources.items@[id.0 as int];
                let rn = final(self).resources.items@[id.0 as int];
                &&& rn.kind == ro.kind
                &&& rn.alloc == ro.alloc
                &&& rn.data == ro.data
                &&& rn.state == ro.state
                &&& crate::resource::lu_has(rn.last_use@, q)
                &&& crate::resource::lu_epoch(rn.last_use@, q) == if crate::resource::lu_has(
                    ro.last_use@,
                    q,
                ) && crate::resource::lu_epoch(ro.last_use@, q) > epoch {
                    crate::resource::lu_epoch(ro.last_use@, q)
                } else {
                    epoch
                }
                &&& forall|q2: QueueId|
                    q2 != q ==> #[trigger] crate::resource::lu_has(rn.last_use@, q2)
                        == crate::resource::lu_has(ro.last_use@, q2)
                &&& forall|q2: QueueId|
                    q2 != q && crate::resource::lu_has(ro.last_use@, q2)
                        ==> #[trigger] crate::resource::lu_epoch(rn.last_use@, q2)
                        == crate::resource::lu_epoch(ro.last_use@, q2)
            }),
    {
        let ghost n_old = self.resources.items@.len() as int;
        self.resources.record_use(id.0, q, epoch);
        proof {
            self.lemma_families_grow(n_old, self.resources.items@.len() as int);
        }
    }

    /// Request destruction of a buffer: freed at once if it was never
    /// submitted, else queued for the next proven cleanup pass.
    pub fn destroy_buffer(&mut self, id: BufferId)
        requires
            old(self).wf(),
            id.0 < old(self).resources.items@.len(),
            old(self).resources.items@[id.0 as int].state == ResourceState::Live,
        ensures
            final(self).wf(),
            final(self).families == old(self).families,
            final(self).resources.items@.len() == old(self).resources.items@.len(),
            forall|i: int|
                0 <= i < old(self).resources.items@.len() && i != id.0 ==> final(self).resources.items@[i] == old(self).resources.items@[i],
            final(self).resources.items@[id.0 as int] == destroy_one(
                old(self).resources.items@[id.0 as int],
            ),
            final(self).heaps.heaps@.len() == old(self).heaps.heaps@.len(),
            ({
                let ro = old(self).resources.items@[id.0 as int];
                if ro.last_use@.len() == 0 && ro.alloc is Some {
                    &&& crate::heap::heap_free_rel(
                        old(self).heaps.heaps@[ro.alloc->0.heap as int],
                        final(self).heaps.heaps@[ro.alloc->0.heap as int],
                        ro.alloc->0.offset,
                        ro.alloc->0.size,
                    )
                    &&& forall|h: int|
                        0 <= h < old(self).heaps.heaps@.len() && h != ro.alloc->0.heap ==> final(self).heaps.heaps@[h] == old(self).heaps.heaps@[h]
                } else {
                    final(self).heaps == old(self).heaps
                }
            }),
    {
        let ghost n_old = self.resources.items@.len() as int;
        self.resources.destroy(&mut self.heaps, id.0);
        proof {
            self.lemma_families_grow(n_old, self.resources.items@.len() as int);
        }
    }

    /// Request destruction of an image; same deferral rules as for buffers.
    pub fn destroy_image(&mut self, id: ImageId)
        requires
            old(self).wf(),
            id.0 < old(self).resources.items@.len(),
            old(self).resources.items@[id.0 as int].state == ResourceState::Live,
        ensures
            final(self).wf(),
            final(self).families == old(self).families,
            final(self).resources.items@.len() == old(self).resources.items@.len(),
            forall|i: int|
                0 <= i < old(self).resources.items@.len() && i != id.0 ==> final(self).resources.items@[i] == old(self).resources.items@[i],
            final(self).resources.items@[id.0 as int] == destroy_one(
                old(self).resources.items@[id.0 as int],
            ),
            final(self).heaps.heaps@.len() == old(self).heaps.heaps@.len(),
    {
        let ghost n_old = self.resources.items@.len() as int;
        self.resources.destroy(&mut self.heaps, id.0);
        proof {
            self.lemma_families_grow(n_old, self.resources.items@.len() as int);
        }
    }

    /// Request destruction of an image view.  Views carry no memory, but
    /// they follow the same deferred lifecycle.
    pub fn destroy_image_view(&mut self, id: ImageViewId)
        requires
            old(self).wf(),
            id.0 < old(self).resources.items@.len(),
            old(self).resources.items@[id.0 as int].kind is ImageView,
            old(self).resources.items@[id.0 as int].state == ResourceState::Live,
        ensures
            final(self).wf(),
            final(self).families == old(self).families,
            final(self).resources.items@.len() == old(self).resources.items@.len(),
            forall|i: int|
                0 <= i < old(self).resources.items@.len() && i != id.0 ==> final(self).resources.items@[i] == old(self).resources.items@[i],
            final(self).resources.items@[id.0 as int] == destroy_one(
                old(self).resources.items@[id.0 as int],
            ),
            final(self).heaps == old(self).heaps,
    {
        let ghost n_old = self.resources.items@.len() as int;
        self.resources.destroy(&mut self.heaps, id.0);
        proof {
            self.lemma_families_grow(n_old, self.resources.items@.len() as int);
        }
    }

    /// Request destruction of a sampler.
    pub fn destroy_sampler(&mut self, id: SamplerId)
        requires
            old(self).wf(),
            id.0 < old(self).resources.items@.len(),
            old(self).resources.items@[id.0 as int].kind is Sampler,
            old(self).resources.items@[id.0 as int].state == ResourceState::Live,
        ensures
            final(self).wf(),
            final(self).families == old(self).families,
            final(self).resources.items@.len() == old(self).resources.items@.len(),
            forall|i: int|
                0 <= i < old(self).resources.items@.len() && i != id.0 ==> final(self).resources.items@[i] == old(self).resources.items@[i],
            final(self).resources.items@[id.0 as int] == destroy_one(
                old(self).resources.items@[id.0 as int],
            ),
            final(self).heaps == old(self).heaps,
    {
        let ghost n_old = self.resources.items@.len() as int;
        self.resources.destroy(&mut self.heaps, id.0);
        proof {
            self.lemma_families_grow(n_old, self.resources.items@.len() as int);
        }
    }

    /// Update a buffer bound to host-visible memory: write `content` at
    /// `offset` through its mapping.  See `Resources::write_buffer_bytes`.
    pub fn upload_visible_buffer(&mut self, buffer: BufferId, offset: u64, content: &Vec<u8>) -> (r:
        Result<(), ResourceError>)
        requires
            old(self).wf(),
            buffer.0 < old(self).resources.items@.len(),
            old(self).resources.items@[buffer.0 as int].kind is Buffer,
            old(self).resources.items@[buffer.0 as int].state == ResourceState::Live,
        ensures
            final(self).wf(),
            final(self).families == old(self).families,
            final(self).heaps == old(self).heaps,
            final(self).resources.items@.len() == old(self).resources.items@.len(),
            forall|i: int|
                0 <= i < old(self).resources.items@.len() && i != buffer.0 ==> final(self).resources.items@[i] == old(self).resources.items@[i],
            r is Ok <==> (old(self).resources.items@[buffer.0 as int].data is Some && offset
                + content@.len() <= old(self).resources.items@[buffer.0 as int].alloc->0.size),
            ({
                let ro = old(self).resources.items@[buffer.0 as int];
                let rn = final(self).resources.items@[buffer.0 as int];
                &&& rn.kind == ro.kind
                &&& rn.alloc == ro.alloc
                &&& rn.state == ro.state
                &&& rn.last_use == ro.last_use
                &&& match r {
                    Ok(_) => {
                        &&& rn.data is Some
                        &&& rn.data->0@.len() == ro.data->0@.len()
                        &&& forall|k: int|
                            0 <= k < ro.data->0@.len() ==> rn.data->0@[k] == if offset <= k
                                < offset + content@.len() {
                                content@[k - offset]
                            } else {
                                ro.data->0@[k]
                            }
                    },
                    Err(e) => {
                        &&& e == ResourceError::InvalidUsage
                        &&& final(self).resources == old(self).resources
                    },
                }
            }),
    {
        let ghost n_old = self.resources.items@.len() as int;
        let r = self.resources.write_buffer_bytes(buffer.0, offset, content);
        proof {
            self.lemma_families_grow(n_old, self.resources.items@.len() as int);
        }
        r
    }

    /// Stage `content` for upload into `buffer` at `offset`.  A transient
    /// host-visible staging buffer is created, filled with the content, and
    /// tagged with the target queue's next epoch, as is the destination; the
    /// device-side copy is queued on the target queue's family, to be drained
    /// by the next flush.  `last` and `next` describe the buffer's device
    /// state around the copy and are passed through to the recorded copy.
    #[verifier::rlimit(100)]
    pub fn upload_buffer(
        &mut self,
        buffer: BufferId,
        offset: u64,
        content: &Vec<u8>,
        last: Option<crate::upload::BufferState>,
        next: crate::upload::BufferState,
    ) -> (r: Result<(), ResourceError>)
        requires
            old(self).wf(),
            buffer.0 < old(self).resources.items@.len(),
            old(self).resources.items@[buffer.0 as int].kind is Buffer,
            old(self).resources.items@[buffer.0 as int].state == ResourceState::Live,
            old(self).valid_queue(next.queue),
        ensures
            final(self).wf(),
            final(self).families@.len() == old(self).families@.len(),
            forall|f: int|
                0 <= f < old(self).families@.len() ==> (#[trigger] final(self).families@[f]).queues
                    == old(self).families@[f].queues,
            final(self).heaps.heaps@.len() == old(self).heaps.heaps@.len(),
            r is Ok <==> (1 <= content@.len() && crate::heap::first_eligible_from(
                old(self).heaps.heaps@,
                MemoryUsage::Upload,
                content@.len() as int,
                256,
                0,
            ) is Some),
            match r {
                Ok(_) => ({
                    let q = next.queue;
                    let e = old(self).next_of(q);
                    let sid = old(self).resources.items@.len();
                    let rec = crate::upload::StagingRecord {
                        staging: BufferId(sid as usize),
                        queue: q,
                        epoch: e,
                        op: crate::upload::CopyOp::Buffer {
                            staging: BufferId(sid as usize),
                            dest: buffer,
                            offset,
                            size: content@.len() as u64,
                            last,
                            next,
                        },
                    };
                    &&& final(self).resources.items@.len() == sid + 1
                    &&& forall|i: int|
                        0 <= i < sid && i != buffer.0 ==> final(self).resources.items@[i] == old(self).resources.items@[i]
                    &&& {
                        let s = final(self).resources.items@[sid as int];
                        let a = s.alloc->0;
                        &&& s.kind == (ResourceKind::Buffer { usage: MemoryUsage::Upload })
                        &&& s.state == ResourceState::Live
                        &&& s.data is Some
                        &&& s.data->0@.len() == content@.len()
                        &&& forall|k: int| 0 <= k < content@.len() ==> s.data->0@[k] == content@[k]
                        &&& crate::resource::lu_has(s.last_use@, q)
                        &&& crate::resource::lu_epoch(s.last_use@, q) == e
                        &&& s.alloc is Some
                        &&& a.size == content@.len()
                        &&& a.heap < old(self).heaps.heaps@.len()
                        &&& a.host_visible
                        &&& crate::heap::heap_alloc_rel(
                            old(self).heaps.heaps@[a.heap as int],
                            final(self).heaps.heaps@[a.heap as int],
                            a.offset,
                            a.size,
                            MemoryUsage::Upload,
                        )
                        &&& forall|h: int|
                            0 <= h < old(self).heaps.heaps@.len() && h != a.heap ==> final(self).heaps.heaps@[h] == old(self).heaps.heaps@[h]
                    }
                    &&& {
                        let d0 = old(self).resources.items@[buffer.0 as int];
                        let d1 = final(self).resources.items@[buffer.0 as int];
                        &&& d1.kind == d0.kind
                        &&& d1.alloc == d0.alloc
                        &&& d1.data == d0.data
                        &&& d1.state == d0.state
                        &&& crate::resource::lu_has(d1.last_use@, q)
                        &&& crate::resource::lu_epoch(d1.last_use@, q) == if crate::resource::lu_has(
                            d0.last_use@,
                            q,
                        ) && crate::resource::lu_epoch(d0.last_use@, q) > e {
                            crate::resource::lu_epoch(d0.last_use@, q)
                        } else {
                            e
                        }
                        &&& forall|q2: QueueId|
                            q2 != q ==> #[trigger] crate::resource::lu_has(d1.last_use@, q2)
                                == crate::resource::lu_has(d0.last_use@, q2)
                    }
                    &&& final(self).families@[q.family as int].uploads.pending@ == old(self).families@[q.family as int].uploads.pending@.push(rec)
                    &&& final(self).families@[q.family as int].uploads.flushed == old(self).families@[q.family as int].uploads.flushed
                    &&& forall|f: int|
                        0 <= f < old(self).families@.len() && f != q.family ==> (#[trigger] final(self).families@[f]).uploads == old(self).families@[f].uploads
                }),
                Err(e) => {
                    &&& final(self).resources == old(self).resources
                    &&& final(self).heaps == old(self).heaps
                    &&& final(self).families == old(self).families
                    &&& (e == ResourceError::InvalidUsage <==> content@.len() == 0)
                    &&& (e == ResourceError::OutOfMemory <==> (1 <= content@.len()
                        && crate::heap::first_eligible_from(
                        old(self).heaps.heaps@,
                        MemoryUsage::Upload,
                        content@.len() as int,
                        256,
                        0,
                    ) is None))
                },
            },
    {
        let size = content.len() as u64;
        let q = next.queue;
        let epoch = self.families[q.family].queues[q.index].next;
        let staging = match self.create_buffer(256, size, MemoryUsage::Upload) {
            Ok(s) => s,
            Err(e) => {
                return Err(e);
            },
        };
        let w = self.upload_visible_buffer(staging, 0, content);
        proof {
            assert(w is Ok);
        }
        self.record_buffer_use(staging, q, epoch);
        self.record_buffer_use(buffer, q, epoch);
        let rec = crate::upload::StagingRecord {
            staging,
            queue: q,
            epoch,
            op: crate::upload::CopyOp::Buffer {
                staging,
                dest: buffer,
                offset,
                size,
                last,
                next,
            },
        };
        let ghost oldfams = self.families@;
        let mut fam = self.families.remove(q.family);
        fam.uploads.push(rec);
        let ghost newfam = fam;
        self.families.insert(q.family, fam);
        proof {
            assert(self.families@ =~= oldfams.update(q.family as int, newfam));
            assert forall|f: int| 0 <= f < self.families@.len() implies (
            #[trigger] self.families@[f]).wf(self.resources.items@.len() as int) by {
                assert(oldfams[f].wf(self.resources.items@.len() as int));
            }
        }
        Ok(())
    }

    /// Stage image `content` for upload into a region of `image`.  The
    /// upload is validated against the destination's description (see
    /// `upload_image_valid`); a mismatched region is a caller error and is
    /// refused as `InvalidUsage`.  On success a staging buffer holding the
    /// content is queued exactly as for a buffer upload.
    #[verifier::rlimit(100)]
    pub fn upload_image(
        &mut self,
        image: ImageId,
        data_width: u32,
        data_height: u32,
        layers: crate::upload::SubresourceLayers,
        image_offset: crate::upload::ImageOffset,
        extent: crate::upload::ImageExtent,
        content: &Vec<u8>,
        last: crate::upload::ImageStateOrLayout,
        next: crate::upload::ImageState,
    ) -> (r: Result<(), ResourceError>)
        requires
            old(self).wf(),
            image.0 < old(self).resources.items@.len(),
            old(self).resources.items@[image.0 as int].kind is Image,
            old(self).resources.items@[image.0 as int].state == ResourceState::Live,
            old(self).valid_queue(next.queue),
        ensures
            final(self).wf(),
            final(self).families@.len() == old(self).families@.len(),
            forall|f: int|
                0 <= f < old(self).families@.len() ==> (#[trigger] final(self).families@[f]).queues
                    == old(self).families@[f].queues,
            final(self).heaps.heaps@.len() == old(self).heaps.heaps@.len(),
            ({
                let info = old(self).resources.items@[image.0 as int].kind->Image_info;
                &&& (r is Ok <==> (crate::upload::upload_image_valid(
                    info,
                    layers,
                    extent,
                    content@.len() as int,
                ) && crate::heap::first_eligible_from(
                    old(self).heaps.heaps@,
                    MemoryUsage::Upload,
                    content@.len() as int,
                    256,
                    0,
                ) is Some))
                &&& match r {
                    Ok(_) => ({
                        let q = next.queue;
                        let e = old(self).next_of(q);
                        let sid = old(self).resources.items@.len();
                        let rec = crate::upload::StagingRecord {
                            staging: BufferId(sid as usize),
                            queue: q,
                            epoch: e,
                            op: crate::upload::CopyOp::Image {
                                staging: BufferId(sid as usize),
                                dest: image,
                                data_width,
                                data_height,
                                layers,
                                image_offset,
                                extent,
                                last,
                                next,
                            },
                        };
                        &&& final(self).resources.items@.len() == sid + 1
                        &&& forall|i: int|
                            0 <= i < sid && i != image.0 ==> final(self).resources.items@[i] == old(self).resources.items@[i]
                        &&& {
                            let s = final(self).resources.items@[sid as int];
                            &&& s.kind == (ResourceKind::Buffer { usage: MemoryUsage::Upload })
                            &&& s.state == ResourceState::Live
                            &&& s.data is Some
                            &&& s.data->0@.len() == content@.len()
                            &&& forall|k: int|
                                0 <= k < content@.len() ==> s.data->0@[k] == content@[k]
                            &&& crate::resource::lu_has(s.last_use@, q)
                            &&& crate::resource::lu_epoch(s.last_use@, q) == e
                        }
                        &&& {
                            let d1 = final(self).resources.items@[image.0 as int];
                            &&& d1.kind == old(self).resources.items@[image.0 as int].kind
                            &&& d1.state == ResourceState::Live
                            &&& crate::resource::lu_has(d1.last_use@, q)
                        }
                        &&& final(self).families@[q.family as int].uploads.pending@ == old(self).families@[q.family as int].uploads.pending@.push(rec)
                        &&& forall|f: int|
                            0 <= f < old(self).families@.len() && f != q.family ==> (
                            #[trigger] final(self).families@[f]).uploads == old(self).families@[f].uploads
                    }),
                    Err(e) => {
                        &&& final(self).resources == old(self).resources
                        &&& final(self).heaps == old(self).heaps
                        &&& final(self).families == old(self).families
                        &&& (e == ResourceError::InvalidUsage <==> !crate::upload::upload_image_valid(
                            info,
                            layers,
                            extent,
                            content@.len() as int,
                        ))
                        &&& (e == ResourceError::OutOfMemory <==> (
                        crate::upload::upload_image_valid(
                            info,
                            layers,
                            extent,
                            content@.len() as int,
                        ) && crate::heap::first_eligible_from(
                            old(self).heaps.heaps@,
                            MemoryUsage::Upload,
                            content@.len() as int,
                            256,
                            0,
                        ) is None))
                    },
                }
            }),
    {
        let cl = content.len();
        let info = match self.resources.items[image.0].kind {
            ResourceKind::Image { info } => info,
            _ => {
                proof {
                    assert(false);
                }
                return Err(ResourceError::InvalidUsage);
            },
        };
        let region = match crate::upload::region_bytes(extent, info.format) {
            Some(m) => m,
            None => {
                return Err(ResourceError::InvalidUsage);
            },
        };
        if region != cl as u64 || layers.aspects != info.format.aspects || layers.layer_start
            > layers.layer_end || layers.layer_end > info.kind.num_layers() || layers.level
            > info.levels {
            return Err(ResourceError::InvalidUsage);
        }
        let q = next.queue;
        let epoch = self.families[q.family].queues[q.index].next;
        let staging = match self.create_buffer(256, region, MemoryUsage::Upload) {
            Ok(s) => s,
            Err(e) => {
                return Err(e);
            },
        };
        let w = self.upload_visible_buffer(staging, 0, content);
        proof {
            assert(w is Ok);
        }
        self.record_buffer_use(staging, q, epoch);
        self.record_image_use(image, q, epoch);
        let rec = crate::upload::StagingRecord {
            staging,
            queue: q,
            epoch,
            op: crate::upload::CopyOp::Image {
                staging,
                dest: image,
                data_width,
                data_height,
                layers,
                image_offset,
                extent,
                last,
                next,
            },
        };
        let ghost oldfams = self.families@;
        let mut fam = self.families.remove(q.family);
        fam.uploads.push(rec);
        let ghost newfam = fam;
        self.families.insert(q.family, fam);
        proof {
            assert(self.families@ =~= oldfams.update(q.family as int, newfam));
            assert forall|f: int| 0 <= f < self.families@.len() implies (
            #[trigger] self.families@[f]).wf(self.resources.items@.len() as int) by {
                assert(oldfams[f].wf(self.resources.items@.len() as int));
            }
        }
        Ok(())
    }

    /// Record that newly submitted work on `q`, tagged `epoch`, references
    /// the image.
    pub fn record_image_use(&mut self, id: ImageId, q: QueueId, epoch: u64)
        requires
            old(self).wf(),
            id.0 < old(self).resources.items@.len(),
            old(self).resources.items@[id.0 as int].state == ResourceState::Live,
        ensures
            final(self).wf(),
            final(self).families == old(self).families,
            final(self).heaps == old(self).heaps,
            final(self).resources.items@.len() == old(self).resources.items@.len(),
            forall|i: int|
                0 <= i < old(self).resources.items@.len() && i != id.0 ==> final(self).resources.items@[i] == old(self).resources.items@[i],
            ({
                let ro = old(self).resources.items@[id.0 as int];
                let rn = final(self).resources.items@[id.0 as int];
                &&& rn.kind == ro.kind
                &&& rn.alloc == ro.alloc
                &&& rn.data == ro.data
                &&& rn.state == ro.state
                &&& crate::resource::lu_has(rn.last_use@, q)
                &&& crate::resource::lu_epoch(rn.last_use@, q) == if crate::resource::lu_has(
                    ro.last_use@,
                    q,
                ) && crate::resource::lu_epoch(ro.last_use@, q) > epoch {
                    crate::resource::lu_epoch(ro.last_use@, q)
                } else {
                    epoch
                }
                &&& forall|q2: QueueId|
                    q2 != q ==> #[trigger] crate::resource::lu_has(rn.last_use@, q2)
                        == crate::resource::lu_has(ro.last_use@, q2)
            }),
    {
        let ghost n_old = self.resources.items@.len() as int;
        self.resources.record_use(id.0, q, epoch);
        proof {
            self.lemma_families_grow(n_old, self.resources.items@.len() as int);
        }
    }

    /// Fold the outcome of a combined device-side wait over a set of fences
    /// into the ledger.  `signaled` is the combined result the device
    /// reported within the caller's timeout; `statuses[i]` is fence `i`'s
    /// individually re-queried status (a successful "any" wait does not by
    /// itself say which members signaled, so each is re-checked rather than
    /// trusting the combined boolean).  A timed-out wait changes nothing and
    /// is not an error.  On success, every confirmed fence — under "any",
    /// each armed fence whose own status is true; under "all", every armed
    /// fence — has its epoch folded in individually, so partial completion
    /// information is never discarded.
    #[verifier::rlimit(100)]
    pub fn wait_for_fences(
        &mut self,
        fences: &mut Vec<Fence>,
        wait_for: WaitFor,
        signaled: bool,
        statuses: &Vec<bool>,
    ) -> (r: bool)
        requires
            old(self).wf(),
            statuses@.len() == old(fences)@.len(),
            forall|i: int|
                0 <= i < old(fences)@.len() ==> old(self).fence_wf(#[trigger] old(fences)@[i]),
        ensures
            final(self).wf(),
            Self::epochs_monotone(*old(self), *final(self)),
            r == signaled,
            final(self).heaps == old(self).heaps,
            final(self).resources == old(self).resources,
            final(self).families@.len() == old(self).families@.len(),
            forall|f: int|
                0 <= f < old(self).families@.len() ==> (#[trigger] final(self).families@[f]).uploads
                    == old(self).families@[f].uploads,
            forall|q2: QueueId|
                old(self).valid_queue(q2) ==> #[trigger] final(self).next_of(q2) == old(self).next_of(q2),
            !signaled ==> *final(self) == *old(self) && *final(fences) == *old(fences),
            signaled ==> {
                &&& final(fences)@.len() == old(fences)@.len()
                &&& forall|i: int|
                    0 <= i < old(fences)@.len() ==> #[trigger] final(fences)@[i] == if taken(
                        old(fences)@,
                        statuses@,
                        wait_for,
                        i,
                    ) {
                        Fence { state: FenceState::Signaled }
                    } else {
                        old(fences)@[i]
                    }
                &&& queues_view(final(self).families@) == advance_pairs(
                    queues_view(old(self).families@),
                    taken_seq_upto(
                        old(fences)@,
                        statuses@,
                        wait_for,
                        old(fences)@.len() as int,
                    ),
                )
                &&& forall|q2: QueueId|
                    old(self).valid_queue(q2) ==> #[trigger] final(self).completed_of(q2) == ({
                        let mt = max_taken(
                            taken_seq_upto(
                                old(fences)@,
                                statuses@,
                                wait_for,
                                old(fences)@.len() as int,
                            ),
                            q2.family as int,
                            q2.index as int,
                        );
                        if mt > old(self).completed_of(q2) {
                            mt
                        } else {
                            old(self).completed_of(q2)
                        }
                    })
            },
    {
        if !signaled {
            return false;
        }
        let ghost ofences = fences@;
        let ghost sts = statuses@;
        let n = fences.len();
        let mut batch = crate::svec::sv_new();
        let mut i: usize = 0;
        while i < n
            invariant
                *self == *old(self),
                i <= n,
                n == ofences.len(),
                sts == statuses@,
                sts.len() == n,
                fences@.len() == n,
                forall|k: int| i <= k < n ==> fences@[k] == ofences[k],
                forall|k: int|
                    0 <= k < i ==> #[trigger] fences@[k] == if taken(ofences, sts, wait_for, k) {
                        Fence { state: FenceState::Signaled }
                    } else {
                        ofences[k]
                    },
                crate::svec::sv_items(batch) == taken_seq_upto(ofences, sts, wait_for, i as int),
                crate::svec::sv_items(batch).len() <= i,
                forall|k: int|
                    0 <= k < n ==> old(self).fence_wf(#[trigger] ofences[k]),
                forall|m: int|
                    0 <= m < crate::svec::sv_items(batch).len() ==> pair_valid(
                        *old(self),
                        #[trigger] crate::svec::sv_items(batch)[m],
                    ),
            decreases n - i,
        {
            let take_it = match fences[i].state {
                FenceState::Armed { .. } => matches!(wait_for, WaitFor::All) || statuses[i],
                _ => false,
            };
            if take_it {
                match fences[i].state {
                    FenceState::Armed { queue, epoch } => {
                        crate::svec::sv_push(&mut batch, (queue.family, queue.index, epoch));
                        fences.set(i, Fence { state: FenceState::Signaled });
                    },
                    _ => {
                        proof {
                            assert(false);
                        }
                    },
                }
            }
            i = i + 1;
        }
        let ghost full = taken_seq_upto(ofences, sts, wait_for, n as int);
        let m = crate::svec::sv_len(&batch);
        let mut j: usize = 0;
        while j < m
            invariant
                j <= m,
                m == crate::svec::sv_items(batch).len(),
                crate::svec::sv_items(batch) == full,
                self.wf(),
                self.heaps == old(self).heaps,
                self.resources == old(self).resources,
                self.families@.len() == old(self).families@.len(),
                forall|f: int|
                    0 <= f < old(self).families@.len() ==> (#[trigger] self.families@[f]).uploads
                        == old(self).families@[f].uploads && self.families@[f].queues@.len() == old(self).families@[f].queues@.len(),
                forall|f: int, i2: int|
                    0 <= f < old(self).families@.len() && 0 <= i2 < old(self).families@[f].queues@.len() ==> (
                    #[trigger] self.families@[f].queues@[i2]).next == old(self).families@[f].queues@[i2].next,
                forall|k: int|
                    0 <= k < full.len() ==> pair_valid(*old(self), #[trigger] full[k]),
                queues_view(self.families@) == advance_pairs(
                    queues_view(old(self).families@),
                    full.take(j as int),
                ),
            decreases m - j,
        {
            let p = crate::svec::sv_get(&batch, j);
            let ghost prev = self.families@;
            let mut fam = self.families.remove(p.0);
            let mut c = fam.queues[p.1];
            c.advance(p.2);
            fam.queues.set(p.1, c);
            let ghost newfam = fam;
            self.families.insert(p.0, fam);
            proof {
                assert(self.families@ =~= prev.update(p.0 as int, newfam));
                assert(full.take(j + 1).drop_last() =~= full.take(j as int));
                assert(full.take(j + 1).last() == p);
                assert(queues_view(self.families@) =~~= advance_one(queues_view(prev), p));
                assert forall|f: int| 0 <= f < self.families@.len() implies (
                #[trigger] self.families@[f]).wf(self.resources.items@.len() as int) by {
                    assert(prev[f].wf(self.resources.items@.len() as int));
                }
            }
            j = j + 1;
        }
        proof {
            assert(full.take(m as int) =~= full);
            let qvo = queues_view(old(self).families@);
            let qvn = queues_view(self.families@);
            lemma_advance_pairs(qvo, full);
            assert(qvn == advance_pairs(qvo, full));
            assert forall|f: int, i2: int|
                0 <= f < old(self).families@.len() && 0 <= i2 < old(self).families@[f].queues@.len() implies (#[trigger] self.families@[f].queues@[i2])
                == (QueueCounters {
                next: old(self).families@[f].queues@[i2].next,
                completed: if max_taken(full, f, i2) > old(self).families@[f].queues@[i2].completed {
                    max_taken(full, f, i2)
                } else {
                    old(self).families@[f].queues@[i2].completed
                },
            }) by {
                assert(qvo[f] == old(self).families@[f].queues@);
                assert(qvn[f] == self.families@[f].queues@);
                assert(qvn[f][i2] == advance_pairs(qvo, full)[f][i2]);
            }
        }
        true
    }

    /// One deferred-reclamation pass, intended to run once per logical
    /// frame.  A completion snapshot `c` is taken from the ledger; then every
    /// flushed staging buffer whose epoch `c` confirms is retired, and every
    /// queued resource whose every last use `c` confirms is freed.  Nothing
    /// is freed whose last uses are not all confirmed (no premature free);
    /// every fully confirmed queued resource is freed (eventual
    /// reclamation); an entry not named by a confirmed staging record and
    /// not fully confirmed is left exactly as it was.  Epoch counters are
    /// untouched.
    #[verifier::rlimit(100)]
    pub fn cleanup(&mut self)
        requires
            old(self).wf(),
        ensures
            final(self).wf(),
            final(self).families@.len() == old(self).families@.len(),
            forall|f: int|
                0 <= f < old(self).families@.len() ==> (#[trigger] final(self).families@[f]).queues
                    == old(self).families@[f].queues && final(self).families@[f].uploads.pending
                    == old(self).families@[f].uploads.pending,
            final(self).resources.items@.len() == old(self).resources.items@.len(),
            final(self).heaps.heaps@.len() == old(self).heaps.heaps@.len(),
            exists|c: Epochs|
                {
                    &&& #[trigger] snapshot_matches(*old(self), c)
                    &&& forall|f: int|
                        0 <= f < old(self).families@.len() ==> (#[trigger] final(self).families@[f]).uploads.flushed@ == crate::upload::keep_uncleared(
                            old(self).families@[f].uploads.flushed@,
                            c,
                        )
                    &&& forall|i: int|
                        0 <= i < old(self).resources.items@.len() && (#[trigger] final(self).resources.items@[i]).state == ResourceState::Freed ==> old(self).resources.items@[i].state == ResourceState::Freed
                            || crate::resource::lu_all_cleared(
                            old(self).resources.items@[i].last_use@,
                            c,
                        )
                    &&& forall|i: int|
                        0 <= i < old(self).resources.items@.len() && (#[trigger] old(self).resources.items@[i]).state == ResourceState::PendingDestroy
                            && crate::resource::lu_all_cleared(
                            old(self).resources.items@[i].last_use@,
                            c,
                        ) ==> final(self).resources.items@[i].state == ResourceState::Freed
                            && final(self).resources.items@[i].alloc is None
                    &&& forall|i: int|
                        0 <= i < old(self).resources.items@.len() && (#[trigger] old(self).resources.items@[i]).state != ResourceState::Freed
                            && !crate::resource::lu_all_cleared(
                            old(self).resources.items@[i].last_use@,
                            c,
                        ) && !staging_retired(*old(self), c, i) ==> final(self).resources.items@[i]
                            == old(self).resources.items@[i]
                },
    {
        let complete = self.complete_epochs();
        let nf = self.families.len();
        let mut f: usize = 0;
        while f < nf
            invariant
                old(self).wf(),
                f <= nf,
                nf == old(self).families@.len(),
                self.heaps.wf(),
                self.resources.wf(),
                self.resources.consistent_with(self.heaps),
                self.families@.len() == nf,
                self.resources.items@.len() == old(self).resources.items@.len(),
                self.heaps.heaps@.len() == old(self).heaps.heaps@.len(),
                forall|g: int| f <= g < nf ==> self.families@[g] == old(self).families@[g],
                forall|g: int|
                    0 <= g < f ==> {
                        &&& (#[trigger] self.families@[g]).queues == old(self).families@[g].queues
                        &&& self.families@[g].uploads.pending == old(self).families@[g].uploads.pending
                        &&& self.families@[g].uploads.flushed@ == crate::upload::keep_uncleared(
                            old(self).families@[g].uploads.flushed@,
                            complete,
                        )
                        &&& self.families@[g].wf(self.resources.items@.len() as int)
                    },
                forall|i: int|
                    0 <= i < old(self).resources.items@.len() ==> (#[trigger] self.resources.items@[i])
                        == old(self).resources.items@[i] || (self.resources.items@[i]
                        == destroy_one(old(self).resources.items@[i]) && old(self).resources.items@[i].state == ResourceState::Live && staging_retired_upto(
                        *old(self),
                        complete,
                        i,
                        f as int,
                    )),
            decreases nf - f,
        {
            let ghost fampre = self.families@;
            let ghost respre = self.resources.items@;
            let mut fam = self.families.remove(f);
            proof {
                assert(old(self).families@[f as int].wf(old(self).resources.items@.len() as int));
            }
            fam.uploads.cleanup(&mut self.resources, &mut self.heaps, &complete);
            let ghost newfam = fam;
            self.families.insert(f, fam);
            proof {
                assert(self.families@ =~= fampre.update(f as int, newfam));
                crate::upload::lemma_keep_uncleared_subset(
                    old(self).families@[f as int].uploads.flushed@,
                    complete,
                );
                assert(newfam.wf(self.resources.items@.len() as int)) by {
                    assert(old(self).families@[f as int].wf(
                        old(self).resources.items@.len() as int,
                    ));
                    assert forall|k: int|
                        0 <= k < newfam.uploads.flushed@.len() implies (
                    #[trigger] newfam.uploads.flushed@[k]).staging.0
                        < self.resources.items@.len() by {
                        let oldf = old(self).families@[f as int].uploads.flushed@;
                        let m = choose|m: int|
                            0 <= m < oldf.len() && oldf[m] == newfam.uploads.flushed@[k];
                        assert(oldf[m].staging.0 < self.resources.items@.len());
                    }
                }
                assert forall|g: int| 0 <= g < f + 1 implies (#[trigger] self.families@[g]).wf(
                    self.resources.items@.len() as int,
                ) by {
                    if g < f {
                        assert(fampre[g].wf(self.resources.items@.len() as int));
                    }
                }
                assert forall|i: int|
                    0 <= i < old(self).resources.items@.len() implies (
                #[trigger] self.resources.items@[i]) == old(self).resources.items@[i] || (
                self.resources.items@[i] == destroy_one(old(self).resources.items@[i]) && old(self).resources.items@[i].state == ResourceState::Live && staging_retired_upto(
                    *old(self),
                    complete,
                    i,
                    f + 1,
                )) by {
                    if self.resources.items@[i] != respre[i] {
                        // this family's pass destroyed entry i: it was live,
                        // so it was still the original entry
                        let oldf = old(self).families@[f as int].uploads.flushed@;
                        let k = choose|k: int|
                            0 <= k < oldf.len() && (#[trigger] oldf[k]).staging.0 == i
                                && complete.clears(oldf[k].queue, oldf[k].epoch);
                        assert(respre[i] == old(self).resources.items@[i]);
                        assert(staging_retired_upto(*old(self), complete, i, f + 1));
                    } else {
                        if self.resources.items@[i] != old(self).resources.items@[i] {
                            assert(staging_retired_upto(*old(self), complete, i, f as int));
                            let (g0, k0): (int, int) = choose|g0: int, k0: int|
                                0 <= g0 < f && g0 < old(self).families@.len() && 0 <= k0 < old(self).families@[g0].uploads.flushed@.len() && (#[trigger] old(self).families@[g0].uploads.flushed@[k0]).staging.0 == i
                                    && complete.clears(
                                    old(self).families@[g0].uploads.flushed@[k0].queue,
                                    old(self).families@[g0].uploads.flushed@[k0].epoch,
                                );
                            assert(staging_retired_upto(*old(self), complete, i, f + 1));
                        }
                    }
                }
            }
            f = f + 1;
        }
        let ghost mid = self.resources.items@;
        self.resources.cleanup(&mut self.heaps, &complete);
        proof {
            assert forall|g: int| 0 <= g < nf implies (#[trigger] self.families@[g]).wf(
                self.resources.items@.len() as int,
            ) by {
                assert(self.families@[g].wf(mid.len() as int));
            }
            assert(snapshot_matches(*old(self), complete));
            let c = complete;
            assert forall|i: int|
                0 <= i < old(self).resources.items@.len() && (
            #[trigger] self.resources.items@[i]).state == ResourceState::Freed implies old(self).resources.items@[i].state == ResourceState::Freed
                || crate::resource::lu_all_cleared(
                old(self).resources.items@[i].last_use@,
                c,
            ) by {
                let o = old(self).resources.items@[i];
                let m = mid[i];
                assert(self.resources.items@[i] == crate::resource::cleanup_one(m, c));
            }
            assert forall|i: int|
                0 <= i < old(self).resources.items@.len() && (#[trigger] old(self).resources.items@[i]).state == ResourceState::PendingDestroy
                && crate::resource::lu_all_cleared(old(self).resources.items@[i].last_use@, c)
                implies self.resources.items@[i].state == ResourceState::Freed
                && self.resources.items@[i].alloc is None by {
                assert(mid[i] == old(self).resources.items@[i]);
                assert(self.resources.items@[i] == crate::resource::cleanup_one(mid[i], c));
            }
            assert forall|i: int|
                0 <= i < old(self).resources.items@.len() && (#[trigger] old(self).resources.items@[i]).state != ResourceState::Freed
                && !crate::resource::lu_all_cleared(old(self).resources.items@[i].last_use@, c)
                && !staging_retired(*old(self), c, i) implies self.resources.items@[i] == old(self).resources.items@[i] by {
                assert(mid[i] == old(self).resources.items@[i]);
                assert(self.resources.items@[i] == crate::resource::cleanup_one(mid[i], c));
            }
        }
    }

    /// Drain the pending uploads of one family, in order, handing back the
    /// copy operations for its command stream.  The drained records await
    /// their epochs' completion.
    pub fn flush_uploads(&mut self, family: usize) -> (ops: Vec<crate::upload::CopyOp>)
        requires
            old(self).wf(),
            family < old(self).families@.len(),
        ensures
            final(self).wf(),
            final(self).heaps == old(self).heaps,
            final(self).resources == old(self).resources,
            final(self).families@.len() == old(self).families@.len(),
            forall|f: int|
                0 <= f < old(self).families@.len() && f != family ==> final(self).families@[f]
                    == old(self).families@[f],
            final(self).families@[family as int].queues == old(self).families@[family as int].queues,
            ops@.len() == old(self).families@[family as int].uploads.pending@.len(),
            forall|i: int|
                0 <= i < ops@.len() ==> ops@[i] == old(self).families@[family as int].uploads.pending@[i].op,
            final(self).families@[family as int].uploads.pending@.len() == 0,
            final(self).families@[family as int].uploads.flushed@ == old(self).families@[family as int].uploads.flushed@ + old(self).families@[family as int].uploads.pending@,
    {
        let ghost oldfams = self.families@;
        let mut fam = self.families.remove(family);
        let ops = fam.uploads.flush();
        let ghost newfam = fam;
        self.families.insert(family, fam);
        proof {
            assert(self.families@ =~= oldfams.update(family as int, newfam));
            assert forall|f: int| 0 <= f < self.families@.len() implies (
            #[trigger] self.families@[f]).wf(self.resources.items@.len() as int) by {
                assert(oldfams[f].wf(self.resources.items@.len() as int));
                if f == family {
                    assert forall|k: int|
                        0 <= k < newfam.uploads.flushed@.len() implies (
                    #[trigger] newfam.uploads.flushed@[k]).staging.0
                        < self.resources.items@.len() by {
                        let oldf = oldfams[family as int].uploads.flushed@;
                        let oldp = oldfams[family as int].uploads.pending@;
                        if k < oldf.len() {
                            assert(newfam.uploads.flushed@[k] == oldf[k]);
                        } else {
                            assert(newfam.uploads.flushed@[k] == oldp[k - oldf.len()]);
                        }
                    }
                }
            }
        }
        ops
    }
}

} // verus!
