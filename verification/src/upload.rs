use vstd::prelude::*;

use crate::error::ResourceError;
use crate::heap::Heaps;
use crate::queue::{Epochs, QueueId};
use crate::resource::{destroy_one, BufferId, ImageId, ResourceState, Resources};

verus! {

/// Device-side state a buffer is transitioned into after its upload: the
/// queue that will first use it and the access kinds of that first use, as a
/// small bit set.
#[derive(Clone, Copy, Debug, PartialEq, Eq, Structural)]
pub struct BufferState {
    pub queue: QueueId,
    pub access: u32,
}

/// Device-side state an image is transitioned into after its upload: the
/// queue of its first use, the access kinds, and the image layout tag.
#[derive(Clone, Copy, Debug, PartialEq, Eq, Structural)]
pub struct ImageState {
    pub queue: QueueId,
    pub access: u32,
    pub layout: u32,
}

/// What is known about an image before its upload: a full previous state, or
/// only its layout (whole-image uploads need no more).
#[derive(Clone, Copy, Debug, PartialEq, Eq, Structural)]
pub enum ImageStateOrLayout {
    State(ImageState),
    Layout(u32),
}

/// Subresource range an image upload targets.
#[derive(Clone, Copy, Debug, PartialEq, Eq, Structural)]
pub struct SubresourceLayers {
    pub aspects: u32,
    pub level: u32,
    pub layer_start: u32,
    pub layer_end: u32,
}

/// Texel offset of an image region.
#[derive(Clone, Copy, Debug, PartialEq, Eq, Structural)]
pub struct ImageOffset {
    pub x: i32,
    pub y: i32,
    pub z: i32,
}

/// Texel extent of an image region.
#[derive(Clone, Copy, Debug, PartialEq, Eq, Structural)]
pub struct ImageExtent {
    pub width: u32,
    pub height: u32,
    pub depth: u32,
}

/// One device-side copy to be recorded into a family's command stream.
#[derive(Clone, Copy, Debug, PartialEq, Eq, Structural)]
pub enum CopyOp {
    Buffer {
        staging: BufferId,
        dest: BufferId,
        offset: u64,
        size: u64,
        last: Option<BufferState>,
        next: BufferState,
    },
    Image {
        staging: BufferId,
        dest: ImageId,
        data_width: u32,
        data_height: u32,
        layers: SubresourceLayers,
        image_offset: ImageOffset,
        extent: ImageExtent,
        last: ImageStateOrLayout,
        next: ImageState,
    },
}

/// One staged upload: the staging buffer shuttling the content, the target
/// queue, the epoch the destination is tagged with, and the copy to record.
#[derive(Clone, Copy, Debug, PartialEq, Eq, Structural)]
pub struct StagingRecord {
    pub staging: BufferId,
    pub queue: QueueId,
    pub epoch: u64,
    pub op: CopyOp,
}

/// Bytes a copy region covers: bytes per texel block times the block
/// footprint of the extent times its depth.  A format with an empty block
/// footprint covers nothing.
pub open spec fn spec_region_bytes(extent: ImageExtent, format: crate::resource::Format) -> int {
    if format.block_width == 0 || format.block_height == 0 {
        0
    } else {
        (format.bits as int / 8) * (extent.width as int / format.block_width as int) * (
        extent.height as int / format.block_height as int) * (extent.depth as int)
    }
}

/// An image upload is well-formed: the aspects match the destination's
/// format, the layer range and mip level exist, and the content is exactly
/// the size of the copied region (which must not be empty).
pub open spec fn upload_image_valid(
    info: crate::resource::ImageInfo,
    layers: SubresourceLayers,
    extent: ImageExtent,
    content_len: int,
) -> bool {
    &&& layers.aspects == info.format.aspects
    &&& layers.layer_start <= layers.layer_end
    &&& layers.layer_end <= info.kind.spec_num_layers()
    &&& layers.level <= info.levels
    &&& spec_region_bytes(extent, info.format) == content_len
    &&& 1 <= spec_region_bytes(extent, info.format)
}

/// Partial products of positive factors stay within the full product.
proof fn lemma_prod4(a: int, b: int, c: int, d: int)
    requires
        a >= 1,
        b >= 1,
        c >= 1,
        d >= 1,
    ensures
        a * b <= a * b * c * d,
        a * b * c <= a * b * c * d,
        1 <= a * b * c * d,
    decreases 0int,
{
    assert(a * b <= a * b * c * d && a * b * c <= a * b * c * d && 1 <= a * b * c * d)
        by (nonlinear_arith)
        requires
            a >= 1,
            b >= 1,
            c >= 1,
            d >= 1,
    ;
}

/// A product of non-negative factors with a zero factor is zero.
proof fn lemma_prod4_zero(a: int, b: int, c: int, d: int)
    requires
        a >= 0,
        b >= 0,
        c >= 0,
        d >= 0,
        a == 0 || b == 0 || c == 0 || d == 0,
    ensures
        a * b * c * d == 0,
{
    assert(a * b * c * d == 0) by (nonlinear_arith)
        requires
            a >= 0,
            b >= 0,
            c >= 0,
            d >= 0,
            a == 0 || b == 0 || c == 0 || d == 0,
    ;
}

/// Runtime evaluation of `spec_region_bytes`, refusing degenerate regions
/// and regions beyond the address space.
pub fn region_bytes(extent: ImageExtent, format: crate::resource::Format) -> (r: Option<u64>)
    ensures
        r is Some <==> (1 <= spec_region_bytes(extent, format) && spec_region_bytes(extent, format)
            <= u64::MAX),
        r is Some ==> r->0 == spec_region_bytes(extent, format),
{
    if format.block_width == 0 || format.block_height == 0 {
        return None;
    }
    let f1: u64 = (format.bits / 8) as u64;
    let f2: u64 = (extent.width / format.block_width) as u64;
    let f3: u64 = (extent.height / format.block_height) as u64;
    let f4: u64 = extent.depth as u64;
    if f1 == 0 || f2 == 0 || f3 == 0 || f4 == 0 {
        proof {
            lemma_prod4_zero(f1 as int, f2 as int, f3 as int, f4 as int);
        }
        return None;
    }
    proof {
        lemma_prod4(f1 as int, f2 as int, f3 as int, f4 as int);
    }
    let m1 = match crate::resource::checked_mul_u64(f1, f2) {
        Some(m) => m,
        None => {
            return None;
        },
    };
    let m2 = match crate::resource::checked_mul_u64(m1, f3) {
        Some(m) => m,
        None => {
            return None;
        },
    };
    let m3 = match crate::resource::checked_mul_u64(m2, f4) {
        Some(m) => m,
        None => {
            return None;
        },
    };
    Some(m3)
}

/// The records whose epoch the snapshot does not yet confirm finished, in
/// order.
pub open spec fn keep_uncleared(s: Seq<StagingRecord>, complete: Epochs) -> Seq<StagingRecord>
    decreases s.len(),
{
    if s.len() == 0 {
        Seq::empty()
    } else {
        let prefix = keep_uncleared(s.drop_last(), complete);
        if complete.clears(s.last().queue, s.last().epoch) {
            prefix
        } else {
            prefix.push(s.last())
        }
    }
}

/// Every record the filter keeps was already in the list.
pub proof fn lemma_keep_uncleared_subset(s: Seq<StagingRecord>, c: Epochs)
    ensures
        forall|k: int|
            0 <= k < keep_uncleared(s, c).len() ==> exists|m: int|
                0 <= m < s.len() && s[m] == #[trigger] keep_uncleared(s, c)[k],
    decreases s.len(),
{
    if s.len() > 0 {
        lemma_keep_uncleared_subset(s.drop_last(), c);
        let kept = keep_uncleared(s, c);
        let prefix = keep_uncleared(s.drop_last(), c);
        assert forall|k: int| 0 <= k < kept.len() implies exists|m: int|
            0 <= m < s.len() && s[m] == #[trigger] kept[k] by {
            if k < prefix.len() {
                let m = choose|m: int|
                    0 <= m < s.drop_last().len() && s.drop_last()[m] == #[trigger] prefix[k];
                assert(s[m] == kept[k]);
            } else {
                assert(s[s.len() - 1] == kept[k]);
            }
        }
    }
}

/// Per-queue-family staging state.  Uploads accumulate as pending records;
/// a flush drains them into the family's command stream; a cleanup pass
/// retires staging buffers whose epoch has completed.
#[derive(Debug)]
pub struct FamilyUploads {
    /// Records whose copy has not been recorded into the command stream yet.
    pub pending: Vec<StagingRecord>,
    /// Records whose copy is in the command stream; their staging buffers
    /// are retired once their epoch completes.
    pub flushed: Vec<StagingRecord>,
}

impl FamilyUploads {
    /// Every staging handle indexes into the catalogue.
    pub open spec fn ids_valid(self, n_items: int) -> bool {
        &&& forall|k: int|
            0 <= k < self.pending@.len() ==> (#[trigger] self.pending@[k]).staging.0 < n_items
        &&& forall|k: int|
            0 <= k < self.flushed@.len() ==> (#[trigger] self.flushed@[k]).staging.0 < n_items
    }

    pub fn new() -> (r: FamilyUploads)
        ensures
            r.pending@.len() == 0,
            r.flushed@.len() == 0,
    {
        FamilyUploads { pending: Vec::new(), flushed: Vec::new() }
    }

    /// Queue one staged upload.
    pub fn push(&mut self, rec: StagingRecord)
        ensures
            final(self).pending@ == old(self).pending@.push(rec),
            final(self).flushed == old(self).flushed,
    {
        self.pending.push(rec);
    }

    /// Drain the accumulated pending copies, in order, into the family's
    /// command stream: the caller records the returned operations; the
    /// records move to the flushed set to await completion.
    pub fn flush(&mut self) -> (ops: Vec<CopyOp>)
        ensures
            ops@.len() == old(self).pending@.len(),
            forall|i: int| 0 <= i < ops@.len() ==> ops@[i] == old(self).pending@[i].op,
            final(self).pending@.len() == 0,
            final(self).flushed@ == old(self).flushed@ + old(self).pending@,
    {
        let ghost oldp = self.pending@;
        let ghost oldf = self.flushed@;
        let mut ops: Vec<CopyOp> = Vec::new();
        let n = self.pending.len();
        let mut i: usize = 0;
        while i < n
            invariant
                i <= n,
                n == oldp.len(),
                self.pending@ == oldp,
                ops@.len() == i,
                forall|k: int| 0 <= k < i ==> ops@[k] == oldp[k].op,
                self.flushed@ == oldf + oldp.take(i as int),
            decreases n - i,
        {
            let rec = self.pending[i];
            ops.push(rec.op);
            self.flushed.push(rec);
            proof {
                assert(oldf + oldp.take(i + 1) =~= (oldf + oldp.take(i as int)).push(rec));
            }
            i = i + 1;
        }
        self.pending = Vec::new();
        proof {
            assert(oldp.take(n as int) =~= oldp);
        }
        ops
    }

    /// Retire the staging buffers of flushed records whose epoch the
    /// snapshot confirms finished: each such buffer still live in the
    /// catalogue is destroyed (queued against its own last use), and the
    /// record is dropped.  Unconfirmed records stay.
    #[verifier::rlimit(100)]
    pub fn cleanup(&mut self, resources: &mut Resources, heaps: &mut Heaps, complete: &Epochs)
        requires
            old(resources).wf(),
            old(heaps).wf(),
            old(resources).consistent_with(*old(heaps)),
            old(self).ids_valid(old(resources).items@.len() as int),
        ensures
            final(resources).wf(),
            final(heaps).wf(),
            final(resources).consistent_with(*final(heaps)),
            final(resources).items@.len() == old(resources).items@.len(),
            final(self).pending == old(self).pending,
            final(self).flushed@ == keep_uncleared(old(self).flushed@, *complete),
            forall|i: int|
                0 <= i < old(resources).items@.len() ==> final(resources).items@[i] == old(
                    resources,
                ).items@[i] || (final(resources).items@[i] == destroy_one(
                    old(resources).items@[i],
                ) && old(resources).items@[i].state == ResourceState::Live && exists|k: int|
                    0 <= k < old(self).flushed@.len() && (#[trigger] old(
                        self,
                    ).flushed@[k]).staging.0 == i && complete.clears(
                        old(self).flushed@[k].queue,
                        old(self).flushed@[k].epoch,
                    )),
            final(heaps).heaps@.len() == old(heaps).heaps@.len(),
            forall|h: int|
                0 <= h < old(heaps).heaps@.len() ==> (#[trigger] final(heaps).heaps@[h]).total
                    == old(heaps).heaps@[h].total && final(heaps).heaps@[h].flags == old(
                    heaps,
                ).heaps@[h].flags,
            forall|h: int, b: crate::heap::Block|
                0 <= h < old(heaps).heaps@.len() && (#[trigger] final(heaps).heaps@[h].block_live(
                    b,
                )) ==> old(heaps).heaps@[h].block_live(b),
    {
        let ghost oldfl = self.flushed@;
        let n = self.flushed.len();
        let mut keep: Vec<StagingRecord> = Vec::new();
        let mut i: usize = 0;
        while i < n
            invariant
                i <= n,
                n == oldfl.len(),
                self.flushed@ == oldfl,
                resources.wf(),
                heaps.wf(),
                resources.consistent_with(*heaps),
                resources.items@.len() == old(resources).items@.len(),
                old(self).ids_valid(old(resources).items@.len() as int),
                keep@ == keep_uncleared(oldfl.take(i as int), *complete),
                forall|j: int|
                    0 <= j < old(resources).items@.len() ==> resources.items@[j] == old(
                        resources,
                    ).items@[j] || (resources.items@[j] == destroy_one(old(resources).items@[j])
                        && old(resources).items@[j].state == ResourceState::Live && exists|k: int|
                        0 <= k < i && (#[trigger] oldfl[k]).staging.0 == j && complete.clears(
                            oldfl[k].queue,
                            oldfl[k].epoch,
                        )),
                heaps.heaps@.len() == old(heaps).heaps@.len(),
                forall|h: int|
                    0 <= h < old(heaps).heaps@.len() ==> (#[trigger] heaps.heaps@[h]).total == old(
                        heaps,
                    ).heaps@[h].total && heaps.heaps@[h].flags == old(heaps).heaps@[h].flags,
                forall|h: int, b: crate::heap::Block|
                    0 <= h < old(heaps).heaps@.len() && (#[trigger] heaps.heaps@[h].block_live(b))
                        ==> old(heaps).heaps@[h].block_live(b),
            decreases n - i,
        {
            let rec = self.flushed[i];
            proof {
                assert(oldfl.take(i + 1).drop_last() =~= oldfl.take(i as int));
                assert(oldfl.take(i + 1).last() == rec);
            }
            let cleared = complete.check_clears(rec.queue, rec.epoch);
            if cleared {
                let id = rec.staging.0;
                let live = matches!(resources.items[id].state, ResourceState::Live);
                if live {
                    let ghost hpre = *heaps;
                    resources.destroy(heaps, id);
                    proof {
                        assert forall|h: int, b: crate::heap::Block|
                            0 <= h < old(heaps).heaps@.len() && (
                            #[trigger] heaps.heaps@[h].block_live(b)) implies old(
                            heaps,
                        ).heaps@[h].block_live(b) by {
                            assert(hpre.heaps@[h].block_live(b));
                        }
                    }
                }
            } else {
                keep.push(rec);
            }
            i = i + 1;
        }
        proof {
            assert(oldfl.take(n as int) =~= oldfl);
        }
        self.flushed = keep;
    }
}

} // verus!
