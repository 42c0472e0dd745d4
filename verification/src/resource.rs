use vstd::prelude::*;

use crate::error::ResourceError;
use crate::heap::{
    chosen_heap_index, first_eligible_from, heap_alloc_rel, heap_free_rel, heap_matches, Heaps,
    MemoryAllocation, MemoryUsage,
};
use crate::queue::{Epochs, QueueId};

verus! {

/// Handle to a buffer owned by the registry.
#[derive(Clone, Copy, Debug, PartialEq, Eq, Structural)]
pub struct BufferId(pub usize);

/// Handle to an image owned by the registry.
#[derive(Clone, Copy, Debug, PartialEq, Eq, Structural)]
pub struct ImageId(pub usize);

/// Handle to an image view owned by the registry.
#[derive(Clone, Copy, Debug, PartialEq, Eq, Structural)]
pub struct ImageViewId(pub usize);

/// Handle to a sampler owned by the registry.
#[derive(Clone, Copy, Debug, PartialEq, Eq, Structural)]
pub struct SamplerId(pub usize);

/// Shape of an image.
#[derive(Clone, Copy, Debug, PartialEq, Eq, Structural)]
pub enum ImageKind {
    D1 { width: u32, layers: u32 },
    D2 { width: u32, height: u32, layers: u32 },
    D3 { width: u32, height: u32, depth: u32 },
}

impl ImageKind {
    /// Number of array layers (the depth of a volume image counts as one).
    pub open spec fn spec_num_layers(self) -> u32 {
        match self {
            ImageKind::D1 { layers, .. } => layers,
            ImageKind::D2 { layers, .. } => layers,
            ImageKind::D3 { .. } => 1u32,
        }
    }

    pub fn num_layers(&self) -> (r: u32)
        ensures
            r == self.spec_num_layers(),
    {
        match *self {
            ImageKind::D1 { layers, .. } => layers,
            ImageKind::D2 { layers, .. } => layers,
            ImageKind::D3 { .. } => 1u32,
        }
    }
}

/// Texel format description: compression block footprint in texels, bits per
/// block, and the aspects (color, depth, stencil) the format carries as a
/// small bit set.
#[derive(Clone, Copy, Debug, PartialEq, Eq, Structural)]
pub struct Format {
    pub block_width: u32,
    pub block_height: u32,
    pub bits: u32,
    pub aspects: u32,
}

/// How image texels are laid out in memory.
#[derive(Clone, Copy, Debug, PartialEq, Eq, Structural)]
pub enum Tiling {
    Optimal,
    Linear,
}

/// Sampler texel filtering.
#[derive(Clone, Copy, Debug, PartialEq, Eq, Structural)]
pub enum Filter {
    Nearest,
    Linear,
}

/// Sampler addressing outside the image.
#[derive(Clone, Copy, Debug, PartialEq, Eq, Structural)]
pub enum WrapMode {
    Tile,
    Mirror,
    Clamp,
    Border,
}

/// Description an image is created from.
#[derive(Clone, Copy, Debug, PartialEq, Eq, Structural)]
pub struct ImageInfo {
    pub kind: ImageKind,
    pub levels: u32,
    pub format: Format,
    pub tiling: Tiling,
}

/// Dimensionality a view presents its image with.
#[derive(Clone, Copy, Debug, PartialEq, Eq, Structural)]
pub enum ViewKind {
    D1,
    D1Array,
    D2,
    D2Array,
    D3,
    Cube,
    CubeArray,
}

/// Per-channel source selection of a view, as small channel tags.
#[derive(Clone, Copy, Debug, PartialEq, Eq, Structural)]
pub struct Swizzle {
    pub r: u32,
    pub g: u32,
    pub b: u32,
    pub a: u32,
}

/// The mip levels and array layers a view exposes.
#[derive(Clone, Copy, Debug, PartialEq, Eq, Structural)]
pub struct SubresourceRange {
    pub aspects: u32,
    pub level_start: u32,
    pub level_count: u32,
    pub layer_start: u32,
    pub layer_count: u32,
}

/// A view's range is non-empty and lies within its image.
pub open spec fn view_valid(info: ImageInfo, range: SubresourceRange) -> bool {
    &&& 1 <= range.level_count
    &&& 1 <= range.layer_count
    &&& range.level_start as int + range.level_count as int <= info.levels as int
    &&& range.layer_start as int + range.layer_count as int <= info.kind.spec_num_layers() as int
}

/// The most recent epoch at which submitted work on one queue referenced a
/// resource.
#[derive(Clone, Copy, Debug, PartialEq, Eq, Structural)]
pub struct LastUse {
    pub queue: QueueId,
    pub epoch: u64,
}

/// Two-phase lifecycle of a registered resource: destruction requests only
/// queue the resource; memory is given back once completed epochs prove no
/// submitted work can still touch it.
#[derive(Clone, Copy, Debug, PartialEq, Eq, Structural)]
pub enum ResourceState {
    /// Usable; owned by the caller.
    Live,
    /// Logically destroyed; awaiting proof of completion before the memory
    /// is reclaimed.
    PendingDestroy,
    /// Physically freed; the handle stays as a tombstone.
    Freed,
}

/// What a registry entry is.
#[derive(Clone, Copy, Debug, PartialEq, Eq, Structural)]
pub enum ResourceKind {
    Buffer { usage: MemoryUsage },
    Image { info: ImageInfo },
    ImageView { image: usize, view_kind: ViewKind, format: Format, swizzle: Swizzle, range: SubresourceRange },
    Sampler { filter: Filter, wrap: WrapMode },
}

/// One entry of the resource catalogue.
#[derive(Debug)]
pub struct Resource {
    pub kind: ResourceKind,
    /// Memory backing; present for buffers and images until freed.
    pub alloc: Option<MemoryAllocation>,
    /// Host-side bytes of a host-visible buffer.
    pub data: Option<Vec<u8>>,
    /// Per-queue last-use records; queues are pairwise distinct.
    pub last_use: Vec<LastUse>,
    pub state: ResourceState,
}

/// Some record in `lu` is for queue `q`.
pub open spec fn lu_has(lu: Seq<LastUse>, q: QueueId) -> bool {
    exists|k: int| 0 <= k < lu.len() && (#[trigger] lu[k]).queue == q
}

/// The epoch recorded for queue `q` (well-defined when records are unique).
pub open spec fn lu_epoch(lu: Seq<LastUse>, q: QueueId) -> u64 {
    lu[choose|k: int| 0 <= k < lu.len() && (#[trigger] lu[k]).queue == q].epoch
}

/// Queues of the records are pairwise distinct.
pub open spec fn lu_unique(lu: Seq<LastUse>) -> bool {
    forall|k1: int, k2: int|
        #![trigger lu[k1], lu[k2]]
        0 <= k1 < k2 < lu.len() ==> lu[k1].queue != lu[k2].queue
}

/// Every recorded last use is confirmed finished by the snapshot.
pub open spec fn lu_all_cleared(lu: Seq<LastUse>, complete: Epochs) -> bool {
    forall|k: int| 0 <= k < lu.len() ==> complete.clears((#[trigger] lu[k]).queue, lu[k].epoch)
}

/// Structural invariant of one catalogue entry.
pub open spec fn item_wf(r: Resource) -> bool {
    &&& lu_unique(r.last_use@)
    &&& (r.state == ResourceState::Freed ==> r.alloc is None && r.data is None)
    &&& ((r.kind is Buffer || r.kind is Image) && r.state != ResourceState::Freed ==> r.alloc
        is Some)
    &&& ((r.kind is ImageView || r.kind is Sampler) ==> r.alloc is None)
    &&& (r.data is Some <==> (r.state != ResourceState::Freed && r.kind is Buffer && r.alloc
        is Some && r.alloc->0.host_visible))
    &&& (r.data is Some ==> r.data->0@.len() == r.alloc->0.size)
}

/// The part of an entry that the heap accounting sees: its lifecycle state
/// and its allocation.
pub type AllocEntry = (ResourceState, Option<MemoryAllocation>);

/// Both entries are backed, by the same block of the same heap.
pub open spec fn same_block(e1: AllocEntry, e2: AllocEntry) -> bool {
    &&& e1.0 != ResourceState::Freed
    &&& e2.0 != ResourceState::Freed
    &&& e1.1 is Some
    &&& e2.1 is Some
    &&& e1.1->0.heap == e2.1->0.heap
    &&& e1.1->0.offset == e2.1->0.offset
}

/// An unfreed entry's allocation names a live block of an existing heap.
pub open spec fn entry_backed(e: AllocEntry, heaps: Heaps) -> bool {
    (e.0 != ResourceState::Freed && e.1 is Some) ==> {
        &&& e.1->0.heap < heaps.heaps@.len()
        &&& heaps.heaps@[e.1->0.heap as int].block_live_at(e.1->0.offset, e.1->0.size)
        &&& 1 <= e.1->0.size
    }
}

/// The allocation footprint of the whole catalogue.
pub open spec fn alloc_footprint(items: Seq<Resource>) -> Seq<AllocEntry> {
    items.map(|i: int, r: Resource| (r.state, r.alloc))
}

/// Every footprint entry is a live block, and no two entries share one: an
/// allocation is exclusively owned while not freed.
pub open spec fn footprint_ok(fp: Seq<AllocEntry>, heaps: Heaps) -> bool {
    &&& forall|i: int| 0 <= i < fp.len() ==> entry_backed(#[trigger] fp[i], heaps)
    &&& forall|i: int, j: int|
        #![trigger fp[i], fp[j]]
        0 <= i < j < fp.len() ==> !same_block(fp[i], fp[j])
}

/// Appending an entry for a freshly carved block keeps the footprint sound:
/// every old block is still live at an offset distinct from the new one.
#[verifier::rlimit(100)]
proof fn lemma_push_backed(
    fpo: Seq<AllocEntry>,
    hpre: Heaps,
    hpost: Heaps,
    a: MemoryAllocation,
    class: MemoryUsage,
)
    requires
        footprint_ok(fpo, hpre),
        a.heap < hpre.heaps@.len(),
        hpost.heaps@.len() == hpre.heaps@.len(),
        1 <= a.size,
        heap_alloc_rel(
            hpre.heaps@[a.heap as int],
            hpost.heaps@[a.heap as int],
            a.offset,
            a.size,
            class,
        ),
        forall|h: int|
            0 <= h < hpre.heaps@.len() && h != a.heap ==> hpost.heaps@[h] == hpre.heaps@[h],
    ensures
        footprint_ok(fpo.push((ResourceState::Live, Some(a))), hpost),
{
    let fpn = fpo.push((ResourceState::Live, Some(a)));
    let hp0 = hpre.heaps@[a.heap as int];
    let hp1 = hpost.heaps@[a.heap as int];
    assert forall|i: int| 0 <= i < fpn.len() implies entry_backed(#[trigger] fpn[i], hpost) by {
        if i < fpo.len() {
            let e = fpo[i];
            assert(entry_backed(e, hpre));
            if e.0 != ResourceState::Freed && e.1 is Some {
                let a0 = e.1->0;
                if a0.heap == a.heap {
                    let k = choose|k: int|
                        0 <= k < hp0.blocks@.len() && (#[trigger] hp0.blocks@[k]).offset
                            == a0.offset && hp0.blocks@[k].size == a0.size;
                    let b0 = hp0.blocks@[k];
                    assert(hp0.block_live(b0));
                    assert(hp1.block_live(b0));
                    let m = choose|m: int| 0 <= m < hp1.blocks@.len() && hp1.blocks@[m] == b0;
                    assert(hp1.block_live_at(a0.offset, a0.size));
                }
            }
        } else {
            assert(hp1.block_live(crate::heap::Block { offset: a.offset, size: a.size, class }));
            let m = choose|m: int|
                0 <= m < hp1.blocks@.len() && hp1.blocks@[m] == (crate::heap::Block {
                    offset: a.offset,
                    size: a.size,
                    class,
                });
            assert(hp1.block_live_at(a.offset, a.size));
        }
    }
    assert forall|i: int, j: int|
        #![trigger fpn[i], fpn[j]]
        0 <= i < j < fpn.len() implies !same_block(fpn[i], fpn[j]) by {
        if j < fpo.len() {
            assert(!same_block(fpo[i], fpo[j]));
        } else {
            let e = fpo[i];
            assert(entry_backed(e, hpre));
            if e.0 != ResourceState::Freed && e.1 is Some && e.1->0.heap == a.heap {
                let a0 = e.1->0;
                let k = choose|k: int|
                    0 <= k < hp0.blocks@.len() && (#[trigger] hp0.blocks@[k]).offset == a0.offset
                        && hp0.blocks@[k].size == a0.size;
                let b0 = hp0.blocks@[k];
                assert(hp0.block_live(b0));
                assert(b0.offset != a.offset);
            }
        }
    }
}

/// Width, height and depth-or-layer-count of an image shape (a 1D image has
/// height 1; array layers take the place of depth).
pub open spec fn spec_extent(kind: ImageKind) -> (int, int, int) {
    match kind {
        ImageKind::D1 { width, layers } => (width as int, 1int, layers as int),
        ImageKind::D2 { width, height, layers } => (width as int, height as int, layers as int),
        ImageKind::D3 { width, height, depth } => (width as int, height as int, depth as int),
    }
}

/// Bytes of memory the model assigns to an image: bytes per texel block,
/// times the block footprint of the extent, times the depth or layer count,
/// times the mip level count.  A format with an empty block footprint sizes
/// to zero (and is refused at creation).
pub open spec fn spec_image_size(kind: ImageKind, format: Format, levels: u32) -> int {
    if format.block_width == 0 || format.block_height == 0 {
        0
    } else {
        let e = spec_extent(kind);
        (format.bits as int / 8) * (e.0 / format.block_width as int) * (e.1
            / format.block_height as int) * e.2 * (levels as int)
    }
}

/// A product of non-negative factors with a zero factor is zero.
proof fn lemma_prod5_zero(a: int, b: int, c: int, d: int, e: int)
    requires
        a >= 0,
        b >= 0,
        c >= 0,
        d >= 0,
        e >= 0,
        a == 0 || b == 0 || c == 0 || d == 0 || e == 0,
    ensures
        a * b * c * d * e == 0,
{
    assert(a * b * c * d * e == 0) by (nonlinear_arith)
        requires
            a >= 0,
            b >= 0,
            c >= 0,
            d >= 0,
            e >= 0,
            a == 0 || b == 0 || c == 0 || d == 0 || e == 0,
    ;
}

/// Every partial product of positive factors stays within their full
/// product.
proof fn lemma_prod5_bounds(a: int, b: int, c: int, d: int, e: int, total: int)
    requires
        a >= 1,
        b >= 1,
        c >= 1,
        d >= 1,
        e >= 1,
        total == a * b * c * d * e,
    ensures
        1 <= a * b <= total,
        1 <= a * b * c <= total,
        1 <= a * b * c * d <= total,
        1 <= total,
{
    assert(1 <= a * b <= total && 1 <= a * b * c <= total && 1 <= a * b * c * d <= total && 1
        <= total) by (nonlinear_arith)
        requires
            a >= 1,
            b >= 1,
            c >= 1,
            d >= 1,
            e >= 1,
            total == a * b * c * d * e,
    ;
}

/// What a destruction request does to an entry: an entry never referenced by
/// submitted work is freed at once, any other is queued for the next proven
/// cleanup pass.
pub open spec fn destroy_one(r: Resource) -> Resource {
    if r.last_use@.len() == 0 {
        Resource {
            kind: r.kind,
            alloc: None,
            data: None,
            last_use: r.last_use,
            state: ResourceState::Freed,
        }
    } else {
        Resource {
            kind: r.kind,
            alloc: r.alloc,
            data: r.data,
            last_use: r.last_use,
            state: ResourceState::PendingDestroy,
        }
    }
}

/// What one cleanup pass does to an entry: a queued entry whose every last
/// use is confirmed finished is freed; everything else is left untouched.
pub open spec fn cleanup_one(r: Resource, complete: Epochs) -> Resource {
    if r.state == ResourceState::PendingDestroy && lu_all_cleared(r.last_use@, complete) {
        Resource {
            kind: r.kind,
            alloc: None,
            data: None,
            last_use: r.last_use,
            state: ResourceState::Freed,
        }
    } else {
        r
    }
}

/// The catalogue of every buffer, image, image view and sampler handed out.
/// Entries are never removed; a freed entry stays as a tombstone so handles
/// (indices) stay stable.
#[derive(Debug)]
pub struct Resources {
    pub items: Vec<Resource>,
}

impl Resources {
    pub open spec fn wf(self) -> bool {
        forall|i: int| 0 <= i < self.items@.len() ==> item_wf(#[trigger] self.items@[i])
    }

    /// Every entry's memory is a live block, and no two entries share one:
    /// an allocation is exclusively owned while live.
    pub open spec fn consistent_with(self, heaps: Heaps) -> bool {
        footprint_ok(alloc_footprint(self.items@), heaps)
    }

    pub fn new() -> (r: Resources)
        ensures
            r.wf(),
            r.items@.len() == 0,
    {
        Resources { items: Vec::new() }
    }

    /// Number of catalogue entries (freed tombstones included).
    pub fn len(&self) -> (r: usize)
        ensures
            r == self.items@.len(),
    {
        self.items.len()
    }

    /// Create a buffer backed by heap memory matching `usage`.  Degenerate
    /// requests (zero size or alignment) are refused as `InvalidUsage`;
    /// requests no matching heap can hold, as `OutOfMemory`.  A host-visible
    /// buffer starts zero-filled.
    #[verifier::rlimit(100)]
    pub fn create_buffer(
        &mut self,
        heaps: &mut Heaps,
        align: u64,
        size: u64,
        usage: MemoryUsage,
    ) -> (r: Result<BufferId, ResourceError>)
        requires
            old(self).wf(),
            old(heaps).wf(),
            old(self).consistent_with(*old(heaps)),
            size as int <= usize::MAX as int,
        ensures
            final(self).wf(),
            final(heaps).wf(),
            final(self).consistent_with(*final(heaps)),
            final(heaps).heaps@.len() == old(heaps).heaps@.len(),
            r is Ok <==> (1 <= size && 1 <= align && first_eligible_from(
                old(heaps).heaps@,
                usage,
                size as int,
                align as int,
                0,
            ) is Some),
            match r {
                Ok(id) => {
                    &&& id.0 == old(self).items@.len()
                    &&& final(self).items@.len() == old(self).items@.len() + 1
                    &&& forall|i: int|
                        0 <= i < old(self).items@.len() ==> final(self).items@[i] == old(self).items@[i]
                    &&& {
                        let nr = final(self).items@[id.0 as int];
                        let a = nr.alloc->0;
                        &&& nr.kind == (ResourceKind::Buffer { usage })
                        &&& nr.state == ResourceState::Live
                        &&& nr.last_use@.len() == 0
                        &&& nr.alloc is Some
                        &&& a.size == size
                        &&& (a.offset as int) % (align as int) == 0
                        &&& a.heap < old(heaps).heaps@.len()
                        &&& Some(a.heap as int) == chosen_heap_index(
                            old(heaps).heaps@,
                            usage,
                            size as int,
                            align as int,
                        )
                        &&& heap_matches(old(heaps).heaps@[a.heap as int].flags, usage)
                        &&& a.host_visible == old(heaps).heaps@[a.heap as int].flags.host_visible
                        &&& heap_alloc_rel(
                            old(heaps).heaps@[a.heap as int],
                            final(heaps).heaps@[a.heap as int],
                            a.offset,
                            size,
                            usage,
                        )
                        &&& forall|h: int|
                            0 <= h < old(heaps).heaps@.len() && h != a.heap ==> final(heaps).heaps@[h] == old(heaps).heaps@[h]
                        &&& (a.host_visible ==> nr.data is Some && forall|k: int|
                            0 <= k < size ==> nr.data->0@[k] == 0u8)
                    }
                },
                Err(e) => {
                    &&& *final(self) == *old(self)
                    &&& *final(heaps) == *old(heaps)
                    &&& (e == ResourceError::InvalidUsage <==> (size == 0 || align == 0))
                    &&& (e == ResourceError::OutOfMemory <==> (1 <= size && 1 <= align
                        && first_eligible_from(
                        old(heaps).heaps@,
                        usage,
                        size as int,
                        align as int,
                        0,
                    ) is None))
                },
            },
    {
        if size == 0 || align == 0 {
            return Err(ResourceError::InvalidUsage);
        }
        let a = match heaps.allocate(usage, size, align) {
            Ok(a) => a,
            Err(e) => {
                return Err(e);
            },
        };
        let data: Option<Vec<u8>> = if a.host_visible {
            Some(zero_bytes(size as usize))
        } else {
            None
        };
        let nr = Resource {
            kind: ResourceKind::Buffer { usage },
            alloc: Some(a),
            data,
            last_use: Vec::new(),
            state: ResourceState::Live,
        };
        let id = self.items.len();
        let ghost fpo = alloc_footprint(old(self).items@);
        self.items.push(nr);
        proof {
            assert(alloc_footprint(self.items@) =~= fpo.push((ResourceState::Live, Some(a))));
            lemma_push_backed(fpo, *old(heaps), *heaps, a, usage);
        }
        Ok(BufferId(id))
    }

    /// Create an image backed by heap memory matching `usage`.  The model
    /// sizes the image deterministically from its description (see
    /// `spec_image_size`).  A degenerate description (zero alignment or a
    /// description that sizes to zero bytes) is refused as `InvalidUsage`;
    /// one no matching heap can hold, as `OutOfMemory`.
    #[verifier::rlimit(100)]
    pub fn create_image(
        &mut self,
        heaps: &mut Heaps,
        align: u64,
        kind: ImageKind,
        levels: u32,
        format: Format,
        tiling: Tiling,
        usage: MemoryUsage,
    ) -> (r: Result<ImageId, ResourceError>)
        requires
            old(self).wf(),
            old(heaps).wf(),
            old(self).consistent_with(*old(heaps)),
            spec_image_size(kind, format, levels) <= u64::MAX,
        ensures
            final(self).wf(),
            final(heaps).wf(),
            final(self).consistent_with(*final(heaps)),
            final(heaps).heaps@.len() == old(heaps).heaps@.len(),
            r is Ok <==> (1 <= align && 1 <= spec_image_size(kind, format, levels)
                && first_eligible_from(
                old(heaps).heaps@,
                usage,
                spec_image_size(kind, format, levels),
                align as int,
                0,
            ) is Some),
            match r {
                Ok(id) => {
                    &&& id.0 == old(self).items@.len()
                    &&& final(self).items@.len() == old(self).items@.len() + 1
                    &&& forall|i: int|
                        0 <= i < old(self).items@.len() ==> final(self).items@[i] == old(self).items@[i]
                    &&& {
                        let nr = final(self).items@[id.0 as int];
                        let a = nr.alloc->0;
                        &&& nr.kind == (ResourceKind::Image {
                            info: ImageInfo { kind, levels, format, tiling },
                        })
                        &&& nr.state == ResourceState::Live
                        &&& nr.last_use@.len() == 0
                        &&& nr.data is None
                        &&& nr.alloc is Some
                        &&& a.size == spec_image_size(kind, format, levels)
                        &&& (a.offset as int) % (align as int) == 0
                        &&& a.heap < old(heaps).heaps@.len()
                        &&& Some(a.heap as int) == chosen_heap_index(
                            old(heaps).heaps@,
                            usage,
                            spec_image_size(kind, format, levels),
                            align as int,
                        )
                        &&& heap_matches(old(heaps).heaps@[a.heap as int].flags, usage)
                        &&& heap_alloc_rel(
                            old(heaps).heaps@[a.heap as int],
                            final(heaps).heaps@[a.heap as int],
                            a.offset,
                            a.size,
                            usage,
                        )
                        &&& forall|h: int|
                            0 <= h < old(heaps).heaps@.len() && h != a.heap ==> final(heaps).heaps@[h] == old(heaps).heaps@[h]
                    }
                },
                Err(e) => {
                    &&& *final(self) == *old(self)
                    &&& *final(heaps) == *old(heaps)
                    &&& (e == ResourceError::InvalidUsage <==> (align == 0 || spec_image_size(
                        kind,
                        format,
                        levels,
                    ) == 0))
                    &&& (e == ResourceError::OutOfMemory <==> (1 <= align && 1 <= spec_image_size(
                        kind,
                        format,
                        levels,
                    ) && first_eligible_from(
                        old(heaps).heaps@,
                        usage,
                        spec_image_size(kind, format, levels),
                        align as int,
                        0,
                    ) is None))
                },
            },
    {
        if format.block_width == 0 || format.block_height == 0 {
            return Err(ResourceError::InvalidUsage);
        }
        let f1: u64 = (format.bits / 8) as u64;
        let fw: u64;
        let fh: u64;
        let fd: u64;
        match kind {
            ImageKind::D1 { width, layers } => {
                fw = (width / format.block_width) as u64;
                fh = (1u32 / format.block_height) as u64;
                fd = layers as u64;
            },
            ImageKind::D2 { width, height, layers } => {
                fw = (width / format.block_width) as u64;
                fh = (height / format.block_height) as u64;
                fd = layers as u64;
            },
            ImageKind::D3 { width, height, depth } => {
                fw = (width / format.block_width) as u64;
                fh = (height / format.block_height) as u64;
                fd = depth as u64;
            },
        }
        let lv: u64 = levels as u64;
        let ghost total: int = spec_image_size(kind, format, levels);
        proof {
            assert(total == f1 as int * (fw as int) * (fh as int) * (fd as int) * (lv as int));
        }
        if align == 0 || f1 == 0 || fw == 0 || fh == 0 || fd == 0 || lv == 0 {
            proof {
                if f1 == 0 || fw == 0 || fh == 0 || fd == 0 || lv == 0 {
                    lemma_prod5_zero(f1 as int, fw as int, fh as int, fd as int, lv as int);
                }
            }
            return Err(ResourceError::InvalidUsage);
        }
        proof {
            lemma_prod5_bounds(f1 as int, fw as int, fh as int, fd as int, lv as int, total);
        }
        let p1: u64 = f1 * fw;
        let p2: u64 = p1 * fh;
        let p3: u64 = p2 * fd;
        let size: u64 = p3 * lv;
        let a = match heaps.allocate(usage, size, align) {
            Ok(a) => a,
            Err(e) => {
                return Err(e);
            },
        };
        let nr = Resource {
            kind: ResourceKind::Image { info: ImageInfo { kind, levels, format, tiling } },
            alloc: Some(a),
            data: None,
            last_use: Vec::new(),
            state: ResourceState::Live,
        };
        let id = self.items.len();
        let ghost fpo = alloc_footprint(old(self).items@);
        self.items.push(nr);
        proof {
            assert(alloc_footprint(self.items@) =~= fpo.push((ResourceState::Live, Some(a))));
            lemma_push_backed(fpo, *old(heaps), *heaps, a, usage);
        }
        Ok(ImageId(id))
    }

    /// Create a view of an existing image, presenting the given subresource
    /// range with the given dimensionality, format and channel swizzle.
    /// Views carry no memory of their own.  A range that is empty or runs
    /// past the image's levels or layers is refused as `InvalidUsage`.
    pub fn create_image_view(
        &mut self,
        image: ImageId,
        view_kind: ViewKind,
        format: Format,
        swizzle: Swizzle,
        range: SubresourceRange,
    ) -> (r: Result<ImageViewId, ResourceError>)
        requires
            old(self).wf(),
            image.0 < old(self).items@.len(),
            old(self).items@[image.0 as int].kind is Image,
            old(self).items@[image.0 as int].state == ResourceState::Live,
        ensures
            final(self).wf(),
            r is Ok <==> view_valid(old(self).items@[image.0 as int].kind->Image_info, range),
            match r {
                Ok(id) => {
                    &&& id.0 == old(self).items@.len()
                    &&& final(self).items@.len() == old(self).items@.len() + 1
                    &&& forall|i: int|
                        0 <= i < old(self).items@.len() ==> final(self).items@[i] == old(self).items@[i]
                    &&& final(self).items@[id.0 as int] == (Resource {
                        kind: ResourceKind::ImageView {
                            image: image.0,
                            view_kind,
                            format,
                            swizzle,
                            range,
                        },
                        alloc: None,
                        data: None,
                        last_use: final(self).items@[id.0 as int].last_use,
                        state: ResourceState::Live,
                    })
                    &&& final(self).items@[id.0 as int].last_use@.len() == 0
                },
                Err(e) => {
                    &&& e == ResourceError::InvalidUsage
                    &&& *final(self) == *old(self)
                },
            },
            forall|h: Heaps|
                #[trigger] old(self).consistent_with(h) ==> final(self).consistent_with(h),
    {
        let info = match self.items[image.0].kind {
            ResourceKind::Image { info } => info,
            _ => {
                proof {
                    assert(false);
                }
                return Err(ResourceError::InvalidUsage);
            },
        };
        if range.level_count == 0 || range.layer_count == 0 || range.level_start as u64
            + range.level_count as u64 > info.levels as u64 || range.layer_start as u64
            + range.layer_count as u64 > info.kind.num_layers() as u64 {
            return Err(ResourceError::InvalidUsage);
        }
        let id = self.items.len();
        let nr = Resource {
            kind: ResourceKind::ImageView { image: image.0, view_kind, format, swizzle, range },
            alloc: None,
            data: None,
            last_use: Vec::new(),
            state: ResourceState::Live,
        };
        let ghost fpo = alloc_footprint(self.items@);
        self.items.push(nr);
        proof {
            assert forall|h: Heaps| #[trigger] old(self).consistent_with(h) implies final(self).consistent_with(h) by {
                let fpn = alloc_footprint(self.items@);
                assert(fpn =~= fpo.push((ResourceState::Live, None)));
                assert forall|i: int| 0 <= i < fpn.len() implies entry_backed(
                    #[trigger] fpn[i],
                    h,
                ) by {
                    if i < fpo.len() {
                        assert(entry_backed(fpo[i], h));
                    }
                }
                assert forall|i: int, j: int|
                    #![trigger fpn[i], fpn[j]]
                    0 <= i < j < fpn.len() implies !same_block(fpn[i], fpn[j]) by {
                    if j < fpo.len() {
                        assert(!same_block(fpo[i], fpo[j]));
                    }
                }
            }
        }
        Ok(ImageViewId(id))
    }

    /// Create a sampler.  Samplers reference a device object and carry no
    /// memory backing.
    pub fn create_sampler(&mut self, filter: Filter, wrap: WrapMode) -> (r: Result<
        SamplerId,
        ResourceError,
    >)
        requires
            old(self).wf(),
        ensures
            final(self).wf(),
            r is Ok,
            match r {
                Ok(id) => {
                    &&& id.0 == old(self).items@.len()
                    &&& final(self).items@.len() == old(self).items@.len() + 1
                    &&& forall|i: int|
                        0 <= i < old(self).items@.len() ==> final(self).items@[i] == old(self).items@[i]
                    &&& final(self).items@[id.0 as int].kind == (ResourceKind::Sampler {
                        filter,
                        wrap,
                    })
                    &&& final(self).items@[id.0 as int].state == ResourceState::Live
                    &&& final(self).items@[id.0 as int].alloc is None
                    &&& final(self).items@[id.0 as int].last_use@.len() == 0
                },
                Err(_) => false,
            },
            forall|h: Heaps|
                #[trigger] old(self).consistent_with(h) ==> final(self).consistent_with(h),
    {
        let id = self.items.len();
        let nr = Resource {
            kind: ResourceKind::Sampler { filter, wrap },
            alloc: None,
            data: None,
            last_use: Vec::new(),
            state: ResourceState::Live,
        };
        let ghost fpo = alloc_footprint(self.items@);
        self.items.push(nr);
        proof {
            assert forall|h: Heaps| #[trigger] old(self).consistent_with(h) implies final(self).consistent_with(h) by {
                let fpn = alloc_footprint(self.items@);
                assert(fpn =~= fpo.push((ResourceState::Live, None)));
                assert forall|i: int| 0 <= i < fpn.len() implies entry_backed(
                    #[trigger] fpn[i],
                    h,
                ) by {
                    if i < fpo.len() {
                        assert(entry_backed(fpo[i], h));
                    }
                }
                assert forall|i: int, j: int|
                    #![trigger fpn[i], fpn[j]]
                    0 <= i < j < fpn.len() implies !same_block(fpn[i], fpn[j]) by {
                    if j < fpo.len() {
                        assert(!same_block(fpo[i], fpo[j]));
                    }
                }
            }
        }
        Ok(SamplerId(id))
    }

    /// Write `bytes` into a host-visible buffer at `offset`.  Refused as
    /// `InvalidUsage` when the buffer is not host-visible or the range runs
    /// past its end; exactly the addressed bytes change.
    #[verifier::rlimit(100)]
    pub fn write_buffer_bytes(&mut self, id: usize, offset: u64, bytes: &Vec<u8>) -> (r: Result<
        (),
        ResourceError,
    >)
        requires
            old(self).wf(),
            id < old(self).items@.len(),
            old(self).items@[id as int].kind is Buffer,
            old(self).items@[id as int].state == ResourceState::Live,
        ensures
            final(self).wf(),
            final(self).items@.len() == old(self).items@.len(),
            forall|i: int|
                0 <= i < old(self).items@.len() && i != id ==> final(self).items@[i] == old(self).items@[i],
            forall|h: Heaps|
                #[trigger] old(self).consistent_with(h) ==> final(self).consistent_with(h),
            r is Ok <==> (old(self).items@[id as int].data is Some && offset + bytes@.len() <= old(self).items@[id as int].alloc->0.size),
            ({
                let ro = old(self).items@[id as int];
                let rn = final(self).items@[id as int];
                &&& rn.kind == ro.kind
                &&& rn.alloc == ro.alloc
                &&& rn.state == ro.state
                &&& rn.last_use == ro.last_use
                &&& match r {
                    Ok(_) => {
                        &&& rn.data is Some
                        &&& rn.data->0@.len() == ro.data->0@.len()
                        &&& forall|k: int|
                            0 <= k < ro.data->0@.len() ==> rn.data->0@[k] == if offset <= k
                                < offset + bytes@.len() {
                                bytes@[k - offset]
                            } else {
                                ro.data->0@[k]
                            }
                    },
                    Err(e) => {
                        &&& e == ResourceError::InvalidUsage
                        &&& *final(self) == *old(self)
                    },
                }
            }),
    {
        let dlen: usize = match &self.items[id].data {
            Some(d) => d.len(),
            None => {
                return Err(ResourceError::InvalidUsage);
            },
        };
        let n = bytes.len();
        if offset > dlen as u64 || (n as u64) > dlen as u64 - offset {
            return Err(ResourceError::InvalidUsage);
        }
        let ghost olds = self.items@;
        let mut r = self.items.remove(id);
        let mut d: Vec<u8> = match r.data {
            Some(d) => d,
            None => {
                proof {
                    assert(false);
                }
                Vec::new()
            },
        };
        let base = offset as usize;
        let ghost d0 = d@;
        let mut k: usize = 0;
        while k < n
            invariant
                k <= n,
                n == bytes@.len(),
                base == offset,
                base + n <= dlen,
                d@.len() == dlen,
                d@.len() == d0.len(),
                forall|m: int| 0 <= m < k ==> d@[base + m] == bytes@[m],
                forall|m: int| 0 <= m < d0.len() && !(base <= m < base + k) ==> d@[m] == d0[m],
            decreases n - k,
        {
            d.set(base + k, bytes[k]);
            k = k + 1;
        }
        r.data = Some(d);
        let ghost rn = r;
        self.items.insert(id, r);
        proof {
            assert(self.items@ =~= olds.update(id as int, rn));
            assert forall|h: Heaps| #[trigger] old(self).consistent_with(h) implies final(self).consistent_with(h) by {
                assert(alloc_footprint(self.items@) =~= alloc_footprint(olds));
            }
        }
        Ok(())
    }

    /// Record that newly submitted work on `queue`, tagged `epoch`,
    /// references the resource: the record for that queue becomes the larger
    /// of the existing and the new epoch; other queues' records are kept.
    #[verifier::rlimit(100)]
    pub fn record_use(&mut self, id: usize, queue: QueueId, epoch: u64)
        requires
            old(self).wf(),
            id < old(self).items@.len(),
            old(self).items@[id as int].state == ResourceState::Live,
        ensures
            final(self).wf(),
            final(self).items@.len() == old(self).items@.len(),
            forall|i: int|
                0 <= i < old(self).items@.len() && i != id ==> final(self).items@[i] == old(self).items@[i],
            ({
                let ro = old(self).items@[id as int];
                let rn = final(self).items@[id as int];
                &&& rn.kind == ro.kind
                &&& rn.alloc == ro.alloc
                &&& rn.data == ro.data
                &&& rn.state == ro.state
                &&& lu_has(rn.last_use@, queue)
                &&& lu_epoch(rn.last_use@, queue) == if lu_has(ro.last_use@, queue) && lu_epoch(
                    ro.last_use@,
                    queue,
                ) > epoch {
                    lu_epoch(ro.last_use@, queue)
                } else {
                    epoch
                }
                &&& forall|q2: QueueId|
                    q2 != queue ==> #[trigger] lu_has(rn.last_use@, q2) == lu_has(ro.last_use@, q2)
                &&& forall|q2: QueueId|
                    q2 != queue && lu_has(ro.last_use@, q2) ==> #[trigger] lu_epoch(
                        rn.last_use@,
                        q2,
                    ) == lu_epoch(ro.last_use@, q2)
            }),
            forall|h: Heaps|
                #[trigger] old(self).consistent_with(h) ==> final(self).consistent_with(h),
    {
        let ghost olds = self.items@;
        let mut r = self.items.remove(id);
        let ghost lo = r.last_use@;
        let n = r.last_use.len();
        let mut k: usize = 0;
        let mut found: Option<usize> = None;
        while k < n
            invariant
                k <= n,
                n == r.last_use@.len(),
                lo == r.last_use@,
                match found {
                    None => forall|m: int| 0 <= m < k ==> (#[trigger] lo[m]).queue != queue,
                    Some(j) => j < n && lo[j as int].queue == queue,
                },
            ensures
                lo == r.last_use@,
                n == r.last_use@.len(),
                match found {
                    None => forall|m: int| 0 <= m < n ==> (#[trigger] lo[m]).queue != queue,
                    Some(j) => j < n && lo[j as int].queue == queue,
                },
            decreases n - k,
        {
            if r.last_use[k].queue == queue {
                found = Some(k);
                break ;
            }
            k = k + 1;
        }
        match found {
            Some(j) => {
                let e0 = r.last_use[j].epoch;
                let e1 = if epoch > e0 {
                    epoch
                } else {
                    e0
                };
                r.last_use.set(j, LastUse { queue, epoch: e1 });
                proof {
                    lemma_lu_update(lo, r.last_use@, j as int, queue, e1);
                }
            },
            None => {
                proof {
                    if lu_has(lo, queue) {
                        let m = choose|m: int|
                            0 <= m < lo.len() && (#[trigger] lo[m]).queue == queue;
                        assert(false);
                    }
                }
                r.last_use.push(LastUse { queue, epoch });
                proof {
                    lemma_lu_push(lo, r.last_use@, queue, epoch);
                }
            },
        }
        let ghost rn = r;
        self.items.insert(id, r);
        proof {
            assert(self.items@ =~= olds.update(id as int, rn));
            assert forall|h: Heaps| #[trigger] old(self).consistent_with(h) implies final(self).consistent_with(h) by {
                assert(alloc_footprint(self.items@) =~= alloc_footprint(olds));
            }
        }
    }
    /// Free the backing of entry `id` and mark it a tombstone.  Every other
    /// entry and every unrelated heap stays untouched.
    #[verifier::rlimit(100)]
    fn release(&mut self, heaps: &mut Heaps, id: usize)
        requires
            old(self).wf(),
            old(heaps).wf(),
            old(self).consistent_with(*old(heaps)),
            id < old(self).items@.len(),
            old(self).items@[id as int].state != ResourceState::Freed,
        ensures
            final(self).wf(),
            final(heaps).wf(),
            final(self).consistent_with(*final(heaps)),
            final(self).items@.len() == old(self).items@.len(),
            forall|i: int|
                0 <= i < old(self).items@.len() && i != id ==> final(self).items@[i] == old(self).items@[i],
            final(self).items@[id as int] == (Resource {
                kind: old(self).items@[id as int].kind,
                alloc: None,
                data: None,
                last_use: old(self).items@[id as int].last_use,
                state: ResourceState::Freed,
            }),
            final(heaps).heaps@.len() == old(heaps).heaps@.len(),
            forall|h: int|
                0 <= h < old(heaps).heaps@.len() ==> (#[trigger] final(heaps).heaps@[h]).total
                    == old(heaps).heaps@[h].total && final(heaps).heaps@[h].flags == old(heaps).heaps@[h].flags,
            forall|h: int, b: crate::heap::Block|
                0 <= h < old(heaps).heaps@.len() && (#[trigger] final(heaps).heaps@[h].block_live(
                    b,
                )) ==> old(heaps).heaps@[h].block_live(b),
            ({
                let ro = old(self).items@[id as int];
                if ro.alloc is Some {
                    &&& heap_free_rel(
                        old(heaps).heaps@[ro.alloc->0.heap as int],
                        final(heaps).heaps@[ro.alloc->0.heap as int],
                        ro.alloc->0.offset,
                        ro.alloc->0.size,
                    )
                    &&& forall|h: int|
                        0 <= h < old(heaps).heaps@.len() && h != ro.alloc->0.heap ==> final(heaps).heaps@[h] == old(heaps).heaps@[h]
                } else {
                    *final(heaps) == *old(heaps)
                }
            }),
    {
        let ghost olds = self.items@;
        let ghost fpo = alloc_footprint(olds);
        let mut r = self.items.remove(id);
        proof {
            assert(fpo[id as int] == (olds[id as int].state, olds[id as int].alloc));
        }
        match r.alloc {
            Some(a) => {
                proof {
                    assert(entry_backed(fpo[id as int], *old(heaps)));
                }
                heaps.free(a);
            },
            None => {},
        }
        r.alloc = None;
        r.data = None;
        r.state = ResourceState::Freed;
        let ghost rn = r;
        self.items.insert(id, r);
        proof {
            assert(self.items@ =~= olds.update(id as int, rn));
            let fpn = alloc_footprint(self.items@);
            assert(fpn =~= fpo.update(id as int, (ResourceState::Freed, None)));
            let ro = olds[id as int];
            assert forall|i: int| 0 <= i < fpn.len() implies entry_backed(
                #[trigger] fpn[i],
                *heaps,
            ) by {
                if i != id {
                    let e = fpo[i];
                    assert(entry_backed(e, *old(heaps)));
                    if e.0 != ResourceState::Freed && e.1 is Some {
                        let a0 = e.1->0;
                        let hpre = old(heaps).heaps@[a0.heap as int];
                        let hpost = heaps.heaps@[a0.heap as int];
                        let k = choose|k: int|
                            0 <= k < hpre.blocks@.len() && (#[trigger] hpre.blocks@[k]).offset
                                == a0.offset && hpre.blocks@[k].size == a0.size;
                        let b0 = hpre.blocks@[k];
                        assert(hpre.block_live(b0));
                        if ro.alloc is Some && a0.heap == ro.alloc->0.heap {
                            if i < id {
                                assert(!same_block(fpo[i], fpo[id as int]));
                            } else {
                                assert(!same_block(fpo[id as int], fpo[i]));
                            }
                            assert(b0.offset != ro.alloc->0.offset);
                        }
                        assert(hpost.block_live(b0));
                        let m = choose|m: int|
                            0 <= m < hpost.blocks@.len() && hpost.blocks@[m] == b0;
                        assert(hpost.block_live_at(a0.offset, a0.size));
                    }
                }
            }
            assert forall|i: int, j: int|
                #![trigger fpn[i], fpn[j]]
                0 <= i < j < fpn.len() implies !same_block(fpn[i], fpn[j]) by {
                if i != id && j != id {
                    assert(!same_block(fpo[i], fpo[j]));
                }
            }
        }
    }

    /// Request destruction of entry `id`.  An entry never referenced by
    /// submitted work is freed at once; any other is queued, to be freed by a
    /// later cleanup pass once its last uses are proven complete.
    pub fn destroy(&mut self, heaps: &mut Heaps, id: usize)
        requires
            old(self).wf(),
            old(heaps).wf(),
            old(self).consistent_with(*old(heaps)),
            id < old(self).items@.len(),
            old(self).items@[id as int].state == ResourceState::Live,
        ensures
            final(self).wf(),
            final(heaps).wf(),
            final(self).consistent_with(*final(heaps)),
            final(self).items@.len() == old(self).items@.len(),
            forall|i: int|
                0 <= i < old(self).items@.len() && i != id ==> final(self).items@[i] == old(self).items@[i],
            final(self).items@[id as int] == destroy_one(old(self).items@[id as int]),
            final(heaps).heaps@.len() == old(heaps).heaps@.len(),
            ({
                let ro = old(self).items@[id as int];
                if ro.last_use@.len() == 0 && ro.alloc is Some {
                    &&& heap_free_rel(
                        old(heaps).heaps@[ro.alloc->0.heap as int],
                        final(heaps).heaps@[ro.alloc->0.heap as int],
                        ro.alloc->0.offset,
                        ro.alloc->0.size,
                    )
                    &&& forall|h: int|
                        0 <= h < old(heaps).heaps@.len() && h != ro.alloc->0.heap ==> final(heaps).heaps@[h] == old(heaps).heaps@[h]
                } else {
                    *final(heaps) == *old(heaps)
                }
            }),
    {
        let empty = self.items[id].last_use.len() == 0;
        if empty {
            self.release(heaps, id);
        } else {
            let ghost olds = self.items@;
            let ghost fpo = alloc_footprint(olds);
            let mut r = self.items.remove(id);
            r.state = ResourceState::PendingDestroy;
            let ghost rn = r;
            self.items.insert(id, r);
            proof {
                assert(self.items@ =~= olds.update(id as int, rn));
                let fpn = alloc_footprint(self.items@);
                assert forall|i: int| 0 <= i < fpn.len() implies entry_backed(
                    #[trigger] fpn[i],
                    *heaps,
                ) by {
                    assert(entry_backed(fpo[i], *heaps));
                    if i == id {
                        assert(fpn[i].1 == fpo[i].1);
                    }
                }
                assert forall|i: int, j: int|
                    #![trigger fpn[i], fpn[j]]
                    0 <= i < j < fpn.len() implies !same_block(fpn[i], fpn[j]) by {
                    assert(!same_block(fpo[i], fpo[j]));
                    assert(fpn[i].1 == fpo[i].1);
                    assert(fpn[j].1 == fpo[j].1);
                }
            }
        }
    }

    /// One deferred-reclamation pass: every queued entry whose last uses are
    /// all confirmed finished by `complete` is freed; nothing else changes.
    /// Running the pass again under the same snapshot frees nothing further.
    #[verifier::rlimit(100)]
    pub fn cleanup(&mut self, heaps: &mut Heaps, complete: &Epochs)
        requires
            old(self).wf(),
            old(heaps).wf(),
            old(self).consistent_with(*old(heaps)),
        ensures
            final(self).wf(),
            final(heaps).wf(),
            final(self).consistent_with(*final(heaps)),
            final(self).items@.len() == old(self).items@.len(),
            forall|i: int|
                0 <= i < old(self).items@.len() ==> final(self).items@[i] == cleanup_one(
                    old(self).items@[i],
                    *complete,
                ),
            final(heaps).heaps@.len() == old(heaps).heaps@.len(),
            forall|h: int|
                0 <= h < old(heaps).heaps@.len() ==> (#[trigger] final(heaps).heaps@[h]).total
                    == old(heaps).heaps@[h].total && final(heaps).heaps@[h].flags == old(heaps).heaps@[h].flags,
            forall|h: int, b: crate::heap::Block|
                0 <= h < old(heaps).heaps@.len() && (#[trigger] final(heaps).heaps@[h].block_live(
                    b,
                )) ==> old(heaps).heaps@[h].block_live(b),
    {
        let n = self.items.len();
        let mut i: usize = 0;
        while i < n
            invariant
                self.wf(),
                heaps.wf(),
                self.consistent_with(*heaps),
                i <= n,
                n == old(self).items@.len(),
                self.items@.len() == n,
                heaps.heaps@.len() == old(heaps).heaps@.len(),
                forall|k: int| i <= k < n ==> self.items@[k] == old(self).items@[k],
                forall|k: int|
                    0 <= k < i ==> self.items@[k] == cleanup_one(old(self).items@[k], *complete),
                forall|h: int|
                    0 <= h < old(heaps).heaps@.len() ==> (#[trigger] heaps.heaps@[h]).total == old(heaps).heaps@[h].total && heaps.heaps@[h].flags == old(heaps).heaps@[h].flags,
                forall|h: int, b: crate::heap::Block|
                    0 <= h < old(heaps).heaps@.len() && (#[trigger] heaps.heaps@[h].block_live(b))
                        ==> old(heaps).heaps@[h].block_live(b),
            decreases n - i,
        {
            let pending = matches!(self.items[i].state, ResourceState::PendingDestroy);
            if pending {
                let cleared = all_cleared(&self.items[i].last_use, complete);
                if cleared {
                    let ghost pre = *heaps;
                    self.release(heaps, i);
                    proof {
                        assert forall|h: int, b: crate::heap::Block|
                            0 <= h < old(heaps).heaps@.len() && (
                            #[trigger] heaps.heaps@[h].block_live(b)) implies old(heaps).heaps@[h].block_live(b) by {
                            assert(pre.heaps@[h].block_live(b));
                        }
                    }
                }
            }
            i = i + 1;
        }
    }
}

/// Runtime check for `lu_all_cleared`.
pub fn all_cleared(lu: &Vec<LastUse>, complete: &Epochs) -> (r: bool)
    ensures
        r == lu_all_cleared(lu@, *complete),
{
    let n = lu.len();
    let mut k: usize = 0;
    while k < n
        invariant
            k <= n,
            n == lu@.len(),
            forall|m: int|
                0 <= m < k ==> complete.clears((#[trigger] lu@[m]).queue, lu@[m].epoch),
        decreases n - k,
    {
        let rec = lu[k];
        if !complete.check_clears(rec.queue, rec.epoch) {
            return false;
        }
        k = k + 1;
    }
    true
}

/// No premature free: a resource whose record for queue `q` is not yet
/// confirmed finished is left completely untouched by a cleanup pass; in
/// particular its memory is not released.
pub proof fn lemma_no_premature_free(r: Resource, complete: Epochs, q: QueueId, e: u64)
    requires
        lu_unique(r.last_use@),
        lu_has(r.last_use@, q),
        lu_epoch(r.last_use@, q) == e,
        !complete.clears(q, e),
    ensures
        cleanup_one(r, complete) == r,
{
    if r.state == ResourceState::PendingDestroy && lu_all_cleared(r.last_use@, complete) {
        let k = choose|k: int|
            0 <= k < r.last_use@.len() && (#[trigger] r.last_use@[k]).queue == q;
        assert(complete.clears(r.last_use@[k].queue, r.last_use@[k].epoch));
        assert(false);
    }
}

/// Eventual reclamation: once every queue that referenced a queued resource
/// has confirmed completion past its last use, the next cleanup pass frees
/// it.
pub proof fn lemma_eventual_reclamation(r: Resource, complete: Epochs)
    requires
        r.state == ResourceState::PendingDestroy,
        lu_all_cleared(r.last_use@, complete),
    ensures
        cleanup_one(r, complete).state == ResourceState::Freed,
        cleanup_one(r, complete).alloc is None,
{
}

/// Idempotent cleanup: a second pass under an unchanged completion snapshot
/// frees nothing the first did not already free.
pub proof fn lemma_cleanup_idempotent(r: Resource, complete: Epochs)
    ensures
        cleanup_one(cleanup_one(r, complete), complete) == cleanup_one(r, complete),
{
}

/// Cross-queue holdout: a resource referenced by two queues is kept as long
/// as either queue's completed epoch is still behind its last use there,
/// even if the other queue has fully caught up.
pub proof fn lemma_cross_queue_holdout(r: Resource, complete: Epochs, qa: QueueId, qb: QueueId)
    requires
        lu_unique(r.last_use@),
        lu_has(r.last_use@, qa),
        lu_has(r.last_use@, qb),
        complete.clears(qa, lu_epoch(r.last_use@, qa)),
        !complete.clears(qb, lu_epoch(r.last_use@, qb)),
    ensures
        cleanup_one(r, complete) == r,
{
    lemma_no_premature_free(r, complete, qb, lu_epoch(r.last_use@, qb));
}

/// Updating the record at `j` (which was for `queue`) to a new epoch keeps
/// all other queues' records and their uniqueness.
proof fn lemma_lu_update(lo: Seq<LastUse>, ln: Seq<LastUse>, j: int, queue: QueueId, e1: u64)
    requires
        lu_unique(lo),
        0 <= j < lo.len(),
        lo[j].queue == queue,
        ln == lo.update(j, LastUse { queue, epoch: e1 }),
    ensures
        lu_unique(ln),
        lu_has(ln, queue),
        lu_has(lo, queue),
        lu_epoch(ln, queue) == e1,
        lu_epoch(lo, queue) == lo[j].epoch,
        forall|q2: QueueId| q2 != queue ==> #[trigger] lu_has(ln, q2) == lu_has(lo, q2),
        forall|q2: QueueId|
            q2 != queue && lu_has(lo, q2) ==> #[trigger] lu_epoch(ln, q2) == lu_epoch(lo, q2),
{
    assert(ln[j].queue == queue);
    assert forall|k1: int, k2: int|
        #![trigger ln[k1], ln[k2]]
        0 <= k1 < k2 < ln.len() implies ln[k1].queue != ln[k2].queue by {
        assert(lo[k1].queue != lo[k2].queue);
    }
    let kc = choose|k: int| 0 <= k < ln.len() && (#[trigger] ln[k]).queue == queue;
    assert(kc == j || lo[kc].queue == queue);
    assert(kc == j);
    let ko = choose|k: int| 0 <= k < lo.len() && (#[trigger] lo[k]).queue == queue;
    assert(ko == j);
    assert forall|q2: QueueId| q2 != queue implies #[trigger] lu_has(ln, q2) == lu_has(lo, q2) by {
        if lu_has(lo, q2) {
            let k = choose|k: int| 0 <= k < lo.len() && (#[trigger] lo[k]).queue == q2;
            assert(ln[k].queue == q2);
        }
        if lu_has(ln, q2) {
            let k = choose|k: int| 0 <= k < ln.len() && (#[trigger] ln[k]).queue == q2;
            assert(lo[k].queue == q2);
        }
    }
    assert forall|q2: QueueId| q2 != queue && lu_has(lo, q2) implies #[trigger] lu_epoch(ln, q2)
        == lu_epoch(lo, q2) by {
        let k2 = choose|k: int| 0 <= k < lo.len() && (#[trigger] lo[k]).queue == q2;
        assert(k2 != j);
        assert(ln[k2].queue == q2);
        assert(lu_has(ln, q2));
        let k1 = choose|k: int| 0 <= k < ln.len() && (#[trigger] ln[k]).queue == q2;
        assert(k1 != j);
        assert(lo[k1].queue == q2);
        assert(k1 == k2);
        assert(lu_epoch(ln, q2) == ln[k1].epoch);
        assert(lu_epoch(lo, q2) == lo[k2].epoch);
    }
}

/// Appending a record for a queue that had none keeps all other queues'
/// records and their uniqueness.
proof fn lemma_lu_push(lo: Seq<LastUse>, ln: Seq<LastUse>, queue: QueueId, epoch: u64)
    requires
        lu_unique(lo),
        !lu_has(lo, queue),
        ln == lo.push(LastUse { queue, epoch }),
    ensures
        lu_unique(ln),
        lu_has(ln, queue),
        lu_epoch(ln, queue) == epoch,
        forall|q2: QueueId| q2 != queue ==> #[trigger] lu_has(ln, q2) == lu_has(lo, q2),
        forall|q2: QueueId|
            q2 != queue && lu_has(lo, q2) ==> #[trigger] lu_epoch(ln, q2) == lu_epoch(lo, q2),
{
    let j = lo.len() as int;
    assert(ln[j].queue == queue);
    assert forall|k1: int, k2: int|
        #![trigger ln[k1], ln[k2]]
        0 <= k1 < k2 < ln.len() implies ln[k1].queue != ln[k2].queue by {
        if k2 < j {
            assert(lo[k1].queue != lo[k2].queue);
        } else {
            assert(ln[k1] == lo[k1]);
            if ln[k1].queue == queue {
                assert(lu_has(lo, queue));
            }
        }
    }
    let kc = choose|k: int| 0 <= k < ln.len() && (#[trigger] ln[k]).queue == queue;
    if kc != j {
        assert(lo[kc].queue == queue);
        assert(lu_has(lo, queue));
    }
    assert forall|q2: QueueId| q2 != queue implies #[trigger] lu_has(ln, q2) == lu_has(lo, q2) by {
        if lu_has(lo, q2) {
            let k = choose|k: int| 0 <= k < lo.len() && (#[trigger] lo[k]).queue == q2;
            assert(ln[k].queue == q2);
        }
        if lu_has(ln, q2) {
            let k = choose|k: int| 0 <= k < ln.len() && (#[trigger] ln[k]).queue == q2;
            assert(k != j);
            assert(lo[k].queue == q2);
        }
    }
    assert forall|q2: QueueId| q2 != queue && lu_has(lo, q2) implies #[trigger] lu_epoch(ln, q2)
        == lu_epoch(lo, q2) by {
        let k2 = choose|k: int| 0 <= k < lo.len() && (#[trigger] lo[k]).queue == q2;
        assert(ln[k2] == lo[k2]);
        assert(lu_has(ln, q2));
        let k1 = choose|k: int| 0 <= k < ln.len() && (#[trigger] ln[k]).queue == q2;
        assert(k1 != j);
        assert(lo[k1].queue == q2);
        assert(k1 == k2);
        assert(lu_epoch(ln, q2) == ln[k1].epoch);
        assert(lu_epoch(lo, q2) == lo[k2].epoch);
    }
}

/// Multiply two sizes, refusing results beyond the address space.
pub fn checked_mul_u64(a: u64, b: u64) -> (r: Option<u64>)
    ensures
        r is Some <==> a as int * b as int <= u64::MAX as int,
        r is Some ==> r->0 == a as int * b as int,
{
    if a == 0 {
        proof {
            assert(a as int * b as int == 0) by (nonlinear_arith)
                requires
                    a == 0,
            ;
        }
        Some(0)
    } else {
        let q = u64::MAX / a;
        proof {
            vstd::arithmetic::div_mod::lemma_fundamental_div_mod(u64::MAX as int, a as int);
        }
        if b <= q {
            proof {
                assert(a as int * b as int <= u64::MAX as int) by (nonlinear_arith)
                    requires
                        1 <= a,
                        b <= q,
                        u64::MAX as int == a as int * (q as int) + (u64::MAX as int % a as int),
                        0 <= u64::MAX as int % a as int,
                ;
            }
            Some(a * b)
        } else {
            proof {
                assert(a as int * b as int > u64::MAX as int) by (nonlinear_arith)
                    requires
                        1 <= a,
                        b >= q + 1,
                        u64::MAX as int == a as int * (q as int) + (u64::MAX as int % a as int),
                        (u64::MAX as int % a as int) < a as int,
                ;
            }
            None
        }
    }
}

/// A vector of `n` zero bytes.
pub fn zero_bytes(n: usize) -> (v: Vec<u8>)
    ensures
        v@.len() == n,
        forall|k: int| 0 <= k < n ==> v@[k] == 0u8,
{
    let mut v: Vec<u8> = Vec::new();
    let mut i: usize = 0;
    while i < n
        invariant
            i <= n,
            v@.len() == i,
            forall|k: int| 0 <= k < i ==> v@[k] == 0u8,
        decreases n - i,
    {
        v.push(0u8);
        i = i + 1;
    }
    v
}

} // verus!
