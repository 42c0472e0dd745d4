use vstd::prelude::*;

use crate::error::ResourceError;

verus! {

/// Properties of one physical memory heap.
#[derive(Clone, Copy, Debug, PartialEq, Eq, Structural)]
pub struct HeapFlags {
    /// The CPU can map and write this memory.
    pub host_visible: bool,
    /// The memory is local to the device (fastest for GPU work).
    pub device_local: bool,
    /// Backing pages are committed lazily by the driver.
    pub lazily_allocated: bool,
}

/// Usage policy of an allocation.  It selects which heaps may serve the
/// request, and groups allocations so that a heap keeps serving the class it
/// already holds (less fragmentation pressure across heap kinds).
#[derive(Clone, Copy, Debug, PartialEq, Eq, Structural)]
pub enum MemoryUsage {
    /// Long-lived data read by the device; needs a device-local heap.
    Data,
    /// Host-written staging content; needs a host-visible heap.
    Upload,
    /// Device-written content read back by the host; needs a host-visible heap.
    Download,
}

/// One live sub-allocation inside a heap.
#[derive(Clone, Copy, Debug, PartialEq, Eq, Structural)]
pub struct Block {
    pub offset: u64,
    pub size: u64,
    pub class: MemoryUsage,
}

/// An owned range of heap memory.  Exactly one resource owns it from the
/// moment it is handed out until it is returned with `Heaps::free`.
#[derive(Clone, Copy, Debug)]
pub struct MemoryAllocation {
    /// Index of the owning heap.
    pub heap: usize,
    /// Byte offset of the range inside the heap.
    pub offset: u64,
    /// Byte size of the range.
    pub size: u64,
    /// Whether the owning heap is host-visible (the range can be mapped).
    pub host_visible: bool,
}

/// Sum of the sizes of a sequence of blocks.
pub open spec fn sum_sizes(blocks: Seq<Block>) -> int
    decreases blocks.len(),
{
    if blocks.len() == 0 {
        0
    } else {
        blocks[0].size + sum_sizes(blocks.drop_first())
    }
}

/// Blocks are sorted by offset and pairwise disjoint.
pub open spec fn blocks_disjoint_sorted(blocks: Seq<Block>) -> bool {
    forall|k1: int, k2: int|
        #![trigger blocks[k1], blocks[k2]]
        0 <= k1 < k2 < blocks.len() ==> blocks[k1].offset + blocks[k1].size <= blocks[k2].offset
}

/// Every block is non-empty and lies inside `[0, total)`.
pub open spec fn blocks_bounded(blocks: Seq<Block>, total: int) -> bool {
    forall|k: int|
        0 <= k < blocks.len() ==> 1 <= (#[trigger] blocks[k]).size && blocks[k].offset
            + blocks[k].size <= total
}

/// `b` occurs in `blocks`.
pub open spec fn has_block(blocks: Seq<Block>, b: Block) -> bool {
    exists|k: int| 0 <= k < blocks.len() && blocks[k] == b
}

/// `off` rounded up to the next multiple of `align`.
pub open spec fn align_up(off: int, align: int) -> int {
    if off % align == 0 {
        off
    } else {
        off + align - off % align
    }
}

/// First offset, lowest first, at which a block of `size` bytes aligned to
/// `align` fits into the gaps of `blocks` at or after gap `i`, where
/// `prev_end` is the end of the last block before gap `i`.
pub open spec fn find_fit_from(
    blocks: Seq<Block>,
    i: int,
    prev_end: int,
    total: int,
    size: int,
    align: int,
) -> Option<int>
    decreases blocks.len() - i,
{
    let start = align_up(prev_end, align);
    if i < 0 || i >= blocks.len() {
        if start + size <= total {
            Some(start)
        } else {
            None
        }
    } else {
        if start + size <= blocks[i].offset {
            Some(start)
        } else {
            find_fit_from(blocks, i + 1, blocks[i].offset + blocks[i].size, total, size, align)
        }
    }
}

/// Which heaps may serve an allocation of this usage policy.
pub open spec fn heap_matches(flags: HeapFlags, usage: MemoryUsage) -> bool {
    match usage {
        MemoryUsage::Data => flags.device_local,
        MemoryUsage::Upload => flags.host_visible,
        MemoryUsage::Download => flags.host_visible,
    }
}

/// How a heap changes when a fresh block is carved out of it at `off`: the
/// accounting grows by `size`, the new block is live, and every block that
/// was live stays live at an offset distinct from `off`.
pub open spec fn heap_alloc_rel(
    pre: MemoryHeap,
    post: MemoryHeap,
    off: u64,
    size: u64,
    class: MemoryUsage,
) -> bool {
    &&& post.total == pre.total
    &&& post.flags == pre.flags
    &&& post.used == pre.used + size
    &&& post.block_live(Block { offset: off, size, class })
    &&& forall|b: Block| pre.block_live(b) ==> post.block_live(b) && b.offset != off
    &&& forall|b: Block|
        post.block_live(b) ==> pre.block_live(b) || b == (Block { offset: off, size, class })
}

/// How a heap changes when the block at `offset` is returned: the accounting
/// shrinks by `size` and exactly the blocks at other offsets stay live.
pub open spec fn heap_free_rel(pre: MemoryHeap, post: MemoryHeap, offset: u64, size: u64) -> bool {
    &&& post.total == pre.total
    &&& post.flags == pre.flags
    &&& post.used == pre.used - size
    &&& forall|b: Block| post.block_live(b) <==> (pre.block_live(b) && b.offset != offset)
}

proof fn lemma_sum_nonneg(blocks: Seq<Block>)
    ensures
        sum_sizes(blocks) >= 0,
    decreases blocks.len(),
{
    if blocks.len() > 0 {
        lemma_sum_nonneg(blocks.drop_first());
    }
}

proof fn lemma_sum_insert(blocks: Seq<Block>, i: int, b: Block)
    requires
        0 <= i <= blocks.len(),
    ensures
        sum_sizes(blocks.insert(i, b)) == sum_sizes(blocks) + b.size,
    decreases i,
{
    if i == 0 {
        assert(blocks.insert(0, b).drop_first() =~= blocks);
    } else {
        assert(blocks.insert(i, b).drop_first() =~= blocks.drop_first().insert(i - 1, b));
        lemma_sum_insert(blocks.drop_first(), i - 1, b);
    }
}

proof fn lemma_sum_remove(blocks: Seq<Block>, i: int)
    requires
        0 <= i < blocks.len(),
    ensures
        sum_sizes(blocks.remove(i)) == sum_sizes(blocks) - blocks[i].size,
    decreases i,
{
    if i == 0 {
        assert(blocks.remove(0) =~= blocks.drop_first());
    } else {
        assert(blocks.remove(i).drop_first() =~= blocks.drop_first().remove(i - 1));
        lemma_sum_remove(blocks.drop_first(), i - 1);
    }
}

/// Sorted disjoint blocks that all start at or after `lo` and end by `total`
/// cannot hold more than `total - lo` bytes in sum.
#[verifier::rlimit(50)]
proof fn lemma_sum_packed(blocks: Seq<Block>, lo: int, total: int)
    requires
        blocks_disjoint_sorted(blocks),
        blocks_bounded(blocks, total),
        blocks.len() > 0 ==> lo <= blocks[0].offset,
        lo <= total,
    ensures
        sum_sizes(blocks) <= total - lo,
    decreases blocks.len(),
{
    if blocks.len() > 0 {
        let rest = blocks.drop_first();
        assert forall|k1: int, k2: int|
            #![trigger rest[k1], rest[k2]]
            0 <= k1 < k2 < rest.len() implies rest[k1].offset + rest[k1].size
            <= rest[k2].offset by {
            assert(rest[k1] == blocks[k1 + 1]);
            assert(rest[k2] == blocks[k2 + 1]);
        }
        assert forall|k: int| 0 <= k < rest.len() implies 1 <= (#[trigger] rest[k]).size
            && rest[k].offset + rest[k].size <= total by {
            assert(rest[k] == blocks[k + 1]);
        }
        if rest.len() > 0 {
            assert(rest[0] == blocks[1]);
            assert(blocks[0].offset + blocks[0].size <= blocks[1].offset);
        }
        lemma_sum_packed(rest, blocks[0].offset + blocks[0].size, total);
    }
}

/// `align_up` lands on a multiple of `align`, at or after `off` and less
/// than one whole `align` past it.
proof fn lemma_align_up(off: int, align: int)
    requires
        0 <= off,
        1 <= align,
    ensures
        off <= align_up(off, align) < off + align,
        align_up(off, align) % align == 0,
{
    let r = off % align;
    vstd::arithmetic::div_mod::lemma_fundamental_div_mod(off, align);
    if r != 0 {
        let q = off / align;
        assert(align_up(off, align) == (q + 1) * align) by (nonlinear_arith)
            requires
                off == align * q + r,
                align_up(off, align) == off + align - r,
        ;
        assert((q + 1) * align % align == 0) by (nonlinear_arith)
            requires
                align >= 1,
        ;
    }
}

/// What inserting a fresh block into a gap does to the live set: all old
/// blocks stay (at distinct offsets from the new one), the new block is
/// live, and the accounting grows by exactly its size.
#[verifier::rlimit(100)]
proof fn lemma_insert_block(olds: Seq<Block>, total: int, idx: int, b: Block)
    requires
        blocks_disjoint_sorted(olds),
        blocks_bounded(olds, total),
        0 <= idx <= olds.len(),
        1 <= b.size,
        b.offset + b.size <= total,
        idx > 0 ==> olds[idx - 1].offset + olds[idx - 1].size <= b.offset,
        idx < olds.len() ==> b.offset + b.size <= olds[idx].offset,
    ensures
        blocks_disjoint_sorted(olds.insert(idx, b)),
        blocks_bounded(olds.insert(idx, b), total),
        sum_sizes(olds.insert(idx, b)) == sum_sizes(olds) + b.size,
        sum_sizes(olds) + b.size <= total,
        forall|x: Block|
            has_block(olds, x) ==> has_block(olds.insert(idx, b), x) && x.offset != b.offset,
        forall|x: Block| has_block(olds.insert(idx, b), x) ==> has_block(olds, x) || x == b,
{
    let news = olds.insert(idx, b);
    assert forall|k1: int, k2: int|
        #![trigger news[k1], news[k2]]
        0 <= k1 < k2 < news.len() implies news[k1].offset + news[k1].size <= news[k2].offset by {
        if k2 < idx {
            assert(news[k1] == olds[k1]);
            assert(news[k2] == olds[k2]);
        } else if k2 == idx {
            assert(news[k1] == olds[k1]);
            assert(news[k2] == b);
            if k1 < idx - 1 {
                assert(olds[k1].offset + olds[k1].size <= olds[idx - 1].offset);
                assert(olds[idx - 1].offset + olds[idx - 1].size <= b.offset);
            }
        } else if k1 == idx {
            assert(news[k1] == b);
            assert(news[k2] == olds[k2 - 1]);
            if k2 - 1 > idx {
                assert(olds[idx].offset + olds[idx].size <= olds[k2 - 1].offset);
            }
        } else if k1 < idx {
            assert(news[k1] == olds[k1]);
            assert(news[k2] == olds[k2 - 1]);
            if k1 < idx - 1 {
                assert(olds[k1].offset + olds[k1].size <= olds[idx - 1].offset);
                assert(olds[idx - 1].offset + olds[idx - 1].size <= b.offset);
            }
            if k2 - 1 > idx {
                assert(olds[idx].offset + olds[idx].size <= olds[k2 - 1].offset);
            }
        } else {
            assert(news[k1] == olds[k1 - 1]);
            assert(news[k2] == olds[k2 - 1]);
        }
    }
    assert forall|k: int| 0 <= k < news.len() implies 1 <= (#[trigger] news[k]).size && news[k].offset
        + news[k].size <= total by {
        if k < idx {
            assert(news[k] == olds[k]);
        } else if k > idx {
            assert(news[k] == olds[k - 1]);
        }
    }
    lemma_sum_insert(olds, idx, b);
    lemma_sum_packed(news, 0, total);
    assert forall|x: Block| has_block(olds, x) implies has_block(news, x) && x.offset != b.offset by {
        let k = choose|k: int| 0 <= k < olds.len() && olds[k] == x;
        let k2: int = if k < idx {
            k
        } else {
            k + 1
        };
        assert(news[k2] == x);
        assert(news[idx] == b);
        if k2 < idx {
            assert(news[k2].offset + news[k2].size <= news[idx].offset);
        } else {
            assert(news[idx].offset + news[idx].size <= news[k2].offset);
        }
    }
    assert forall|x: Block| has_block(news, x) implies has_block(olds, x) || x == b by {
        let k = choose|k: int| 0 <= k < news.len() && news[k] == x;
        if k != idx {
            let k2: int = if k < idx {
                k
            } else {
                k - 1
            };
            assert(olds[k2] == x);
        }
    }
}

/// What removing one live block does to the live set: exactly the blocks at
/// other offsets remain, and the accounting shrinks by its size.
#[verifier::rlimit(100)]
proof fn lemma_remove_block(olds: Seq<Block>, total: int, j: int)
    requires
        blocks_disjoint_sorted(olds),
        blocks_bounded(olds, total),
        0 <= j < olds.len(),
    ensures
        blocks_disjoint_sorted(olds.remove(j)),
        blocks_bounded(olds.remove(j), total),
        sum_sizes(olds.remove(j)) == sum_sizes(olds) - olds[j].size,
        sum_sizes(olds) - olds[j].size >= 0,
        forall|x: Block|
            has_block(olds.remove(j), x) ==> has_block(olds, x) && x.offset != olds[j].offset,
        forall|x: Block|
            has_block(olds, x) && x.offset != olds[j].offset ==> has_block(olds.remove(j), x),
{
    let news = olds.remove(j);
    assert forall|k1: int, k2: int|
        #![trigger news[k1], news[k2]]
        0 <= k1 < k2 < news.len() implies news[k1].offset + news[k1].size <= news[k2].offset by {
        let i1: int = if k1 < j {
            k1
        } else {
            k1 + 1
        };
        let i2: int = if k2 < j {
            k2
        } else {
            k2 + 1
        };
        assert(news[k1] == olds[i1]);
        assert(news[k2] == olds[i2]);
    }
    assert forall|k: int| 0 <= k < news.len() implies 1 <= (#[trigger] news[k]).size && news[k].offset
        + news[k].size <= total by {
        if k < j {
            assert(news[k] == olds[k]);
        } else {
            assert(news[k] == olds[k + 1]);
        }
    }
    lemma_sum_remove(olds, j);
    lemma_sum_nonneg(news);
    assert forall|x: Block| has_block(news, x) implies has_block(olds, x) && x.offset != olds[j].offset by {
        let k = choose|k: int| 0 <= k < news.len() && news[k] == x;
        let k2: int = if k < j {
            k
        } else {
            k + 1
        };
        assert(olds[k2] == x);
        if k2 < j {
            assert(olds[k2].offset + olds[k2].size <= olds[j].offset);
        } else {
            assert(olds[j].offset + olds[j].size <= olds[k2].offset);
        }
    }
    assert forall|x: Block| has_block(olds, x) && x.offset != olds[j].offset implies has_block(
        news,
        x,
    ) by {
        let k = choose|k: int| 0 <= k < olds.len() && olds[k] == x;
        let k2: int = if k < j {
            k
        } else {
            k - 1
        };
        assert(news[k2] == x);
    }
}

/// One physical pool of device memory with uniform properties.  Live
/// sub-allocations are kept as sorted, disjoint blocks; `used` mirrors their
/// total size and can never exceed `total`.
#[derive(Debug)]
pub struct MemoryHeap {
    /// Total capacity in bytes.
    pub total: u64,
    /// Memory properties of the pool.
    pub flags: HeapFlags,
    /// Bytes currently allocated; always the sum of the live block sizes.
    pub used: u64,
    /// Live blocks, sorted by offset and pairwise disjoint.
    pub blocks: Vec<Block>,
}

impl MemoryHeap {
    pub open spec fn wf(self) -> bool {
        &&& blocks_disjoint_sorted(self.blocks@)
        &&& blocks_bounded(self.blocks@, self.total as int)
        &&& self.used == sum_sizes(self.blocks@)
        &&& self.used <= self.total
    }

    /// `b` is currently allocated in this heap.
    pub open spec fn block_live(self, b: Block) -> bool {
        has_block(self.blocks@, b)
    }

    /// Some block with exactly this offset and size is currently allocated.
    pub open spec fn block_live_at(self, offset: u64, size: u64) -> bool {
        exists|k: int|
            0 <= k < self.blocks@.len() && (#[trigger] self.blocks@[k]).offset == offset
                && self.blocks@[k].size == size
    }

    /// First-fit placement for a fresh block in this heap.
    pub open spec fn find_fit(self, size: int, align: int) -> Option<int> {
        find_fit_from(self.blocks@, 0, 0, self.total as int, size, align)
    }

    /// Some allocation of this class is currently held by the heap.
    pub open spec fn holds_class(self, class: MemoryUsage) -> bool {
        exists|k: int| 0 <= k < self.blocks@.len() && (#[trigger] self.blocks@[k]).class == class
    }

    pub fn new(total: u64, flags: HeapFlags) -> (h: MemoryHeap)
        ensures
            h.wf(),
            h.total == total,
            h.flags == flags,
            h.used == 0,
            h.blocks@.len() == 0,
            forall|b: Block| !h.block_live(b),
    {
        MemoryHeap { total, flags, used: 0, blocks: Vec::new() }
    }

    /// Scan the gaps for the lowest aligned offset where `size` bytes fit.
    /// Returns the gap index (the insertion position among the live blocks)
    /// together with the chosen offset.
    #[verifier::rlimit(100)]
    fn find_fit_at(&self, size: u64, align: u64) -> (r: Option<(usize, u64)>)
        requires
            self.wf(),
            1 <= size,
            1 <= align,
        ensures
            match r {
                Some(p) => {
                    &&& self.find_fit(size as int, align as int) == Some(p.1 as int)
                    &&& p.0 <= self.blocks@.len()
                    &&& (p.0 > 0 ==> self.blocks@[p.0 - 1].offset + self.blocks@[p.0 - 1].size
                        <= p.1)
                    &&& (p.0 < self.blocks@.len() ==> p.1 + size <= self.blocks@[p.0 as int].offset)
                    &&& p.1 + size <= self.total
                    &&& (p.1 as int) % (align as int) == 0
                },
                None => self.find_fit(size as int, align as int) is None,
            },
    {
        let n = self.blocks.len();
        let mut i: usize = 0;
        let mut prev_end: u64 = 0;
        loop
            invariant
                self.wf(),
                1 <= size,
                1 <= align,
                i <= n,
                n == self.blocks@.len(),
                i == 0 ==> prev_end == 0,
                i > 0 ==> prev_end == self.blocks@[i - 1].offset + self.blocks@[i - 1].size,
                prev_end <= self.total,
                self.find_fit(size as int, align as int) == find_fit_from(
                    self.blocks@,
                    i as int,
                    prev_end as int,
                    self.total as int,
                    size as int,
                    align as int,
                ),
            decreases n - i,
        {
            proof {
                lemma_align_up(prev_end as int, align as int);
            }
            let rem = prev_end % align;
            let start_opt: Option<u64> = if rem == 0 {
                Some(prev_end)
            } else {
                let pad = align - rem;
                if prev_end <= u64::MAX - pad {
                    Some(prev_end + pad)
                } else {
                    None
                }
            };
            let gap_end: u64 = if i < n {
                self.blocks[i].offset
            } else {
                self.total
            };
            match start_opt {
                Some(start) => {
                    assert(start == align_up(prev_end as int, align as int));
                    if size <= gap_end && start <= gap_end - size {
                        return Some((i, start));
                    }
                },
                None => {
                    assert(align_up(prev_end as int, align as int) + size > gap_end);
                },
            }
            if i == n {
                return None;
            }
            let b = self.blocks[i];
            prev_end = b.offset + b.size;
            i = i + 1;
        }
    }

    /// Carve a fresh block of `size` bytes, aligned to `align`, out of the
    /// first gap that can hold it.  Returns the chosen offset, or `None`
    /// exactly when no gap fits.  All previously live blocks stay live and
    /// keep offsets distinct from the new one.
    #[verifier::rlimit(100)]
    pub fn allocate_block(&mut self, size: u64, align: u64, class: MemoryUsage) -> (r: Option<u64>)
        requires
            old(self).wf(),
            1 <= size,
            1 <= align,
        ensures
            final(self).wf(),
            final(self).total == old(self).total,
            final(self).flags == old(self).flags,
            match r {
                Some(off) => {
                    &&& old(self).find_fit(size as int, align as int) == Some(off as int)
                    &&& (off as int) % (align as int) == 0
                    &&& heap_alloc_rel(*old(self), *final(self), off, size, class)
                },
                None => {
                    &&& old(self).find_fit(size as int, align as int) is None
                    &&& *final(self) == *old(self)
                },
            },
    {
        match self.find_fit_at(size, align) {
            None => None,
            Some((idx, off)) => {
                let b = Block { offset: off, size, class };
                proof {
                    lemma_insert_block(self.blocks@, self.total as int, idx as int, b);
                }
                self.blocks.insert(idx, b);
                self.used = self.used + size;
                proof {
                    assert(self.blocks@[idx as int] == b);
                }
                Some(off)
            },
        }
    }

    /// Return the block at `offset` (of `size` bytes) to the heap.  The
    /// caller must name a live block exactly; everything else stays live.
    #[verifier::rlimit(100)]
    pub fn free_block(&mut self, offset: u64, size: u64)
        requires
            old(self).wf(),
            old(self).block_live_at(offset, size),
        ensures
            final(self).wf(),
            heap_free_rel(*old(self), *final(self), offset, size),
    {
        let ghost olds = self.blocks@;
        let ghost w = choose|k: int|
            0 <= k < olds.len() && (#[trigger] olds[k]).offset == offset && olds[k].size == size;
        let n = self.blocks.len();
        let mut j: usize = 0;
        loop
            invariant
                *self == *old(self),
                self.wf(),
                olds == self.blocks@,
                n == olds.len(),
                0 <= w < olds.len(),
                olds[w].offset == offset,
                olds[w].size == size,
                j <= w,
            decreases n - j,
        {
            if self.blocks[j].offset == offset {
                proof {
                    if (j as int) < w {
                        assert(olds[j as int].offset + olds[j as int].size <= olds[w].offset);
                        assert(1 <= olds[j as int].size);
                    }
                    assert(j as int == w);
                    lemma_remove_block(olds, self.total as int, j as int);
                }
                self.blocks.remove(j);
                self.used = self.used - size;
                return ;
            }
            proof {
                assert(olds[j as int] != olds[w]);
            }
            j = j + 1;
        }
    }

    /// Bytes currently allocated from this heap.
    pub fn used(&self) -> (r: u64)
        ensures
            r == self.used,
    {
        self.used
    }

    /// Runtime check for `holds_class`.
    fn has_class(&self, class: MemoryUsage) -> (r: bool)
        ensures
            r == self.holds_class(class),
    {
        let n = self.blocks.len();
        let mut k: usize = 0;
        loop
            invariant
                k <= n,
                n == self.blocks@.len(),
                forall|m: int| 0 <= m < k ==> (#[trigger] self.blocks@[m]).class != class,
            decreases n - k,
        {
            if k == n {
                return false;
            }
            if self.blocks[k].class == class {
                return true;
            }
            k = k + 1;
        }
    }

    /// Runtime check for `heap_matches`.
    fn matches_usage(&self, usage: MemoryUsage) -> (r: bool)
        ensures
            r == heap_matches(self.flags, usage),
    {
        match usage {
            MemoryUsage::Data => self.flags.device_local,
            MemoryUsage::Upload => self.flags.host_visible,
            MemoryUsage::Download => self.flags.host_visible,
        }
    }
}

/// A heap can serve the request: it matches the usage policy and first-fit
/// finds a gap for the requested size and alignment.
pub open spec fn heap_eligible(
    heaps: Seq<MemoryHeap>,
    usage: MemoryUsage,
    size: int,
    align: int,
    i: int,
) -> bool {
    &&& 0 <= i < heaps.len()
    &&& heap_matches(heaps[i].flags, usage)
    &&& heaps[i].find_fit(size, align) is Some
}

/// An eligible heap that already holds allocations of the same class.
pub open spec fn heap_preferred(
    heaps: Seq<MemoryHeap>,
    usage: MemoryUsage,
    size: int,
    align: int,
    i: int,
) -> bool {
    heap_eligible(heaps, usage, size, align, i) && heaps[i].holds_class(usage)
}

/// Lowest index at or after `i` of a heap that can serve the request.
pub open spec fn first_eligible_from(
    heaps: Seq<MemoryHeap>,
    usage: MemoryUsage,
    size: int,
    align: int,
    i: int,
) -> Option<int>
    decreases heaps.len() - i,
{
    if i < 0 || i >= heaps.len() {
        None
    } else if heap_eligible(heaps, usage, size, align, i) {
        Some(i)
    } else {
        first_eligible_from(heaps, usage, size, align, i + 1)
    }
}

/// Lowest index at or after `i` of an eligible heap already holding the
/// requested class.
pub open spec fn first_preferred_from(
    heaps: Seq<MemoryHeap>,
    usage: MemoryUsage,
    size: int,
    align: int,
    i: int,
) -> Option<int>
    decreases heaps.len() - i,
{
    if i < 0 || i >= heaps.len() {
        None
    } else if heap_preferred(heaps, usage, size, align, i) {
        Some(i)
    } else {
        first_preferred_from(heaps, usage, size, align, i + 1)
    }
}

/// The heap an allocation goes to: the first eligible heap already holding
/// the same usage class if one exists, else the first eligible heap.
pub open spec fn chosen_heap_index(
    heaps: Seq<MemoryHeap>,
    usage: MemoryUsage,
    size: int,
    align: int,
) -> Option<int> {
    match first_preferred_from(heaps, usage, size, align, 0) {
        Some(i) => Some(i),
        None => first_eligible_from(heaps, usage, size, align, 0),
    }
}

/// Requested capacity and properties of one heap.
#[derive(Clone, Copy, Debug)]
pub struct HeapConfig {
    pub size: u64,
    pub flags: HeapFlags,
}

/// All physical memory pools of one device.
#[derive(Debug)]
pub struct Heaps {
    pub heaps: Vec<MemoryHeap>,
}

impl Heaps {
    pub open spec fn wf(self) -> bool {
        forall|i: int| 0 <= i < self.heaps@.len() ==> (#[trigger] self.heaps@[i]).wf()
    }

    pub fn new(configs: &Vec<HeapConfig>) -> (r: Heaps)
        ensures
            r.wf(),
            r.heaps@.len() == configs@.len(),
            forall|i: int|
                0 <= i < configs@.len() ==> {
                    &&& (#[trigger] r.heaps@[i]).total == configs@[i].size
                    &&& r.heaps@[i].flags == configs@[i].flags
                    &&& r.heaps@[i].used == 0
                    &&& r.heaps@[i].blocks@.len() == 0
                },
    {
        let mut heaps: Vec<MemoryHeap> = Vec::new();
        let n = configs.len();
        let mut i: usize = 0;
        while i < n
            invariant
                i <= n,
                n == configs@.len(),
                heaps@.len() == i,
                forall|k: int|
                    0 <= k < i ==> {
                        &&& (#[trigger] heaps@[k]).wf()
                        &&& heaps@[k].total == configs@[k].size
                        &&& heaps@[k].flags == configs@[k].flags
                        &&& heaps@[k].used == 0
                        &&& heaps@[k].blocks@.len() == 0
                    },
            decreases n - i,
        {
            let c = configs[i];
            heaps.push(MemoryHeap::new(c.size, c.flags));
            i = i + 1;
        }
        Heaps { heaps }
    }

    /// Select a heap for the request (spec `chosen_heap_index`) and carve a
    /// block out of it.  Succeeds exactly when some heap matching the usage
    /// policy has a gap that fits; failing that, the request is refused with
    /// `OutOfMemory` and nothing changes.
    #[verifier::rlimit(100)]
    pub fn allocate(&mut self, usage: MemoryUsage, size: u64, align: u64) -> (r: Result<
        MemoryAllocation,
        ResourceError,
    >)
        requires
            old(self).wf(),
            1 <= size,
            1 <= align,
        ensures
            final(self).wf(),
            final(self).heaps@.len() == old(self).heaps@.len(),
            match r {
                Ok(a) => {
                    &&& first_eligible_from(old(self).heaps@, usage, size as int, align as int, 0)
                        is Some
                    &&& Some(a.heap as int) == chosen_heap_index(
                        old(self).heaps@,
                        usage,
                        size as int,
                        align as int,
                    )
                    &&& a.heap < old(self).heaps@.len()
                    &&& a.size == size
                    &&& a.host_visible == old(self).heaps@[a.heap as int].flags.host_visible
                    &&& heap_matches(old(self).heaps@[a.heap as int].flags, usage)
                    &&& old(self).heaps@[a.heap as int].find_fit(size as int, align as int)
                        == Some(a.offset as int)
                    &&& (a.offset as int) % (align as int) == 0
                    &&& heap_alloc_rel(
                        old(self).heaps@[a.heap as int],
                        final(self).heaps@[a.heap as int],
                        a.offset,
                        size,
                        usage,
                    )
                    &&& forall|i: int|
                        0 <= i < old(self).heaps@.len() && i != a.heap ==> final(self).heaps@[i]
                            == old(self).heaps@[i]
                },
                Err(e) => {
                    &&& e == ResourceError::OutOfMemory
                    &&& first_eligible_from(old(self).heaps@, usage, size as int, align as int, 0)
                        is None
                    &&& *final(self) == *old(self)
                },
            },
    {
        let ghost s = self.heaps@;
        let n = self.heaps.len();
        let mut fe: Option<usize> = None;
        let mut fp: Option<usize> = None;
        let mut i: usize = 0;
        while i < n
            invariant
                self.wf(),
                s == self.heaps@,
                i <= n,
                n == s.len(),
                1 <= size,
                1 <= align,
                match fe {
                    None => first_eligible_from(s, usage, size as int, align as int, 0)
                        == first_eligible_from(s, usage, size as int, align as int, i as int),
                    Some(j) => first_eligible_from(s, usage, size as int, align as int, 0) == Some(
                        j as int,
                    ) && heap_eligible(s, usage, size as int, align as int, j as int),
                },
                match fp {
                    None => first_preferred_from(s, usage, size as int, align as int, 0)
                        == first_preferred_from(s, usage, size as int, align as int, i as int),
                    Some(j) => first_preferred_from(s, usage, size as int, align as int, 0) == Some(
                        j as int,
                    ) && heap_preferred(s, usage, size as int, align as int, j as int),
                },
                fp is Some ==> fe is Some,
            decreases n - i,
        {
            let h = &self.heaps[i];
            let elig = h.matches_usage(usage) && h.find_fit_at(size, align).is_some();
            if elig {
                if fe.is_none() {
                    fe = Some(i);
                }
                if fp.is_none() && h.has_class(usage) {
                    fp = Some(i);
                }
            }
            i = i + 1;
        }
        let chosen: usize = match fp {
            Some(j) => j,
            None => match fe {
                Some(j) => j,
                None => {
                    return Err(ResourceError::OutOfMemory);
                },
            },
        };
        let mut h = self.heaps.remove(chosen);
        let off_opt = h.allocate_block(size, align, usage);
        let off = match off_opt {
            Some(off) => off,
            None => {
                // unreachable: the chosen heap was eligible, so a gap exists
                proof {
                    assert(false);
                }
                return Err(ResourceError::OutOfMemory);
            },
        };
        let host_visible = h.flags.host_visible;
        self.heaps.insert(chosen, h);
        proof {
            assert(self.heaps@ =~= s.update(chosen as int, self.heaps@[chosen as int]));
        }
        Ok(MemoryAllocation { heap: chosen, offset: off, size, host_visible })
    }

    /// Return an allocation's block to its heap.
    pub fn free(&mut self, a: MemoryAllocation)
        requires
            old(self).wf(),
            a.heap < old(self).heaps@.len(),
            old(self).heaps@[a.heap as int].block_live_at(a.offset, a.size),
        ensures
            final(self).wf(),
            final(self).heaps@.len() == old(self).heaps@.len(),
            heap_free_rel(
                old(self).heaps@[a.heap as int],
                final(self).heaps@[a.heap as int],
                a.offset,
                a.size,
            ),
            forall|i: int|
                0 <= i < old(self).heaps@.len() && i != a.heap ==> final(self).heaps@[i] == old(
                    self,
                ).heaps@[i],
    {
        let ghost s = self.heaps@;
        let mut h = self.heaps.remove(a.heap);
        h.free_block(a.offset, a.size);
        self.heaps.insert(a.heap, h);
        proof {
            assert(self.heaps@ =~= s.update(a.heap as int, self.heaps@[a.heap as int]));
        }
    }

    /// Number of heaps.
    pub fn heap_count(&self) -> (r: usize)
        ensures
            r == self.heaps@.len(),
    {
        self.heaps.len()
    }

    /// Bytes currently allocated from heap `i`.
    pub fn heap_used(&self, i: usize) -> (r: u64)
        requires
            i < self.heaps@.len(),
        ensures
            r == self.heaps@[i as int].used,
    {
        self.heaps[i].used
    }
}

} // verus!
