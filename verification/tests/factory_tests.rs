use rendy_factory::error::ResourceError;
use rendy_factory::factory::Factory;
use rendy_factory::fence::{FenceState, WaitFor};
use rendy_factory::heap::{HeapConfig, HeapFlags, MemoryUsage};
use rendy_factory::queue::QueueId;
use rendy_factory::resource::{
    Format, ImageKind, ResourceKind, ResourceState, SubresourceRange, Swizzle, Tiling, ViewKind,
};
use rendy_factory::upload::{BufferState, ImageExtent, ImageOffset, ImageStateOrLayout, ImageState, SubresourceLayers};

fn flags(host_visible: bool, device_local: bool) -> HeapFlags {
    HeapFlags { host_visible, device_local, lazily_allocated: false }
}

/// One device-local heap, one host-visible heap, one family with one queue.
fn simple_factory() -> Factory {
    let heaps = vec![
        HeapConfig { size: 1 << 20, flags: flags(false, true) },
        HeapConfig { size: 1 << 20, flags: flags(true, false) },
    ];
    let families = vec![1usize];
    Factory::init(&heaps, &families)
}

fn q(family: usize, index: usize) -> QueueId {
    QueueId { family, index }
}

fn rgba8() -> Format {
    Format { block_width: 1, block_height: 1, bits: 32, aspects: 1 }
}

/// Advance the queue's `next` counter until `upto` epochs have been
/// assigned, then confirm `epoch` through a fence.
fn complete_epoch(f: &mut Factory, queue: QueueId, epoch: u64) {
    while f.family(queue.family).queues[queue.index].next <= epoch {
        f.submit(queue);
    }
    let mut fence = f.create_fence(false);
    f.bind_fence(&mut fence, queue, epoch);
    assert!(f.wait_for_fence(&mut fence, true));
    assert_eq!(fence.state, FenceState::Signaled);
}

#[test]
fn deferred_free_follows_completed_epoch() {
    // create a 1024-byte buffer, record its use at epoch 5, and watch the
    // cleanup pass hold it until the completed epoch reaches 5
    let mut f = simple_factory();
    let b = f.create_buffer(4, 1024, MemoryUsage::Data).unwrap();
    let qa = q(0, 0);
    f.record_buffer_use(b, qa, 5);
    f.destroy_buffer(b);
    assert_eq!(f.resources.items[b.0].state, ResourceState::PendingDestroy);

    complete_epoch(&mut f, qa, 4);
    f.cleanup();
    assert_eq!(f.resources.items[b.0].state, ResourceState::PendingDestroy);
    assert_eq!(f.heaps.heap_used(0), 1024);

    complete_epoch(&mut f, qa, 5);
    let used_before = f.heaps.heap_used(0);
    f.cleanup();
    assert_eq!(f.resources.items[b.0].state, ResourceState::Freed);
    assert!(used_before - f.heaps.heap_used(0) >= 1024);
    assert_eq!(f.heaps.heap_used(0), 0);
}

#[test]
fn staging_buffer_lifecycle_ends_with_zero_staging() {
    // upload 64 KiB of image content; a staging buffer appears, is flushed,
    // and once its queue's completed epoch passes its tag it is removed
    let mut f = simple_factory();
    let qa = q(0, 0);
    let img = f
        .create_image(4, ImageKind::D2 { width: 128, height: 128, layers: 1 }, 1, rgba8(), Tiling::Optimal, MemoryUsage::Data)
        .unwrap();
    let content = vec![7u8; 64 * 1024];
    let next = ImageState { queue: qa, access: 2, layout: 1 };
    f.upload_image(
        img,
        128,
        128,
        SubresourceLayers { aspects: 1, level: 0, layer_start: 0, layer_end: 1 },
        ImageOffset { x: 0, y: 0, z: 0 },
        ImageExtent { width: 128, height: 128, depth: 1 },
        &content,
        ImageStateOrLayout::Layout(0),
        next,
    )
    .unwrap();

    // a live staging buffer now exists in host-visible memory
    let staging_id = f.resources.items.len() - 1;
    assert_eq!(f.resources.items[staging_id].kind, ResourceKind::Buffer { usage: MemoryUsage::Upload });
    assert_eq!(f.resources.items[staging_id].state, ResourceState::Live);
    assert_eq!(f.heaps.heap_used(1), 64 * 1024);
    assert_eq!(f.family(0).uploads.pending.len(), 1);

    let ops = f.flush_uploads(0);
    assert_eq!(ops.len(), 1);
    assert_eq!(f.family(0).uploads.pending.len(), 0);
    assert_eq!(f.family(0).uploads.flushed.len(), 1);

    // the copy was tagged with epoch 1; submit it and confirm completion
    complete_epoch(&mut f, qa, 1);
    f.cleanup();
    assert_eq!(f.resources.items[staging_id].state, ResourceState::Freed);
    assert_eq!(f.family(0).uploads.flushed.len(), 0);
    assert_eq!(f.heaps.heap_used(1), 0);
}

#[test]
fn any_wait_advances_only_confirmed_fences() {
    // three queues, three armed fences; only fence #2's status reads true,
    // so only its queue's completed epoch moves
    let heaps = vec![HeapConfig { size: 1 << 16, flags: flags(true, true) }];
    let families = vec![1usize, 1, 1];
    let mut f = Factory::init(&heaps, &families);
    let queues = [q(0, 0), q(1, 0), q(2, 0)];
    let mut fences = Vec::new();
    for &queue in queues.iter() {
        let epoch = f.submit(queue);
        let mut fence = f.create_fence(false);
        f.bind_fence(&mut fence, queue, epoch);
        fences.push(fence);
    }
    let statuses = vec![false, true, false];
    assert!(f.wait_for_fences(&mut fences, WaitFor::Any, true, &statuses));
    assert_eq!(f.family(0).queues[0].completed, 0);
    assert_eq!(f.family(1).queues[0].completed, 1);
    assert_eq!(f.family(2).queues[0].completed, 0);
    assert!(matches!(fences[0].state, FenceState::Armed { .. }));
    assert_eq!(fences[1].state, FenceState::Signaled);
    assert!(matches!(fences[2].state, FenceState::Armed { .. }));
}

#[test]
fn all_wait_advances_every_member() {
    let heaps = vec![HeapConfig { size: 1 << 16, flags: flags(true, true) }];
    let families = vec![2usize];
    let mut f = Factory::init(&heaps, &families);
    let qs = [q(0, 0), q(0, 1)];
    let mut fences = Vec::new();
    for &queue in qs.iter() {
        let epoch = f.submit(queue);
        let mut fence = f.create_fence(false);
        f.bind_fence(&mut fence, queue, epoch);
        fences.push(fence);
    }
    // individual statuses are not consulted under the "all" policy
    let statuses = vec![false, false];
    assert!(f.wait_for_fences(&mut fences, WaitFor::All, true, &statuses));
    assert_eq!(f.family(0).queues[0].completed, 1);
    assert_eq!(f.family(0).queues[1].completed, 1);
    assert_eq!(fences[0].state, FenceState::Signaled);
    assert_eq!(fences[1].state, FenceState::Signaled);
}

#[test]
fn timed_out_wait_changes_nothing() {
    let mut f = simple_factory();
    let qa = q(0, 0);
    let epoch = f.submit(qa);
    let mut fence = f.create_fence(false);
    f.bind_fence(&mut fence, qa, epoch);
    assert!(!f.wait_for_fence(&mut fence, false));
    assert_eq!(f.family(0).queues[0].completed, 0);
    assert!(matches!(fence.state, FenceState::Armed { .. }));
}

#[test]
fn cross_queue_holdout() {
    // a resource referenced by two queues is only reclaimed once both
    // queues' completed epochs clear it
    let heaps = vec![HeapConfig { size: 1 << 16, flags: flags(true, true) }];
    let families = vec![2usize];
    let mut f = Factory::init(&heaps, &families);
    let qa = q(0, 0);
    let qb = q(0, 1);
    let b = f.create_buffer(4, 256, MemoryUsage::Data).unwrap();
    f.record_buffer_use(b, qa, 1);
    f.record_buffer_use(b, qb, 1);
    f.destroy_buffer(b);

    complete_epoch(&mut f, qa, 1);
    f.cleanup();
    assert_eq!(f.resources.items[b.0].state, ResourceState::PendingDestroy);

    complete_epoch(&mut f, qb, 1);
    f.cleanup();
    assert_eq!(f.resources.items[b.0].state, ResourceState::Freed);
}

#[test]
fn cleanup_is_idempotent() {
    let mut f = simple_factory();
    let qa = q(0, 0);
    let b = f.create_buffer(4, 512, MemoryUsage::Data).unwrap();
    f.record_buffer_use(b, qa, 1);
    f.destroy_buffer(b);
    complete_epoch(&mut f, qa, 1);
    f.cleanup();
    assert_eq!(f.resources.items[b.0].state, ResourceState::Freed);
    let used = f.heaps.heap_used(0);
    let completed = f.family(0).queues[0].completed;
    // a second pass under unchanged epoch state frees nothing further
    f.cleanup();
    assert_eq!(f.heaps.heap_used(0), used);
    assert_eq!(f.family(0).queues[0].completed, completed);
    assert_eq!(f.resources.items[b.0].state, ResourceState::Freed);
}

#[test]
fn never_submitted_resource_freed_immediately() {
    let mut f = simple_factory();
    let b = f.create_buffer(4, 512, MemoryUsage::Data).unwrap();
    assert_eq!(f.heaps.heap_used(0), 512);
    f.destroy_buffer(b);
    assert_eq!(f.resources.items[b.0].state, ResourceState::Freed);
    assert_eq!(f.heaps.heap_used(0), 0);
}

#[test]
fn record_use_keeps_per_queue_maximum() {
    let mut f = simple_factory();
    let qa = q(0, 0);
    let b = f.create_buffer(4, 64, MemoryUsage::Data).unwrap();
    f.record_buffer_use(b, qa, 5);
    f.record_buffer_use(b, qa, 3);
    assert_eq!(f.resources.items[b.0].last_use.len(), 1);
    assert_eq!(f.resources.items[b.0].last_use[0].epoch, 5);
    f.record_buffer_use(b, qa, 7);
    assert_eq!(f.resources.items[b.0].last_use.len(), 1);
    assert_eq!(f.resources.items[b.0].last_use[0].epoch, 7);
}

#[test]
fn visible_upload_writes_exact_bytes() {
    let mut f = simple_factory();
    let b = f.create_buffer(4, 8, MemoryUsage::Upload).unwrap();
    f.upload_visible_buffer(b, 2, &vec![9u8, 8, 7]).unwrap();
    let data = f.resources.items[b.0].data.as_ref().unwrap();
    assert_eq!(&data[..], &[0u8, 0, 9, 8, 7, 0, 0, 0]);
}

#[test]
fn visible_upload_rejects_bad_range_and_unmapped() {
    let mut f = simple_factory();
    let b = f.create_buffer(4, 8, MemoryUsage::Upload).unwrap();
    let r = f.upload_visible_buffer(b, 6, &vec![1u8, 2, 3]);
    assert_eq!(r.unwrap_err(), ResourceError::InvalidUsage);
    // a device-local buffer has no mapping
    let d = f.create_buffer(4, 8, MemoryUsage::Data).unwrap();
    let r = f.upload_visible_buffer(d, 0, &vec![1u8]);
    assert_eq!(r.unwrap_err(), ResourceError::InvalidUsage);
}

#[test]
fn buffer_upload_stages_content_and_tags_epochs() {
    let mut f = simple_factory();
    let qa = q(0, 0);
    let b = f.create_buffer(4, 64, MemoryUsage::Data).unwrap();
    let content = vec![3u8; 16];
    let next = BufferState { queue: qa, access: 4 };
    f.upload_buffer(b, 8, &content, None, next).unwrap();

    let staging_id = f.resources.items.len() - 1;
    let staging = &f.resources.items[staging_id];
    assert_eq!(staging.kind, ResourceKind::Buffer { usage: MemoryUsage::Upload });
    assert_eq!(&staging.data.as_ref().unwrap()[..], &content[..]);
    // both the staging buffer and the destination carry the target queue's
    // next epoch (1: nothing was submitted yet)
    assert_eq!(staging.last_use[0].epoch, 1);
    assert_eq!(f.resources.items[b.0].last_use[0].epoch, 1);
    assert_eq!(f.family(0).uploads.pending.len(), 1);
    assert_eq!(f.family(0).uploads.pending[0].staging.0, staging_id);
}

#[test]
fn image_upload_rejects_mismatched_region() {
    let mut f = simple_factory();
    let qa = q(0, 0);
    let img = f
        .create_image(4, ImageKind::D2 { width: 8, height: 8, layers: 1 }, 1, rgba8(), Tiling::Optimal, MemoryUsage::Data)
        .unwrap();
    // region covers 8*8*4 = 256 bytes, content has 255
    let r = f.upload_image(
        img,
        8,
        8,
        SubresourceLayers { aspects: 1, level: 0, layer_start: 0, layer_end: 1 },
        ImageOffset { x: 0, y: 0, z: 0 },
        ImageExtent { width: 8, height: 8, depth: 1 },
        &vec![0u8; 255],
        ImageStateOrLayout::Layout(0),
        ImageState { queue: qa, access: 2, layout: 1 },
    );
    assert_eq!(r.unwrap_err(), ResourceError::InvalidUsage);
    assert_eq!(f.family(0).uploads.pending.len(), 0);
    assert_eq!(f.resources.items.len(), 1);
}

#[test]
fn image_size_follows_description() {
    let mut f = simple_factory();
    // 16x16 texels, 4 bytes each, 2 layers, 2 mip levels in the model
    let img = f
        .create_image(4, ImageKind::D2 { width: 16, height: 16, layers: 2 }, 2, rgba8(), Tiling::Optimal, MemoryUsage::Data)
        .unwrap();
    let a = f.resources.items[img.0].alloc.unwrap();
    assert_eq!(a.size, 16 * 16 * 4 * 2 * 2);
    assert_eq!(f.heaps.heap_used(0), a.size);
}

#[test]
fn degenerate_requests_are_invalid_usage() {
    let mut f = simple_factory();
    assert_eq!(f.create_buffer(4, 0, MemoryUsage::Data).unwrap_err(), ResourceError::InvalidUsage);
    assert_eq!(f.create_buffer(0, 16, MemoryUsage::Data).unwrap_err(), ResourceError::InvalidUsage);
    let r = f.create_image(4, ImageKind::D2 { width: 0, height: 4, layers: 1 }, 1, rgba8(), Tiling::Optimal, MemoryUsage::Data);
    assert_eq!(r.unwrap_err(), ResourceError::InvalidUsage);
}

#[test]
fn exhausted_heap_is_out_of_memory() {
    let heaps = vec![HeapConfig { size: 128, flags: flags(true, true) }];
    let mut f = Factory::init(&heaps, &vec![1usize]);
    assert_eq!(f.create_buffer(4, 256, MemoryUsage::Data).unwrap_err(), ResourceError::OutOfMemory);
}

#[test]
fn views_and_samplers_live_without_memory() {
    let mut f = simple_factory();
    let img = f
        .create_image(4, ImageKind::D2 { width: 4, height: 4, layers: 1 }, 1, rgba8(), Tiling::Optimal, MemoryUsage::Data)
        .unwrap();
    let used = f.heaps.heap_used(0);
    let swizzle = Swizzle { r: 0, g: 1, b: 2, a: 3 };
    let whole = SubresourceRange { aspects: 1, level_start: 0, level_count: 1, layer_start: 0, layer_count: 1 };
    let view = f.create_image_view(img, ViewKind::D2, rgba8(), swizzle, whole).unwrap();
    let sampler = f
        .create_sampler(rendy_factory::resource::Filter::Linear, rendy_factory::resource::WrapMode::Clamp)
        .unwrap();
    assert_eq!(f.heaps.heap_used(0), used);
    f.destroy_image_view(view);
    f.destroy_sampler(sampler);
    assert_eq!(f.resources.items[view.0].state, ResourceState::Freed);
    assert_eq!(f.resources.items[sampler.0].state, ResourceState::Freed);
}

#[test]
fn view_range_must_lie_within_image() {
    let mut f = simple_factory();
    let img = f
        .create_image(4, ImageKind::D2 { width: 4, height: 4, layers: 2 }, 3, rgba8(), Tiling::Optimal, MemoryUsage::Data)
        .unwrap();
    let swizzle = Swizzle { r: 0, g: 1, b: 2, a: 3 };
    // levels 1..4 run past the image's 3 levels
    let bad = SubresourceRange { aspects: 1, level_start: 1, level_count: 3, layer_start: 0, layer_count: 1 };
    let r = f.create_image_view(img, ViewKind::D2Array, rgba8(), swizzle, bad);
    assert_eq!(r.unwrap_err(), ResourceError::InvalidUsage);
    let good = SubresourceRange { aspects: 1, level_start: 1, level_count: 2, layer_start: 1, layer_count: 1 };
    assert!(f.create_image_view(img, ViewKind::D2Array, rgba8(), swizzle, good).is_ok());
}

#[test]
fn reset_fences_makes_signaled_fences_reusable() {
    let mut f = simple_factory();
    let qa = q(0, 0);
    let mut fences = vec![f.create_fence(true), f.create_fence(true)];
    f.reset_fences(&mut fences);
    assert_eq!(fences[0].state, FenceState::Reset);
    assert_eq!(fences[1].state, FenceState::Reset);
    let epoch = f.submit(qa);
    f.bind_fence(&mut fences[0], qa, epoch);
    assert!(f.wait_for_fence(&mut fences[0], true));
    assert_eq!(f.family(0).queues[0].completed, epoch);
    f.destroy_fence(fences.pop().unwrap());
}

#[test]
fn buffer_staging_is_retired_after_flush_and_completion() {
    let mut f = simple_factory();
    let qa = q(0, 0);
    let b = f.create_buffer(4, 64, MemoryUsage::Data).unwrap();
    f.upload_buffer(b, 0, &vec![1u8; 32], None, BufferState { queue: qa, access: 4 }).unwrap();
    let staging_id = f.resources.items.len() - 1;
    assert_eq!(f.heaps.heap_used(1), 32);
    let ops = f.flush_uploads(0);
    assert_eq!(ops.len(), 1);
    complete_epoch(&mut f, qa, 1);
    f.cleanup();
    assert_eq!(f.resources.items[staging_id].state, ResourceState::Freed);
    assert_eq!(f.heaps.heap_used(1), 0);
    assert_eq!(f.family(0).uploads.flushed.len(), 0);
}

#[test]
fn unflushed_staging_survives_cleanup() {
    // a pending record's copy is not in the command stream yet, so its
    // staging buffer must not be retired even if its epoch has completed
    let mut f = simple_factory();
    let qa = q(0, 0);
    let b = f.create_buffer(4, 64, MemoryUsage::Data).unwrap();
    f.upload_buffer(b, 0, &vec![1u8; 32], None, BufferState { queue: qa, access: 4 }).unwrap();
    let staging_id = f.resources.items.len() - 1;
    complete_epoch(&mut f, qa, 1);
    f.cleanup();
    assert_eq!(f.resources.items[staging_id].state, ResourceState::Live);
    assert_eq!(f.family(0).uploads.pending.len(), 1);
    assert_eq!(f.heaps.heap_used(1), 32);
}

#[test]
fn epoch_snapshots_mirror_the_ledger() {
    let heaps = vec![HeapConfig { size: 1 << 16, flags: flags(true, true) }];
    let mut f = Factory::init(&heaps, &vec![2usize, 1]);
    f.submit(q(0, 1));
    f.submit(q(0, 1));
    complete_epoch(&mut f, q(0, 1), 2);
    let next = f.next_epochs();
    let complete = f.complete_epochs();
    assert_eq!(next.values, vec![vec![1, 3], vec![1]]);
    assert_eq!(complete.values, vec![vec![0, 2], vec![0]]);
}

#[test]
fn epoch_counters_are_monotone() {
    let mut f = simple_factory();
    let qa = q(0, 0);
    let e1 = f.submit(qa);
    let e2 = f.submit(qa);
    assert_eq!(e1, 1);
    assert_eq!(e2, 2);
    assert!(f.family(0).queues[0].completed <= f.family(0).queues[0].next);
    complete_epoch(&mut f, qa, 2);
    complete_epoch(&mut f, qa, 1);
    // confirming an older epoch never moves completed backwards
    assert_eq!(f.family(0).queues[0].completed, 2);
    assert!(f.family(0).queues[0].completed <= f.family(0).queues[0].next);
}
