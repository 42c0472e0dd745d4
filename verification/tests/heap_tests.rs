use rendy_factory::error::ResourceError;
use rendy_factory::heap::{HeapConfig, HeapFlags, Heaps, MemoryUsage};

fn flags(host_visible: bool, device_local: bool) -> HeapFlags {
    HeapFlags { host_visible, device_local, lazily_allocated: false }
}

fn heaps(configs: &[(u64, HeapFlags)]) -> Heaps {
    let v: Vec<HeapConfig> = configs.iter().map(|&(size, flags)| HeapConfig { size, flags }).collect();
    Heaps::new(&v)
}

#[test]
fn allocate_selects_matching_heap() {
    let mut h = heaps(&[(1024, flags(false, true)), (1024, flags(true, false))]);
    let a = h.allocate(MemoryUsage::Data, 64, 4).unwrap();
    assert_eq!(a.heap, 0);
    assert!(!a.host_visible);
    let b = h.allocate(MemoryUsage::Upload, 64, 4).unwrap();
    assert_eq!(b.heap, 1);
    assert!(b.host_visible);
    assert_eq!(h.heap_used(0), 64);
    assert_eq!(h.heap_used(1), 64);
}

#[test]
fn allocate_first_fit_reuses_gap() {
    let mut h = heaps(&[(1024, flags(true, true))]);
    let a = h.allocate(MemoryUsage::Data, 256, 1).unwrap();
    let b = h.allocate(MemoryUsage::Data, 256, 1).unwrap();
    assert_eq!(a.offset, 0);
    assert_eq!(b.offset, 256);
    h.free(a);
    assert_eq!(h.heap_used(0), 256);
    let c = h.allocate(MemoryUsage::Data, 128, 1).unwrap();
    assert_eq!(c.offset, 0);
    assert_eq!(h.heap_used(0), 384);
}

#[test]
fn allocate_respects_alignment() {
    let mut h = heaps(&[(4096, flags(true, true))]);
    let a = h.allocate(MemoryUsage::Data, 10, 1).unwrap();
    assert_eq!(a.offset, 0);
    let b = h.allocate(MemoryUsage::Data, 10, 256).unwrap();
    assert_eq!(b.offset, 256);
    assert_eq!(b.offset % 256, 0);
}

#[test]
fn allocate_out_of_memory() {
    let mut h = heaps(&[(100, flags(true, true))]);
    let r = h.allocate(MemoryUsage::Data, 101, 1);
    assert_eq!(r.unwrap_err(), ResourceError::OutOfMemory);
    assert_eq!(h.heap_used(0), 0);
}

#[test]
fn allocate_exact_fill_and_reuse() {
    let mut h = heaps(&[(256, flags(true, true))]);
    let a = h.allocate(MemoryUsage::Data, 256, 1).unwrap();
    assert_eq!(h.heap_used(0), 256);
    assert_eq!(h.allocate(MemoryUsage::Data, 1, 1).unwrap_err(), ResourceError::OutOfMemory);
    h.free(a);
    assert_eq!(h.heap_used(0), 0);
    let b = h.allocate(MemoryUsage::Data, 256, 1).unwrap();
    assert_eq!(b.offset, 0);
}

#[test]
fn tie_break_prefers_heap_holding_same_class() {
    // two host-visible heaps; the small one fills up, pushing an upload
    // allocation into the big one; once the small heap is empty again, new
    // upload allocations still prefer the heap already holding uploads.
    let mut h = heaps(&[(64, flags(true, false)), (1024, flags(true, false))]);
    let u1 = h.allocate(MemoryUsage::Upload, 64, 1).unwrap();
    assert_eq!(u1.heap, 0);
    let u2 = h.allocate(MemoryUsage::Upload, 64, 1).unwrap();
    assert_eq!(u2.heap, 1);
    h.free(u1);
    let u3 = h.allocate(MemoryUsage::Upload, 64, 1).unwrap();
    assert_eq!(u3.heap, 1);
}

#[test]
fn no_matching_heap_is_out_of_memory() {
    // a device-local-only platform cannot serve host-visible staging
    let mut h = heaps(&[(1024, flags(false, true))]);
    let r = h.allocate(MemoryUsage::Upload, 64, 4);
    assert_eq!(r.unwrap_err(), ResourceError::OutOfMemory);
}
