use capnp::memory::pool::{DeallocPlan, SegmentGrant, SegmentRelease};
use capnp::memory::{
    FixedSizePool, MemoryPool, PoolConfig, PoolError, VariableSizePool,
};

/// Where the heap would have put a granted segment.
fn address_of(grant: SegmentGrant, fresh: usize) -> usize {
    match grant {
        SegmentGrant::Reused { addr, .. } => addr,
        SegmentGrant::Heap { .. } => fresh,
    }
}

#[test]
fn test_fixed_size_pool_allocation() {
    let mut pool = MemoryPool::new_fixed_size(1024, 10);

    // Test allocation
    let grant = pool.allocate_segment(512);
    let (ptr, size) = (address_of(grant, 0x1000), grant.size());
    assert_eq!(size, 1024); // Should round up to pool size

    // Test deallocation
    pool.deallocate_segment(ptr, size, 512, 0);

    // Test reuse
    let grant2 = pool.allocate_segment(256);
    let size2 = grant2.size();
    assert_eq!(size2, 1024);

    let metrics = pool.get_metrics();
    assert_eq!(metrics.pool_hits, 1);
    assert_eq!(metrics.pool_misses, 1);
}

#[test]
fn test_variable_size_pool() {
    let size_classes = vec![256, 512, 1024];
    let mut pool = MemoryPool::new_variable_size(size_classes, 5);

    // Test different size allocations
    let g1 = pool.allocate_segment(200); // Should use 256 class
    let g2 = pool.allocate_segment(600); // Should use 1024 class
    let (ptr1, size1) = (address_of(g1, 0x1000), g1.size());
    let (ptr2, size2) = (address_of(g2, 0x2000), g2.size());

    assert_eq!(size1, 256);
    assert_eq!(size2, 1024);

    // Test deallocation and reuse
    pool.deallocate_segment(ptr1, size1, 200, 0);
    pool.deallocate_segment(ptr2, size2, 600, 0);

    let g3 = pool.allocate_segment(300); // Should reuse 256 class
    let size3 = g3.size();
    assert_eq!(size3, 256);

    let metrics = pool.get_metrics();
    assert_eq!(metrics.pool_hits, 1);
}

#[test]
fn empty_class_borrows_from_first_stocked_class() {
    let mut pool = VariableSizePool::new(vec![256, 512, 1024], 5);
    pool.deallocate_segment(0x1000, 256, 0).unwrap();
    pool.deallocate_segment(0x2000, 1024, 0).unwrap();
    // The 512 class is empty; the first class with a free segment lends it.
    assert_eq!(pool.allocate_segment(300), SegmentGrant::Reused { addr: 0x1000, size: 256 });
    // Now the first stocked class is the 1024 one.
    assert_eq!(pool.allocate_segment(300), SegmentGrant::Reused { addr: 0x2000, size: 1024 });
    // Nothing is free any more: the 512 class asks the heap.
    assert_eq!(pool.allocate_segment(300), SegmentGrant::Heap { size: 512 });
    let m = pool.get_metrics();
    assert_eq!((m.pool_hits, m.pool_misses, m.current_pool_size), (2, 1, 0));
}

#[test]
fn test_pool_metrics() {
    let mut pool = MemoryPool::new_fixed_size(512, 5);

    for _ in 0..3 {
        let grant = pool.allocate_segment(256);
        let ptr = address_of(grant, 0x2000);
        pool.deallocate_segment(ptr, 512, 256, 0);
    }

    let metrics = pool.get_metrics();
    assert!(metrics.pool_hits > 0);
    assert!(metrics.pool_misses > 0);
    let hit_rate = metrics.pool_hits as f32 / (metrics.pool_hits + metrics.pool_misses) as f32;
    assert!(hit_rate > 0.0);
}

#[test]
fn reuse_returns_the_released_address() {
    let mut pool = MemoryPool::new_fixed_size(64, 4);
    assert_eq!(pool.allocate_segment(10), SegmentGrant::Heap { size: 64 });
    let plan = pool.deallocate_segment(0x4000, 64, 10, 5);
    assert_eq!(plan, DeallocPlan { release: SegmentRelease::Pooled, reset_heap: true });
    assert_eq!(pool.allocate_segment(64), SegmentGrant::Reused { addr: 0x4000, size: 64 });
    assert_eq!(pool.allocate_segment(64), SegmentGrant::Heap { size: 64 });
}

#[test]
fn last_released_is_first_reused() {
    let mut pool = FixedSizePool::new(16, 8);
    assert_eq!(pool.deallocate_segment(0x100, 16, 0), Ok(SegmentRelease::Pooled));
    assert_eq!(pool.deallocate_segment(0x200, 16, 0), Ok(SegmentRelease::Pooled));
    assert_eq!(pool.allocate_segment(1), SegmentGrant::Reused { addr: 0x200, size: 16 });
    assert_eq!(pool.allocate_segment(1), SegmentGrant::Reused { addr: 0x100, size: 16 });
    let m = pool.get_metrics();
    assert_eq!((m.pool_hits, m.pool_misses, m.current_pool_size, m.max_pool_size), (2, 0, 0, 2));
}

#[test]
fn oversized_request_goes_to_heap_as_is() {
    let mut pool = FixedSizePool::new(16, 8);
    pool.deallocate_segment(0x100, 16, 0).unwrap();
    assert_eq!(pool.allocate_segment(17), SegmentGrant::Heap { size: 17 });
    assert_eq!(pool.get_metrics().pool_misses, 1);
    assert_eq!(pool.get_metrics().current_pool_size, 1);
}

#[test]
fn invalid_segments_are_refused() {
    let mut pool = FixedSizePool::new(16, 8);
    assert_eq!(pool.deallocate_segment(0, 16, 0), Err(PoolError::InvalidSegment));
    assert_eq!(pool.deallocate_segment(0x101, 16, 0), Err(PoolError::AlignmentError));
    assert_eq!(pool.deallocate_segment(0x100, 0, 0), Err(PoolError::SegmentTooLarge(0)));
    assert_eq!(
        pool.deallocate_segment(0x100, (1 << 20) + 1, 0),
        Err(PoolError::SegmentTooLarge((1 << 20) + 1))
    );
    assert_eq!(pool.get_metrics().current_pool_size, 0);
}

#[test]
fn foreign_size_goes_to_heap() {
    let mut pool = FixedSizePool::new(16, 8);
    assert_eq!(pool.deallocate_segment(0x100, 32, 0), Ok(SegmentRelease::ToHeap));
    assert_eq!(pool.get_metrics().current_pool_size, 0);
}

#[test]
fn full_pool_sends_to_heap_and_saves_nothing() {
    let mut pool = FixedSizePool::new(16, 1);
    assert_eq!(pool.deallocate_segment(0x100, 16, 0), Ok(SegmentRelease::Pooled));
    assert_eq!(pool.deallocate_segment(0x200, 16, 0), Ok(SegmentRelease::ToHeap));
    let m = pool.get_metrics();
    assert_eq!(m.bytes_saved, 0);
    assert_eq!(m.current_pool_size, 1);
    assert_eq!(m.max_pool_size, 1);
}

#[test]
fn reuse_counts_bytes_saved() {
    let mut pool = FixedSizePool::new(16, 1);
    pool.deallocate_segment(0x100, 16, 0).unwrap();
    assert_eq!(pool.allocate_segment(4), SegmentGrant::Reused { addr: 0x100, size: 16 });
    let m = pool.get_metrics();
    assert_eq!(m.bytes_saved, 128);
    assert_eq!(m.memory_savings(), 128);
}

#[test]
fn cleanup_drops_only_old_segments() {
    let mut pool = FixedSizePool::new(16, 8);
    pool.deallocate_segment(0x100, 16, 0).unwrap();
    pool.deallocate_segment(0x200, 16, 50).unwrap();
    pool.deallocate_segment(0x300, 16, 90).unwrap();
    let dropped = pool.cleanup_old_segments(100, 50);
    assert_eq!(dropped.len(), 1);
    assert_eq!(dropped[0].addr, 0x100);
    assert_eq!(pool.get_metrics().current_pool_size, 2);
    assert_eq!(pool.allocate_segment(1), SegmentGrant::Reused { addr: 0x300, size: 16 });
    assert_eq!(pool.allocate_segment(1), SegmentGrant::Reused { addr: 0x200, size: 16 });
    assert_eq!(pool.allocate_segment(1), SegmentGrant::Heap { size: 16 });
}

#[test]
fn cleanup_treats_future_stamps_as_fresh() {
    let mut pool = FixedSizePool::new(16, 8);
    pool.deallocate_segment(0x100, 16, 500).unwrap();
    assert!(pool.cleanup_old_segments(100, 0).is_empty());
    assert_eq!(pool.get_metrics().current_pool_size, 1);
}

#[test]
fn variable_pool_uses_first_fitting_class() {
    let mut pool = VariableSizePool::new(vec![256, 512, 1024], 5);
    assert_eq!(pool.allocate_segment(200), SegmentGrant::Heap { size: 256 });
    assert_eq!(pool.allocate_segment(600), SegmentGrant::Heap { size: 1024 });
    assert_eq!(pool.allocate_segment(300), SegmentGrant::Heap { size: 512 });
    assert_eq!(pool.deallocate_segment(0x800, 512, 0), Ok(SegmentRelease::Pooled));
    assert_eq!(pool.allocate_segment(300), SegmentGrant::Reused { addr: 0x800, size: 512 });
    assert_eq!(pool.allocate_segment(5000), SegmentGrant::Heap { size: 5000 });
    let m = pool.get_metrics();
    assert_eq!(m.pool_hits, 1);
    // Every request counts, the one too large for every class too.
    assert_eq!(m.pool_misses, 4);
}

#[test]
fn variable_pool_release_of_unclassed_size_goes_to_heap() {
    let mut pool = VariableSizePool::new(vec![8, 16], 2);
    assert_eq!(pool.deallocate_segment(0x100, 32, 0), Ok(SegmentRelease::ToHeap));
    assert_eq!(pool.deallocate_segment(0x100, 12, 0), Ok(SegmentRelease::ToHeap));
    assert_eq!(pool.get_metrics().current_pool_size, 0);
}

#[test]
fn memory_pool_variable_size_reuse() {
    let mut pool = MemoryPool::new_variable_size(vec![256, 512, 1024], 5);
    let g1 = pool.allocate_segment(200);
    let g2 = pool.allocate_segment(600);
    assert_eq!(g1.size(), 256);
    assert_eq!(g2.size(), 1024);
    pool.deallocate_segment(0x1000, 256, 200, 0);
    pool.deallocate_segment(0x2000, 1024, 600, 0);
    // 100 words fit the 256-word class, whose freed segment is reused.
    assert_eq!(pool.allocate_segment(100), SegmentGrant::Reused { addr: 0x1000, size: 256 });
    assert_eq!(pool.get_metrics().pool_hits, 1);
}

#[test]
fn refused_release_falls_back_to_heap() {
    let mut pool = MemoryPool::new_fixed_size(64, 4);
    let plan = pool.deallocate_segment(0x7, 64, 1, 0);
    assert_eq!(plan.release, SegmentRelease::ToHeap);
    assert_eq!(pool.get_metrics().current_pool_size, 0);
}

#[test]
fn no_pooling_config_sends_everything_to_heap() {
    let config = PoolConfig {
        max_pool_size: 4,
        fixed_segment_size: None,
        size_classes: None,
        max_segment_age: 10,
        reset_on_deallocate: false,
        adaptive: false,
        thread_local: false,
    };
    let mut pool = MemoryPool::new_with_config(config);
    assert_eq!(pool.allocate_segment(77), SegmentGrant::Heap { size: 77 });
    let plan = pool.deallocate_segment(0x100, 77, 77, 0);
    assert_eq!(plan, DeallocPlan { release: SegmentRelease::ToHeap, reset_heap: false });
    let m = pool.get_metrics();
    assert_eq!((m.pool_hits, m.pool_misses), (0, 1));
    pool.allocate_segment(5);
    assert_eq!(pool.get_metrics().pool_misses, 2);
}

#[test]
fn default_config_values() {
    let c = PoolConfig::default();
    assert_eq!(c.max_pool_size, 1024);
    assert_eq!(c.fixed_segment_size, Some(1024));
    assert!(c.size_classes.is_none());
    assert_eq!(c.max_segment_age, 60_000_000_000);
    assert!(c.reset_on_deallocate);
    assert!(!c.adaptive);
    assert!(!c.thread_local);
}

#[test]
fn default_pool_is_fixed_1024() {
    let mut pool = MemoryPool::new_default();
    assert_eq!(pool.allocate_segment(1), SegmentGrant::Heap { size: 1024 });
    pool.deallocate_segment(0x100, 1024, 1, 0);
    assert_eq!(pool.allocate_segment(1024), SegmentGrant::Reused { addr: 0x100, size: 1024 });
}

#[test]
fn memory_pool_cleanup_uses_configured_age() {
    let mut pool = MemoryPool::new_fixed_size(64, 4);
    pool.deallocate_segment(0x100, 64, 1, 0);
    assert!(pool.cleanup_old_segments(60_000_000_000).is_empty());
    assert_eq!(pool.get_metrics().current_pool_size, 1);
    let dropped = pool.cleanup_old_segments(60_000_000_001);
    assert_eq!(dropped.len(), 1);
    assert_eq!((dropped[0].addr, dropped[0].size), (0x100, 64));
    assert_eq!(pool.get_metrics().current_pool_size, 0);
}

#[test]
fn overflow_checks_report_room() {
    let pool = MemoryPool::new_fixed_size(64, 4);
    assert!(pool.can_allocate(1));
    assert!(pool.metrics_fit());
}

#[test]
fn size_classes_share_the_configured_maximum() {
    let config = PoolConfig {
        max_pool_size: 1,
        fixed_segment_size: None,
        size_classes: Some(vec![8, 16]),
        max_segment_age: 10,
        reset_on_deallocate: true,
        adaptive: false,
        thread_local: false,
    };
    let mut pool = MemoryPool::new_with_config(config);
    assert_eq!(pool.deallocate_segment(0x100, 8, 8, 0).release, SegmentRelease::Pooled);
    assert_eq!(pool.deallocate_segment(0x200, 16, 16, 0).release, SegmentRelease::ToHeap);
    assert_eq!(pool.get_metrics().current_pool_size, 1);
}

#[test]
fn variable_pool_limit_counts_all_classes() {
    let mut pool = VariableSizePool::with_limit(vec![8, 16], 4, 2);
    assert_eq!(pool.deallocate_segment(0x100, 8, 0), Ok(SegmentRelease::Pooled));
    assert_eq!(pool.deallocate_segment(0x200, 16, 0), Ok(SegmentRelease::Pooled));
    assert_eq!(pool.deallocate_segment(0x300, 16, 0), Ok(SegmentRelease::ToHeap));
    assert_eq!(pool.deallocate_segment(0x301, 16, 0), Err(PoolError::AlignmentError));
    assert_eq!(pool.allocate_segment(10), SegmentGrant::Reused { addr: 0x200, size: 16 });
    assert_eq!(pool.deallocate_segment(0x300, 16, 0), Ok(SegmentRelease::Pooled));
    let dropped = pool.cleanup_old_segments(100, 10);
    assert_eq!(dropped.iter().map(|s| s.addr).collect::<Vec<_>>(), vec![0x100, 0x300]);
}
