//! The segment pools.
//!
//! A pool does not touch memory itself. Asked for a segment, it answers with
//! a [`SegmentGrant`]: a free segment it hands back, or the size to ask the
//! heap for. Given a segment back, it answers with a [`SegmentRelease`]: it
//! keeps the segment, or the caller frees it. Segments are named by their
//! address and size in words; times are ticks of the caller's clock.

use vstd::prelude::*;

use crate::memory::model::{
    aggregate, class_of, first_stocked, is_first_fit, is_first_stocked, is_young, segment_validity,
    total_free, ConfigModel,
    FixedPoolModel, MemoryPoolModel, MetricsModel, StrategyModel, VariablePoolModel,
};

verus! {

/// Memory usage statistics for a pooled segment.
#[derive(Debug, Clone, Copy, Default)]
pub struct MemoryUsage {
    pub resident: usize,
    pub virtual_: usize,
    pub heap: usize,
}

/// Why a pool refuses a request.
#[derive(Debug, Clone, Copy, PartialEq, Eq, Structural)]
pub enum PoolError {
    PoolExhausted,
    InvalidSegment,
    SizeMismatch,
    AlignmentError,
    CapacityExceeded(usize),
    SegmentTooLarge(u32),
}

/// The answer to a request for a segment.
#[derive(Debug, Clone, Copy, PartialEq, Eq, Structural)]
pub enum SegmentGrant {
    /// A free segment handed back for reuse.
    Reused { addr: usize, size: u32 },
    /// Nothing free fits: ask the heap for a segment of `size` words.
    Heap { size: u32 },
}

impl SegmentGrant {
    /// The size, in words, of the granted segment.
    pub open spec fn words(self) -> u32 {
        match self {
            SegmentGrant::Reused { size, .. } => size,
            SegmentGrant::Heap { size } => size,
        }
    }

    /// The size, in words, of the granted segment.
    pub fn size(&self) -> (size: u32)
        ensures
            size == self.words(),
    {
        match self {
            SegmentGrant::Reused { size, .. } => *size,
            SegmentGrant::Heap { size } => *size,
        }
    }
}

/// The answer to giving a segment back.
#[derive(Debug, Clone, Copy, PartialEq, Eq, Structural)]
pub enum SegmentRelease {
    /// The pool keeps the segment for reuse.
    Pooled,
    /// The pool does not keep it: the caller frees it.
    ToHeap,
}

/// The answer to giving a segment back to a memory pool.
#[derive(Debug, Clone, Copy, PartialEq, Eq, Structural)]
pub struct DeallocPlan {
    /// What becomes of the segment.
    pub release: SegmentRelease,
    /// Whether the heap allocator is to be reset to its initial state.
    pub reset_heap: bool,
}

/// A free segment kept by a pool.
#[derive(Debug, Clone, Copy, PartialEq, Eq, Structural)]
pub struct PooledSegment {
    /// Its address.
    pub addr: usize,
    /// Its size in words.
    pub size: u32,
    /// When it was given back, in ticks of the caller's clock.
    pub last_used: u64,
    pub generation: u64,
}

impl PooledSegment {
    /// A segment given back at time `now`, of generation zero.
    pub fn new(addr: usize, size: u32, now: u64) -> (s: Self)
        ensures
            s == (PooledSegment { addr, size, last_used: now, generation: 0 }),
    {
        PooledSegment { addr, size, last_used: now, generation: 0 }
    }
}

/// Counters of a pool.
#[derive(Debug, Clone)]
pub struct PoolMetrics {
    /// Allocations served from the pool.
    pub pool_hits: usize,
    /// Allocations that needed new memory.
    pub pool_misses: usize,
    /// Segments now in the pool.
    pub current_pool_size: usize,
    /// The largest number of segments the pool has held.
    pub max_pool_size: usize,
    /// Bytes managed by the pool.
    pub bytes_managed: usize,
    /// Bytes saved through reuse: eight per word of each reused segment.
    pub bytes_saved: usize,
    /// Allocation latency samples, in microseconds.
    pub allocation_latency: Vec<u64>,
}

impl View for PoolMetrics {
    type V = MetricsModel;

    open spec fn view(&self) -> MetricsModel {
        MetricsModel {
            pool_hits: self.pool_hits as nat,
            pool_misses: self.pool_misses as nat,
            current_pool_size: self.current_pool_size as nat,
            max_pool_size: self.max_pool_size as nat,
            bytes_managed: self.bytes_managed as nat,
            bytes_saved: self.bytes_saved as nat,
            allocation_latency: self.allocation_latency@,
        }
    }
}

impl Default for PoolMetrics {
    fn default() -> (m: Self)
        ensures
            m@ == MetricsModel::empty(),
    {
        PoolMetrics {
            pool_hits: 0,
            pool_misses: 0,
            current_pool_size: 0,
            max_pool_size: 0,
            bytes_managed: 0,
            bytes_saved: 0,
            allocation_latency: Vec::new(),
        }
    }
}

/// A copy of `v`.
fn copy_vec<T: Copy>(v: &Vec<T>) -> (r: Vec<T>)
    ensures
        r@ == v@,
{
    let mut r: Vec<T> = Vec::new();
    let mut i: usize = 0;
    while i < v.len()
        invariant
            i <= v@.len(),
            r@ == v@.take(i as int),
        decreases v@.len() - i,
    {
        r.push(v[i]);
        i = i + 1;
        assert(r@ =~= v@.take(i as int));
    }
    assert(v@.take(v@.len() as int) =~= v@);
    r
}

impl PoolMetrics {
    /// The bytes saved through reuse.
    pub fn memory_savings(&self) -> (saved: usize)
        ensures
            saved == self.bytes_saved,
    {
        self.bytes_saved
    }

    /// A copy of these counters.
    pub fn snapshot(&self) -> (m: PoolMetrics)
        ensures
            m@ == self@,
    {
        PoolMetrics {
            pool_hits: self.pool_hits,
            pool_misses: self.pool_misses,
            current_pool_size: self.current_pool_size,
            max_pool_size: self.max_pool_size,
            bytes_managed: self.bytes_managed,
            bytes_saved: self.bytes_saved,
            allocation_latency: copy_vec(&self.allocation_latency),
        }
    }
}

/// A pool of segments of one size.
pub struct FixedSizePool {
    segment_size: u32,
    free_segments: Vec<PooledSegment>,
    capacity: usize,
    metrics: PoolMetrics,
    generation_counter: u64,
}

impl View for FixedSizePool {
    type V = FixedPoolModel;

    closed spec fn view(&self) -> FixedPoolModel {
        FixedPoolModel {
            segment_size: self.segment_size,
            capacity: self.capacity as nat,
            free: self.free_segments@,
            metrics: self.metrics@,
            generation: self.generation_counter,
        }
    }
}

impl FixedSizePool {
    /// An empty pool of segments of `segment_size` words that keeps at most
    /// `capacity` of them.
    pub fn new(segment_size: u32, capacity: usize) -> (pool: Self)
        ensures
            pool@ == FixedPoolModel::new(segment_size, capacity as nat),
            pool@.wf(),
    {
        FixedSizePool {
            segment_size,
            free_segments: Vec::with_capacity(capacity),
            capacity,
            metrics: PoolMetrics::default(),
            generation_counter: 0,
        }
    }

    /// Answers a request for `size` words: the last freed segment when the
    /// request fits and one is free (a hit, whose bytes count as saved by
    /// reuse), otherwise the size to ask the heap for (a miss).
    pub fn allocate_segment(&mut self, size: u32) -> (grant: SegmentGrant)
        requires
            old(self)@.wf(),
            old(self)@.can_allocate(size),
        ensures
            grant == old(self)@.grant(size),
            final(self)@ == old(self)@.after_allocate(size),
            final(self)@.wf(),
    {
        if size > self.segment_size {
            self.metrics.pool_misses = self.metrics.pool_misses + 1;
            return SegmentGrant::Heap { size };
        }
        match self.free_segments.pop() {
            Some(segment) => {
                self.metrics.pool_hits = self.metrics.pool_hits + 1;
                self.metrics.current_pool_size = self.metrics.current_pool_size - 1;
                self.metrics.bytes_saved = self.metrics.bytes_saved + segment.size as usize * 8;
                SegmentGrant::Reused { addr: segment.addr, size: segment.size }
            },
            None => {
                self.metrics.pool_misses = self.metrics.pool_misses + 1;
                SegmentGrant::Heap { size: self.segment_size }
            },
        }
    }

    /// Refuses a null address, an address that is not 8-byte aligned, and a
    /// size of zero or above a million words.
    fn validate_segment(&self, addr: usize, size: u32) -> (r: Result<(), PoolError>)
        ensures
            r == segment_validity(addr, size),
    {
        if addr == 0 {
            return Err(PoolError::InvalidSegment);
        }
        if addr % 8 != 0 {
            return Err(PoolError::AlignmentError);
        }
        if size == 0 || size > 0x10_0000 {
            return Err(PoolError::SegmentTooLarge(size));
        }
        Ok(())
    }

    /// Hands out the last free segment, counting a hit and the segment's
    /// bytes as saved by reuse.
    fn take_segment(&mut self) -> (segment: PooledSegment)
        requires
            old(self)@.wf(),
            old(self)@.free.len() > 0,
            old(self)@.can_take(),
        ensures
            segment == old(self)@.free.last(),
            final(self)@ == old(self)@.after_take(),
            final(self)@.wf(),
    {
        let segment = self.free_segments.pop().unwrap();
        self.metrics.pool_hits = self.metrics.pool_hits + 1;
        self.metrics.current_pool_size = self.metrics.current_pool_size - 1;
        self.metrics.bytes_saved = self.metrics.bytes_saved + segment.size as usize * 8;
        segment
    }

    /// Whether the counters can record handing out the last free segment.
    fn can_take(&self) -> (ok: bool)
        requires
            self@.free.len() > 0,
        ensures
            ok == self@.can_take(),
    {
        let n = self.free_segments.len();
        let extra = self.free_segments[n - 1].size as u64 * 8;
        let limit = usize::MAX as u64;
        self.metrics.pool_hits < usize::MAX && extra <= limit && (self.metrics.bytes_saved as u64)
            <= limit - extra
    }

    /// How many free segments the pool holds.
    fn free_count(&self) -> (n: usize)
        ensures
            n == self@.free.len(),
    {
        self.free_segments.len()
    }

    /// Whether the pool would keep the segment at `addr` of `size` words.
    fn keeps(&self, addr: usize, size: u32) -> (b: bool)
        ensures
            b == (self@.release_result(addr, size) == Ok::<SegmentRelease, PoolError>(
                SegmentRelease::Pooled,
            )),
    {
        match self.validate_segment(addr, size) {
            Ok(_) => size == self.segment_size && self.free_segments.len() < self.capacity,
            Err(_) => false,
        }
    }

    /// Takes back the segment at `addr` of `size` words at time `now`. A
    /// refused segment gives the error; a segment of another size, or one
    /// that finds the pool full, goes to the heap and changes nothing; any
    /// other is kept.
    pub fn deallocate_segment(&mut self, addr: usize, size: u32, now: u64) -> (r: Result<
        SegmentRelease,
        PoolError,
    >)
        requires
            old(self)@.wf(),
        ensures
            r == old(self)@.release_result(addr, size),
            final(self)@ == old(self)@.after_release(addr, size, now),
            final(self)@.wf(),
    {
        match self.validate_segment(addr, size) {
            Err(e) => {
                return Err(e);
            },
            Ok(_) => {},
        }
        if size != self.segment_size {
            return Ok(SegmentRelease::ToHeap);
        }
        if self.free_segments.len() >= self.capacity {
            return Ok(SegmentRelease::ToHeap);
        }
        self.generation_counter = self.generation_counter.wrapping_add(1);
        let segment = PooledSegment::new(addr, size, now);
        self.free_segments.push(segment);
        self.metrics.current_pool_size = self.metrics.current_pool_size + 1;
        let held = self.free_segments.len();
        if self.metrics.max_pool_size < held {
            self.metrics.max_pool_size = held;
        }
        Ok(SegmentRelease::Pooled)
    }

    /// Drops, at time `now`, the free segments given back more than
    /// `max_age` ticks ago, and returns them in their order so that the
    /// caller frees them; the others keep their order.
    pub fn cleanup_old_segments(&mut self, now: u64, max_age: u64) -> (dropped: Vec<PooledSegment>)
        requires
            old(self)@.wf(),
        ensures
            final(self)@ == old(self)@.after_cleanup(now, max_age),
            dropped@ == old(self)@.dropped_by_cleanup(now, max_age),
            final(self)@.wf(),
    {
        let ghost young = |s: PooledSegment| is_young(now, max_age, s);
        let ghost old_ones = |s: PooledSegment| !is_young(now, max_age, s);
        let ghost all = self.free_segments@;
        let mut kept: Vec<PooledSegment> = Vec::new();
        let mut dropped: Vec<PooledSegment> = Vec::new();
        let mut i: usize = 0;
        while i < self.free_segments.len()
            invariant
                i <= all.len(),
                self.free_segments@ == all,
                kept@ == all.take(i as int).filter(young),
                dropped@ == all.take(i as int).filter(old_ones),
                young == (|s: PooledSegment| is_young(now, max_age, s)),
                old_ones == (|s: PooledSegment| !is_young(now, max_age, s)),
                forall|j: int|
                    0 <= j < all.len() ==> (#[trigger] all[j]).size == self.segment_size
                        && segment_validity(all[j].addr, all[j].size) is Ok,
                forall|j: int|
                    0 <= j < kept@.len() ==> (#[trigger] kept@[j]).size == self.segment_size
                        && segment_validity(kept@[j].addr, kept@[j].size) is Ok,
            decreases all.len() - i,
        {
            let segment = self.free_segments[i];
            proof {
                reveal(Seq::filter);
                assert(all.take(i + 1).drop_last() =~= all.take(i as int));
                assert(all.take(i + 1).last() == segment);
            }
            let keep = now.saturating_sub(segment.last_used) <= max_age;
            assert(keep == young(segment));
            assert(!keep == old_ones(segment));
            if keep {
                kept.push(segment);
            } else {
                dropped.push(segment);
            }
            i = i + 1;
        }
        proof {
            assert(all.take(all.len() as int) =~= all);
        }
        self.free_segments = kept;
        self.metrics.current_pool_size = self.free_segments.len();
        dropped
    }

    /// The pool's counters.
    pub fn get_metrics(&self) -> (m: PoolMetrics)
        ensures
            m@ == self@.metrics,
    {
        self.metrics.snapshot()
    }

    /// Whether the counters can record a request for `size` words.
    pub fn can_allocate(&self, size: u32) -> (ok: bool)
        ensures
            ok == self@.can_allocate(size),
    {
        let n = self.free_segments.len();
        if size <= self.segment_size && n > 0 {
            let extra = self.free_segments[n - 1].size as u64 * 8;
            let limit = usize::MAX as u64;
            self.metrics.pool_hits < usize::MAX && extra <= limit && (self.metrics.bytes_saved as u64)
                <= limit - extra
        } else {
            self.metrics.pool_misses < usize::MAX
        }
    }

}


/// The first pool with a free segment is unique.
proof fn lemma_first_stocked_is(pools: Seq<FixedPoolModel>, j: int)
    requires
        is_first_stocked(pools, j),
    ensures
        first_stocked(pools) == Some(j),
{
    let c = choose|k: int| is_first_stocked(pools, k);
    assert(is_first_stocked(pools, c));
    if c < j {
        assert(pools[c].free.len() == 0);
    } else if c > j {
        assert(pools[j].free.len() == 0);
    }
}

/// The first-fitting class of a size is unique.
proof fn lemma_first_fit_is_class(classes: Seq<u32>, size: u32, i: int)
    requires
        is_first_fit(classes, size, i),
    ensures
        class_of(classes, size) == Some(i),
{
    let c = choose|j: int| is_first_fit(classes, size, j);
    assert(is_first_fit(classes, size, c));
    if c < i {
        assert(classes[c] < size);
    } else if c > i {
        assert(classes[i] < size);
    }
}

/// Pools of several size classes, one fixed-size pool per class.
pub struct VariableSizePool {
    size_classes: Vec<u32>,
    pools: Vec<FixedSizePool>,
    max_pooled: usize,
    metrics: PoolMetrics,
}

impl View for VariableSizePool {
    type V = VariablePoolModel;

    closed spec fn view(&self) -> VariablePoolModel {
        VariablePoolModel {
            size_classes: self.size_classes@,
            pools: self.pools@.map_values(|p: FixedSizePool| p@),
            max_pooled: self.max_pooled as nat,
            metrics: self.metrics@,
        }
    }
}

impl VariableSizePool {
    /// One empty pool per class of `size_classes`, each keeping at most
    /// `capacity_per_class` segments, with no limit on their total beyond
    /// that.
    pub fn new(size_classes: Vec<u32>, capacity_per_class: usize) -> (pool: Self)
        ensures
            pool@ == VariablePoolModel::new(
                size_classes@,
                capacity_per_class as nat,
                usize::MAX as nat,
            ),
            pool@.wf(),
    {
        Self::with_limit(size_classes, capacity_per_class, usize::MAX)
    }

    /// One empty pool per class of `size_classes`, each keeping at most
    /// `capacity_per_class` segments, and at most `max_pooled` segments in
    /// all.
    pub fn with_limit(size_classes: Vec<u32>, capacity_per_class: usize, max_pooled: usize) -> (pool: Self)
        ensures
            pool@ == VariablePoolModel::new(
                size_classes@,
                capacity_per_class as nat,
                max_pooled as nat,
            ),
            pool@.wf(),
    {
        let mut pools: Vec<FixedSizePool> = Vec::new();
        let mut i: usize = 0;
        while i < size_classes.len()
            invariant
                i <= size_classes@.len(),
                pools@.len() == i,
                forall|j: int|
                    0 <= j < i ==> (#[trigger] pools@[j])@ == FixedPoolModel::new(
                        size_classes@[j],
                        capacity_per_class as nat,
                    ) && pools@[j]@.wf(),
            decreases size_classes@.len() - i,
        {
            pools.push(FixedSizePool::new(size_classes[i], capacity_per_class));
            i = i + 1;
        }
        let pool = VariableSizePool {
            size_classes,
            pools,
            max_pooled,
            metrics: PoolMetrics::default(),
        };
        assert(pool@.pools =~= Seq::new(
            pool@.size_classes.len(),
            |i: int| FixedPoolModel::new(pool@.size_classes[i], capacity_per_class as nat),
        ));
        proof {
            lemma_total_free_empty(pool@.pools);
        }
        pool
    }

    /// The first class that holds `size` words.
    fn find_size_class(&self, size: u32) -> (r: Option<usize>)
        ensures
            r is Some ==> class_of(self.size_classes@, size) == Some(r->0 as int),
            r is None ==> class_of(self.size_classes@, size) is None,
    {
        let mut i: usize = 0;
        while i < self.size_classes.len()
            invariant
                i <= self.size_classes@.len(),
                forall|j: int| 0 <= j < i ==> self.size_classes@[j] < size,
            decreases self.size_classes@.len() - i,
        {
            if size <= self.size_classes[i] {
                proof {
                    lemma_first_fit_is_class(self.size_classes@, size, i as int);
                }
                return Some(i);
            }
            i = i + 1;
        }
        proof {
            if exists|k: int| is_first_fit(self.size_classes@, size, k) {
                let k = choose|k: int| is_first_fit(self.size_classes@, size, k);
                assert(self.size_classes@[k] < size);
            }
        }
        None
    }

    /// The first class that has a free segment.
    fn find_stocked(&self) -> (r: Option<usize>)
        ensures
            r is Some ==> first_stocked(self@.pools) == Some(r->0 as int),
            r is None ==> first_stocked(self@.pools) is None,
    {
        let ghost models = self@.pools;
        let mut j: usize = 0;
        while j < self.pools.len()
            invariant
                j <= self.pools@.len(),
                models == self.pools@.map_values(|p: FixedSizePool| p@),
                forall|k: int| 0 <= k < j ==> models[k].free.len() == 0,
            decreases self.pools@.len() - j,
        {
            if self.pools[j].free_count() > 0 {
                proof {
                    lemma_first_stocked_is(models, j as int);
                }
                return Some(j);
            }
            j = j + 1;
        }
        proof {
            if exists|k: int| is_first_stocked(models, k) {
                let k = choose|k: int| is_first_stocked(models, k);
                assert(models[k].free.len() == 0);
            }
        }
        None
    }

    /// How many free segments all classes hold together.
    fn pooled_count(&self) -> (n: usize)
        requires
            self@.shaped(),
        ensures
            n == total_free(self@.pools),
    {
        let ghost models = self@.pools;
        let mut n: usize = 0;
        let mut i: usize = 0;
        while i < self.pools.len()
            invariant
                i <= self.pools@.len(),
                models == self.pools@.map_values(|p: FixedSizePool| p@),
                total_free(models) <= usize::MAX,
                n == total_free(models.take(i as int)),
            decreases self.pools@.len() - i,
        {
            proof {
                assert(models.take(i + 1).drop_last() =~= models.take(i as int));
                lemma_total_free_prefix(models, i + 1);
            }
            n = n + self.pools[i].free_count();
            i = i + 1;
        }
        proof {
            assert(models.take(models.len() as int) =~= models);
        }
        n
    }

    /// Answers a request from the first class that holds it; when that class
    /// has no free segment, the first class that has one lends its last free
    /// segment; a request too large for every class counts a miss and goes
    /// to the heap as it is.
    pub fn allocate_segment(&mut self, size: u32) -> (grant: SegmentGrant)
        requires
            old(self)@.wf(),
            old(self)@.can_allocate(size),
        ensures
            grant == old(self)@.grant(size),
            final(self)@ == old(self)@.after_allocate(size),
            final(self)@.wf(),
    {
        match self.find_size_class(size) {
            Some(i) => {
                assert(self.pools@[i as int]@ == old(self)@.pools[i as int]);
                if self.pools[i].free_count() == 0 {
                    match self.find_stocked() {
                        Some(j) => {
                            let ghost before = self.pools@;
                            assert(self.pools@[j as int]@ == old(self)@.pools[j as int]);
                            let segment = self.pools[j].take_segment();
                            proof {
                                assert(self.pools@ == before.update(j as int, self.pools@[j as int]));
                                assert(self.pools@.map_values(|p: FixedSizePool| p@)
                                    =~= old(self)@.pools.update(
                                    j as int,
                                    old(self)@.pools[j as int].after_take(),
                                ));
                                lemma_total_free_update(
                                    old(self)@.pools,
                                    j as int,
                                    old(self)@.pools[j as int].after_take(),
                                );
                            }
                            return SegmentGrant::Reused { addr: segment.addr, size: segment.size };
                        },
                        None => {},
                    }
                }
                let ghost before = self.pools@;
                assert(self.pools@[i as int]@ == old(self)@.pools[i as int]);
                let grant = self.pools[i].allocate_segment(size);
                proof {
                    assert(self.pools@ == before.update(i as int, self.pools@[i as int]));
                    assert(self.pools@.map_values(|p: FixedSizePool| p@) =~= old(self)@.pools.update(
                        i as int,
                        old(self)@.pools[i as int].after_allocate(size),
                    ));
                    lemma_total_free_update(
                        old(self)@.pools,
                        i as int,
                        old(self)@.pools[i as int].after_allocate(size),
                    );
                }
                grant
            },
            None => {
                self.metrics.pool_misses = self.metrics.pool_misses + 1;
                SegmentGrant::Heap { size }
            },
        }
    }

    /// Gives the segment back, at time `now`, to the first class that holds
    /// its size. A segment that class would keep goes to the heap instead
    /// when all classes together already hold the most segments allowed; a
    /// size that no class holds goes to the heap.
    pub fn deallocate_segment(&mut self, addr: usize, size: u32, now: u64) -> (r: Result<
        SegmentRelease,
        PoolError,
    >)
        requires
            old(self)@.wf(),
        ensures
            r == old(self)@.release_result(addr, size),
            final(self)@ == old(self)@.after_release(addr, size, now),
            final(self)@.wf(),
    {
        match self.find_size_class(size) {
            Some(i) => {
                let ghost old_pool = old(self)@.pools[i as int];
                assert(self.pools@[i as int]@ == old_pool);
                let keeps = self.pools[i].keeps(addr, size);
                if keeps && self.pooled_count() >= self.max_pooled {
                    return Ok(SegmentRelease::ToHeap);
                }
                let ghost before = self.pools@;
                let r = self.pools[i].deallocate_segment(addr, size, now);
                proof {
                    assert(self.pools@ == before.update(i as int, self.pools@[i as int]));
                    if !keeps {
                        assert(old_pool.after_release(addr, size, now) == old_pool);
                        assert(self.pools@.map_values(|p: FixedSizePool| p@) =~= old(self)@.pools);
                    } else {
                        assert(self.pools@.map_values(|p: FixedSizePool| p@) =~= old(self)@.pools.update(
                            i as int,
                            old_pool.after_release(addr, size, now),
                        ));
                        lemma_total_free_update(
                            old(self)@.pools,
                            i as int,
                            old_pool.after_release(addr, size, now),
                        );
                    }
                }
                r
            },
            None => Ok(SegmentRelease::ToHeap),
        }
    }

    /// Drops, in every class, the free segments given back more than
    /// `max_age` ticks before `now`, and returns them, class by class, so
    /// that the caller frees them.
    pub fn cleanup_old_segments(&mut self, now: u64, max_age: u64) -> (dropped: Vec<PooledSegment>)
        requires
            old(self)@.wf(),
        ensures
            final(self)@ == old(self)@.after_cleanup(now, max_age),
            dropped@ == old(self)@.dropped_by_cleanup(now, max_age),
            final(self)@.wf(),
    {
        let ghost start = old(self)@;
        let ghost lists = start.pools.map_values(
            |p: FixedPoolModel| p.dropped_by_cleanup(now, max_age),
        );
        let mut dropped: Vec<PooledSegment> = Vec::new();
        let mut i: usize = 0;
        while i < self.pools.len()
            invariant
                i <= self.pools@.len(),
                self.pools@.len() == start.pools.len(),
                self.size_classes@ == start.size_classes,
                self.metrics@ == start.metrics,
                self.max_pooled == start.max_pooled,
                start.wf(),
                lists == start.pools.map_values(
                    |p: FixedPoolModel| p.dropped_by_cleanup(now, max_age),
                ),
                dropped@ == lists.take(i as int).flatten(),
                forall|j: int|
                    0 <= j < i ==> (#[trigger] self.pools@[j])@ == start.pools[j].after_cleanup(
                        now,
                        max_age,
                    ) && self.pools@[j]@.wf(),
                forall|j: int| i <= j < self.pools@.len() ==> (#[trigger] self.pools@[j])@ == start.pools[j],
            decreases start.pools.len() - i,
        {
            assert(self.pools@[i as int]@ == start.pools[i as int]);
            let mut gone = self.pools[i].cleanup_old_segments(now, max_age);
            proof {
                assert(lists.take(i + 1) =~= lists.take(i as int).push(gone@));
                lists.take(i as int).lemma_flatten_push(gone@);
            }
            dropped.append(&mut gone);
            i = i + 1;
        }
        proof {
            assert(self.pools@.map_values(|p: FixedSizePool| p@) =~= start.pools.map_values(
                |p: FixedPoolModel| p.after_cleanup(now, max_age),
            ));
            assert(lists.take(lists.len() as int) =~= lists);
            lemma_total_free_cleanup(start.pools, now, max_age);
        }
        dropped
    }

    /// The counters of all classes added up, in class order, then the
    /// misses of the requests too large for every class.
    pub fn get_metrics(&self) -> (m: PoolMetrics)
        requires
            self@.wf(),
            self@.reported_metrics().fits(),
        ensures
            m@ == self@.reported_metrics(),
    {
        let ghost models = self@.pools;
        let mut metrics = PoolMetrics::default();
        let mut i: usize = 0;
        while i < self.pools.len()
            invariant
                i <= self.pools@.len(),
                models == self.pools@.map_values(|p: FixedSizePool| p@),
                aggregate(models).combine(self.metrics@).fits(),
                metrics@ == aggregate(models.take(i as int)),
            decreases self.pools@.len() - i,
        {
            let pool_metrics = self.pools[i].get_metrics();
            proof {
                assert(models.take(i + 1).drop_last() =~= models.take(i as int));
                assert(models.take(i + 1).last() == models[i as int]);
                lemma_aggregate_prefix_bounded(models, i + 1);
            }
            metrics.pool_hits = metrics.pool_hits + pool_metrics.pool_hits;
            metrics.pool_misses = metrics.pool_misses + pool_metrics.pool_misses;
            metrics.current_pool_size = metrics.current_pool_size + pool_metrics.current_pool_size;
            if metrics.max_pool_size < pool_metrics.max_pool_size {
                metrics.max_pool_size = pool_metrics.max_pool_size;
            }
            metrics.bytes_managed = metrics.bytes_managed + pool_metrics.bytes_managed;
            metrics.bytes_saved = metrics.bytes_saved + pool_metrics.bytes_saved;
            let mut latency = pool_metrics.allocation_latency;
            metrics.allocation_latency.append(&mut latency);
            i = i + 1;
        }
        proof {
            assert(models.take(models.len() as int) =~= models);
        }
        let own = self.metrics.snapshot();
        metrics.pool_hits = metrics.pool_hits + own.pool_hits;
        metrics.pool_misses = metrics.pool_misses + own.pool_misses;
        metrics.current_pool_size = metrics.current_pool_size + own.current_pool_size;
        if metrics.max_pool_size < own.max_pool_size {
            metrics.max_pool_size = own.max_pool_size;
        }
        metrics.bytes_managed = metrics.bytes_managed + own.bytes_managed;
        metrics.bytes_saved = metrics.bytes_saved + own.bytes_saved;
        let mut latency = own.allocation_latency;
        metrics.allocation_latency.append(&mut latency);
        metrics
    }

    /// Whether the counters can record a request for `size` words.
    pub fn can_allocate(&self, size: u32) -> (ok: bool)
        requires
            self@.wf(),
        ensures
            ok == self@.can_allocate(size),
    {
        match self.find_size_class(size) {
            Some(i) => {
                assert(self.pools@[i as int]@ == self@.pools[i as int]);
                if self.pools[i].free_count() == 0 {
                    match self.find_stocked() {
                        Some(j) => {
                            assert(self.pools@[j as int]@ == self@.pools[j as int]);
                            return self.pools[j].can_take();
                        },
                        None => {},
                    }
                }
                self.pools[i].can_allocate(size)
            },
            None => self.metrics.pool_misses < usize::MAX,
        }
    }

    /// Whether the counters this pool reports fit in a `usize`.
    pub fn metrics_fit(&self) -> (ok: bool)
        ensures
            ok == self@.reported_metrics().fits(),
    {
        let ghost models = self@.pools;
        let mut hits: usize = 0;
        let mut misses: usize = 0;
        let mut current: usize = 0;
        let mut largest: usize = 0;
        let mut managed: usize = 0;
        let mut saved: usize = 0;
        let mut i: usize = 0;
        while i < self.pools.len()
            invariant
                i <= self.pools@.len(),
                models == self.pools@.map_values(|p: FixedSizePool| p@),
                hits == aggregate(models.take(i as int)).pool_hits,
                misses == aggregate(models.take(i as int)).pool_misses,
                current == aggregate(models.take(i as int)).current_pool_size,
                largest == aggregate(models.take(i as int)).max_pool_size,
                managed == aggregate(models.take(i as int)).bytes_managed,
                saved == aggregate(models.take(i as int)).bytes_saved,
            decreases self.pools@.len() - i,
        {
            let m = self.pools[i].get_metrics();
            proof {
                assert(models.take(i + 1).drop_last() =~= models.take(i as int));
                assert(models.take(i + 1).last() == models[i as int]);
                lemma_aggregate_prefix_bounded(models, i + 1);
            }
            let sums = (
                hits.checked_add(m.pool_hits),
                misses.checked_add(m.pool_misses),
                current.checked_add(m.current_pool_size),
                managed.checked_add(m.bytes_managed),
                saved.checked_add(m.bytes_saved),
            );
            match sums {
                (Some(h), Some(mi), Some(c), Some(ma), Some(sa)) => {
                    hits = h;
                    misses = mi;
                    current = c;
                    managed = ma;
                    saved = sa;
                    if largest < m.max_pool_size {
                        largest = m.max_pool_size;
                    }
                },
                _ => {
                    return false;
                },
            }
            i = i + 1;
        }
        proof {
            assert(models.take(models.len() as int) =~= models);
        }
        let own = &self.metrics;
        let sums = (
            hits.checked_add(own.pool_hits),
            misses.checked_add(own.pool_misses),
            current.checked_add(own.current_pool_size),
            managed.checked_add(own.bytes_managed),
            saved.checked_add(own.bytes_saved),
        );
        match sums {
            (Some(_), Some(_), Some(_), Some(_), Some(_)) => true,
            _ => false,
        }
    }
}

impl MemoryPool {
    /// Whether the counters can record a request for `size` words.
    pub fn can_allocate(&self, size: u32) -> (ok: bool)
        requires
            self@.wf(),
        ensures
            ok == self@.can_allocate(size),
    {
        match &self.strategy {
            PoolingStrategy::FixedSize(pool) => pool.can_allocate(size),
            PoolingStrategy::VariableSize(pool) => pool.can_allocate(size),
            PoolingStrategy::NoPooling => self.metrics.pool_misses < usize::MAX,
        }
    }

    /// Whether the counters this pool reports fit in a `usize`.
    pub fn metrics_fit(&self) -> (ok: bool)
        requires
            self@.wf(),
        ensures
            ok == self@.reported_metrics().fits(),
    {
        match &self.strategy {
            PoolingStrategy::FixedSize(_) => true,
            PoolingStrategy::VariableSize(pool) => pool.metrics_fit(),
            PoolingStrategy::NoPooling => true,
        }
    }
}

/// The counters of a prefix of the pools are bounded by those of all pools.
proof fn lemma_aggregate_prefix_bounded(pools: Seq<FixedPoolModel>, n: int)
    requires
        0 <= n <= pools.len(),
    ensures
        aggregate(pools.take(n)).pool_hits <= aggregate(pools).pool_hits,
        aggregate(pools.take(n)).pool_misses <= aggregate(pools).pool_misses,
        aggregate(pools.take(n)).current_pool_size <= aggregate(pools).current_pool_size,
        aggregate(pools.take(n)).max_pool_size <= aggregate(pools).max_pool_size,
        aggregate(pools.take(n)).bytes_managed <= aggregate(pools).bytes_managed,
        aggregate(pools.take(n)).bytes_saved <= aggregate(pools).bytes_saved,
    decreases pools.len(),
{
    if n < pools.len() {
        lemma_aggregate_prefix_bounded(pools.drop_last(), n);
        assert(pools.drop_last().take(n) =~= pools.take(n));
    } else {
        assert(pools.take(n) =~= pools);
    }
}

/// The free segments of a prefix of the pools are at most those of all.
proof fn lemma_total_free_prefix(pools: Seq<FixedPoolModel>, n: int)
    requires
        0 <= n <= pools.len(),
    ensures
        total_free(pools.take(n)) <= total_free(pools),
    decreases pools.len(),
{
    if n < pools.len() {
        lemma_total_free_prefix(pools.drop_last(), n);
        assert(pools.drop_last().take(n) =~= pools.take(n));
    } else {
        assert(pools.take(n) =~= pools);
    }
}

/// Pools without free segments hold none in all.
proof fn lemma_total_free_empty(pools: Seq<FixedPoolModel>)
    requires
        forall|i: int| 0 <= i < pools.len() ==> (#[trigger] pools[i]).free.len() == 0,
    ensures
        total_free(pools) == 0,
    decreases pools.len(),
{
    if pools.len() > 0 {
        lemma_total_free_empty(pools.drop_last());
    }
}

/// Replacing one pool changes the total by the difference of its free
/// segments.
pub proof fn lemma_total_free_update(pools: Seq<FixedPoolModel>, i: int, q: FixedPoolModel)
    requires
        0 <= i < pools.len(),
    ensures
        total_free(pools.update(i, q)) + pools[i].free.len() == total_free(pools) + q.free.len(),
    decreases pools.len(),
{
    let u = pools.update(i, q);
    if i == pools.len() - 1 {
        assert(u.drop_last() =~= pools.drop_last());
    } else {
        lemma_total_free_update(pools.drop_last(), i, q);
        assert(u.drop_last() =~= pools.drop_last().update(i, q));
    }
}

/// A cleanup never adds free segments.
pub proof fn lemma_total_free_cleanup(pools: Seq<FixedPoolModel>, now: u64, max_age: u64)
    ensures
        total_free(pools.map_values(|p: FixedPoolModel| p.after_cleanup(now, max_age)))
            <= total_free(pools),
    decreases pools.len(),
{
    broadcast use vstd::seq_lib::group_filter_ensures;

    if pools.len() > 0 {
        let f = |p: FixedPoolModel| p.after_cleanup(now, max_age);
        lemma_total_free_cleanup(pools.drop_last(), now, max_age);
        assert(pools.map_values(f).drop_last() =~= pools.drop_last().map_values(f));
        let young = |s: PooledSegment| is_young(now, max_age, s);
        assert(pools.last().free.filter(young).len() <= pools.last().free.len());
    }
}

/// Configuration of a memory pool.
#[derive(Debug, Clone)]
pub struct PoolConfig {
    /// Maximum number of segments to cache in the pool.
    pub max_pool_size: usize,
    /// Segment size for fixed-size pooling, if used.
    pub fixed_segment_size: Option<u32>,
    /// Size classes for variable-size pooling, if used.
    pub size_classes: Option<Vec<u32>>,
    /// The age, in nanoseconds, after which a free segment is dropped.
    pub max_segment_age: u64,
    /// Whether the heap allocator is reset after each release.
    pub reset_on_deallocate: bool,
    /// Adaptive pooling.
    pub adaptive: bool,
    /// Thread-local pooling.
    pub thread_local: bool,
}

impl View for PoolConfig {
    type V = ConfigModel;

    open spec fn view(&self) -> ConfigModel {
        ConfigModel {
            max_pool_size: self.max_pool_size,
            fixed_segment_size: self.fixed_segment_size,
            size_classes: match self.size_classes {
                Some(v) => Some(v@),
                None => None,
            },
            max_segment_age: self.max_segment_age,
            reset_on_deallocate: self.reset_on_deallocate,
            adaptive: self.adaptive,
            thread_local: self.thread_local,
        }
    }
}

impl Default for PoolConfig {
    fn default() -> (c: Self)
        ensures
            c@ == ConfigModel::default_config(),
    {
        PoolConfig {
            max_pool_size: 1024,
            fixed_segment_size: Some(1024),
            size_classes: None,
            max_segment_age: 60_000_000_000,
            reset_on_deallocate: true,
            adaptive: false,
            thread_local: false,
        }
    }
}

/// The pooling strategy of a memory pool.
pub enum PoolingStrategy {
    /// Fixed-size pooling.
    FixedSize(FixedSizePool),
    /// Variable-size pooling with size classes.
    VariableSize(VariableSizePool),
    /// No pooling: every request goes to the heap.
    NoPooling,
}

impl View for PoolingStrategy {
    type V = StrategyModel;

    open spec fn view(&self) -> StrategyModel {
        match self {
            PoolingStrategy::FixedSize(p) => StrategyModel::FixedSize(p@),
            PoolingStrategy::VariableSize(v) => StrategyModel::VariableSize(v@),
            PoolingStrategy::NoPooling => StrategyModel::NoPooling,
        }
    }
}

/// A memory pool: decides, for each request and release of a segment,
/// whether a pooled segment serves it, and what the heap allocator is asked
/// to do otherwise.
pub struct MemoryPool {
    strategy: PoolingStrategy,
    metrics: PoolMetrics,
    config: PoolConfig,
}

impl View for MemoryPool {
    type V = MemoryPoolModel;

    closed spec fn view(&self) -> MemoryPoolModel {
        MemoryPoolModel { strategy: self.strategy@, metrics: self.metrics@, config: self.config@ }
    }
}

impl MemoryPool {
    /// A memory pool with the default configuration.
    pub fn new_default() -> (pool: Self)
        ensures
            pool@.config == ConfigModel::default_config(),
            pool@.strategy == ConfigModel::default_config().strategy(),
            pool@.metrics == MetricsModel::empty(),
            pool@.wf(),
    {
        let config = PoolConfig::default();
        Self::new_with_config(config)
    }

    /// A memory pool of segments of `segment_size` words keeping at most
    /// `capacity` of them; its configuration is the default one with that
    /// segment size.
    pub fn new_fixed_size(segment_size: u32, capacity: usize) -> (pool: Self)
        ensures
            pool@.config == (ConfigModel {
                fixed_segment_size: Some(segment_size),
                ..ConfigModel::default_config()
            }),
            pool@.strategy == StrategyModel::FixedSize(
                FixedPoolModel::new(segment_size, capacity as nat),
            ),
            pool@.metrics == MetricsModel::empty(),
            pool@.wf(),
    {
        let mut config = PoolConfig::default();
        config.fixed_segment_size = Some(segment_size);
        let strategy = PoolingStrategy::FixedSize(FixedSizePool::new(segment_size, capacity));
        MemoryPool { strategy, metrics: PoolMetrics::default(), config }
    }

    /// A memory pool with one pool per size class, each keeping at most
    /// `capacity_per_class` segments, and all together at most the
    /// configured maximum; its configuration is the default one with these
    /// size classes.
    pub fn new_variable_size(size_classes: Vec<u32>, capacity_per_class: usize) -> (pool: Self)
        ensures
            pool@.config == (ConfigModel {
                size_classes: Some(size_classes@),
                ..ConfigModel::default_config()
            }),
            pool@.strategy == StrategyModel::VariableSize(
                VariablePoolModel::new(
                    size_classes@,
                    capacity_per_class as nat,
                    ConfigModel::default_config().max_pool_size as nat,
                ),
            ),
            pool@.metrics == MetricsModel::empty(),
            pool@.wf(),
    {
        let mut config = PoolConfig::default();
        config.size_classes = Some(copy_vec(&size_classes));
        let strategy = PoolingStrategy::VariableSize(
            VariableSizePool::with_limit(size_classes, capacity_per_class, config.max_pool_size),
        );
        MemoryPool { strategy, metrics: PoolMetrics::default(), config }
    }

    /// A memory pool with the strategy that `config` asks for.
    pub fn new_with_config(config: PoolConfig) -> (pool: Self)
        ensures
            pool@.config == config@,
            pool@.strategy == config@.strategy(),
            pool@.metrics == MetricsModel::empty(),
            pool@.wf(),
    {
        let strategy = match config.fixed_segment_size {
            Some(segment_size) => PoolingStrategy::FixedSize(
                FixedSizePool::new(segment_size, config.max_pool_size),
            ),
            None => match &config.size_classes {
                Some(size_classes) => PoolingStrategy::VariableSize(
                    VariableSizePool::with_limit(
                        copy_vec(size_classes),
                        config.max_pool_size,
                        config.max_pool_size,
                    ),
                ),
                None => PoolingStrategy::NoPooling,
            },
        };
        MemoryPool { strategy, metrics: PoolMetrics::default(), config }
    }

    /// The counters: those of the strategy's pool, or the pool's own when
    /// there is no pooling.
    pub fn get_metrics(&self) -> (m: PoolMetrics)
        requires
            self@.wf(),
            self@.reported_metrics().fits(),
        ensures
            m@ == self@.reported_metrics(),
    {
        match &self.strategy {
            PoolingStrategy::FixedSize(pool) => pool.get_metrics(),
            PoolingStrategy::VariableSize(pool) => pool.get_metrics(),
            PoolingStrategy::NoPooling => self.metrics.snapshot(),
        }
    }

    /// Drops, at time `now` (in nanoseconds), the free segments older than
    /// the configured maximum age, and returns them so that the caller frees
    /// them.
    pub fn cleanup_old_segments(&mut self, now: u64) -> (dropped: Vec<PooledSegment>)
        requires
            old(self)@.wf(),
        ensures
            final(self)@ == old(self)@.after_cleanup(now),
            dropped@ == old(self)@.dropped_by_cleanup(now),
            final(self)@.wf(),
    {
        let max_age = self.config.max_segment_age;
        match &mut self.strategy {
            PoolingStrategy::FixedSize(pool) => pool.cleanup_old_segments(now, max_age),
            PoolingStrategy::VariableSize(pool) => pool.cleanup_old_segments(now, max_age),
            PoolingStrategy::NoPooling => Vec::new(),
        }
    }

    /// Answers a request for at least `minimum_size` words: a pooled segment
    /// when the strategy has one, otherwise the size to ask the heap for;
    /// with no pooling every request counts a miss.
    pub fn allocate_segment(&mut self, minimum_size: u32) -> (grant: SegmentGrant)
        requires
            old(self)@.wf(),
            old(self)@.can_allocate(minimum_size),
        ensures
            grant == old(self)@.grant(minimum_size),
            final(self)@ == old(self)@.after_allocate(minimum_size),
            final(self)@.wf(),
    {
        match &mut self.strategy {
            PoolingStrategy::FixedSize(pool) => pool.allocate_segment(minimum_size),
            PoolingStrategy::VariableSize(pool) => pool.allocate_segment(minimum_size),
            PoolingStrategy::NoPooling => {
                self.metrics.pool_misses = self.metrics.pool_misses + 1;
                SegmentGrant::Heap { size: minimum_size }
            },
        }
    }

    /// Takes back, at time `now`, the segment at `addr` of `word_size` words
    /// of which `words_used` were used: the strategy keeps it or sends it to
    /// the heap, and a segment the strategy refuses goes to the heap too.
    /// The plan also says whether to reset the heap allocator.
    pub fn deallocate_segment(&mut self, addr: usize, word_size: u32, words_used: u32, now: u64) -> (plan: DeallocPlan)
        requires
            old(self)@.wf(),
        ensures
            plan == old(self)@.release_plan(addr, word_size),
            final(self)@ == old(self)@.after_release(addr, word_size, now),
            final(self)@.wf(),
    {
        let release = match &mut self.strategy {
            PoolingStrategy::FixedSize(pool) => match pool.deallocate_segment(addr, word_size, now) {
                Ok(release) => release,
                Err(_) => SegmentRelease::ToHeap,
            },
            PoolingStrategy::VariableSize(pool) => match pool.deallocate_segment(
                addr,
                word_size,
                now,
            ) {
                Ok(release) => release,
                Err(_) => SegmentRelease::ToHeap,
            },
            PoolingStrategy::NoPooling => SegmentRelease::ToHeap,
        };
        DeallocPlan { release, reset_heap: self.config.reset_on_deallocate }
    }
}

} // verus!
