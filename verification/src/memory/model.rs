//! The mathematical model of the pools: each pool type is viewed as one of
//! the states below, and each operation as a function from state and request
//! to the next state and the answer.

use vstd::prelude::*;

use crate::memory::pool::{DeallocPlan, PoolError, PooledSegment, SegmentGrant, SegmentRelease};

verus! {

/// The largest segment, in words, that a pool accepts back.
pub open spec fn max_segment_words() -> u32 {
    0x10_0000
}

/// Why a released segment is refused, if it is: a null address, an address
/// that is not 8-byte aligned, or a size of zero or above
/// `max_segment_words()` words.
pub open spec fn segment_validity(addr: usize, size: u32) -> Result<(), PoolError> {
    if addr == 0 {
        Err(PoolError::InvalidSegment)
    } else if addr % 8 != 0 {
        Err(PoolError::AlignmentError)
    } else if size == 0 || size > max_segment_words() {
        Err(PoolError::SegmentTooLarge(size))
    } else {
        Ok(())
    }
}

/// The time elapsed from `then` to `now`, zero when `then` is later.
pub open spec fn elapsed(now: u64, then: u64) -> nat {
    if now >= then {
        (now - then) as nat
    } else {
        0
    }
}

/// A free segment is young enough to keep when at most `max_age` ticks have
/// passed since it was released.
pub open spec fn is_young(now: u64, max_age: u64, s: PooledSegment) -> bool {
    elapsed(now, s.last_used) <= max_age
}

/// The counters of a pool.
pub struct MetricsModel {
    pub pool_hits: nat,
    pub pool_misses: nat,
    pub current_pool_size: nat,
    pub max_pool_size: nat,
    pub bytes_managed: nat,
    pub bytes_saved: nat,
    pub allocation_latency: Seq<u64>,
}

impl MetricsModel {
    /// All counters zero, no latency samples.
    pub open spec fn empty() -> MetricsModel {
        MetricsModel {
            pool_hits: 0,
            pool_misses: 0,
            current_pool_size: 0,
            max_pool_size: 0,
            bytes_managed: 0,
            bytes_saved: 0,
            allocation_latency: Seq::empty(),
        }
    }

    /// Every counter fits in a `usize`.
    pub open spec fn fits(self) -> bool {
        &&& self.pool_hits <= usize::MAX
        &&& self.pool_misses <= usize::MAX
        &&& self.current_pool_size <= usize::MAX
        &&& self.max_pool_size <= usize::MAX
        &&& self.bytes_managed <= usize::MAX
        &&& self.bytes_saved <= usize::MAX
    }

    /// The counters of two pools added up; the largest pool size is the
    /// larger of the two, and the latency samples are put one after the other.
    pub open spec fn combine(self, other: MetricsModel) -> MetricsModel {
        MetricsModel {
            pool_hits: self.pool_hits + other.pool_hits,
            pool_misses: self.pool_misses + other.pool_misses,
            current_pool_size: self.current_pool_size + other.current_pool_size,
            max_pool_size: if self.max_pool_size >= other.max_pool_size {
                self.max_pool_size
            } else {
                other.max_pool_size
            },
            bytes_managed: self.bytes_managed + other.bytes_managed,
            bytes_saved: self.bytes_saved + other.bytes_saved,
            allocation_latency: self.allocation_latency + other.allocation_latency,
        }
    }
}

/// A pool of segments of one size.
pub struct FixedPoolModel {
    /// The size, in words, of the segments the pool keeps.
    pub segment_size: u32,
    /// How many free segments the pool keeps at most.
    pub capacity: nat,
    /// The free segments, the one to be handed out next last.
    pub free: Seq<PooledSegment>,
    pub metrics: MetricsModel,
    /// How many segments were ever taken into the pool, modulo 2^64.
    pub generation: u64,
}

impl FixedPoolModel {
    /// A new pool: no free segment, all counters zero.
    pub open spec fn new(segment_size: u32, capacity: nat) -> FixedPoolModel {
        FixedPoolModel {
            segment_size,
            capacity,
            free: Seq::empty(),
            metrics: MetricsModel::empty(),
            generation: 0,
        }
    }

    /// The pool keeps at most `capacity` free segments, each of its own
    /// segment size and each one that it would accept back; its current size
    /// counts them, and its largest size is at least that.
    pub open spec fn shaped(self) -> bool {
        &&& self.free.len() <= self.capacity
        &&& self.capacity <= usize::MAX
        &&& self.metrics.current_pool_size == self.free.len()
        &&& self.metrics.current_pool_size <= self.metrics.max_pool_size
        &&& forall|i: int|
            0 <= i < self.free.len() ==> (#[trigger] self.free[i]).size == self.segment_size
                && segment_validity(self.free[i].addr, self.free[i].size) is Ok
    }

    /// Shaped, and every counter fits in a `usize`.
    pub open spec fn wf(self) -> bool {
        &&& self.shaped()
        &&& self.metrics.fits()
    }

    /// Whether a request for `size` words is served from a free segment.
    pub open spec fn hits(self, size: u32) -> bool {
        size <= self.segment_size && self.free.len() > 0
    }

    /// The answer to a request for `size` words: the last freed segment when
    /// the request fits the pool's size and a segment is free; otherwise the
    /// heap is asked for the pool's size, or for the request itself when it is
    /// larger than that.
    pub open spec fn grant(self, size: u32) -> SegmentGrant {
        if size > self.segment_size {
            SegmentGrant::Heap { size }
        } else if self.free.len() > 0 {
            SegmentGrant::Reused { addr: self.free.last().addr, size: self.free.last().size }
        } else {
            SegmentGrant::Heap { size: self.segment_size }
        }
    }

    /// The counters can record handing out the last free segment.
    pub open spec fn can_take(self) -> bool {
        &&& self.metrics.pool_hits < usize::MAX
        &&& self.metrics.bytes_saved + 8 * (self.free.last().size as nat) <= usize::MAX
    }

    /// The pool after handing out its last free segment: one hit more, and
    /// the segment's bytes (eight per word) counted as saved by reuse.
    pub open spec fn after_take(self) -> FixedPoolModel {
        FixedPoolModel {
            free: self.free.drop_last(),
            metrics: MetricsModel {
                pool_hits: self.metrics.pool_hits + 1,
                current_pool_size: (self.metrics.current_pool_size - 1) as nat,
                bytes_saved: self.metrics.bytes_saved + 8 * (self.free.last().size as nat),
                ..self.metrics
            },
            ..self
        }
    }

    /// The counters can record the request without overflow.
    pub open spec fn can_allocate(self, size: u32) -> bool {
        if self.hits(size) {
            self.can_take()
        } else {
            self.metrics.pool_misses < usize::MAX
        }
    }

    /// The pool after a request for `size` words: a hit hands out the last
    /// free segment, anything else counts a miss.
    pub open spec fn after_allocate(self, size: u32) -> FixedPoolModel {
        if self.hits(size) {
            self.after_take()
        } else {
            FixedPoolModel {
                metrics: MetricsModel { pool_misses: self.metrics.pool_misses + 1, ..self.metrics },
                ..self
            }
        }
    }

    /// Whether the pool is full.
    pub open spec fn is_full(self) -> bool {
        self.free.len() >= self.capacity
    }

    /// The answer to releasing the segment at `addr` of `size` words: the
    /// refusal of `segment_validity`, or the heap for a segment of another
    /// size or when the pool is full, or the pool itself.
    pub open spec fn release_result(self, addr: usize, size: u32) -> Result<
        SegmentRelease,
        PoolError,
    > {
        match segment_validity(addr, size) {
            Err(e) => Err(e),
            Ok(_) => if size != self.segment_size || self.is_full() {
                Ok(SegmentRelease::ToHeap)
            } else {
                Ok(SegmentRelease::Pooled)
            },
        }
    }

    /// The pool after the release, at time `now`, of the segment at `addr` of
    /// `size` words: a segment the pool keeps is stamped with `now` and put
    /// last, and the current and largest sizes follow; any other release
    /// leaves the pool as it was.
    pub open spec fn after_release(self, addr: usize, size: u32, now: u64) -> FixedPoolModel {
        if self.release_result(addr, size) == Ok::<SegmentRelease, PoolError>(
            SegmentRelease::Pooled,
        ) {
            let seg = PooledSegment { addr, size, last_used: now, generation: 0 };
            FixedPoolModel {
                free: self.free.push(seg),
                metrics: MetricsModel {
                    current_pool_size: self.metrics.current_pool_size + 1,
                    max_pool_size: if self.metrics.max_pool_size >= self.free.len() + 1 {
                        self.metrics.max_pool_size
                    } else {
                        self.free.len() + 1
                    },
                    ..self.metrics
                },
                generation: (if self.generation == u64::MAX {
                    0
                } else {
                    self.generation + 1
                }) as u64,
                ..self
            }
        } else {
            self
        }
    }

    /// The pool after dropping, at time `now`, the free segments released
    /// more than `max_age` ticks ago; the others keep their order.
    pub open spec fn after_cleanup(self, now: u64, max_age: u64) -> FixedPoolModel {
        let kept = self.free.filter(|s: PooledSegment| is_young(now, max_age, s));
        FixedPoolModel {
            free: kept,
            metrics: MetricsModel { current_pool_size: kept.len(), ..self.metrics },
            ..self
        }
    }

    /// The free segments that a cleanup at time `now` drops, in their order:
    /// those released more than `max_age` ticks ago. The caller frees them.
    pub open spec fn dropped_by_cleanup(self, now: u64, max_age: u64) -> Seq<PooledSegment> {
        self.free.filter(|s: PooledSegment| !is_young(now, max_age, s))
    }
}

/// Whether `j` is the first pool of `pools` that has a free segment.
pub open spec fn is_first_stocked(pools: Seq<FixedPoolModel>, j: int) -> bool {
    &&& 0 <= j < pools.len()
    &&& pools[j].free.len() > 0
    &&& forall|k: int| 0 <= k < j ==> pools[k].free.len() == 0
}

/// The first pool of `pools` that has a free segment, if one has.
pub open spec fn first_stocked(pools: Seq<FixedPoolModel>) -> Option<int> {
    if exists|j: int| is_first_stocked(pools, j) {
        Some(choose|j: int| is_first_stocked(pools, j))
    } else {
        None
    }
}

/// The number of free segments held by all pools of `pools`.
pub open spec fn total_free(pools: Seq<FixedPoolModel>) -> nat
    decreases pools.len(),
{
    if pools.len() == 0 {
        0
    } else {
        total_free(pools.drop_last()) + pools.last().free.len()
    }
}

/// Whether `i` is the first class of `classes` that holds `size` words.
pub open spec fn is_first_fit(classes: Seq<u32>, size: u32, i: int) -> bool {
    &&& 0 <= i < classes.len()
    &&& size <= classes[i]
    &&& forall|j: int| 0 <= j < i ==> classes[j] < size
}

/// The first class of `classes` that holds `size` words, if there is one.
pub open spec fn class_of(classes: Seq<u32>, size: u32) -> Option<int> {
    if exists|i: int| is_first_fit(classes, size, i) {
        Some(choose|i: int| is_first_fit(classes, size, i))
    } else {
        None
    }
}

/// The counters of all pools of `pools` added up, in order.
pub open spec fn aggregate(pools: Seq<FixedPoolModel>) -> MetricsModel
    decreases pools.len(),
{
    if pools.len() == 0 {
        MetricsModel::empty()
    } else {
        aggregate(pools.drop_last()).combine(pools.last().metrics)
    }
}

/// Pools of several size classes, one fixed-size pool per class.
pub struct VariablePoolModel {
    pub size_classes: Seq<u32>,
    pub pools: Seq<FixedPoolModel>,
    /// How many free segments all classes together keep at most.
    pub max_pooled: nat,
    /// Counts the requests too large for every class.
    pub metrics: MetricsModel,
}

impl VariablePoolModel {
    /// One new pool per class, each keeping at most `capacity` segments, and
    /// at most `max_pooled` segments in all.
    pub open spec fn new(size_classes: Seq<u32>, capacity: nat, max_pooled: nat) -> VariablePoolModel {
        VariablePoolModel {
            size_classes,
            pools: Seq::new(size_classes.len(), |i: int| FixedPoolModel::new(size_classes[i], capacity)),
            max_pooled,
            metrics: MetricsModel::empty(),
        }
    }

    /// One shaped pool per class, of that class's size; all classes together
    /// hold at most `max_pooled` free segments; the pool's own counters hold
    /// no segment.
    pub open spec fn shaped(self) -> bool {
        &&& self.pools.len() == self.size_classes.len()
        &&& self.max_pooled <= usize::MAX
        &&& total_free(self.pools) <= self.max_pooled
        &&& self.metrics.current_pool_size == 0
        &&& self.metrics.max_pool_size == 0
        &&& forall|i: int|
            0 <= i < self.pools.len() ==> (#[trigger] self.pools[i]).shaped()
                && self.pools[i].segment_size == self.size_classes[i]
    }

    /// Shaped, and every counter fits in a `usize`.
    pub open spec fn wf(self) -> bool {
        &&& self.shaped()
        &&& self.metrics.fits()
        &&& forall|i: int| 0 <= i < self.pools.len() ==> (#[trigger] self.pools[i]).wf()
    }

    /// The class that lends a segment to a request for `size` words: when
    /// the first class that holds the request has no free segment, the first
    /// class that has one.
    pub open spec fn lender(self, size: u32) -> Option<int> {
        match class_of(self.size_classes, size) {
            Some(i) => if self.pools[i].free.len() > 0 {
                None
            } else {
                first_stocked(self.pools)
            },
            None => None,
        }
    }

    /// The answer to a request: that of the first class that holds it; when
    /// that class has no free segment, the last free segment of the first
    /// class that has one; the heap for the request itself when no class
    /// holds it.
    pub open spec fn grant(self, size: u32) -> SegmentGrant {
        match class_of(self.size_classes, size) {
            Some(i) => match self.lender(size) {
                Some(j) => SegmentGrant::Reused {
                    addr: self.pools[j].free.last().addr,
                    size: self.pools[j].free.last().size,
                },
                None => self.pools[i].grant(size),
            },
            None => SegmentGrant::Heap { size },
        }
    }

    /// The counters can record the request without overflow.
    pub open spec fn can_allocate(self, size: u32) -> bool {
        match class_of(self.size_classes, size) {
            Some(i) => match self.lender(size) {
                Some(j) => self.pools[j].can_take(),
                None => self.pools[i].can_allocate(size),
            },
            None => self.metrics.pool_misses < usize::MAX,
        }
    }

    /// The pools after a request: the class that lends hands out its last
    /// free segment and counts a hit; otherwise the first class that holds
    /// the request serves it; a request too large for every class counts a
    /// miss of its own.
    pub open spec fn after_allocate(self, size: u32) -> VariablePoolModel {
        match class_of(self.size_classes, size) {
            Some(i) => match self.lender(size) {
                Some(j) => VariablePoolModel {
                    pools: self.pools.update(j, self.pools[j].after_take()),
                    ..self
                },
                None => VariablePoolModel {
                    pools: self.pools.update(i, self.pools[i].after_allocate(size)),
                    ..self
                },
            },
            None => VariablePoolModel {
                metrics: MetricsModel { pool_misses: self.metrics.pool_misses + 1, ..self.metrics },
                ..self
            },
        }
    }

    /// Whether all classes together already hold `max_pooled` segments.
    pub open spec fn is_full(self) -> bool {
        total_free(self.pools) >= self.max_pooled
    }

    /// The answer to a release: that of the first class that holds its size,
    /// except that a segment the class would keep goes to the heap when all
    /// classes together are full; a size that no class holds goes to the
    /// heap.
    pub open spec fn release_result(self, addr: usize, size: u32) -> Result<
        SegmentRelease,
        PoolError,
    > {
        match class_of(self.size_classes, size) {
            Some(i) => {
                let r = self.pools[i].release_result(addr, size);
                if r == Ok::<SegmentRelease, PoolError>(SegmentRelease::Pooled) && self.is_full() {
                    Ok(SegmentRelease::ToHeap)
                } else {
                    r
                }
            },
            None => Ok(SegmentRelease::ToHeap),
        }
    }

    /// The pools after a release at time `now`: a kept segment goes to its
    /// class; any other release changes nothing.
    pub open spec fn after_release(self, addr: usize, size: u32, now: u64) -> VariablePoolModel {
        if self.release_result(addr, size) == Ok::<SegmentRelease, PoolError>(
            SegmentRelease::Pooled,
        ) {
            let i = class_of(self.size_classes, size)->0;
            VariablePoolModel {
                pools: self.pools.update(i, self.pools[i].after_release(addr, size, now)),
                ..self
            }
        } else {
            self
        }
    }

    /// Every pool after dropping its segments older than `max_age`.
    pub open spec fn after_cleanup(self, now: u64, max_age: u64) -> VariablePoolModel {
        VariablePoolModel {
            pools: self.pools.map_values(|p: FixedPoolModel| p.after_cleanup(now, max_age)),
            ..self
        }
    }

    /// The segments a cleanup drops, class by class.
    pub open spec fn dropped_by_cleanup(self, now: u64, max_age: u64) -> Seq<PooledSegment> {
        self.pools.map_values(|p: FixedPoolModel| p.dropped_by_cleanup(now, max_age)).flatten()
    }

    /// The counters reported for the whole: those of the class pools added
    /// up, then the misses of the requests too large for every class.
    pub open spec fn reported_metrics(self) -> MetricsModel {
        aggregate(self.pools).combine(self.metrics)
    }
}

/// The pooling strategy of a memory pool.
pub enum StrategyModel {
    FixedSize(FixedPoolModel),
    VariableSize(VariablePoolModel),
    NoPooling,
}

/// The configuration of a memory pool.
pub struct ConfigModel {
    pub max_pool_size: usize,
    pub fixed_segment_size: Option<u32>,
    pub size_classes: Option<Seq<u32>>,
    /// In nanoseconds.
    pub max_segment_age: u64,
    pub reset_on_deallocate: bool,
    pub adaptive: bool,
    pub thread_local: bool,
}

impl ConfigModel {
    /// The default configuration: a fixed-size pool of 1024-word segments
    /// keeping at most 1024 of them, segments dropped after 60 seconds
    /// (given in nanoseconds), the heap allocator reset after each release.
    pub open spec fn default_config() -> ConfigModel {
        ConfigModel {
            max_pool_size: 1024,
            fixed_segment_size: Some(1024),
            size_classes: None,
            max_segment_age: 60_000_000_000,
            reset_on_deallocate: true,
            adaptive: false,
            thread_local: false,
        }
    }

    /// The strategy this configuration asks for: a fixed-size pool when it
    /// names a segment size, else a pool per size class when it names
    /// classes, else none; each pool keeps at most `max_pool_size` segments.
    pub open spec fn strategy(self) -> StrategyModel {
        match self.fixed_segment_size {
            Some(size) => StrategyModel::FixedSize(
                FixedPoolModel::new(size, self.max_pool_size as nat),
            ),
            None => match self.size_classes {
                Some(classes) => StrategyModel::VariableSize(
                    VariablePoolModel::new(
                        classes,
                        self.max_pool_size as nat,
                        self.max_pool_size as nat,
                    ),
                ),
                None => StrategyModel::NoPooling,
            },
        }
    }
}

/// A memory pool: a strategy, counters of its own, and its configuration.
pub struct MemoryPoolModel {
    pub strategy: StrategyModel,
    pub metrics: MetricsModel,
    pub config: ConfigModel,
}

impl MemoryPoolModel {
    /// The strategy's pool is shaped; a pool of size classes keeps at most
    /// the configured number of segments in all.
    pub open spec fn shaped(self) -> bool {
        match self.strategy {
            StrategyModel::FixedSize(p) => p.shaped(),
            StrategyModel::VariableSize(v) => v.shaped() && v.max_pooled
                == self.config.max_pool_size,
            StrategyModel::NoPooling => true,
        }
    }

    /// Shaped, and every counter fits in a `usize`.
    pub open spec fn wf(self) -> bool {
        &&& self.shaped()
        &&& self.metrics.fits()
        &&& match self.strategy {
            StrategyModel::FixedSize(p) => p.wf(),
            StrategyModel::VariableSize(v) => v.wf(),
            StrategyModel::NoPooling => true,
        }
    }

    /// The answer to a request: the strategy's, or the heap for the request
    /// itself when there is no pooling.
    pub open spec fn grant(self, size: u32) -> SegmentGrant {
        match self.strategy {
            StrategyModel::FixedSize(p) => p.grant(size),
            StrategyModel::VariableSize(v) => v.grant(size),
            StrategyModel::NoPooling => SegmentGrant::Heap { size },
        }
    }

    /// The counters can record the request without overflow.
    pub open spec fn can_allocate(self, size: u32) -> bool {
        match self.strategy {
            StrategyModel::FixedSize(p) => p.can_allocate(size),
            StrategyModel::VariableSize(v) => v.can_allocate(size),
            StrategyModel::NoPooling => self.metrics.pool_misses < usize::MAX,
        }
    }

    /// The pool after a request; with no pooling it counts a miss of its own.
    pub open spec fn after_allocate(self, size: u32) -> MemoryPoolModel {
        match self.strategy {
            StrategyModel::FixedSize(p) => MemoryPoolModel {
                strategy: StrategyModel::FixedSize(p.after_allocate(size)),
                ..self
            },
            StrategyModel::VariableSize(v) => MemoryPoolModel {
                strategy: StrategyModel::VariableSize(v.after_allocate(size)),
                ..self
            },
            StrategyModel::NoPooling => MemoryPoolModel {
                metrics: MetricsModel { pool_misses: self.metrics.pool_misses + 1, ..self.metrics },
                ..self
            },
        }
    }

    /// What becomes of a released segment: what the strategy answers, the
    /// heap when the strategy refuses it or there is no pooling.
    pub open spec fn release(self, addr: usize, size: u32) -> SegmentRelease {
        let r = match self.strategy {
            StrategyModel::FixedSize(p) => p.release_result(addr, size),
            StrategyModel::VariableSize(v) => v.release_result(addr, size),
            StrategyModel::NoPooling => Ok(SegmentRelease::ToHeap),
        };
        match r {
            Ok(release) => release,
            Err(_) => SegmentRelease::ToHeap,
        }
    }

    /// The answer to a release: what becomes of the segment, and whether the
    /// heap allocator is to be reset, as the configuration says.
    pub open spec fn release_plan(self, addr: usize, size: u32) -> DeallocPlan {
        DeallocPlan {
            release: self.release(addr, size),
            reset_heap: self.config.reset_on_deallocate,
        }
    }

    /// The pool after a release at time `now`.
    pub open spec fn after_release(self, addr: usize, size: u32, now: u64) -> MemoryPoolModel {
        match self.strategy {
            StrategyModel::FixedSize(p) => MemoryPoolModel {
                strategy: StrategyModel::FixedSize(p.after_release(addr, size, now)),
                ..self
            },
            StrategyModel::VariableSize(v) => MemoryPoolModel {
                strategy: StrategyModel::VariableSize(v.after_release(addr, size, now)),
                ..self
            },
            StrategyModel::NoPooling => self,
        }
    }

    /// The pool after dropping, at time `now`, the segments older than the
    /// configured maximum age.
    pub open spec fn after_cleanup(self, now: u64) -> MemoryPoolModel {
        let age = self.config.max_segment_age;
        match self.strategy {
            StrategyModel::FixedSize(p) => MemoryPoolModel {
                strategy: StrategyModel::FixedSize(p.after_cleanup(now, age)),
                ..self
            },
            StrategyModel::VariableSize(v) => MemoryPoolModel {
                strategy: StrategyModel::VariableSize(v.after_cleanup(now, age)),
                ..self
            },
            StrategyModel::NoPooling => self,
        }
    }

    /// The segments a cleanup at time `now` drops; the caller frees them.
    pub open spec fn dropped_by_cleanup(self, now: u64) -> Seq<PooledSegment> {
        let age = self.config.max_segment_age;
        match self.strategy {
            StrategyModel::FixedSize(p) => p.dropped_by_cleanup(now, age),
            StrategyModel::VariableSize(v) => v.dropped_by_cleanup(now, age),
            StrategyModel::NoPooling => Seq::empty(),
        }
    }

    /// The counters reported: the strategy's, or the pool's own when there
    /// is no pooling.
    pub open spec fn reported_metrics(self) -> MetricsModel {
        match self.strategy {
            StrategyModel::FixedSize(p) => p.metrics,
            StrategyModel::VariableSize(v) => v.reported_metrics(),
            StrategyModel::NoPooling => self.metrics,
        }
    }
}

} // verus!
