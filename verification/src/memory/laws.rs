//! Properties of the pools that span several operations.

use vstd::prelude::*;

use crate::memory::model::{
    aggregate, class_of, first_stocked, is_first_fit, is_first_stocked, is_young,
    segment_validity, total_free, ConfigModel, FixedPoolModel, MemoryPoolModel, MetricsModel,
    StrategyModel, VariablePoolModel,
};
use crate::memory::pool::lemma_total_free_update;
use crate::memory::pool::{PoolError, PooledSegment, SegmentGrant, SegmentRelease};

verus! {

/// A segment kept by a fixed-size pool is the one its next request that
/// fits the pool's size gets back (last in, first out): the release adds one
/// to the current size, and serving the request takes it off again, counts
/// one hit and eight saved bytes per word, and leaves the free segments as
/// they were before the release.
pub proof fn law_fixed_release_then_allocate(
    p: FixedPoolModel,
    addr: usize,
    size: u32,
    now: u64,
    request: u32,
)
    requires
        p.release_result(addr, size) == Ok::<SegmentRelease, PoolError>(SegmentRelease::Pooled),
        request <= p.segment_size,
    ensures
        p.after_release(addr, size, now).metrics.current_pool_size == p.metrics.current_pool_size
            + 1,
        p.after_release(addr, size, now).grant(request) == (SegmentGrant::Reused { addr, size }),
        p.after_release(addr, size, now).after_allocate(request).free == p.free,
        p.after_release(addr, size, now).after_allocate(request).metrics.current_pool_size
            == p.metrics.current_pool_size,
        p.after_release(addr, size, now).after_allocate(request).metrics.pool_hits
            == p.metrics.pool_hits + 1,
        p.after_release(addr, size, now).after_allocate(request).metrics.pool_misses
            == p.metrics.pool_misses,
        p.after_release(addr, size, now).after_allocate(request).metrics.bytes_saved
            == p.metrics.bytes_saved + 8 * (size as nat),
{
    let q = p.after_release(addr, size, now);
    assert(q.free.drop_last() =~= p.free);
}

/// Whether, in pool `m`, a request for `request` words is served by the pool
/// that a released segment of `size` words goes to.
pub open spec fn same_pool(m: MemoryPoolModel, size: u32, request: u32) -> bool {
    match m.strategy {
        StrategyModel::FixedSize(p) => request <= p.segment_size,
        StrategyModel::VariableSize(v) => class_of(v.size_classes, request) == class_of(
            v.size_classes,
            size,
        ),
        StrategyModel::NoPooling => false,
    }
}

/// A segment that a memory pool keeps is what the next request served by
/// the same pool gets back.
pub proof fn law_release_then_allocate(
    m: MemoryPoolModel,
    addr: usize,
    size: u32,
    now: u64,
    request: u32,
)
    requires
        m.shaped(),
        m.release(addr, size) == SegmentRelease::Pooled,
        same_pool(m, size, request),
    ensures
        m.after_release(addr, size, now).grant(request) == (SegmentGrant::Reused { addr, size }),
{
    match m.strategy {
        StrategyModel::FixedSize(p) => {
            law_fixed_release_then_allocate(p, addr, size, now, request);
        },
        StrategyModel::VariableSize(v) => {
            let i = class_of(v.size_classes, size)->0;
            lemma_class_of_fits(v.size_classes, size);
            let p = v.pools[i];
            assert(p.shaped());
            law_fixed_release_then_allocate(p, addr, size, now, request);
            lemma_class_of_fits(v.size_classes, request);
        },
        StrategyModel::NoPooling => {},
    }
}

/// The class chosen for a size holds it.
pub proof fn lemma_class_of_fits(classes: Seq<u32>, size: u32)
    ensures
        class_of(classes, size) matches Some(i) ==> 0 <= i < classes.len() && size <= classes[i],
        class_of(classes, size) is None ==> forall|j: int|
            0 <= j < classes.len() ==> classes[j] < size,
{
    if class_of(classes, size) is None {
        assert forall|j: int| 0 <= j < classes.len() implies classes[j] < size by {
            if classes[j] >= size {
                lemma_first_fit_exists(classes, size, j);
            }
        }
    }
}

/// A class that holds a size implies a first one that does.
proof fn lemma_first_fit_exists(classes: Seq<u32>, size: u32, j: int)
    requires
        0 <= j < classes.len(),
        size <= classes[j],
    ensures
        class_of(classes, size) is Some,
    decreases j,
{
    if exists|l: int| 0 <= l < j && size <= classes[l] {
        let l = choose|l: int| 0 <= l < j && size <= classes[l];
        lemma_first_fit_exists(classes, size, l);
    } else {
        assert(is_first_fit(classes, size, j));
    }
}

/// Every request that a fixed-size pool answers counts exactly one hit or
/// one miss, and it is a hit exactly when a free segment is handed back.
pub proof fn law_fixed_allocation_counted(p: FixedPoolModel, request: u32)
    ensures
        p.after_allocate(request).metrics.pool_hits + p.after_allocate(request).metrics.pool_misses
            == p.metrics.pool_hits + p.metrics.pool_misses + 1,
        (p.after_allocate(request).metrics.pool_hits == p.metrics.pool_hits + 1) == (p.grant(
            request,
        ) is Reused),
{
}

/// Replacing one pool changes the added-up counters by the difference of
/// its hits and misses.
proof fn lemma_aggregate_update(pools: Seq<FixedPoolModel>, i: int, q: FixedPoolModel)
    requires
        0 <= i < pools.len(),
    ensures
        aggregate(pools.update(i, q)).pool_hits + pools[i].metrics.pool_hits == aggregate(
            pools,
        ).pool_hits + q.metrics.pool_hits,
        aggregate(pools.update(i, q)).pool_misses + pools[i].metrics.pool_misses == aggregate(
            pools,
        ).pool_misses + q.metrics.pool_misses,
    decreases pools.len(),
{
    let u = pools.update(i, q);
    if i == pools.len() - 1 {
        assert(u.drop_last() =~= pools.drop_last());
    } else {
        lemma_aggregate_update(pools.drop_last(), i, q);
        assert(u.drop_last() =~= pools.drop_last().update(i, q));
    }
}

/// The first pool with a free segment, when there is one, has one, and the
/// pools before it have none.
proof fn lemma_first_stocked_facts(pools: Seq<FixedPoolModel>)
    ensures
        first_stocked(pools) matches Some(j) ==> is_first_stocked(pools, j),
        first_stocked(pools) is None ==> forall|k: int|
            0 <= k < pools.len() ==> pools[k].free.len() == 0,
{
    if first_stocked(pools) is None {
        assert forall|k: int| 0 <= k < pools.len() implies pools[k].free.len() == 0 by {
            if pools[k].free.len() > 0 {
                lemma_stocked_exists(pools, k);
            }
        }
    }
}

/// A pool with a free segment implies a first one.
proof fn lemma_stocked_exists(pools: Seq<FixedPoolModel>, k: int)
    requires
        0 <= k < pools.len(),
        pools[k].free.len() > 0,
    ensures
        first_stocked(pools) is Some,
    decreases k,
{
    if exists|l: int| 0 <= l < k && pools[l].free.len() > 0 {
        let l = choose|l: int| 0 <= l < k && pools[l].free.len() > 0;
        lemma_stocked_exists(pools, l);
    } else {
        assert(is_first_stocked(pools, k));
    }
}

/// One request to a pool of size classes: the pool stays shaped; the
/// request counts exactly one hit or one miss in the reported counters, a
/// hit exactly when a free segment is handed out; the granted segment holds
/// the request unless a class other than the request's lends it, and a lent
/// segment has the lending class's size.
pub proof fn law_variable_allocate(v: VariablePoolModel, request: u32)
    requires
        v.shaped(),
    ensures
        v.after_allocate(request).shaped(),
        v.after_allocate(request).max_pooled == v.max_pooled,
        v.after_allocate(request).reported_metrics().pool_hits + v.after_allocate(
            request,
        ).reported_metrics().pool_misses == v.reported_metrics().pool_hits
            + v.reported_metrics().pool_misses + 1,
        (v.after_allocate(request).reported_metrics().pool_hits == v.reported_metrics().pool_hits
            + 1) == (v.grant(request) is Reused),
        v.lender(request) is None ==> v.grant(request).words() >= request,
        v.lender(request) matches Some(j) ==> 0 <= j < v.size_classes.len() && v.grant(request)
            == (SegmentGrant::Reused {
            addr: v.pools[j].free.last().addr,
            size: v.size_classes[j],
        }),
{
    lemma_class_of_fits(v.size_classes, request);
    lemma_first_stocked_facts(v.pools);
    let after = v.after_allocate(request);
    if let Some(i) = class_of(v.size_classes, request) {
        match v.lender(request) {
            Some(j) => {
                let p = v.pools[j];
                assert(p.shaped());
                assert(p.free[p.free.len() - 1].size == p.segment_size);
                assert(p.after_take() == p.after_allocate(p.segment_size));
                law_fixed_ops_keep_shape(p, p.segment_size, 0, 0, 0, 0);
                lemma_aggregate_update(v.pools, j, p.after_take());
                lemma_total_free_update(v.pools, j, p.after_take());
                assert forall|k: int| 0 <= k < after.pools.len() implies (#[trigger] after.pools[k]).shaped()
                    && after.pools[k].segment_size == after.size_classes[k] by {
                    if k != j {
                        assert(after.pools[k] == v.pools[k]);
                    }
                }
            },
            None => {
                let p = v.pools[i];
                assert(p.shaped());
                if p.free.len() > 0 {
                    assert(p.free[p.free.len() - 1].size == p.segment_size);
                }
                law_fixed_ops_keep_shape(p, request, 0, 0, 0, 0);
                law_fixed_allocation_counted(p, request);
                lemma_aggregate_update(v.pools, i, p.after_allocate(request));
                lemma_total_free_update(v.pools, i, p.after_allocate(request));
                assert forall|k: int| 0 <= k < after.pools.len() implies (#[trigger] after.pools[k]).shaped()
                    && after.pools[k].segment_size == after.size_classes[k] by {
                    if k != i {
                        assert(after.pools[k] == v.pools[k]);
                    }
                }
            },
        }
    }
}

/// Every request that a memory pool answers counts exactly one hit or one
/// miss in the counters it reports, and it is a hit exactly when a pooled
/// segment is handed out; the pool stays shaped.
pub proof fn law_allocation_counted(m: MemoryPoolModel, request: u32)
    requires
        m.shaped(),
    ensures
        m.after_allocate(request).shaped(),
        m.after_allocate(request).config == m.config,
        m.after_allocate(request).reported_metrics().pool_hits + m.after_allocate(
            request,
        ).reported_metrics().pool_misses == m.reported_metrics().pool_hits
            + m.reported_metrics().pool_misses + 1,
        (m.after_allocate(request).reported_metrics().pool_hits == m.reported_metrics().pool_hits
            + 1) == (m.grant(request) is Reused),
{
    match m.strategy {
        StrategyModel::FixedSize(p) => {
            law_fixed_allocation_counted(p, request);
            law_fixed_ops_keep_shape(p, request, 0, 0, 0, 0);
        },
        StrategyModel::VariableSize(v) => {
            law_variable_allocate(v, request);
        },
        StrategyModel::NoPooling => {},
    }
}

/// The class that lends a segment to a request, for a pool of size classes
/// (see [`VariablePoolModel::lender`]); none for other strategies.
pub open spec fn lender_of(m: MemoryPoolModel, request: u32) -> Option<int> {
    match m.strategy {
        StrategyModel::VariableSize(v) => v.lender(request),
        _ => None,
    }
}

/// A memory pool grants a segment at least as large as the request, except
/// when a pool of size classes lends, for a request whose class has no free
/// segment, the last free segment of another class: that segment has that
/// class's size, which may be smaller.
pub proof fn law_grant_holds_request(m: MemoryPoolModel, request: u32)
    requires
        m.shaped(),
    ensures
        lender_of(m, request) is None ==> m.grant(request).words() >= request,
        lender_of(m, request) matches Some(j) ==> m.grant(request).words()
            == (m.strategy->VariableSize_0).size_classes[j],
{
    match m.strategy {
        StrategyModel::FixedSize(p) => {
            if p.free.len() > 0 && request <= p.segment_size {
                assert(p.free[p.free.len() - 1].size == p.segment_size);
            }
        },
        StrategyModel::VariableSize(v) => {
            law_variable_allocate(v, request);
        },
        StrategyModel::NoPooling => {},
    }
}

/// A pool after serving the requests of `requests`, one after the other.
pub open spec fn allocate_all(m: MemoryPoolModel, requests: Seq<u32>) -> MemoryPoolModel
    decreases requests.len(),
{
    if requests.len() == 0 {
        m
    } else {
        allocate_all(m, requests.drop_last()).after_allocate(requests.last())
    }
}

/// Over any sequence of requests, the reported hits and misses grow by the
/// number of requests; with no pooling, every one of them is a miss.
pub proof fn law_allocations_counted_over_sequence(m: MemoryPoolModel, requests: Seq<u32>)
    requires
        m.shaped(),
    ensures
        allocate_all(m, requests).shaped(),
        allocate_all(m, requests).config == m.config,
        allocate_all(m, requests).strategy is NoPooling == m.strategy is NoPooling,
        allocate_all(m, requests).reported_metrics().pool_hits + allocate_all(
            m,
            requests,
        ).reported_metrics().pool_misses == m.reported_metrics().pool_hits
            + m.reported_metrics().pool_misses + requests.len(),
        m.strategy is NoPooling ==> allocate_all(m, requests).reported_metrics().pool_hits
            == m.reported_metrics().pool_hits && allocate_all(
            m,
            requests,
        ).reported_metrics().pool_misses == m.reported_metrics().pool_misses + requests.len(),
    decreases requests.len(),
{
    if requests.len() > 0 {
        law_allocations_counted_over_sequence(m, requests.drop_last());
        let before = allocate_all(m, requests.drop_last());
        law_allocation_counted(before, requests.last());
    }
}

/// A pool of size classes after serving the requests of `requests`.
pub open spec fn variable_allocate_all(v: VariablePoolModel, requests: Seq<u32>) -> VariablePoolModel
    decreases requests.len(),
{
    if requests.len() == 0 {
        v
    } else {
        variable_allocate_all(v, requests.drop_last()).after_allocate(requests.last())
    }
}

/// Over any sequence of requests to a pool of size classes, the reported
/// hits and misses grow by the number of requests, those too large for
/// every class included.
pub proof fn law_variable_allocations_counted_over_sequence(
    v: VariablePoolModel,
    requests: Seq<u32>,
)
    requires
        v.shaped(),
    ensures
        variable_allocate_all(v, requests).shaped(),
        variable_allocate_all(v, requests).reported_metrics().pool_hits + variable_allocate_all(
            v,
            requests,
        ).reported_metrics().pool_misses == v.reported_metrics().pool_hits
            + v.reported_metrics().pool_misses + requests.len(),
    decreases requests.len(),
{
    if requests.len() > 0 {
        law_variable_allocations_counted_over_sequence(v, requests.drop_last());
        law_variable_allocate(variable_allocate_all(v, requests.drop_last()), requests.last());
    }
}

/// A segment that a pool refuses changes nothing in it, and the refusal
/// names the first check it fails.
pub proof fn law_refused_release_changes_nothing(
    p: FixedPoolModel,
    addr: usize,
    size: u32,
    now: u64,
)
    requires
        segment_validity(addr, size) is Err,
    ensures
        p.after_release(addr, size, now) == p,
        p.release_result(addr, size) == Err::<SegmentRelease, PoolError>(
            segment_validity(addr, size)->Err_0,
        ),
        addr == 0 ==> p.release_result(addr, size) == Err::<SegmentRelease, PoolError>(
            PoolError::InvalidSegment,
        ),
{
}

/// Every element of a filtered sequence is an element of the sequence.
proof fn lemma_filter_subset<A>(s: Seq<A>, pred: spec_fn(A) -> bool, j: int)
    requires
        0 <= j < s.filter(pred).len(),
    ensures
        s.contains(s.filter(pred)[j]),
    decreases s.len(),
{
    reveal(Seq::filter);
    if s.len() > 0 {
        let rest = s.drop_last().filter(pred);
        if j < rest.len() {
            lemma_filter_subset(s.drop_last(), pred, j);
            let k = choose|k: int| 0 <= k < s.drop_last().len() && s.drop_last()[k] == rest[j];
            assert(s[k] == s.filter(pred)[j]);
        } else {
            assert(s[s.len() - 1] == s.filter(pred)[j]);
        }
    }
}

/// A sequence splits into the elements that meet a predicate and those
/// that do not.
proof fn lemma_filter_partition<A>(s: Seq<A>, pred: spec_fn(A) -> bool)
    ensures
        s.filter(pred).len() + s.filter(|x: A| !pred(x)).len() == s.len(),
    decreases s.len(),
{
    reveal(Seq::filter);
    if s.len() > 0 {
        lemma_filter_partition(s.drop_last(), pred);
        let not_pred = |x: A| !pred(x);
        assert(not_pred(s.last()) == !pred(s.last()));
    }
}

/// A cleanup keeps exactly the young segments and drops exactly the old
/// ones: every kept segment is young, every young one is kept, every
/// dropped one is old, every old one is dropped, and each free segment is
/// either kept or dropped.
pub proof fn law_cleanup_keeps_exactly_young(p: FixedPoolModel, now: u64, max_age: u64)
    ensures
        forall|j: int|
            0 <= j < p.after_cleanup(now, max_age).free.len() ==> is_young(
                now,
                max_age,
                #[trigger] p.after_cleanup(now, max_age).free[j],
            ),
        forall|j: int|
            0 <= j < p.free.len() && is_young(now, max_age, #[trigger] p.free[j]) ==> p.after_cleanup(
                now,
                max_age,
            ).free.contains(p.free[j]),
        forall|j: int|
            0 <= j < p.dropped_by_cleanup(now, max_age).len() ==> !is_young(
                now,
                max_age,
                #[trigger] p.dropped_by_cleanup(now, max_age)[j],
            ),
        forall|j: int|
            0 <= j < p.free.len() && !is_young(now, max_age, #[trigger] p.free[j])
                ==> p.dropped_by_cleanup(now, max_age).contains(p.free[j]),
        p.after_cleanup(now, max_age).free.len() + p.dropped_by_cleanup(now, max_age).len()
            == p.free.len(),
{
    broadcast use vstd::seq_lib::group_filter_ensures;

    let young = |s: PooledSegment| is_young(now, max_age, s);
    let old_ones = |s: PooledSegment| !is_young(now, max_age, s);
    assert forall|j: int|
        0 <= j < p.after_cleanup(now, max_age).free.len() implies is_young(
        now,
        max_age,
        #[trigger] p.after_cleanup(now, max_age).free[j],
    ) by {
        p.free.lemma_filter_pred(young, j);
    }
    assert forall|j: int|
        0 <= j < p.free.len() && is_young(now, max_age, #[trigger] p.free[j]) implies p.after_cleanup(
        now,
        max_age,
    ).free.contains(p.free[j]) by {
        p.free.lemma_filter_contains(young, j);
    }
    assert forall|j: int|
        0 <= j < p.dropped_by_cleanup(now, max_age).len() implies !is_young(
        now,
        max_age,
        #[trigger] p.dropped_by_cleanup(now, max_age)[j],
    ) by {
        p.free.lemma_filter_pred(old_ones, j);
    }
    assert forall|j: int|
        0 <= j < p.free.len() && !is_young(now, max_age, #[trigger] p.free[j]) implies p.dropped_by_cleanup(
        now,
        max_age,
    ).contains(p.free[j]) by {
        p.free.lemma_filter_contains(old_ones, j);
    }
    lemma_filter_partition(p.free, young);
    assert((|x: PooledSegment| !young(x)) == old_ones);
}

/// Every operation keeps a fixed-size pool shaped (at most `capacity` free
/// segments, each of its size and valid, counted by the current size, which
/// the largest size bounds), and none lowers the largest size.
pub proof fn law_fixed_ops_keep_shape(
    p: FixedPoolModel,
    request: u32,
    addr: usize,
    size: u32,
    now: u64,
    max_age: u64,
)
    requires
        p.shaped(),
    ensures
        p.after_allocate(request).shaped(),
        p.after_release(addr, size, now).shaped(),
        p.after_cleanup(now, max_age).shaped(),
        p.after_allocate(request).metrics.max_pool_size == p.metrics.max_pool_size,
        p.after_release(addr, size, now).metrics.max_pool_size >= p.metrics.max_pool_size,
        p.after_cleanup(now, max_age).metrics.max_pool_size == p.metrics.max_pool_size,
{
    broadcast use vstd::seq_lib::group_filter_ensures;

    let young = |s: PooledSegment| is_young(now, max_age, s);
    let c = p.after_cleanup(now, max_age);
    assert forall|j: int| 0 <= j < c.free.len() implies (#[trigger] c.free[j]).size
        == c.segment_size && segment_validity(c.free[j].addr, c.free[j].size) is Ok by {
        lemma_filter_subset(p.free, young, j);
        let k = choose|k: int| 0 <= k < p.free.len() && p.free[k] == c.free[j];
        assert(p.free[k].size == p.segment_size);
    }
    p.free.lemma_filter_len(young);
    let a = p.after_allocate(request);
    if p.hits(request) {
        assert forall|j: int| 0 <= j < a.free.len() implies (#[trigger] a.free[j]).size
            == a.segment_size && segment_validity(a.free[j].addr, a.free[j].size) is Ok by {
            assert(a.free[j] == p.free[j]);
        }
    }
    let r = p.after_release(addr, size, now);
    if p.release_result(addr, size) == Ok::<SegmentRelease, PoolError>(SegmentRelease::Pooled) {
        assert forall|j: int| 0 <= j < r.free.len() implies (#[trigger] r.free[j]).size
            == r.segment_size && segment_validity(r.free[j].addr, r.free[j].size) is Ok by {
            if j < p.free.len() {
                assert(r.free[j] == p.free[j]);
            }
        }
    }
}

/// In shaped pools, the current sizes added up are the free segments held.
proof fn lemma_aggregate_current_is_total_free(pools: Seq<FixedPoolModel>)
    requires
        forall|i: int| 0 <= i < pools.len() ==> (#[trigger] pools[i]).shaped(),
    ensures
        aggregate(pools).current_pool_size == total_free(pools),
    decreases pools.len(),
{
    if pools.len() > 0 {
        assert(pools.last() == pools[pools.len() - 1]);
        lemma_aggregate_current_is_total_free(pools.drop_last());
    }
}

/// A memory pool of size classes never reports more segments in the pool
/// than the configured maximum.
pub proof fn law_pooled_within_configured_maximum(m: MemoryPoolModel)
    requires
        m.shaped(),
        m.strategy is VariableSize,
    ensures
        m.reported_metrics().current_pool_size <= m.config.max_pool_size,
{
    let v = m.strategy->VariableSize_0;
    lemma_aggregate_current_is_total_free(v.pools);
}

/// A request or a release made to a memory pool.
pub enum PoolOp {
    /// A request for at least this many words.
    Allocate(u32),
    /// The release of the segment at this address, of this many words, at
    /// this time.
    Release(usize, u32, u64),
}

/// What a memory pool answers to an operation.
pub enum PoolAnswer {
    Granted(SegmentGrant),
    Released(SegmentRelease),
}

/// The pool after one operation.
pub open spec fn step(m: MemoryPoolModel, op: PoolOp) -> MemoryPoolModel {
    match op {
        PoolOp::Allocate(size) => m.after_allocate(size),
        PoolOp::Release(addr, size, now) => m.after_release(addr, size, now),
    }
}

/// The answer to one operation.
pub open spec fn answer(m: MemoryPoolModel, op: PoolOp) -> PoolAnswer {
    match op {
        PoolOp::Allocate(size) => PoolAnswer::Granted(m.grant(size)),
        PoolOp::Release(addr, size, _) => PoolAnswer::Released(m.release(addr, size)),
    }
}

/// The pool after the operations of `ops`, one after the other.
pub open spec fn run(m: MemoryPoolModel, ops: Seq<PoolOp>) -> MemoryPoolModel
    decreases ops.len(),
{
    if ops.len() == 0 {
        m
    } else {
        step(run(m, ops.drop_last()), ops.last())
    }
}

/// The answers to the operations of `ops`, in order.
pub open spec fn answers(m: MemoryPoolModel, ops: Seq<PoolOp>) -> Seq<PoolAnswer>
    decreases ops.len(),
{
    if ops.len() == 0 {
        Seq::empty()
    } else {
        answers(m, ops.drop_last()).push(answer(run(m, ops.drop_last()), ops.last()))
    }
}

/// Two memory pools with the same strategy and counters give the same
/// answers and the same counters on every sequence of requests and
/// releases, whatever else their configurations say.
pub proof fn law_same_state_same_answers(m1: MemoryPoolModel, m2: MemoryPoolModel, ops: Seq<PoolOp>)
    requires
        m1.strategy == m2.strategy,
        m1.metrics == m2.metrics,
    ensures
        answers(m1, ops) == answers(m2, ops),
        run(m1, ops).strategy == run(m2, ops).strategy,
        run(m1, ops).metrics == run(m2, ops).metrics,
        run(m1, ops).reported_metrics() == run(m2, ops).reported_metrics(),
    decreases ops.len(),
{
    if ops.len() > 0 {
        law_same_state_same_answers(m1, m2, ops.drop_last());
    }
}

/// A configuration that names a segment size asks for a fixed-size pool of
/// that size keeping at most `max_pool_size` segments, whatever size classes
/// it names: a pool built from it answers every sequence of requests and
/// releases as a fixed-size pool built with that size and capacity does.
pub proof fn law_fixed_config_is_fixed_pool(
    c: ConfigModel,
    segment_size: u32,
    m1: MemoryPoolModel,
    m2: MemoryPoolModel,
    ops: Seq<PoolOp>,
)
    requires
        c.fixed_segment_size == Some(segment_size),
        m1.strategy == c.strategy(),
        m2.strategy == StrategyModel::FixedSize(
            FixedPoolModel::new(segment_size, c.max_pool_size as nat),
        ),
        m1.metrics == MetricsModel::empty(),
        m2.metrics == MetricsModel::empty(),
    ensures
        answers(m1, ops) == answers(m2, ops),
        run(m1, ops).reported_metrics() == run(m2, ops).reported_metrics(),
{
    law_same_state_same_answers(m1, m2, ops);
}

/// A fixed-size pool keeps a released segment exactly when the segment is
/// valid (non-null, 8-byte aligned, between 1 and 2^20 words), has the
/// pool's segment size, and the pool holds fewer free segments than its
/// capacity; a kept segment is put last in the free list, stamped with the
/// release time, and any other release leaves the free list as it was.
pub proof fn law_fixed_release_decision(p: FixedPoolModel, addr: usize, size: u32, now: u64)
    ensures
        (p.release_result(addr, size) == Ok::<SegmentRelease, PoolError>(SegmentRelease::Pooled))
            <==> (addr != 0 && addr % 8 == 0 && 1 <= size <= 0x10_0000 && size == p.segment_size
            && p.free.len() < p.capacity),
        (p.release_result(addr, size) == Ok::<SegmentRelease, PoolError>(SegmentRelease::ToHeap))
            <==> (addr != 0 && addr % 8 == 0 && 1 <= size <= 0x10_0000 && (size != p.segment_size
            || p.free.len() >= p.capacity)),
        addr == 0 ==> p.release_result(addr, size) == Err::<SegmentRelease, PoolError>(
            PoolError::InvalidSegment,
        ),
        addr != 0 && addr % 8 != 0 ==> p.release_result(addr, size) == Err::<
            SegmentRelease,
            PoolError,
        >(PoolError::AlignmentError),
        addr != 0 && addr % 8 == 0 && (size == 0 || size > 0x10_0000) ==> p.release_result(
            addr,
            size,
        ) == Err::<SegmentRelease, PoolError>(PoolError::SegmentTooLarge(size)),
        p.after_release(addr, size, now).free == (if addr != 0 && addr % 8 == 0 && 1 <= size
            <= 0x10_0000 && size == p.segment_size && p.free.len() < p.capacity {
            p.free.push(PooledSegment { addr, size, last_used: now, generation: 0 })
        } else {
            p.free
        }),
        p.after_release(addr, size, now).capacity == p.capacity,
        p.after_release(addr, size, now).segment_size == p.segment_size,
{
}

/// The free segments of a sequence of pools add up one pool at a time.
pub proof fn law_total_free_adds_up(pools: Seq<FixedPoolModel>, q: FixedPoolModel)
    ensures
        total_free(Seq::<FixedPoolModel>::empty()) == 0,
        total_free(pools.push(q)) == total_free(pools) + q.free.len(),
{
    assert(pools.push(q).drop_last() =~= pools);
}

/// A pool of size classes keeps a released segment exactly when the first
/// class that holds its size has exactly that size and would keep it (valid
/// segment, fewer free segments than the class's capacity), and all classes
/// together hold fewer free segments than the pool's maximum.
pub proof fn law_variable_release_decision(v: VariablePoolModel, addr: usize, size: u32)
    requires
        v.shaped(),
    ensures
        (v.release_result(addr, size) == Ok::<SegmentRelease, PoolError>(SegmentRelease::Pooled))
            <==> (exists|i: int|
            #![trigger v.pools[i]]
            class_of(v.size_classes, size) == Some(i) && addr != 0 && addr % 8 == 0 && 1 <= size
                <= 0x10_0000 && size == v.size_classes[i] && v.pools[i].free.len()
                < v.pools[i].capacity && total_free(v.pools) < v.max_pooled),
{
    lemma_class_of_fits(v.size_classes, size);
    if let Some(i) = class_of(v.size_classes, size) {
        let p = v.pools[i];
        law_fixed_release_decision(p, addr, size, 0);
        if v.release_result(addr, size) == Ok::<SegmentRelease, PoolError>(
            SegmentRelease::Pooled,
        ) {
            assert(class_of(v.size_classes, size) == Some(i) && v.pools[i] == p);
        }
    }
}

/// The strategy a configuration asks for: with a segment size, a fixed-size
/// pool of that size whose capacity is the configured maximum; else, with
/// size classes, one empty pool per class, of that class's size, each with
/// the configured maximum as capacity, and the configured maximum for all
/// classes together; else no pooling. Every pool starts empty, with all
/// counters zero.
pub proof fn law_config_strategy(c: ConfigModel)
    ensures
        c.fixed_segment_size is Some ==> ({
            &&& c.strategy() is FixedSize
            &&& (c.strategy()->FixedSize_0).segment_size == c.fixed_segment_size->0
            &&& (c.strategy()->FixedSize_0).capacity == c.max_pool_size
            &&& (c.strategy()->FixedSize_0).free.len() == 0
            &&& (c.strategy()->FixedSize_0).metrics.pool_hits == 0
            &&& (c.strategy()->FixedSize_0).metrics.pool_misses == 0
            &&& (c.strategy()->FixedSize_0).metrics.current_pool_size == 0
            &&& (c.strategy()->FixedSize_0).metrics.bytes_saved == 0
        }),
        c.fixed_segment_size is None && c.size_classes is Some ==> ({
            let v = c.strategy()->VariableSize_0;
            &&& c.strategy() is VariableSize
            &&& v.size_classes == c.size_classes->0
            &&& v.pools.len() == v.size_classes.len()
            &&& v.max_pooled == c.max_pool_size
            &&& v.metrics.pool_misses == 0
            &&& forall|i: int|
                0 <= i < v.pools.len() ==> (#[trigger] v.pools[i]).capacity == c.max_pool_size
                    && v.pools[i].segment_size == v.size_classes[i] && v.pools[i].free.len() == 0
                    && v.pools[i].metrics.pool_hits == 0 && v.pools[i].metrics.pool_misses == 0
        }),
        c.fixed_segment_size is None && c.size_classes is None ==> c.strategy() is NoPooling,
{
}

/// The sum of `f` over the pools of `pools`.
pub open spec fn sum_of(pools: Seq<FixedPoolModel>, f: spec_fn(FixedPoolModel) -> nat) -> nat
    decreases pools.len(),
{
    if pools.len() == 0 {
        0
    } else {
        sum_of(pools.drop_last(), f) + f(pools.last())
    }
}

/// The counters of a sequence of pools, added up by `aggregate`, are the
/// sums of each pool's counters; the largest pool size is the largest of
/// theirs; the latency samples are all of theirs.
proof fn lemma_aggregate_sums(pools: Seq<FixedPoolModel>)
    ensures
        aggregate(pools).pool_hits == sum_of(pools, |p: FixedPoolModel| p.metrics.pool_hits),
        aggregate(pools).pool_misses == sum_of(pools, |p: FixedPoolModel| p.metrics.pool_misses),
        aggregate(pools).current_pool_size == sum_of(
            pools,
            |p: FixedPoolModel| p.metrics.current_pool_size,
        ),
        aggregate(pools).bytes_managed == sum_of(
            pools,
            |p: FixedPoolModel| p.metrics.bytes_managed,
        ),
        aggregate(pools).bytes_saved == sum_of(pools, |p: FixedPoolModel| p.metrics.bytes_saved),
        aggregate(pools).allocation_latency.len() == sum_of(
            pools,
            |p: FixedPoolModel| p.metrics.allocation_latency.len(),
        ),
        forall|i: int|
            0 <= i < pools.len() ==> aggregate(pools).max_pool_size
                >= (#[trigger] pools[i]).metrics.max_pool_size,
        aggregate(pools).max_pool_size == 0 || exists|i: int|
            0 <= i < pools.len() && aggregate(pools).max_pool_size
                == (#[trigger] pools[i]).metrics.max_pool_size,
    decreases pools.len(),
{
    if pools.len() > 0 {
        let rest = pools.drop_last();
        lemma_aggregate_sums(rest);
        assert forall|i: int|
            0 <= i < pools.len() implies aggregate(pools).max_pool_size
            >= (#[trigger] pools[i]).metrics.max_pool_size by {
            if i < pools.len() - 1 {
                assert(pools[i] == rest[i]);
            }
        }
        if aggregate(pools).max_pool_size != 0 {
            if aggregate(pools).max_pool_size == pools.last().metrics.max_pool_size {
                assert(pools[pools.len() - 1] == pools.last());
            } else {
                let i = choose|i: int|
                    0 <= i < rest.len() && aggregate(rest).max_pool_size
                        == (#[trigger] rest[i]).metrics.max_pool_size;
                assert(pools[i] == rest[i]);
            }
        }
    }
}

/// What a pool of size classes reports adds up its classes and its own
/// counters: hits, misses, current size, bytes managed, bytes saved and
/// latency samples are the sums over the classes plus its own; the largest
/// pool size is at least every class's and its own, and is one of them.
pub proof fn law_reported_metrics_add_up(v: VariablePoolModel)
    ensures
        v.reported_metrics().pool_hits == sum_of(v.pools, |p: FixedPoolModel| p.metrics.pool_hits)
            + v.metrics.pool_hits,
        v.reported_metrics().pool_misses == sum_of(
            v.pools,
            |p: FixedPoolModel| p.metrics.pool_misses,
        ) + v.metrics.pool_misses,
        v.reported_metrics().current_pool_size == sum_of(
            v.pools,
            |p: FixedPoolModel| p.metrics.current_pool_size,
        ) + v.metrics.current_pool_size,
        v.reported_metrics().bytes_managed == sum_of(
            v.pools,
            |p: FixedPoolModel| p.metrics.bytes_managed,
        ) + v.metrics.bytes_managed,
        v.reported_metrics().bytes_saved == sum_of(
            v.pools,
            |p: FixedPoolModel| p.metrics.bytes_saved,
        ) + v.metrics.bytes_saved,
        v.reported_metrics().allocation_latency.len() == sum_of(
            v.pools,
            |p: FixedPoolModel| p.metrics.allocation_latency.len(),
        ) + v.metrics.allocation_latency.len(),
        v.reported_metrics().max_pool_size >= v.metrics.max_pool_size,
        forall|i: int|
            0 <= i < v.pools.len() ==> v.reported_metrics().max_pool_size
                >= (#[trigger] v.pools[i]).metrics.max_pool_size,
        v.reported_metrics().max_pool_size == v.metrics.max_pool_size || exists|i: int|
            0 <= i < v.pools.len() && v.reported_metrics().max_pool_size
                == (#[trigger] v.pools[i]).metrics.max_pool_size,
{
    lemma_aggregate_sums(v.pools);
}

} // verus!
