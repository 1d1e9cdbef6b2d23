//! Segment pooling: which freed segments are kept for reuse, which request is
//! served from them, and what the heap is asked for otherwise.

pub mod laws;
pub mod model;
pub mod pool;

pub use pool::{
    FixedSizePool, MemoryPool, MemoryUsage, PoolConfig, PoolError, PoolMetrics, PoolingStrategy,
    VariableSizePool,
};
