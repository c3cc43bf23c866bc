//! Where work is run.
pub mod compute;
pub mod scheduler;

pub use compute::ComputePool;
