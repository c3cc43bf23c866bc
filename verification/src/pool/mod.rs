//! The decisions of a work-stealing pool.
pub mod latch;
pub mod queues;
pub mod registry;
pub mod sleep;
pub mod sleep_mask;
pub mod worker;
