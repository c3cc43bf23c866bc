//! Stateful building blocks of the streaming collectors.
pub mod fence;
pub mod reorder;
pub mod stream;

pub use fence::{FenceBarrier, FenceMode};
pub use reorder::ReorderBuffer;
