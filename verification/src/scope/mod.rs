//! Pipelines over borrowed data.
pub mod pipeline_scope;

pub use pipeline_scope::{PipelineScope, ScopedPipe, scope};
