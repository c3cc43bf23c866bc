//! Building and running pipelines.
pub mod agree;
pub mod applied;
pub mod config;
pub mod engine;
pub mod flow;
pub mod fusion;
pub mod pipe;
pub mod pipeline;
pub mod plan;
pub mod schedule;
pub mod slots;
pub mod stage;
pub mod steps;
pub mod stream_pipe;
pub mod stream_pipeline;
pub mod stream_workers;
pub mod turns;

pub use config::{PipelineConfig, Workload};
pub use pipe::{Pipe, TryPipe, pipe};
pub use pipeline::{Pipeline, par_chunks_map, par_map, par_map_with_workload, try_par_map};
pub use stage::{
    Filter, FusedStage, FusedTryStage, Identity, InfallibleChain, MapErr, StageMarker, SyncMap,
    TryMap,
};
pub use stream_pipe::{StreamPipe, StreamStart, stream};
pub use stream_pipeline::StreamPipeline;
