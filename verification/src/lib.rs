//! Pipelines over plain vectors: fused stage chains, ordered and unordered
//! streaming collection, and the buffers and state machines that a worker pool
//! is driven by.
pub mod builder;
pub mod executor;
pub mod graph;
pub mod handoff;
pub mod pool;
pub mod prelude;
pub mod scope;
pub mod state;
pub mod sync;
pub mod util;

pub use builder::{
    Filter, FusedStage, FusedTryStage, Identity, InfallibleChain, MapErr, Pipe, Pipeline,
    PipelineConfig, StageMarker, StreamPipe, StreamPipeline, StreamStart, SyncMap, TryMap, TryPipe,
    Workload, par_chunks_map, par_map, par_map_with_workload, pipe, stream, try_par_map,
};
pub use executor::ComputePool;
pub use handoff::{Receiver, Sender, WaitGroup, channel, mpsc_channel};
pub use scope::{PipelineScope, ScopedPipe, scope};
pub use state::{FenceBarrier, FenceMode, ReorderBuffer};
pub use sync::CancellationToken;
