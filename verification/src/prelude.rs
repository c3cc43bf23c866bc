//! What most callers need, under one import.
pub use crate::builder::config::{PipelineConfig, Workload};
pub use crate::builder::pipe::{Pipe, pipe};
pub use crate::builder::stage::Identity;
pub use crate::builder::stream_pipe::{StreamPipe, StreamStart, stream};
pub use crate::executor::ComputePool;
pub use crate::handoff::{Receiver, Sender, channel};
pub use crate::scope::{PipelineScope, ScopedPipe, scope};
pub use crate::state::{FenceBarrier, FenceMode, ReorderBuffer};
pub use crate::sync::CancellationToken;
use vstd::prelude::*;

verus! {

/// Entry points on the items themselves.
pub trait IterExt<I>: Sized {
    /// The items, in their order.
    spec fn items(&self) -> Seq<I>;

    /// Starts a fused pipeline over the items.
    fn pipe(self) -> (p: Pipe<Identity, I, I>)
        ensures
            p.source() == self.items(),
            p.chain() == Identity,
            p.settings() == PipelineConfig::spec_for_cpus(None),
    ;

    /// Starts a streaming pipeline over the items.
    fn stream(self) -> (p: StreamPipe<StreamStart, I, I>)
        ensures
            p.source() == self.items(),
            p.chain() == StreamStart,
            p.settings() == PipelineConfig::spec_for_cpus(None),
            p.token() is None,
            !p.is_ordered(),
    ;
}

impl<I> IterExt<I> for Vec<I> {
    open spec fn items(&self) -> Seq<I> {
        self@
    }

    fn pipe(self) -> (p: Pipe<Identity, I, I>) {
        pipe(self)
    }

    fn stream(self) -> (p: StreamPipe<StreamStart, I, I>) {
        stream(self)
    }
}

/// The items of a vector are what it holds, in order.
pub proof fn law_a_vector_gives_its_items<I>(items: Vec<I>)
    ensures
        items.items() == items@,
{
}

} // verus!
