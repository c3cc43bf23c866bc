//! The stages of a graph.
use vstd::prelude::*;

verus! {

/// Whether a stage runs on the compute workers or on the async runtime.
#[derive(Debug, Clone, Copy, PartialEq, Eq, Structural)]
pub enum StageKind {
    Sync,
    Async,
}

/// What a node does: `S` is the function of a synchronous stage, `A` that of an
/// asynchronous one.
pub enum NodeKind<S, A> {
    /// Applies a function.
    Sync(S),
    /// Starts a future for each item.
    Async(A),
    /// Holds items back until a chunk is complete, or until there are no more.
    Fence { chunk_size: Option<usize> },
}

/// A stage of a graph.
pub struct PipelineNode<S, A> {
    /// What the node does.
    pub kind: NodeKind<S, A>,
    /// Where it runs.
    pub stage_kind: StageKind,
    /// Its workers; 0 leaves the number open.
    pub parallelism: usize,
    /// What it is called.
    pub name: &'static str,
}

impl<S, A> PipelineNode<S, A> {
    /// A synchronous stage, with the number of workers left open and no name.
    pub fn sync(f: S) -> (node: Self)
        ensures
            node.kind == NodeKind::<S, A>::Sync(f),
            node.stage_kind == StageKind::Sync,
            node.parallelism == 0,
            node.name@ == ""@,
    {
        PipelineNode { kind: NodeKind::Sync(f), stage_kind: StageKind::Sync, parallelism: 0, name: "" }
    }

    /// An asynchronous stage, with the number of workers left open and no name.
    pub fn async_stage(f: A) -> (node: Self)
        ensures
            node.kind == NodeKind::<S, A>::Async(f),
            node.stage_kind == StageKind::Async,
            node.parallelism == 0,
            node.name@ == ""@,
    {
        PipelineNode { kind: NodeKind::Async(f), stage_kind: StageKind::Async, parallelism: 0, name: "" }
    }

    /// A fence with one worker, called "fence".
    #[must_use]
    pub fn fence(chunk_size: Option<usize>) -> (node: Self)
        ensures
            node.kind == (NodeKind::<S, A>::Fence { chunk_size }),
            node.stage_kind == StageKind::Sync,
            node.parallelism == 1,
            node.name@ == "fence"@,
    {
        PipelineNode {
            kind: NodeKind::Fence { chunk_size },
            stage_kind: StageKind::Sync,
            parallelism: 1,
            name: "fence",
        }
    }

    /// Sets the number of workers.
    #[must_use]
    pub fn with_parallelism(self, n: usize) -> (node: Self)
        ensures
            node == (PipelineNode { parallelism: n, ..self }),
    {
        PipelineNode { parallelism: n, ..self }
    }

    /// Sets the name.
    #[must_use]
    pub fn with_name(self, name: &'static str) -> (node: Self)
        ensures
            node == (PipelineNode { name, ..self }),
    {
        PipelineNode { name, ..self }
    }
}

} // verus!
