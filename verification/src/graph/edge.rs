//! The links between nodes.
use vstd::prelude::*;

verus! {

/// Items a link holds where no number was asked for.
pub const DEFAULT_EDGE_BUFFER: usize = 256;

/// A link between two nodes.
#[derive(Debug, Clone, Copy, PartialEq, Eq, Structural)]
pub struct PipelineEdge {
    /// Items the link can hold.
    pub buffer_size: usize,
    /// Whether the items leave in the order in which they were numbered.
    pub ordered: bool,
}

impl PipelineEdge {
    /// A link that holds `buffer_size` items.
    #[must_use]
    pub fn new(buffer_size: usize, ordered: bool) -> (edge: Self)
        ensures
            edge == (PipelineEdge { buffer_size, ordered }),
    {
        PipelineEdge { buffer_size, ordered }
    }

    /// A link of the usual size that lets items pass as they come.
    #[must_use]
    pub fn default_unordered() -> (edge: Self)
        ensures
            edge == (PipelineEdge { buffer_size: DEFAULT_EDGE_BUFFER, ordered: false }),
    {
        PipelineEdge::new(DEFAULT_EDGE_BUFFER, false)
    }

    /// A link of the usual size that restores the order.
    #[must_use]
    pub fn default_ordered() -> (edge: Self)
        ensures
            edge == (PipelineEdge { buffer_size: DEFAULT_EDGE_BUFFER, ordered: true }),
    {
        PipelineEdge::new(DEFAULT_EDGE_BUFFER, true)
    }
}

} // verus!
