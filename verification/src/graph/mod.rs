//! A pipeline as a graph of nodes and edges.
pub mod edge;
pub mod node;

pub use edge::PipelineEdge;
pub use node::{NodeKind, PipelineNode, StageKind};
