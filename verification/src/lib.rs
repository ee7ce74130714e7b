//! Proto networks: the flattened intermediate form of a node graph, with
//! topological ordering, input resolution, stable node ids and type inference.

pub mod edges;
pub mod encode;
pub mod fxmap;
pub mod graph;
pub mod listing;
pub mod proto;
pub mod renumber;
pub mod reorder;
pub mod report;
pub mod resolve;
pub mod sort;
pub mod stable;
pub mod text;
pub mod typecheck;
pub mod types;
pub mod typing;

pub use proto::{ConstructionArgs, ProtoNetwork, ProtoNode, ProtoNodeInput};
pub use types::{NodeId, ProtoNodeIdentifier, TaggedValue, Type};
