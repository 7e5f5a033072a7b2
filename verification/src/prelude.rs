//! The names that most callers need.

pub use crate::bfs::{BfsMinHeap, TraverseState};
pub use crate::dominance::{DomTraverse, Domination};
pub use crate::edge::Edge;
pub use crate::edge_result::EdgeResult;
pub use crate::graph::Graph;
pub use crate::queries::{generate_k, Group, Queries};
pub use crate::store::ResultVoronoi;
pub use crate::types::{
    Action, AppConfig, CentroidId, DataEdge, DataNode, DataObject, DimensionIndex, EdgeId, Error,
    Length, NodeId, ObjectId, Position, Query, QueryId, Range, K,
};
pub use crate::voronoi::Voronoi;
pub use crate::voronoi_heap::VoronoiMinHeap;
