//! Network-constrained Voronoi diagrams over a road graph.
//!
//! For an object on the network and a dominance level `k`, the crate finds
//! the objects nearby that dominate it at strength `k` or above, lets the
//! fronts of all of them run over the network at once, and keeps the parts
//! of every edge that the object reaches first. A store holds these parts
//! by edge and level and answers who owns a point of an edge.
//!
//! * [`graph`], [`fill`] and [`convert`]: the network, filling it with a
//!   data set, and objects made nodes of it.
//! * [`bfs`] and [`dominance`]: the bounded search around an object, and
//!   the comparison of the objects it meets.
//! * [`voronoi_heap`], [`scope`] and [`voronoi`]: the traversal from many
//!   centroids, the ranges it gives, and the scope of one object.
//! * [`edge_result`] and [`store`]: the coverage of an edge, and the store.
//! * [`queries`] and [`driver`]: the levels to work through, and the passes
//!   over a data set.
//!
//! # Units
//!
//! All quantities are integers. Lengths and costs are counted in a unit
//! that the caller picks; a cost that would pass the largest length stays
//! there and stands for "out of reach". Coordinates are counted in the same
//! unit. A position on an edge is a fraction of the edge in parts of
//! [`types::POSITION_SCALE`]. The length of an edge between two points is
//! their distance rounded down. Lengths are unsigned, so no cost is ever
//! negative or undefined.
//!
//! # Identifiers
//!
//! Nodes and edges of the data set have ids up to [`types::ID_LIMIT`], and
//! objects have ids from one to below it. The node made from an object and
//! the mini-edges on its two sides get ids at fixed offsets from the id of
//! the object, above the limit. The centroid id zero stands for no
//! centroid.
//!
//! # What is believed
//!
//! The adjacency structure is petgraph's `GraphMap`; module [`adjacency`]
//! holds the contracts that are believed of it. Everything else is proved.

pub mod adjacency;
pub mod bfs;
pub mod buckets;
pub mod convert;
pub mod dominance;
pub mod driver;
pub mod edge;
pub mod edge_result;
pub mod fill;
pub mod geometry;
pub mod graph;
pub mod multiqueries;
pub mod prelude;
pub mod queries;
pub mod queue;
pub mod records;
pub mod scope;
pub mod store;
pub mod types;
pub mod voronoi;
pub mod voronoi_heap;
