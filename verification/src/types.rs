//! Identifiers, records and the error type shared by the whole crate.
//!
//! Distances, coordinates and attribute values are fixed-point integers: the
//! caller picks the unit. A position along an edge is a fraction of the
//! edge, counted in parts of [`POSITION_SCALE`].

use vstd::prelude::*;

verus! {

pub type DimensionIndex = u8;

pub type ObjectId = u32;

pub type EdgeId = u32;

pub type NodeId = u32;

pub type K = u8;

pub type QueryId = u32;

pub type CentroidId = NodeId;

/// A distance along the network.
pub type Length = u64;

/// The largest id a node or an edge of the data set may carry. Identifiers
/// above it belong to nodes and edges made from objects.
pub const ID_LIMIT: u32 = 100000;

/// Offset from an object's id to the id of the node made from it.
pub const NODE_OFFSET: u32 = 100000;

/// Offset from an object's id to the id of the mini-edge that ends at its node.
pub const EDGE_BEFORE_OFFSET: u32 = 200000;

/// Offset from an object's id to the id of the mini-edge that leaves its node
/// towards the far end of the edge that was cut.
pub const EDGE_AFTER_OFFSET: u32 = 300000;

/// The centroid id that stands for "no centroid".
pub const NO_CENTROID: CentroidId = 0;

/// The denominator of a position along an edge: `POSITION_SCALE` is the far end.
pub const POSITION_SCALE: u64 = 1000000;

/// Why an operation could not be carried out.
#[derive(Clone, Copy, Debug, PartialEq, Eq, Structural)]
pub enum Error {
    /// An edge, node or object id is absent from its index.
    NotFound,
    /// A record breaks the data model: an id outside its range or used twice,
    /// a position beyond the end of the edge, a wrong number of attributes.
    InvalidInput,
    /// The traversal was asked to continue at a dominance level that is not
    /// above the active one.
    StateError,
}

/// What bounds a search: the number of attributes of an object, and the
/// network distance within which objects are compared.
#[derive(Clone, Copy, Debug, PartialEq, Eq, Structural)]
pub struct AppConfig {
    pub max_dim: DimensionIndex,
    pub max_dist: Length,
}

impl Default for AppConfig {
    /// Four attributes, and a distance of one hundred.
    fn default() -> (config: AppConfig)
        ensures
            config == (AppConfig { max_dim: 4, max_dist: 100 }),
    {
        AppConfig { max_dim: 4, max_dist: 100 }
    }
}

/// Whether an object is to be inserted or deleted.
#[derive(Clone, Copy, Debug, PartialEq, Eq, Structural)]
pub enum Action {
    Insertion,
    Deletion,
}

impl Action {
    /// The action a data record's first field stands for: 1 inserts, every
    /// other number deletes.
    pub fn from_code(code: i32) -> (action: Action)
        ensures
            action == (if code == 1 {
                Action::Insertion
            } else {
                Action::Deletion
            }),
    {
        if code == 1 {
            Action::Insertion
        } else {
            Action::Deletion
        }
    }
}

/// A node of the data set.
#[derive(Clone, Copy, Debug, PartialEq, Eq, Structural)]
pub struct DataNode {
    pub id: NodeId,
    pub lng: i32,
    pub lat: i32,
}

/// An edge of the data set, without what lies on it.
#[derive(Clone, Copy, Debug, PartialEq, Eq, Structural)]
pub struct DataEdge {
    pub id: EdgeId,
    pub ni: NodeId,
    pub nj: NodeId,
    pub len: Length,
}

impl DataEdge {
    /// The edge with id `id` between the nodes `ni` and `nj`, as long as the
    /// straight line between the two, rounded down.
    pub fn new(id: EdgeId, ni: &DataNode, nj: &DataNode) -> (edge: DataEdge)
        ensures
            edge == (DataEdge {
                id,
                ni: ni.id,
                nj: nj.id,
                len: crate::geometry::distance(*ni, *nj) as Length,
            }),
    {
        DataEdge { id, ni: ni.id, nj: nj.id, len: crate::geometry::node_distance(ni, nj) }
    }
}

/// An object of the data set.
#[derive(Clone, Debug)]
pub struct DataObject {
    pub id: ObjectId,
    pub attr: Vec<i64>,
    /// Position along the edge, from `ni`, in parts of [`POSITION_SCALE`].
    pub dist: u64,
    pub edge_id: EdgeId,
    pub action: Action,
}

/// A [`DataObject`] as mathematics.
pub struct ObjectView {
    pub id: ObjectId,
    pub attr: Seq<i64>,
    pub dist: u64,
    pub edge_id: EdgeId,
    pub action: Action,
}

impl View for DataObject {
    type V = ObjectView;

    open spec fn view(&self) -> ObjectView {
        ObjectView {
            id: self.id,
            attr: self.attr@,
            dist: self.dist,
            edge_id: self.edge_id,
            action: self.action,
        }
    }
}

/// The objects of a list as mathematics.
pub open spec fn object_views(list: Seq<DataObject>) -> Seq<ObjectView> {
    list.map_values(|o: DataObject| o@)
}

/// The views of a list with one more object are the views of the list with
/// one more view.
pub proof fn lemma_views_push(list: Seq<DataObject>, o: DataObject)
    ensures
        object_views(list.push(o)) == object_views(list).push(o@),
{
    assert(object_views(list.push(o)) =~= object_views(list).push(o@));
}

/// The views of the first `i + 1` objects are the views of the first `i`
/// with the view of the next.
pub proof fn lemma_views_take(list: Seq<DataObject>, i: int)
    requires
        0 <= i < list.len(),
    ensures
        object_views(list.take(i + 1)) == object_views(list.take(i)).push(list[i]@),
{
    assert(object_views(list.take(i + 1)) =~= object_views(list.take(i)).push(list[i]@));
}

impl DataObject {
    /// A second object with the same content.
    pub fn copy(&self) -> (twin: DataObject)
        ensures
            twin@ == self@,
    {
        DataObject {
            id: self.id,
            attr: self.attr.clone(),
            dist: self.dist,
            edge_id: self.edge_id,
            action: self.action,
        }
    }
}

/// A second list with the same objects.
pub fn copy_objects(list: &Vec<DataObject>) -> (twin: Vec<DataObject>)
    ensures
        object_views(twin@) == object_views(list@),
{
    let mut twin: Vec<DataObject> = Vec::new();
    let mut i: usize = 0;
    while i < list.len()
        invariant
            i <= list.len(),
            object_views(twin@) == object_views(list@.take(i as int)),
        decreases list.len() - i,
    {
        let ghost before = twin@;
        let o = list[i].copy();
        proof {
            lemma_views_push(before, o);
            lemma_views_take(list@, i as int);
        }
        twin.push(o);
        i += 1;
    }
    proof {
        assert(list@.take(i as int) =~= list@);
    }
    twin
}

/// A query of the data set.
#[derive(Clone, Debug)]
pub struct Query {
    pub id: QueryId,
    pub k: K,
    pub dimensions: Vec<DimensionIndex>,
}

/// A [`Query`] as mathematics.
pub struct QueryView {
    pub id: QueryId,
    pub k: K,
    pub dimensions: Seq<DimensionIndex>,
}

impl View for Query {
    type V = QueryView;

    open spec fn view(&self) -> QueryView {
        QueryView { id: self.id, k: self.k, dimensions: self.dimensions@ }
    }
}

/// The queries of a list as mathematics.
pub open spec fn query_views(list: Seq<Query>) -> Seq<QueryView> {
    list.map_values(|q: Query| q@)
}

impl Query {
    /// A second query with the same content.
    pub fn copy(&self) -> (twin: Query)
        ensures
            twin@ == self@,
    {
        Query { id: self.id, k: self.k, dimensions: self.dimensions.clone() }
    }
}

/// The part `[start, end)` of an edge that belongs to a centroid.
#[derive(Clone, Copy, Debug, PartialEq, Eq, Structural)]
pub struct Range {
    pub start: Length,
    pub end: Length,
    pub centroid_id: CentroidId,
}

impl Range {
    /// The part `[start, end)` of an edge for `centroid_id`.
    pub fn new(start: Length, end: Length, centroid_id: CentroidId) -> (r: Range)
        ensures
            r == (Range { start, end, centroid_id }),
    {
        Range { start, end, centroid_id }
    }
}

/// Which end of a traversed segment carried the smaller dominance level.
#[derive(Clone, Copy, Debug, PartialEq, Eq, Structural)]
pub enum Position {
    Start,
    End,
}

/// The id of the node that stands for object `id`.
pub open spec fn spec_as_node_id(id: ObjectId) -> int {
    id + NODE_OFFSET
}

/// The id of the node that stands for object `id`.
pub fn as_node_id(id: ObjectId) -> (node_id: NodeId)
    requires
        id <= u32::MAX - NODE_OFFSET,
    ensures
        node_id == spec_as_node_id(id),
{
    id + NODE_OFFSET
}

/// The id of the mini-edge that ends at the node of object `id`.
pub fn as_edge_ni_id(id: ObjectId) -> (edge_id: EdgeId)
    requires
        id <= u32::MAX - EDGE_BEFORE_OFFSET,
    ensures
        edge_id == id + EDGE_BEFORE_OFFSET,
{
    id + EDGE_BEFORE_OFFSET
}

/// The id of the mini-edge that leaves the node of object `id` towards the
/// far end of the edge that was cut.
pub fn as_edge_nj_id(id: ObjectId) -> (edge_id: EdgeId)
    requires
        id <= u32::MAX - EDGE_AFTER_OFFSET,
    ensures
        edge_id == id + EDGE_AFTER_OFFSET,
{
    id + EDGE_AFTER_OFFSET
}

/// The object a node id stands for: the id less the node offset where it is
/// above the offset, the id itself where it is not.
pub open spec fn spec_as_object_id(node_id: NodeId) -> ObjectId {
    if node_id > NODE_OFFSET {
        (node_id - NODE_OFFSET) as u32
    } else {
        node_id
    }
}

/// The object a node id stands for.
pub fn as_object_id(node_id: NodeId) -> (id: ObjectId)
    ensures
        id == spec_as_object_id(node_id),
{
    if node_id > NODE_OFFSET {
        node_id - NODE_OFFSET
    } else {
        node_id
    }
}

/// Going to the node id of an object and back gives the object's id, for
/// every id that is not zero.
pub proof fn lemma_object_id_round_trip(id: ObjectId)
    requires
        0 < id <= u32::MAX - NODE_OFFSET,
    ensures
        spec_as_object_id(spec_as_node_id(id) as u32) == id,
{
}

} // verus!
