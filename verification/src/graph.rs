//! The network graph: nodes, undirected edges with at most one edge between
//! two nodes, and the objects that lie on the edges.

use crate::adjacency::{
    add_edge, add_node, adjacency_of, all_edge_weights, consistent, contains_node, edge_key,
    edge_weight, lemma_linked_consistent, lemma_without_node_consistent, linked, links, neighbors,
    new_map, nodes, remove_edge, remove_node, lemma_unlinked_consistent, weight_at, weights_of,
    without_edges_at, without_node,
};
use crate::buckets::other_than;
use crate::edge::{Edge, EdgeView};
use crate::geometry::{distance, node_distance};
use crate::records::{copy_record, distinct_keys, put_record, recorded, with_record};
use crate::types::{
    copy_objects, object_views, AppConfig, DataEdge, DataNode, DataObject, EdgeId, Error, Length,
    NodeId, ObjectId, ObjectView, ID_LIMIT, POSITION_SCALE,
};
use petgraph::graphmap::GraphMap;
use petgraph::Undirected;
use std::collections::HashMap;
use std::hash::RandomState;
use vstd::prelude::*;

verus! {

/// What a graph answers to a record that it refuses for the reason
/// `refusal`, or takes.
pub open spec fn answer(refusal: Option<Error>) -> Result<(), Error> {
    match refusal {
        Some(e) => Err(e),
        None => Ok(()),
    }
}

/// Why a graph refuses the node `node`, if it does: as invalid where its id
/// is above the limit.
pub open spec fn node_refusal(node: DataNode) -> Option<Error> {
    if node.id <= ID_LIMIT {
        None
    } else {
        Some(Error::InvalidInput)
    }
}

/// The test that every object but the one with id `id` passes.
pub open spec fn not_object(id: ObjectId) -> spec_fn(ObjectView) -> bool {
    |o: ObjectView| o.id != id
}

broadcast use vstd::std_specs::hash::group_hash_axioms;

/// The network graph.
pub struct Graph {
    config: AppConfig,
    objects: HashMap<ObjectId, DataObject>,
    object_ids: Vec<ObjectId>,
    map_nodes: HashMap<NodeId, DataNode>,
    map_edges: HashMap<EdgeId, Edge>,
    map_new_edge: Vec<(EdgeId, Vec<EdgeId>)>,
    map_new_node: Vec<(EdgeId, Vec<NodeId>)>,
    inner: GraphMap<u32, u32, Undirected, RandomState>,
}

/// An object that a graph of `config` can hold: an id that is not zero and
/// below the limit, a position on the edge, and as many attributes as the
/// configuration says.
pub open spec fn valid_object(o: ObjectView, config: AppConfig) -> bool {
    &&& 0 < o.id < ID_LIMIT
    &&& o.dist <= POSITION_SCALE
    &&& o.attr.len() == config.max_dim
}

/// Every object of `list` can be held by a graph of `config`.
pub open spec fn valid_objects(list: Seq<ObjectView>, config: AppConfig) -> bool {
    forall|i: int| 0 <= i < list.len() ==> valid_object(#[trigger] list[i], config)
}

impl Graph {
    /// The configuration that the graph was made with.
    pub closed spec fn spec_config(&self) -> AppConfig {
        self.config
    }

    /// The neighbour list of every node that has an edge or was added by
    /// itself.
    pub closed spec fn adjacency(&self) -> Map<NodeId, Seq<NodeId>> {
        adjacency_of(self.inner)
    }

    /// The id of the edge between each pair of nodes that has one, keyed by
    /// the pair with the smaller node first.
    pub closed spec fn weights(&self) -> Map<(NodeId, NodeId), EdgeId> {
        weights_of(self.inner)
    }

    /// The edges by id.
    pub closed spec fn edge_table(&self) -> Map<EdgeId, Edge> {
        self.map_edges@
    }

    /// The nodes by id.
    pub closed spec fn node_table(&self) -> Map<NodeId, DataNode> {
        self.map_nodes@
    }

    /// The objects by id.
    pub closed spec fn object_table(&self) -> Map<ObjectId, DataObject> {
        self.objects@
    }

    /// The ids of the objects in the order in which they came.
    pub closed spec fn object_order(&self) -> Seq<ObjectId> {
        self.object_ids@
    }

    /// For each edge that was cut into a chain, the ids of the mini-edges of
    /// the chain, first to last.
    pub closed spec fn new_edges(&self) -> Seq<(EdgeId, Seq<EdgeId>)> {
        recorded(self.map_new_edge@)
    }

    /// For each edge that was cut into a chain, the ids of the nodes that
    /// were made from objects, first to last.
    pub closed spec fn new_nodes(&self) -> Seq<(EdgeId, Seq<NodeId>)> {
        recorded(self.map_new_node@)
    }

    /// The neighbours of `n`, in the order in which the graph yields them.
    pub open spec fn neighbors_of(&self, n: NodeId) -> Seq<NodeId> {
        links(self.adjacency(), n)
    }

    /// The id of the edge between `a` and `b`, if there is one.
    pub open spec fn id_between(&self, a: NodeId, b: NodeId) -> Option<EdgeId> {
        weight_at(self.weights(), a, b)
    }

    /// The edge between `a` and `b`, if there is one.
    pub open spec fn edge_between(&self, a: NodeId, b: NodeId) -> Option<Edge> {
        match self.id_between(a, b) {
            Some(id) => Some(self.edge_table()[id]),
            None => None,
        }
    }

    /// The graph is in order: a node's neighbours are the nodes it shares an
    /// edge with, every edge between two nodes is in the edge table under
    /// its id and joins those two nodes, every edge of the edge table lies
    /// between its two nodes, and every object is one that the graph can
    /// hold.
    pub closed spec fn wf(&self) -> bool {
        &&& consistent(self.adjacency(), self.weights())
        &&& forall|a: NodeId, b: NodeId| #[trigger]
            self.weights().contains_key((a, b)) ==> {
                let id = self.weights()[(a, b)];
                &&& self.edge_table().contains_key(id)
                &&& self.edge_table()[id].id == id
                &&& edge_key(self.edge_table()[id].ni, self.edge_table()[id].nj) == (a, b)
            }
        &&& forall|id: EdgeId| #[trigger]
            self.edge_table().contains_key(id) ==> valid_objects(
                self.edge_table()[id]@.objects,
                self.spec_config(),
            )
        &&& forall|id: ObjectId| #[trigger]
            self.object_table().contains_key(id) ==> valid_object(
                self.object_table()[id]@,
                self.spec_config(),
            ) && self.object_table()[id].id == id
        &&& forall|i: int|
            0 <= i < self.object_order().len() ==> self.object_table().contains_key(
                #[trigger] self.object_order()[i],
            )
        &&& distinct_keys(self.new_edges())
        &&& forall|id: EdgeId| #[trigger]
            self.edge_table().contains_key(id) ==> {
                let k = edge_key(self.edge_table()[id].ni, self.edge_table()[id].nj);
                self.weights().contains_key((k.0, k.1)) && self.weights()[(k.0, k.1)] == id
            }
    }

    /// No edge is recorded twice as cut into a chain.
    pub proof fn lemma_chains_distinct(&self)
        requires
            self.wf(),
        ensures
            distinct_keys(self.new_edges()),
    {
    }

    /// A graph that differs from a graph in order in the node table at most
    /// is in order.
    pub proof fn lemma_wf_same(&self, other: &Graph)
        requires
            other.wf(),
            self.same_but_nodes(other),
        ensures
            self.wf(),
    {
    }

    /// Between a node and each of its neighbours lies an edge of the edge
    /// table, which joins the two and holds objects that the graph can hold.
    pub proof fn lemma_neighbor_edge(&self, a: NodeId, b: NodeId)
        requires
            self.wf(),
            self.neighbors_of(a).contains(b),
        ensures
            self.edge_between(a, b).is_some(),
            self.neighbors_of(b).contains(a),
            self.lies_between(self.edge_between(a, b).unwrap(), a, b),
    {
        assert(self.adjacency().contains_key(a));
        assert(self.adjacency()[a].contains(b));
        assert(self.weights().contains_key(edge_key(a, b)));
        self.lemma_edge_between(a, b);
    }

    /// `e` is an edge of the edge table that joins `a` and `b`.
    pub open spec fn lies_between(&self, e: Edge, a: NodeId, b: NodeId) -> bool {
        &&& self.edge_table().contains_key(e.id)
        &&& self.edge_table()[e.id] == e
        &&& self.id_between(a, b) == Some(e.id)
        &&& (e.ni == a && e.nj == b || e.ni == b && e.nj == a)
        &&& valid_objects(e@.objects, self.spec_config())
    }

    /// The edge between two nodes is an edge of the edge table that joins
    /// the two, and the two are neighbours.
    pub proof fn lemma_edge_between(&self, a: NodeId, b: NodeId)
        requires
            self.wf(),
            self.edge_between(a, b).is_some(),
        ensures
            self.lies_between(self.edge_between(a, b).unwrap(), a, b),
            self.neighbors_of(a).contains(b),
            self.neighbors_of(b).contains(a),
            self.edge_between(b, a) == self.edge_between(a, b),
    {
        let k = edge_key(a, b);
        assert(self.weights().contains_key((k.0, k.1)));
        assert(edge_key(b, a) == k);
    }

    /// The edge table holds finitely many edges.
    pub proof fn lemma_edge_table_finite(&self)
        ensures
            self.edge_table().dom().finite(),
    {
    }

    /// Every object of the object table is one that the graph can hold and
    /// is filed under its own id.
    pub proof fn lemma_object(&self, id: ObjectId)
        requires
            self.wf(),
            self.object_table().contains_key(id),
        ensures
            valid_object(self.object_table()[id]@, self.spec_config()),
            self.object_table()[id].id == id,
    {
    }

    /// Every id of the order in which the objects came is the id of an
    /// object of the object table.
    pub proof fn lemma_objects_filed(&self)
        requires
            self.wf(),
        ensures
            forall|i: int|
                0 <= i < self.object_order().len() ==> self.object_table().contains_key(
                    #[trigger] self.object_order()[i],
                ),
    {
    }

    /// A graph without nodes, edges and objects.
    pub fn new(config: AppConfig) -> (graph: Graph)
        ensures
            graph.wf(),
            graph.spec_config() == config,
            graph.adjacency() =~= Map::empty(),
            graph.weights() =~= Map::empty(),
            graph.edge_table() =~= Map::empty(),
            graph.node_table() =~= Map::empty(),
            graph.object_table() =~= Map::empty(),
            graph.object_order() =~= Seq::empty(),
            graph.new_edges() =~= Seq::empty(),
            graph.new_nodes() =~= Seq::empty(),
            graph.plain(),
    {
        Graph {
            config,
            objects: HashMap::new(),
            object_ids: Vec::new(),
            map_nodes: HashMap::new(),
            map_edges: HashMap::new(),
            map_new_edge: Vec::new(),
            map_new_node: Vec::new(),
            inner: new_map(),
        }
    }

    /// The configuration that the graph was made with.
    pub fn config(&self) -> (config: AppConfig)
        ensures
            config == self.spec_config(),
    {
        self.config
    }

    /// This graph is `before` with `node` filed in the node table, in place
    /// of a node with the same id.
    pub open spec fn with_node(&self, before: &Graph, node: DataNode) -> bool {
        self.node_table() == before.node_table().insert(node.id, node) && self.same_but_nodes(
            before,
        )
    }

    /// Files `node` in the node table, in place of a node with the same id.
    /// A node whose id is above the limit is refused, and nothing changes.
    pub fn insert_node(&mut self, node: DataNode) -> (r: Result<(), Error>)
        requires
            old(self).wf(),
        ensures
            final(self).wf(),
            r == answer(node_refusal(node)),
            r.is_err() ==> final(self).same_as(old(self)),
            r.is_ok() ==> final(self).with_node(old(self), node),
    {
        if node.id > ID_LIMIT {
            return Err(Error::InvalidInput);
        }
        self.map_nodes.insert(node.id, node);
        proof {
            self.lemma_wf_same(old(self));
        }
        Ok(())
    }

    /// Adds `edge` between its two end nodes, which have no edge between
    /// them, under an id that the edge table does not hold.
    fn link(&mut self, edge: Edge)
        requires
            old(self).wf(),
            !old(self).edge_table().contains_key(edge.id),
            old(self).id_between(edge.ni, edge.nj).is_none(),
            valid_objects(edge@.objects, old(self).spec_config()),
        ensures
            final(self).wf(),
            final(self).adjacency() == linked(old(self).adjacency(), edge.ni, edge.nj),
            final(self).weights() == old(self).weights().insert(
                edge_key(edge.ni, edge.nj),
                edge.id,
            ),
            final(self).edge_table() == old(self).edge_table().insert(edge.id, edge),
            final(self).spec_config() == old(self).spec_config(),
            final(self).node_table() == old(self).node_table(),
            final(self).object_table() == old(self).object_table(),
            final(self).object_order() == old(self).object_order(),
            final(self).new_edges() == old(self).new_edges(),
            final(self).new_nodes() == old(self).new_nodes(),
    {
        proof {
            lemma_linked_consistent(
                self.adjacency(),
                self.weights(),
                edge.ni,
                edge.nj,
                edge.id,
            );
            assert forall|a: NodeId, b: NodeId| #[trigger]
                self.weights().contains_key((a, b)) implies self.weights()[(a, b)] != edge.id by {}
        }
        add_edge(&mut self.inner, edge.ni, edge.nj, edge.id);
        self.map_edges.insert(edge.id, edge);
        proof {
            let key = edge_key(edge.ni, edge.nj);
            assert forall|a: NodeId, b: NodeId| #[trigger]
                self.weights().contains_key((a, b)) implies {
                let id = self.weights()[(a, b)];
                &&& self.edge_table().contains_key(id)
                &&& self.edge_table()[id].id == id
                &&& edge_key(self.edge_table()[id].ni, self.edge_table()[id].nj) == (a, b)
            } by {
                if (a, b) != key {
                    assert(old(self).weights().contains_key((a, b)));
                }
            }
            assert forall|id: EdgeId| #[trigger]
                self.edge_table().contains_key(id) implies valid_objects(
                self.edge_table()[id]@.objects,
                self.spec_config(),
            ) by {
                if id != edge.id {
                    assert(old(self).edge_table().contains_key(id));
                }
            }
            assert forall|id: ObjectId| #[trigger]
                self.object_table().contains_key(id) implies valid_object(
                self.object_table()[id]@,
                self.spec_config(),
            ) && self.object_table()[id].id == id by {
                assert(old(self).object_table().contains_key(id));
            }
            assert forall|i: int| 0 <= i < self.object_order().len()
                implies self.object_table().contains_key(
             #[trigger] self.object_order()[i]) by {
                assert(old(self).object_table().contains_key(old(self).object_order()[i]));
            }
        }
    }

    /// Why the graph refuses the edge `edge`, if it does: as invalid where
    /// its id is above the limit or in use, or where its end nodes have an
    /// edge between them already; as not found where one of its end nodes
    /// is not in the node table.
    pub open spec fn edge_refusal(&self, edge: DataEdge) -> Option<Error> {
        if edge.id > ID_LIMIT || self.edge_table().contains_key(edge.id) || self.id_between(
            edge.ni,
            edge.nj,
        ).is_some() {
            Some(Error::InvalidInput)
        } else if !self.node_table().contains_key(edge.ni) || !self.node_table().contains_key(
            edge.nj,
        ) {
            Some(Error::NotFound)
        } else {
            None
        }
    }

    /// This graph is `before` with the edge `edge` between its two end
    /// nodes, with no object on it.
    pub open spec fn with_edge(&self, before: &Graph, edge: DataEdge) -> bool {
        &&& self.adjacency() == linked(before.adjacency(), edge.ni, edge.nj)
        &&& self.weights() == before.weights().insert(
            edge_key(edge.ni, edge.nj),
            edge.id,
        )
        &&& self.edge_table().dom() == before.edge_table().dom().insert(edge.id)
        &&& self.edge_table()[edge.id]@ == (EdgeView {
            id: edge.id,
            len: edge.len,
            ni: edge.ni,
            nj: edge.nj,
            objects: Seq::empty(),
        })
        &&& forall|id: EdgeId|
            id != edge.id && before.edge_table().contains_key(id)
                ==> self.edge_table()[id] == before.edge_table()[id]
        &&& self.spec_config() == before.spec_config()
        &&& self.node_table() == before.node_table()
        &&& self.object_table() == before.object_table()
        &&& self.object_order() == before.object_order()
        &&& self.new_edges() == before.new_edges()
        &&& self.new_nodes() == before.new_nodes()
    }

    /// Adds the edge `edge` between its two end nodes, with no object on it.
    /// The edge is refused as invalid where its id is above the limit or in
    /// use, or where its end nodes have an edge between them already; it is
    /// refused as not found where one of its end nodes is not in the node
    /// table. A refusal changes nothing.
    pub fn insert_edge(&mut self, edge: DataEdge) -> (r: Result<(), Error>)
        requires
            old(self).wf(),
        ensures
            final(self).wf(),
            r == answer(old(self).edge_refusal(edge)),
            r.is_err() ==> final(self).same_as(old(self)),
            r.is_ok() ==> final(self).with_edge(old(self), edge),
    {
        if edge.id > ID_LIMIT || self.map_edges.contains_key(&edge.id) || edge_weight(
            &self.inner,
            edge.ni,
            edge.nj,
        ).is_some() {
            return Err(Error::InvalidInput);
        }
        if !self.map_nodes.contains_key(&edge.ni) || !self.map_nodes.contains_key(&edge.nj) {
            return Err(Error::NotFound);
        }
        self.link(Edge::new(edge.id, edge.len, edge.ni, edge.nj));
        Ok(())
    }

    /// Why the graph refuses the object `o`, if it does: as invalid where
    /// the graph cannot hold it or holds an object with its id; as not
    /// found where its edge is not in the edge table.
    pub open spec fn object_refusal(&self, o: ObjectView) -> Option<Error> {
        if !valid_object(o, self.spec_config()) || self.object_table().contains_key(o.id) {
            Some(Error::InvalidInput)
        } else if !self.edge_table().contains_key(o.edge_id) {
            Some(Error::NotFound)
        } else {
            None
        }
    }

    /// This graph is `before` with the object `o` put on its edge, after
    /// the objects that lie there, and filed in the object table.
    pub open spec fn with_object(&self, before: &Graph, o: ObjectView) -> bool {
        &&& self.edge_table().dom() == before.edge_table().dom()
        &&& self.edge_table()[o.edge_id]@ == (EdgeView {
            objects: before.edge_table()[o.edge_id]@.objects.push(o),
            ..before.edge_table()[o.edge_id]@
        })
        &&& forall|id: EdgeId|
            id != o.edge_id && before.edge_table().contains_key(id)
                ==> self.edge_table()[id] == before.edge_table()[id]
        &&& self.object_table().dom() == before.object_table().dom().insert(
            o.id,
        )
        &&& self.object_table()[o.id]@ == o
        &&& forall|id: ObjectId|
            id != o.id && before.object_table().contains_key(id)
                ==> self.object_table()[id] == before.object_table()[id]
        &&& self.object_order() == before.object_order().push(o.id)
        &&& self.adjacency() == before.adjacency()
        &&& self.weights() == before.weights()
        &&& self.spec_config() == before.spec_config()
        &&& self.node_table() == before.node_table()
        &&& self.new_edges() == before.new_edges()
        &&& self.new_nodes() == before.new_nodes()
    }

    /// Puts `object` on its edge, after the objects that lie there, and
    /// files it in the object table. The object is refused as invalid where
    /// the graph cannot hold it or holds an object with its id; it is
    /// refused as not found where its edge is not in the edge table. A
    /// refusal changes nothing.
    pub fn insert_object(&mut self, object: DataObject) -> (r: Result<(), Error>)
        requires
            old(self).wf(),
        ensures
            final(self).wf(),
            r == answer(old(self).object_refusal(object@)),
            r.is_err() ==> final(self).same_as(old(self)),
            r.is_ok() ==> final(self).with_object(old(self), object@),
    {
        if object.id == 0 || object.id >= ID_LIMIT || object.dist > POSITION_SCALE
            || object.attr.len() != self.config.max_dim as usize || self.objects.contains_key(
            &object.id,
        ) {
            return Err(Error::InvalidInput);
        }
        let taken = self.map_edges.remove(&object.edge_id);
        match taken {
            None => {
                proof {
                    assert(self.map_edges@ =~= old(self).map_edges@);
                    self.lemma_wf_same(old(self));
                }
                Err(Error::NotFound)
            },
            Some(edge) => {
                let mut edge = edge;
                let twin = object.copy();
                let ghost before = edge;
                edge.add_object(twin);
                proof {
                    assert(old(self).edge_table().contains_key(object.edge_id));
                    assert(valid_objects(before@.objects, self.config));
                    assert forall|i: int| 0 <= i < edge@.objects.len() implies valid_object(
                        #[trigger] edge@.objects[i],
                        self.config,
                    ) by {
                        if i < before@.objects.len() {
                            assert(edge@.objects[i] == before@.objects[i]);
                        }
                    }
                }
                let id = object.id;
                self.map_edges.insert(object.edge_id, edge);
                self.objects.insert(id, object);
                self.object_ids.push(id);
                proof {
                    assert forall|a: NodeId, b: NodeId| #[trigger]
                        self.weights().contains_key((a, b)) implies {
                        let id = self.weights()[(a, b)];
                        &&& self.edge_table().contains_key(id)
                        &&& self.edge_table()[id].id == id
                        &&& edge_key(self.edge_table()[id].ni, self.edge_table()[id].nj) == (a, b)
                    } by {
                        assert(old(self).weights().contains_key((a, b)));
                    }
                    assert forall|e: EdgeId| #[trigger]
                        self.edge_table().contains_key(e) implies valid_objects(
                        self.edge_table()[e]@.objects,
                        self.spec_config(),
                    ) by {
                        if e != object.edge_id {
                            assert(old(self).edge_table().contains_key(e));
                        }
                    }
                    assert forall|o: ObjectId| #[trigger]
                        self.object_table().contains_key(o) implies valid_object(
                        self.object_table()[o]@,
                        self.spec_config(),
                    ) && self.object_table()[o].id == o by {
                        if o != id {
                            assert(old(self).object_table().contains_key(o));
                        }
                    }
                    assert(self.edge_table().dom() =~= old(self).edge_table().dom());
                    assert(self.object_table().dom() =~= old(self).object_table().dom().insert(id));
                    assert(consistent(self.adjacency(), self.weights()));
                    assert forall|i: int| 0 <= i < self.object_order().len()
                        implies self.object_table().contains_key(
                     #[trigger] self.object_order()[i]) by {
                        if i < old(self).object_order().len() {
                            let id = old(self).object_order()[i];
                            assert(old(self).object_table().contains_key(id));
                        }
                    }
                    assert(self.wf());
                }
                Ok(())
            },
        }
    }

    /// The ids of the edges that have `n` as an end node.
    pub open spec fn edges_at(&self, n: NodeId) -> Set<EdgeId> {
        Set::new(|id: EdgeId| exists|m: NodeId| self.id_between(n, m) == Some(id))
    }

    /// The ids of the edges that have a node of `nodes` as an end node.
    pub open spec fn edges_at_any(&self, nodes: Set<NodeId>) -> Set<EdgeId> {
        Set::new(
            |id: EdgeId|
                exists|n: NodeId, m: NodeId| nodes.contains(n) && self.id_between(n, m) == Some(id),
        )
    }

    /// Where the edges at some nodes have left the edge table of a graph,
    /// and then the edges at one more node leave, the edges at all these
    /// nodes have left: `self` is the graph at the start, `now` the graph
    /// without the nodes of `gone`, and `table` the edge table of `now`
    /// without the edges at `node`.
    proof fn lemma_edges_leave(
        &self,
        now: &Graph,
        table: Map<EdgeId, Edge>,
        gone: Set<NodeId>,
        node: NodeId,
    )
        requires
            self.wf(),
            now.wf(),
            now.adjacency().dom() == self.adjacency().dom().difference(gone),
            forall|a: NodeId, b: NodeId|
                !gone.contains(a) && !gone.contains(b) ==> #[trigger] now.id_between(a, b)
                    == self.id_between(a, b),
            now.edge_table() == self.edge_table().remove_keys(self.edges_at_any(gone)),
            table == now.edge_table().remove_keys(now.edges_at(node)),
        ensures
            table == self.edge_table().remove_keys(self.edges_at_any(gone.insert(node))),
    {
        let more = gone.insert(node);
        let goal = self.edge_table().remove_keys(self.edges_at_any(more));
        assert forall|id: EdgeId| #[trigger] table.dom().contains(id) implies goal.dom().contains(
            id,
        ) by {
            if self.edges_at_any(more).contains(id) {
                let (n, m) = choose|n: NodeId, m: NodeId|
                    more.contains(n) && self.id_between(n, m) == Some(id);
                if gone.contains(n) {
                    assert(self.edges_at_any(gone).contains(id));
                } else if gone.contains(m) {
                    assert(self.id_between(m, n) == Some(id));
                    assert(self.edges_at_any(gone).contains(id));
                } else {
                    assert(now.id_between(node, m) == Some(id));
                    assert(now.edges_at(node).contains(id));
                }
            }
        }
        assert forall|id: EdgeId| #[trigger] goal.dom().contains(id) implies table.dom().contains(
            id,
        ) by {
            if self.edges_at_any(gone).contains(id) {
                let (n, m) = choose|n: NodeId, m: NodeId|
                    gone.contains(n) && self.id_between(n, m) == Some(id);
                assert(more.contains(n));
                assert(self.edges_at_any(more).contains(id));
            }
            if now.edges_at(node).contains(id) {
                let m = choose|m: NodeId| now.id_between(node, m) == Some(id);
                let k = edge_key(node, m);
                assert(now.weights().contains_key((k.0, k.1)));
                assert(now.adjacency().contains_key(node) && now.adjacency().contains_key(m));
                assert(self.id_between(node, m) == Some(id));
                assert(more.contains(node));
                assert(self.edges_at_any(more).contains(id));
            }
        }
        assert(table =~= goal);
    }

    /// The nodes that were made from objects.
    pub open spec fn listed_nodes(&self) -> Set<NodeId> {
        Set::new(
            |n: NodeId|
                exists|i: int, j: int|
                    0 <= i < self.new_nodes().len() && 0 <= j < self.new_nodes()[i].1.len()
                        && self.new_nodes()[i].1[j] == n,
        )
    }

    /// Removes node `n` with the edges that end at it, from the graph, the
    /// node table and the edge table. Every other node, and every edge
    /// between two other nodes, stays as it is.
    pub fn remove_node(&mut self, n: NodeId)
        requires
            old(self).wf(),
        ensures
            final(self).wf(),
            final(self).adjacency() == (if old(self).adjacency().contains_key(n) {
                without_node(old(self).adjacency(), n)
            } else {
                old(self).adjacency()
            }),
            final(self).weights() == (if old(self).adjacency().contains_key(n) {
                without_edges_at(old(self).weights(), n)
            } else {
                old(self).weights()
            }),
            final(self).node_table() == old(self).node_table().remove(n),
            final(self).edge_table() == old(self).edge_table().remove_keys(old(self).edges_at(n)),
            final(self).spec_config() == old(self).spec_config(),
            final(self).object_table() == old(self).object_table(),
            final(self).object_order() == old(self).object_order(),
            final(self).new_edges() == old(self).new_edges(),
            final(self).new_nodes() == old(self).new_nodes(),
            final(self).adjacency().dom() == old(self).adjacency().dom().remove(n),
            forall|a: NodeId, b: NodeId|
                a != n && b != n
                    ==> #[trigger] final(self).edge_between(a, b) == old(self).edge_between(a, b),
            forall|a: NodeId, b: NodeId|
                a != n && b != n
                    ==> #[trigger] final(self).id_between(a, b) == old(self).id_between(a, b),
            forall|a: NodeId, y: NodeId|
                a != n ==> (#[trigger] final(self).neighbors_of(a).contains(y)
                    <==> old(self).neighbors_of(a).contains(y) && y != n),
    {
        let around = neighbors(&self.inner, n);
        let ghost w = self.weights();
        let ghost table = self.edge_table();
        let mut i: usize = 0;
        while i < around.len()
            invariant
                i <= around.len(),
                old(self).wf(),
                self.inner == old(self).inner,
                self.objects == old(self).objects,
                self.object_ids == old(self).object_ids,
                self.config == old(self).config,
                self.map_nodes == old(self).map_nodes,
                self.map_new_edge == old(self).map_new_edge,
                self.map_new_node == old(self).map_new_node,
                w == old(self).weights(),
                table == old(self).edge_table(),
                around@ == old(self).neighbors_of(n),
                self.map_edges@ == table.remove_keys(
                    Set::new(
                        |id: EdgeId|
                            exists|j: int|
                                0 <= j < i && old(self).id_between(n, around@[j]) == Some(id),
                    ),
                ),
            decreases around.len() - i,
        {
            let ghost gone = Set::new(
                |id: EdgeId|
                    exists|j: int| 0 <= j < i && old(self).id_between(n, around@[j]) == Some(id),
            );
            let ghost gone_next = Set::new(
                |id: EdgeId|
                    exists|j: int|
                        0 <= j < i + 1 && old(self).id_between(n, around@[j]) == Some(id),
            );
            match edge_weight(&self.inner, n, around[i]) {
                Some(id) => {
                    self.map_edges.remove(&id);
                    proof {
                        assert(old(self).id_between(n, around@[i as int]) == Some(id));
                        assert(gone_next =~= gone.insert(id)) by {
                            assert forall|x: EdgeId| gone_next.contains(x) implies gone.insert(
                                id,
                            ).contains(x) by {
                                let j = choose|j: int|
                                    0 <= j < i + 1 && old(self).id_between(n, around@[j]) == Some(
                                        x,
                                    );
                                if j < i {
                                    assert(gone.contains(x));
                                }
                            }
                            assert forall|x: EdgeId| gone.insert(id).contains(
                                x,
                            ) implies gone_next.contains(x) by {
                                if x == id {
                                    assert(old(self).id_between(n, around@[i as int]) == Some(x));
                                } else {
                                    let j = choose|j: int|
                                        0 <= j < i && old(self).id_between(n, around@[j]) == Some(
                                            x,
                                        );
                                    assert(0 <= j < i + 1);
                                }
                            }
                        }
                        assert(self.map_edges@ =~= table.remove_keys(gone_next));
                    }
                },
                None => {
                    proof {
                        assert(gone_next =~= gone) by {
                            assert forall|x: EdgeId| gone_next.contains(x) implies gone.contains(
                                x,
                            ) by {
                                let j = choose|j: int|
                                    0 <= j < i + 1 && old(self).id_between(n, around@[j]) == Some(
                                        x,
                                    );
                                assert(j < i);
                            }
                        }
                    }
                },
            }
            i += 1;
        }
        proof {
            let gone = Set::new(
                |id: EdgeId|
                    exists|j: int|
                        0 <= j < around@.len() && old(self).id_between(n, around@[j]) == Some(id),
            );
            assert(gone =~= old(self).edges_at(n)) by {
                assert forall|id: EdgeId| old(self).edges_at(n).contains(id) implies gone.contains(
                    id,
                ) by {
                    let m = choose|m: NodeId| old(self).id_between(n, m) == Some(id);
                    old(self).lemma_edge_between(n, m);
                    let j = choose|j: int|
                        0 <= j < old(self).neighbors_of(n).len() && old(self).neighbors_of(n)[j]
                            == m;
                    assert(old(self).id_between(n, around@[j]) == Some(id));
                }
            }
            lemma_without_node_consistent(old(self).adjacency(), old(self).weights(), n);
        }
        self.map_nodes.remove(&n);
        remove_node(&mut self.inner, n);
        proof {
            let adj = old(self).adjacency();
            assert forall|a: NodeId, b: NodeId| #[trigger]
                self.weights().contains_key((a, b)) implies {
                let id = self.weights()[(a, b)];
                &&& self.edge_table().contains_key(id)
                &&& self.edge_table()[id].id == id
                &&& edge_key(self.edge_table()[id].ni, self.edge_table()[id].nj) == (a, b)
            } by {
                assert(w.contains_key((a, b)));
                let id = w[(a, b)];
                if old(self).edges_at(n).contains(id) {
                    let m = choose|m: NodeId| old(self).id_between(n, m) == Some(id);
                    let k = edge_key(n, m);
                    assert(w.contains_key((k.0, k.1)));
                    assert(a != n && b != n);
                }
            }
            assert forall|id: EdgeId| #[trigger]
                self.edge_table().contains_key(id) implies valid_objects(
                self.edge_table()[id]@.objects,
                self.spec_config(),
            ) by {
                assert(table.contains_key(id));
            }
            assert forall|id: ObjectId| #[trigger]
                self.object_table().contains_key(id) implies valid_object(
                self.object_table()[id]@,
                self.spec_config(),
            ) && self.object_table()[id].id == id by {
                assert(old(self).object_table().contains_key(id));
            }
            assert forall|i: int| 0 <= i < self.object_order().len()
                implies self.object_table().contains_key(
             #[trigger] self.object_order()[i]) by {
                assert(old(self).object_table().contains_key(old(self).object_order()[i]));
            }
            assert(self.adjacency().dom() =~= adj.dom().remove(n));
            assert forall|a: NodeId, b: NodeId| a != n && b != n implies #[trigger] self.id_between(
                a,
                b,
            ) == old(self).id_between(a, b) by {
                let k = edge_key(a, b);
                if w.contains_key(k) && !adj.contains_key(n) {
                }
            }
            assert forall|a: NodeId, b: NodeId| a != n && b != n
                implies #[trigger] self.edge_between(
                a,
                b,
            ) == old(self).edge_between(a, b) by {
                assert(self.id_between(a, b) == old(self).id_between(a, b));
                let k = edge_key(a, b);
                if w.contains_key(k) {
                    assert(w.contains_key((k.0, k.1)));
                    let id = w[k];
                    if old(self).edges_at(n).contains(id) {
                        let m = choose|m: NodeId| old(self).id_between(n, m) == Some(id);
                        let k2 = edge_key(n, m);
                        assert(w.contains_key((k2.0, k2.1)));
                    }
                }
            }
            assert forall|a: NodeId, y: NodeId| a != n implies (#[trigger] self.neighbors_of(
                a,
            ).contains(y) <==> old(self).neighbors_of(a).contains(y) && y != n) by {
                if adj.contains_key(n) {
                    if adj.contains_key(a) {
                        assert(without_node(adj, n)[a].contains(y) <==> adj[a].contains(y) && y
                            != n);
                    }
                } else {
                    if adj.contains_key(a) && adj[a].contains(n) {
                        assert(adj.contains_key(n));
                    }
                }
            }
        }
    }

    /// The graph holds nothing that a conversion of objects to nodes made:
    /// no node and no edge has an id above the limit, and no conversion is
    /// recorded.
    pub open spec fn plain(&self) -> bool {
        &&& self.new_edges() == Seq::<(EdgeId, Seq<EdgeId>)>::empty()
        &&& self.new_nodes() == Seq::<(EdgeId, Seq<NodeId>)>::empty()
        &&& forall|n: NodeId| #[trigger] self.adjacency().contains_key(n) ==> n <= ID_LIMIT
        &&& forall|n: NodeId| #[trigger] self.node_table().contains_key(n) ==> n <= ID_LIMIT
        &&& forall|id: EdgeId| #[trigger] self.edge_table().contains_key(id) ==> id <= ID_LIMIT
    }

    /// What the graph holds from conversions of objects to nodes is
    /// recorded: the nodes that were made from objects are those with an
    /// id above the limit, and every edge with an id above the limit ends
    /// at such a node. Taking the conversions back then leaves nothing of
    /// them, see [`Graph::lemma_cleaned_plain`].
    pub open spec fn tidy(&self) -> bool {
        &&& forall|n: NodeId| #[trigger] self.listed_nodes().contains(n) ==> n > ID_LIMIT
        &&& forall|n: NodeId| #[trigger]
            self.adjacency().contains_key(n) && n > ID_LIMIT ==> self.listed_nodes().contains(n)
        &&& forall|n: NodeId| #[trigger]
            self.node_table().contains_key(n) && n > ID_LIMIT ==> self.listed_nodes().contains(n)
        &&& forall|id: EdgeId| #[trigger]
            self.edge_table().contains_key(id) && id > ID_LIMIT ==> self.edges_at_any(
                self.listed_nodes(),
            ).contains(id)
    }

    /// After the conversions were taken back from a graph that records
    /// what it holds from conversions, nothing of them is left.
    pub proof fn lemma_cleaned_plain(&self, before: &Graph)
        requires
            before.tidy(),
            self.cleaned(before),
        ensures
            self.plain(),
    {
    }

    /// This graph holds what `base` holds, as it is there, and beside it
    /// only nodes and edges with ids above the limit.
    pub open spec fn keeps(&self, base: &Graph) -> bool {
        &&& self.spec_config() == base.spec_config()
        &&& self.object_table() == base.object_table()
        &&& self.object_order() == base.object_order()
        &&& forall|id: EdgeId| #[trigger]
            base.edge_table().contains_key(id) ==> self.edge_table().contains_key(id)
                && self.edge_table()[id] == base.edge_table()[id]
        &&& forall|n: NodeId| #[trigger]
            base.node_table().contains_key(n) ==> self.node_table().contains_key(n)
                && self.node_table()[n] == base.node_table()[n]
        &&& forall|id: EdgeId| #[trigger]
            self.edge_table().contains_key(id) ==> base.edge_table().contains_key(id) || id
                > ID_LIMIT
        &&& forall|n: NodeId| #[trigger]
            self.node_table().contains_key(n) ==> base.node_table().contains_key(n) || n > ID_LIMIT
    }

    /// Every edge of the edge table lies between its two nodes, which are
    /// nodes of the graph.
    pub proof fn lemma_edge_linked(&self, id: EdgeId)
        requires
            self.wf(),
            self.edge_table().contains_key(id),
        ensures
            self.id_between(self.edge_table()[id].ni, self.edge_table()[id].nj) == Some(id),
            self.adjacency().contains_key(self.edge_table()[id].ni),
            self.adjacency().contains_key(self.edge_table()[id].nj),
    {
        let k = edge_key(self.edge_table()[id].ni, self.edge_table()[id].nj);
        assert(self.weights().contains_key((k.0, k.1)));
    }

    /// Taking the conversions back restores the graph: where `cut` holds
    /// what the graph `base` without conversions holds, and records what it
    /// holds beside, this graph, which is `cut` with the conversions taken
    /// back, has the nodes and the edges of `base`, between the same nodes,
    /// and nothing else.
    pub proof fn lemma_clean_restores(&self, base: &Graph, cut: &Graph)
        requires
            base.wf(),
            base.plain(),
            cut.wf(),
            cut.tidy(),
            cut.keeps(base),
            self.wf(),
            self.cleaned(cut),
        ensures
            self.plain(),
            self.keeps(base),
            self.edge_table() == base.edge_table(),
            self.node_table() == base.node_table(),
            forall|a: NodeId, b: NodeId| #[trigger]
                self.id_between(a, b).is_some() ==> self.id_between(a, b) == base.id_between(
                    a,
                    b,
                ),
    {
        let listed = cut.listed_nodes();
        assert forall|id: EdgeId| #[trigger] base.edge_table().contains_key(id)
            implies !cut.edges_at_any(listed).contains(id) by {
            if cut.edges_at_any(listed).contains(id) {
                let (n, m) = choose|n: NodeId, m: NodeId|
                    listed.contains(n) && cut.id_between(n, m) == Some(id);
                let k = edge_key(n, m);
                assert(cut.weights().contains_key((k.0, k.1)));
                base.lemma_edge_linked(id);
                assert(cut.edge_table()[id] == base.edge_table()[id]);
            }
        }
        assert(self.edge_table() =~= base.edge_table());
        assert(self.node_table() =~= base.node_table());
        assert forall|a: NodeId, b: NodeId| #[trigger]
            self.id_between(a, b).is_some() implies self.id_between(a, b) == base.id_between(
            a,
            b,
        ) by {
            let k = edge_key(a, b);
            assert(self.adjacency().contains_key(a) && self.adjacency().contains_key(b)) by {
                assert(self.weights().contains_key((k.0, k.1)));
            }
            assert(!listed.contains(a) && !listed.contains(b));
            assert(self.edge_between(a, b) == cut.edge_between(a, b));
            let id = self.id_between(a, b).unwrap();
            assert(self.weights().contains_key((k.0, k.1)));
            assert(self.edge_table().contains_key(id));
            base.lemma_edge_linked(id);
        }
    }

    /// This graph is `before` without what the conversions of objects to
    /// nodes added: the nodes that were made from objects are gone, the
    /// edges at these nodes have left the edge table and no other has, the
    /// records of the conversions are empty, and every other node, and
    /// every edge between two other nodes, is as it was.
    pub open spec fn cleaned(&self, before: &Graph) -> bool {
        &&& self.new_edges() == Seq::<(EdgeId, Seq<EdgeId>)>::empty()
        &&& self.new_nodes() == Seq::<(EdgeId, Seq<NodeId>)>::empty()
        &&& self.spec_config() == before.spec_config()
        &&& self.object_table() == before.object_table()
        &&& self.object_order() == before.object_order()
        &&& self.adjacency().dom() == before.adjacency().dom().difference(before.listed_nodes())
        &&& self.node_table() == before.node_table().remove_keys(before.listed_nodes())
        &&& forall|a: NodeId, b: NodeId|
            !before.listed_nodes().contains(a) && !before.listed_nodes().contains(b)
                ==> #[trigger] self.edge_between(a, b) == before.edge_between(a, b)
        &&& forall|a: NodeId, y: NodeId|
            !before.listed_nodes().contains(a) ==> (#[trigger] self.neighbors_of(a).contains(y)
                <==> before.neighbors_of(a).contains(y) && !before.listed_nodes().contains(y))
        &&& self.edge_table() == before.edge_table().remove_keys(
            before.edges_at_any(before.listed_nodes()),
        )
        &&& forall|id: EdgeId| #[trigger]
            self.edge_table().contains_key(id) ==> before.edge_table().contains_key(id)
                && self.edge_table()[id] == before.edge_table()[id]
    }

    /// Takes back what the conversions of objects to nodes added: every
    /// node that was made from an object is removed with its edges, and
    /// the records of the conversions are emptied. Every other node, and
    /// every edge between two other nodes, stays as it is.
    pub fn clean(&mut self)
        requires
            old(self).wf(),
        ensures
            final(self).wf(),
            final(self).cleaned(old(self)),
            old(self).tidy() ==> final(self).plain(),
    {
        let mut made: Vec<(EdgeId, Vec<NodeId>)> = Vec::new();
        std::mem::swap(&mut made, &mut self.map_new_node);
        let ghost listed = old(self).listed_nodes();
        let ghost mut gone: Set<NodeId> = Set::empty();
        proof {
            assert(self.new_nodes() =~= Seq::empty());
            assert(recorded(made@) == old(self).new_nodes());
            assert(self.adjacency().dom() =~= old(self).adjacency().dom().difference(gone));
            assert(self.node_table() =~= old(self).node_table().remove_keys(gone));
            assert(old(self).edges_at_any(gone) =~= Set::empty());
            assert(self.edge_table() =~= old(self).edge_table().remove_keys(
                old(self).edges_at_any(gone),
            ));
            self.lemma_wf_clean_base(old(self));
        }
        let mut i: usize = 0;
        while i < made.len()
            invariant
                i <= made.len(),
                old(self).wf(),
                self.wf(),
                recorded(made@) == old(self).new_nodes(),
                listed == old(self).listed_nodes(),
                self.new_nodes() == Seq::<(EdgeId, Seq<NodeId>)>::empty(),
                self.new_edges() == old(self).new_edges(),
                self.spec_config() == old(self).spec_config(),
                self.object_table() == old(self).object_table(),
                self.object_order() == old(self).object_order(),
                gone.subset_of(listed),
                forall|p: int, q: int|
                    0 <= p < i && 0 <= q < made@[p].1@.len() ==> gone.contains(
                        #[trigger] made@[p].1@[q],
                    ),
                self.adjacency().dom() == old(self).adjacency().dom().difference(gone),
                self.node_table() == old(self).node_table().remove_keys(gone),
                self.edge_table() == old(self).edge_table().remove_keys(
                    old(self).edges_at_any(gone),
                ),
                forall|a: NodeId, b: NodeId|
                    !gone.contains(a) && !gone.contains(b) ==> #[trigger] self.id_between(a, b)
                        == old(self).id_between(a, b),
                forall|a: NodeId, b: NodeId|
                    !gone.contains(a) && !gone.contains(b) ==> #[trigger] self.edge_between(a, b)
                        == old(self).edge_between(a, b),
                forall|a: NodeId, y: NodeId|
                    !gone.contains(a)
                        ==> (#[trigger] self.neighbors_of(a).contains(y)
                            <==> old(self).neighbors_of(a).contains(y) && !gone.contains(y)),
                forall|id: EdgeId| #[trigger]
                    self.edge_table().contains_key(id) ==> old(self).edge_table().contains_key(id)
                        && self.edge_table()[id] == old(self).edge_table()[id],
            decreases made.len() - i,
        {
            let mut j: usize = 0;
            while j < made[i].1.len()
                invariant
                    i < made.len(),
                    j <= made@[i as int].1@.len(),
                    old(self).wf(),
                    self.wf(),
                    recorded(made@) == old(self).new_nodes(),
                    listed == old(self).listed_nodes(),
                    self.new_nodes() == Seq::<(EdgeId, Seq<NodeId>)>::empty(),
                    self.new_edges() == old(self).new_edges(),
                    self.spec_config() == old(self).spec_config(),
                    self.object_table() == old(self).object_table(),
                    self.object_order() == old(self).object_order(),
                    gone.subset_of(listed),
                    forall|p: int, q: int|
                        0 <= p < i && 0 <= q < made@[p].1@.len() ==> gone.contains(
                            #[trigger] made@[p].1@[q],
                        ),
                    forall|q: int| 0 <= q < j ==> gone.contains(#[trigger] made@[i as int].1@[q]),
                    self.adjacency().dom() == old(self).adjacency().dom().difference(gone),
                    self.node_table() == old(self).node_table().remove_keys(gone),
                    self.edge_table() == old(self).edge_table().remove_keys(
                        old(self).edges_at_any(gone),
                    ),
                    forall|a: NodeId, b: NodeId|
                        !gone.contains(a) && !gone.contains(b) ==> #[trigger] self.id_between(a, b)
                            == old(self).id_between(a, b),
                    forall|a: NodeId, b: NodeId|
                        !gone.contains(a) && !gone.contains(b) ==> #[trigger] self.edge_between(
                            a,
                            b,
                        ) == old(self).edge_between(a, b),
                    forall|a: NodeId, y: NodeId|
                        !gone.contains(a)
                            ==> (#[trigger] self.neighbors_of(a).contains(y)
                                <==> old(self).neighbors_of(a).contains(y) && !gone.contains(y)),
                    forall|id: EdgeId| #[trigger]
                        self.edge_table().contains_key(id) ==> old(self).edge_table().contains_key(
                            id,
                        ) && self.edge_table()[id] == old(self).edge_table()[id],
                decreases made@[i as int].1@.len() - j,
            {
                let node = made[i].1[j];
                let ghost before = *self;
                let ghost gone_before = gone;
                proof {
                    assert(listed.contains(node)) by {
                        assert(old(self).new_nodes()[i as int] == (
                            made@[i as int].0,
                            made@[i as int].1@,
                        ));
                        assert(old(self).new_nodes()[i as int].1[j as int] == node);
                    }
                }
                self.remove_node(node);
                proof {
                    old(self).lemma_edges_leave(&before, self.edge_table(), gone, node);
                    gone = gone.insert(node);
                    assert forall|a: NodeId, b: NodeId| !gone.contains(a) && !gone.contains(
                        b,
                    ) implies #[trigger] self.id_between(a, b) == old(self).id_between(a, b) by {
                        assert(before.id_between(a, b) == old(self).id_between(a, b));
                    }
                    assert(self.adjacency().dom() =~= old(self).adjacency().dom().difference(gone));
                    assert(self.node_table() =~= old(self).node_table().remove_keys(gone));
                    assert forall|a: NodeId, b: NodeId| !gone.contains(a) && !gone.contains(
                        b,
                    ) implies #[trigger] self.edge_between(a, b) == old(self).edge_between(
                        a,
                        b,
                    ) by {
                        assert(before.edge_between(a, b) == old(self).edge_between(a, b));
                    }
                    assert forall|a: NodeId, y: NodeId| !gone.contains(a) implies (
                    #[trigger] self.neighbors_of(a).contains(y) <==> old(self).neighbors_of(
                        a,
                    ).contains(y) && !gone.contains(y)) by {
                        assert(before.neighbors_of(a).contains(y) <==> old(self).neighbors_of(
                            a,
                        ).contains(y) && !gone_before.contains(y));
                    }
                    assert forall|id: EdgeId| #[trigger]
                        self.edge_table().contains_key(id)
                            implies old(self).edge_table().contains_key(id)
                                && self.edge_table()[id] == old(self).edge_table()[id] by {
                        assert(before.edge_table().contains_key(id));
                    }
                }
                j += 1;
            }
            i += 1;
        }
        let ghost before_reset = *self;
        self.map_new_edge = Vec::new();
        proof {
            assert(self.new_edges() =~= Seq::empty());
            assert(gone =~= listed) by {
                assert forall|n: NodeId| listed.contains(n) implies gone.contains(n) by {
                    let (p, q) = choose|p: int, q: int|
                        0 <= p < old(self).new_nodes().len()
                            && 0 <= q < old(self).new_nodes()[p].1.len()
                                && old(self).new_nodes()[p].1[q] == n;
                    assert(old(self).new_nodes()[p] == (made@[p].0, made@[p].1@));
                    assert(gone.contains(made@[p].1@[q]));
                }
            }
            self.lemma_wf_clean_base(&before_reset);
            assert forall|a: NodeId, b: NodeId|
                !listed.contains(a) && !listed.contains(b) implies #[trigger] self.edge_between(
                a,
                b,
            ) == old(self).edge_between(a, b) by {
                assert(before_reset.edge_between(a, b) == old(self).edge_between(a, b));
            }
            assert forall|id: EdgeId| #[trigger]
                self.edge_table().contains_key(id) implies old(self).edge_table().contains_key(id)
                && self.edge_table()[id] == old(self).edge_table()[id] by {
                assert(before_reset.edge_table().contains_key(id));
            }
            assert forall|a: NodeId, y: NodeId| !listed.contains(a) implies (
            #[trigger] self.neighbors_of(a).contains(y) <==> old(self).neighbors_of(a).contains(y)
                && !listed.contains(y)) by {
                assert(before_reset.neighbors_of(a).contains(y) <==> old(self).neighbors_of(
                    a,
                ).contains(y) && !gone.contains(y));
            }
        }
    }

    /// A graph that differs from a graph in order in its records of chains
    /// at most, and has no edge recorded twice, is in order.
    proof fn lemma_wf_clean_base(&self, other: &Graph)
        requires
            other.wf(),
            self.spec_config() == other.spec_config(),
            self.adjacency() == other.adjacency(),
            self.weights() == other.weights(),
            self.edge_table() == other.edge_table(),
            self.object_table() == other.object_table(),
            self.object_order() == other.object_order(),
            distinct_keys(self.new_edges()),
        ensures
            self.wf(),
    {
    }

    /// Makes `node` a node of the graph, without neighbours unless it has
    /// some already, and files it in the node table in place of a node
    /// with the same id.
    pub(crate) fn plant(&mut self, node: DataNode)
        requires
            old(self).wf(),
        ensures
            final(self).wf(),
            final(self).adjacency() == (if old(self).adjacency().contains_key(node.id) {
                old(self).adjacency()
            } else {
                old(self).adjacency().insert(node.id, Seq::empty())
            }),
            final(self).node_table() == old(self).node_table().insert(node.id, node),
            final(self).same_but_nodes_and_adjacency(old(self)),
    {
        proof {
            let adj = self.adjacency();
            let w = self.weights();
            if !adj.contains_key(node.id) {
                let adj2 = adj.insert(node.id, Seq::<NodeId>::empty());
                assert forall|a: NodeId, b: NodeId| adj2.contains_key(a)
                    && #[trigger] adj2[a].contains(
                    b,
                ) implies w.contains_key(edge_key(a, b)) && adj2.contains_key(b) by {
                    if a != node.id {
                        assert(adj.contains_key(a) && adj[a].contains(b));
                    }
                }
                assert forall|a: NodeId, b: NodeId| #[trigger] w.contains_key((a, b)) implies a <= b
                    && adj2.contains_key(a) && adj2.contains_key(b) && adj2[a].contains(b)
                    && adj2[b].contains(a) by {
                    assert(adj.contains_key(a) && adj.contains_key(b));
                }
                assert(consistent(adj2, w));
            }
        }
        add_node(&mut self.inner, node.id);
        self.map_nodes.insert(node.id, node);
        proof {
            self.lemma_wf_clean_base_adj(old(self));
        }
    }

    /// The two graphs differ in the node table and in the neighbour lists
    /// at most.
    pub open spec fn same_but_nodes_and_adjacency(&self, other: &Graph) -> bool {
        &&& self.spec_config() == other.spec_config()
        &&& self.weights() == other.weights()
        &&& self.edge_table() == other.edge_table()
        &&& self.object_table() == other.object_table()
        &&& self.object_order() == other.object_order()
        &&& self.new_edges() == other.new_edges()
        &&& self.new_nodes() == other.new_nodes()
    }

    /// A graph whose neighbour lists and edges are in step, and which
    /// differs from a graph in order in the node table and the neighbour
    /// lists at most, is in order.
    proof fn lemma_wf_clean_base_adj(&self, other: &Graph)
        requires
            other.wf(),
            consistent(self.adjacency(), self.weights()),
            self.same_but_nodes_and_adjacency(other),
        ensures
            self.wf(),
    {
    }

    /// Adds an edge with id `edge_id` from `from` to `to`, as long as the
    /// straight line between the two nodes, with `objects` on it.
    pub(crate) fn attach(
        &mut self,
        edge_id: EdgeId,
        from: NodeId,
        to: NodeId,
        objects: Vec<DataObject>,
    )
        requires
            old(self).wf(),
            old(self).node_table().contains_key(from),
            old(self).node_table().contains_key(to),
            !old(self).edge_table().contains_key(edge_id),
            old(self).id_between(from, to).is_none(),
            valid_objects(object_views(objects@), old(self).spec_config()),
        ensures
            final(self).wf(),
            final(self).adjacency() == linked(old(self).adjacency(), from, to),
            final(self).weights() == old(self).weights().insert(edge_key(from, to), edge_id),
            final(self).edge_table().dom() == old(self).edge_table().dom().insert(edge_id),
            forall|id: EdgeId|
                id != edge_id && old(self).edge_table().contains_key(id)
                    ==> final(self).edge_table()[id] == old(self).edge_table()[id],
            final(self).edge_table()[edge_id]@ == (EdgeView {
                id: edge_id,
                len: distance(old(self).node_table()[from], old(self).node_table()[to]) as Length,
                ni: from,
                nj: to,
                objects: object_views(objects@),
            }),
            final(self).spec_config() == old(self).spec_config(),
            final(self).node_table() == old(self).node_table(),
            final(self).object_table() == old(self).object_table(),
            final(self).object_order() == old(self).object_order(),
            final(self).new_edges() == old(self).new_edges(),
            final(self).new_nodes() == old(self).new_nodes(),
    {
        let len = match (self.map_nodes.get(&from), self.map_nodes.get(&to)) {
            (Some(a), Some(b)) => node_distance(a, b),
            _ => 0,
        };
        let mut edge = Edge::new(edge_id, len, from, to);
        edge.add_objects(objects);
        proof {
            assert(edge@.objects =~= object_views(objects@));
        }
        self.link(edge);
        proof {
            assert(self.edge_table().dom() =~= old(self).edge_table().dom().insert(edge_id));
        }
    }

    /// Records the chain that edge `edge_id` was cut into, in place of a
    /// chain that was recorded for the edge before.
    pub(crate) fn record_chain(&mut self, edge_id: EdgeId, edge_ids: Vec<EdgeId>,
        node_ids: Vec<NodeId>)
        requires
            old(self).wf(),
        ensures
            final(self).wf(),
            final(self).new_edges() == with_record(old(self).new_edges(), edge_id, edge_ids@),
            final(self).new_nodes() == with_record(old(self).new_nodes(), edge_id, node_ids@),
            final(self).spec_config() == old(self).spec_config(),
            final(self).adjacency() == old(self).adjacency(),
            final(self).weights() == old(self).weights(),
            final(self).edge_table() == old(self).edge_table(),
            final(self).node_table() == old(self).node_table(),
            final(self).object_table() == old(self).object_table(),
            final(self).object_order() == old(self).object_order(),
    {
        put_record(&mut self.map_new_edge, edge_id, edge_ids);
        put_record(&mut self.map_new_node, edge_id, node_ids);
        proof {
            crate::records::lemma_with_record_keys(old(self).new_edges(), edge_id, edge_ids@);
            self.lemma_wf_clean_base(old(self));
        }
    }

    /// The edge with id `edge_id`, with what lies on it.
    pub fn edge_with_objects(&self, edge_id: EdgeId) -> (found: Option<Edge>)
        ensures
            found.is_some() == self.edge_table().contains_key(edge_id),
            found.is_some() ==> found.unwrap()@ == self.edge_table()[edge_id]@,
    {
        match self.map_edges.get(&edge_id) {
            Some(e) => Some(e.copy()),
            None => None,
        }
    }

    /// The node with id `node_id`.
    pub fn node(&self, node_id: NodeId) -> (r: Result<DataNode, Error>)
        ensures
            r == (if self.node_table().contains_key(node_id) {
                Ok::<DataNode, Error>(self.node_table()[node_id])
            } else {
                Err::<DataNode, Error>(Error::NotFound)
            }),
    {
        match self.map_nodes.get(&node_id) {
            Some(n) => Ok(*n),
            None => Err(Error::NotFound),
        }
    }

    /// Whether the edge table holds an edge with id `edge_id`.
    pub fn has_edge_id(&self, edge_id: EdgeId) -> (found: bool)
        ensures
            found == self.edge_table().contains_key(edge_id),
    {
        self.map_edges.contains_key(&edge_id)
    }

    /// Every edge of the edge table holds objects that the graph can hold.
    pub proof fn lemma_edge_objects(&self, edge_id: EdgeId)
        requires
            self.wf(),
            self.edge_table().contains_key(edge_id),
        ensures
            valid_objects(self.edge_table()[edge_id]@.objects, self.spec_config()),
    {
    }

    /// The two end nodes of an edge are nodes of the graph.
    pub proof fn lemma_edge_ends(&self, a: NodeId, b: NodeId)
        requires
            self.wf(),
            self.id_between(a, b).is_some(),
        ensures
            self.adjacency().contains_key(a),
            self.adjacency().contains_key(b),
    {
        let k = edge_key(a, b);
        assert(self.weights().contains_key((k.0, k.1)));
    }

    /// The edges that lie between two nodes, by id, without what lies on
    /// them.
    pub open spec fn linked_edges(&self) -> Map<EdgeId, DataEdge> {
        Map::new(
            |id: EdgeId| self.weights().values().contains(id),
            |id: EdgeId|
                DataEdge {
                    id,
                    ni: self.edge_table()[id].ni,
                    nj: self.edge_table()[id].nj,
                    len: self.edge_table()[id].len,
                },
        )
    }

    /// Every edge that lies between two nodes, without what lies on it, in
    /// an order that this contract leaves open.
    pub fn map_edges(&self) -> (list: Vec<DataEdge>)
        requires
            self.wf(),
        ensures
            list@.len() == self.weights().dom().len(),
            forall|i: int|
                0 <= i < list@.len() ==> self.weights().values().contains(
                    (#[trigger] list@[i]).id,
                ) && self.edge_table().contains_key(list@[i].id) && list@[i] == (DataEdge {
                    id: list@[i].id,
                    ni: self.edge_table()[list@[i].id].ni,
                    nj: self.edge_table()[list@[i].id].nj,
                    len: self.edge_table()[list@[i].id].len,
                }),
            forall|id: EdgeId|
                self.weights().values().contains(id) ==> exists|i: int|
                    0 <= i < list@.len() && (#[trigger] list@[i]).id == id,
    {
        let ids = all_edge_weights(&self.inner);
        let mut list: Vec<DataEdge> = Vec::new();
        let mut i: usize = 0;
        while i < ids.len()
            invariant
                i <= ids.len(),
                self.wf(),
                ids@.to_set() == self.weights().values(),
                list@.len() == i,
                forall|j: int| 0 <= j < i ==> (#[trigger] list@[j]).id == ids@[j],
                forall|j: int|
                    0 <= j < i ==> self.edge_table().contains_key((#[trigger] list@[j]).id)
                        && list@[j] == (DataEdge {
                        id: list@[j].id,
                        ni: self.edge_table()[list@[j].id].ni,
                        nj: self.edge_table()[list@[j].id].nj,
                        len: self.edge_table()[list@[j].id].len,
                    }),
            decreases ids.len() - i,
        {
            proof {
                assert(ids@.to_set().contains(ids@[i as int]));
                let id = ids@[i as int];
                let key = choose|key: (NodeId, NodeId)|
                    self.weights().contains_key(key) && self.weights()[key] == id;
                assert(self.weights().contains_key((key.0, key.1)));
            }
            match self.map_edges.get(&ids[i]) {
                Some(e) => {
                    list.push(e.as_data_edge());
                },
                None => {
                    proof {
                        assert(false);
                    }
                },
            }
            i += 1;
        }
        proof {
            assert forall|j: int| 0 <= j < list@.len() implies self.weights().values().contains(
                (#[trigger] list@[j]).id,
            ) by {
                assert(ids@.to_set().contains(ids@[j]));
            }
            assert forall|id: EdgeId| self.weights().values().contains(id) implies exists|j: int|
                0 <= j < list@.len() && (#[trigger] list@[j]).id == id by {
                assert(ids@.to_set().contains(id));
                let j = choose|j: int| 0 <= j < ids@.len() && ids@[j] == id;
                assert(list@[j].id == id);
            }
        }
        list
    }

    /// This graph is `before` without the object with id `object_id`,
    /// which is out of the object table and off its edge.
    pub open spec fn without_object(&self, before: &Graph, object_id: ObjectId) -> bool {
        let edge_id = before.object_table()[object_id].edge_id;
        &&& self.object_table() == before.object_table().remove(object_id)
        &&& self.object_order() == before.object_order().filter(other_than(object_id))
        &&& self.edge_table().dom() == before.edge_table().dom()
        &&& forall|id: EdgeId|
            id != edge_id && before.edge_table().contains_key(id)
                ==> self.edge_table()[id] == before.edge_table()[id]
        &&& before.edge_table().contains_key(edge_id)
            ==> self.edge_table()[edge_id]@ == (EdgeView {
            objects: before.edge_table()[edge_id]@.objects.filter(not_object(object_id)),
            ..before.edge_table()[edge_id]@
        })
        &&& self.adjacency() == before.adjacency()
        &&& self.weights() == before.weights()
        &&& self.spec_config() == before.spec_config()
        &&& self.node_table() == before.node_table()
        &&& self.new_edges() == before.new_edges()
        &&& self.new_nodes() == before.new_nodes()
    }

    /// Takes the object with id `object_id` out of the graph: out of the
    /// object table, and off its edge. An id that the graph holds no object
    /// for is refused as not found, and nothing changes.
    pub fn remove_object(&mut self, object_id: ObjectId) -> (r: Result<(), Error>)
        requires
            old(self).wf(),
        ensures
            final(self).wf(),
            r == (if old(self).object_table().contains_key(object_id) {
                Ok::<(), Error>(())
            } else {
                Err::<(), Error>(Error::NotFound)
            }),
            r.is_err() ==> final(self).same_as(old(self)),
            r.is_ok() ==> final(self).without_object(old(self), object_id),
    {
        let taken = self.objects.remove(&object_id);
        let edge_id = match taken {
            None => {
                proof {
                    assert(self.objects@ =~= old(self).objects@);
                    self.lemma_wf_same(old(self));
                }
                return Err(Error::NotFound);
            },
            Some(o) => o.edge_id,
        };
        let ghost keep = other_than(object_id);
        let mut order: Vec<ObjectId> = Vec::new();
        let mut i: usize = 0;
        while i < self.object_ids.len()
            invariant
                i <= self.object_ids.len(),
                self.object_ids == old(self).object_ids,
                keep == (other_than(object_id)),
                order@ == self.object_ids@.take(i as int).filter(keep),
            decreases self.object_ids.len() - i,
        {
            proof {
                reveal(Seq::filter);
                assert(self.object_ids@.take(i + 1).drop_last() =~= self.object_ids@.take(
                    i as int,
                ));
            }
            if self.object_ids[i] != object_id {
                order.push(self.object_ids[i]);
            }
            i += 1;
        }
        proof {
            assert(self.object_ids@.take(i as int) =~= self.object_ids@);
        }
        self.object_ids = order;
        let ghost stays = not_object(object_id);
        match self.map_edges.remove(&edge_id) {
            None => {
                proof {
                    assert(self.map_edges@ =~= old(self).map_edges@);
                }
            },
            Some(edge) => {
                let mut left: Vec<DataObject> = Vec::new();
                let ghost all = edge@.objects;
                let mut j: usize = 0;
                while j < edge.objects.len()
                    invariant
                        j <= edge.objects.len(),
                        all == object_views(edge.objects@),
                        stays == (not_object(object_id)),
                        object_views(left@) == all.take(j as int).filter(stays),
                    decreases edge.objects.len() - j,
                {
                    proof {
                        reveal(Seq::filter);
                        assert(all.take(j + 1).drop_last() =~= all.take(j as int));
                        assert(all.take(j + 1).last() == edge.objects@[j as int]@);
                    }
                    if edge.objects[j].id != object_id {
                        let o = edge.objects[j].copy();
                        proof {
                            crate::types::lemma_views_push(left@, o);
                        }
                        left.push(o);
                    }
                    j += 1;
                }
                proof {
                    assert(all.take(j as int) =~= all);
                    assert(old(self).edge_table().contains_key(edge_id));
                    assert(valid_objects(all, self.config));
                    assert forall|q: int| 0 <= q < object_views(left@).len() implies valid_object(
                        #[trigger] object_views(left@)[q],
                        self.config,
                    ) by {
                        let kept = all.filter(stays);
                        assert(kept.contains(kept[q]));
                        all.lemma_filter_contains_rev(stays, kept[q]);
                        let p = choose|p: int| 0 <= p < all.len() && all[p] == kept[q];
                        assert(valid_object(all[p], self.config));
                    }
                }
                let renewed = Edge {
                    id: edge.id,
                    len: edge.len,
                    ni: edge.ni,
                    nj: edge.nj,
                    objects: left,
                };
                self.map_edges.insert(edge_id, renewed);
                proof {
                    assert(self.edge_table().dom() =~= old(self).edge_table().dom());
                }
            },
        }
        proof {
            assert forall|a: NodeId, b: NodeId| #[trigger]
                self.weights().contains_key((a, b)) implies {
                let id = self.weights()[(a, b)];
                &&& self.edge_table().contains_key(id)
                &&& self.edge_table()[id].id == id
                &&& edge_key(self.edge_table()[id].ni, self.edge_table()[id].nj) == (a, b)
            } by {
                assert(old(self).weights().contains_key((a, b)));
            }
            assert forall|e: EdgeId| #[trigger]
                self.edge_table().contains_key(e) implies valid_objects(
                self.edge_table()[e]@.objects,
                self.spec_config(),
            ) by {
                if e != edge_id {
                    assert(old(self).edge_table().contains_key(e));
                }
            }
            assert forall|o: ObjectId| #[trigger]
                self.object_table().contains_key(o) implies valid_object(
                self.object_table()[o]@,
                self.spec_config(),
            ) && self.object_table()[o].id == o by {
                assert(old(self).object_table().contains_key(o));
            }
            assert forall|q: int| 0 <= q < self.object_order().len()
                implies self.object_table().contains_key(
             #[trigger] self.object_order()[q]) by {
                let before = old(self).object_order();
                let after = before.filter(keep);
                before.lemma_filter_pred(keep, q);
                assert(after.contains(after[q]));
                before.lemma_filter_contains_rev(keep, after[q]);
                let p = choose|p: int| 0 <= p < before.len() && before[p] == after[q];
                assert(old(self).object_table().contains_key(before[p]));
            }
            assert forall|e: EdgeId| #[trigger] self.edge_table().contains_key(e) implies {
                let k = edge_key(self.edge_table()[e].ni, self.edge_table()[e].nj);
                self.weights().contains_key((k.0, k.1)) && self.weights()[(k.0, k.1)] == e
            } by {
                assert(old(self).edge_table().contains_key(e));
            }
            assert(consistent(self.adjacency(), self.weights()));
        }
        Ok(())
    }

    /// The ids of the edges that were cut into chains.
    pub open spec fn cut_edges(&self) -> Set<EdgeId> {
        Set::new(
            |id: EdgeId|
                exists|i: int| 0 <= i < self.new_edges().len() && self.new_edges()[i].0 == id,
        )
    }

    /// Takes the edge with id `edge_id` out of the edge table and out of
    /// the graph. Its end nodes stay.
    pub(crate) fn drop_edge(&mut self, edge_id: EdgeId)
        requires
            old(self).wf(),
        ensures
            final(self).wf(),
            final(self).edge_table() == old(self).edge_table().remove(edge_id),
            forall|a: NodeId, b: NodeId|
                #[trigger] final(self).id_between(a, b) == (if old(self).id_between(a, b) == Some(
                    edge_id,
                ) {
                    None
                } else {
                    old(self).id_between(a, b)
                }),
            final(self).adjacency().dom() == old(self).adjacency().dom(),
            final(self).spec_config() == old(self).spec_config(),
            final(self).node_table() == old(self).node_table(),
            final(self).object_table() == old(self).object_table(),
            final(self).object_order() == old(self).object_order(),
            final(self).new_edges() == old(self).new_edges(),
            final(self).new_nodes() == old(self).new_nodes(),
    {
        let ghost w = self.weights();
        let ghost table = self.edge_table();
        let ends = match self.map_edges.get(&edge_id) {
            Some(e) => Some((e.ni, e.nj)),
            None => None,
        };
        let mut unlinked_pair = false;
        match ends {
            Some((ni, nj)) => {
                match edge_weight(&self.inner, ni, nj) {
                    Some(id) => {
                        if id == edge_id {
                            proof {
                                lemma_unlinked_consistent(
                                    self.adjacency(),
                                    self.weights(),
                                    ni,
                                    nj,
                                );
                                assert(links(self.adjacency(), ni).no_duplicates()) by {
                                    if self.adjacency().contains_key(ni) {
                                    }
                                }
                                assert(links(self.adjacency(), nj).no_duplicates()) by {
                                    if self.adjacency().contains_key(nj) {
                                    }
                                }
                            }
                            remove_edge(&mut self.inner, ni, nj);
                            unlinked_pair = true;
                        }
                    },
                    None => {},
                }
            },
            None => {},
        }
        self.map_edges.remove(&edge_id);
        proof {
            assert forall|a: NodeId, b: NodeId| #[trigger]
                w.contains_key((a, b)) && w[(a, b)] == edge_id implies unlinked_pair && (a, b)
                == edge_key(ends.unwrap().0, ends.unwrap().1) by {
                assert(table.contains_key(edge_id));
            }
            assert forall|a: NodeId, b: NodeId| #[trigger]
                self.weights().contains_key((a, b)) implies {
                let id = self.weights()[(a, b)];
                &&& self.edge_table().contains_key(id)
                &&& self.edge_table()[id].id == id
                &&& edge_key(self.edge_table()[id].ni, self.edge_table()[id].nj) == (a, b)
            } by {
                assert(w.contains_key((a, b)));
            }
            assert forall|id: EdgeId| #[trigger]
                self.edge_table().contains_key(id) implies valid_objects(
                self.edge_table()[id]@.objects,
                self.spec_config(),
            ) by {
                assert(table.contains_key(id));
            }
            assert forall|id: ObjectId| #[trigger]
                self.object_table().contains_key(id) implies valid_object(
                self.object_table()[id]@,
                self.spec_config(),
            ) && self.object_table()[id].id == id by {
                assert(old(self).object_table().contains_key(id));
            }
            assert forall|i: int| 0 <= i < self.object_order().len()
                implies self.object_table().contains_key(
             #[trigger] self.object_order()[i]) by {
                assert(old(self).object_table().contains_key(old(self).object_order()[i]));
            }
            assert forall|a: NodeId, b: NodeId|
                #[trigger] self.id_between(a, b) == (if old(self).id_between(a, b) == Some(
                    edge_id,
                ) {
                    None
                } else {
                    old(self).id_between(a, b)
                }) by {
                let k = edge_key(a, b);
                if w.contains_key(k) {
                    assert(w.contains_key((k.0, k.1)));
                }
            }
        }
    }

    /// Takes every edge that was cut into a chain out of the graph and out
    /// of the edge table. The nodes and the chains stay.
    pub fn remove_old_mapped_edges(&mut self)
        requires
            old(self).wf(),
        ensures
            final(self).wf(),
            final(self).edge_table() == old(self).edge_table().remove_keys(old(self).cut_edges()),
            forall|a: NodeId, b: NodeId|
                #[trigger] final(self).id_between(a, b) == (match old(self).id_between(a, b) {
                    Some(id) => if old(self).cut_edges().contains(id) {
                        None
                    } else {
                        Some(id)
                    },
                    None => None,
                }),
            final(self).adjacency().dom() == old(self).adjacency().dom(),
            final(self).spec_config() == old(self).spec_config(),
            final(self).node_table() == old(self).node_table(),
            final(self).object_table() == old(self).object_table(),
            final(self).object_order() == old(self).object_order(),
            final(self).new_edges() == old(self).new_edges(),
            final(self).new_nodes() == old(self).new_nodes(),
    {
        let n = self.map_new_edge.len();
        let ghost records = self.new_edges();
        let mut i: usize = 0;
        while i < n
            invariant
                i <= n,
                n == records.len(),
                self.wf(),
                records == old(self).new_edges(),
                self.new_edges() == records,
                n == self.map_new_edge@.len(),
                self.edge_table() == old(self).edge_table().remove_keys(
                    Set::new(|id: EdgeId| exists|j: int| 0 <= j < i && records[j].0 == id),
                ),
                forall|a: NodeId, b: NodeId|
                    #[trigger] self.id_between(a, b) == (match old(self).id_between(a, b) {
                        Some(id) => if exists|j: int| 0 <= j < i && records[j].0 == id {
                            None
                        } else {
                            Some(id)
                        },
                        None => None,
                    }),
                self.adjacency().dom() == old(self).adjacency().dom(),
                self.spec_config() == old(self).spec_config(),
                self.node_table() == old(self).node_table(),
                self.object_table() == old(self).object_table(),
                self.object_order() == old(self).object_order(),
                self.new_nodes() == old(self).new_nodes(),
            decreases n - i,
        {
            let edge_id = self.map_new_edge[i].0;
            let ghost before = *self;
            let ghost gone = Set::new(
                |id: EdgeId| exists|j: int| 0 <= j < i && records[j].0 == id,
            );
            let ghost gone_next = Set::new(
                |id: EdgeId| exists|j: int| 0 <= j < i + 1 && records[j].0 == id,
            );
            proof {
                assert(records[i as int].0 == edge_id);
            }
            self.drop_edge(edge_id);
            proof {
                assert(gone_next =~= gone.insert(edge_id)) by {
                    assert forall|id: EdgeId| gone_next.contains(id) implies gone.insert(
                        edge_id,
                    ).contains(id) by {
                        let j = choose|j: int| 0 <= j < i + 1 && records[j].0 == id;
                        if j < i {
                            assert(gone.contains(id));
                        }
                    }
                    assert forall|id: EdgeId| gone.insert(edge_id).contains(
                        id,
                    ) implies gone_next.contains(id) by {
                        if id != edge_id {
                            let j = choose|j: int| 0 <= j < i && records[j].0 == id;
                            assert(0 <= j < i + 1);
                        }
                    }
                }
                assert(self.edge_table() =~= old(self).edge_table().remove_keys(gone_next));
                assert forall|a: NodeId, b: NodeId|
                    #[trigger] self.id_between(a, b) == (match old(self).id_between(a, b) {
                        Some(id) => if exists|j: int| 0 <= j < i + 1 && records[j].0 == id {
                            None
                        } else {
                            Some(id)
                        },
                        None => None,
                    }) by {
                    match old(self).id_between(a, b) {
                        Some(id) => {
                            assert(gone_next.contains(id) <==> (gone.contains(id) || id
                                == edge_id));
                        },
                        None => {},
                    }
                }
            }
            i += 1;
        }
        proof {
            let gone = Set::new(
                |id: EdgeId| exists|j: int| 0 <= j < n && records[j].0 == id,
            );
            assert(gone =~= old(self).cut_edges());
            assert forall|a: NodeId, b: NodeId|
                #[trigger] self.id_between(a, b) == (match old(self).id_between(a, b) {
                    Some(id) => if old(self).cut_edges().contains(id) {
                        None
                    } else {
                        Some(id)
                    },
                    None => None,
                }) by {
                match old(self).id_between(a, b) {
                    Some(id) => {
                        assert(gone.contains(id) == old(self).cut_edges().contains(id));
                    },
                    None => {},
                }
            }
        }
    }

    /// The two end nodes of the edge with id `edge_id`.
    pub fn nodes_from_edge_id(&self, edge_id: EdgeId) -> (r: Result<Vec<NodeId>, Error>)
        ensures
            match r {
                Ok(ends) => self.edge_table().contains_key(edge_id) && ends@ == seq![
                    self.edge_table()[edge_id].ni,
                    self.edge_table()[edge_id].nj,
                ],
                Err(e) => !self.edge_table().contains_key(edge_id) && e == Error::NotFound,
            },
    {
        match self.map_edges.get(&edge_id) {
            Some(e) => {
                let mut ends: Vec<NodeId> = Vec::new();
                ends.push(e.ni);
                ends.push(e.nj);
                proof {
                    assert(ends@ =~= seq![e.ni, e.nj]);
                }
                Ok(ends)
            },
            None => Err(Error::NotFound),
        }
    }

    /// The end nodes of the edges with the ids of `edge_ids`, edge by edge.
    /// An id that the edge table does not hold is refused as not found.
    pub fn nodes_from_edge_ids(&self, edge_ids: &Vec<EdgeId>) -> (r: Result<Vec<NodeId>, Error>)
        ensures
            match r {
                Ok(ends) => {
                    &&& forall|i: int|
                        0 <= i < edge_ids@.len() ==> self.edge_table().contains_key(
                            #[trigger] edge_ids@[i],
                        )
                    &&& ends@.len() == 2 * edge_ids@.len()
                    &&& forall|i: int|
                        0 <= i < edge_ids@.len() ==> ends@[2 * i] == self.edge_table()[(
                        #[trigger] edge_ids@[i])].ni && ends@[2 * i + 1]
                            == self.edge_table()[edge_ids@[i]].nj
                },
                Err(e) => e == Error::NotFound && exists|i: int|
                    0 <= i < edge_ids@.len() && !self.edge_table().contains_key(
                        #[trigger] edge_ids@[i],
                    ),
            },
    {
        let mut ends: Vec<NodeId> = Vec::new();
        let mut i: usize = 0;
        while i < edge_ids.len()
            invariant
                i <= edge_ids.len(),
                ends@.len() == 2 * i,
                forall|j: int|
                    0 <= j < i ==> self.edge_table().contains_key(#[trigger] edge_ids@[j]),
                forall|j: int|
                    0 <= j < i ==> ends@[2 * j] == self.edge_table()[(#[trigger] edge_ids@[j])].ni
                        && ends@[2 * j + 1] == self.edge_table()[edge_ids@[j]].nj,
            decreases edge_ids.len() - i,
        {
            match self.map_edges.get(&edge_ids[i]) {
                Some(e) => {
                    ends.push(e.ni);
                    ends.push(e.nj);
                },
                None => {
                    proof {
                        assert(!self.edge_table().contains_key(edge_ids@[i as int]));
                    }
                    return Err(Error::NotFound);
                },
            }
            i += 1;
        }
        Ok(ends)
    }

    /// The objects with the ids of `object_ids`, last to first. An id that
    /// the graph holds no object for is refused as not found.
    pub fn get_objects(&self, object_ids: Vec<ObjectId>) -> (r: Result<Vec<DataObject>, Error>)
        ensures
            match r {
                Ok(list) => {
                    &&& list@.len() == object_ids@.len()
                    &&& forall|i: int|
                        0 <= i < list@.len() ==> self.object_table().contains_key(
                            object_ids@[object_ids@.len() - 1 - i],
                        ) && (#[trigger] list@[i])@ == self.object_table()[object_ids@[
                            object_ids@.len() - 1 - i
                        ]]@
                },
                Err(e) => e == Error::NotFound && exists|i: int|
                    0 <= i < object_ids@.len() && !self.object_table().contains_key(
                        #[trigger] object_ids@[i],
                    ),
            },
    {
        let mut list: Vec<DataObject> = Vec::new();
        let n = object_ids.len();
        let mut i: usize = 0;
        while i < n
            invariant
                i <= n,
                n == object_ids@.len(),
                list@.len() == i,
                forall|j: int|
                    0 <= j < i ==> self.object_table().contains_key(
                        #[trigger] object_ids@[n - 1 - j],
                    ),
                forall|j: int|
                    0 <= j < i ==> (#[trigger] list@[j])@ == self.object_table()[object_ids@[n - 1
                        - j]]@,
            decreases n - i,
        {
            let ghost before = list@;
            match self.objects.get(&object_ids[n - 1 - i]) {
                Some(o) => {
                    let twin = o.copy();
                    list.push(twin);
                    proof {
                        assert(self.object_table().contains_key(object_ids@[n - 1 - i]));
                        assert forall|j: int| 0 <= j < i + 1 implies (#[trigger] list@[j])@
                            == self.object_table()[object_ids@[n - 1 - j]]@ by {
                            if j < i {
                                assert(list@[j] == before[j]);
                            } else {
                                assert(list@[j] == twin);
                            }
                        }
                    }
                },
                None => {
                    proof {
                        assert(!self.object_table().contains_key(object_ids@[n - 1 - i]));
                    }
                    return Err(Error::NotFound);
                },
            }
            i += 1;
        }
        Ok(list)
    }

    /// The two graphs hold the same.
    pub open spec fn same_as(&self, other: &Graph) -> bool {
        &&& self.same_but_nodes(other)
        &&& self.node_table() == other.node_table()
    }

    /// The two graphs differ in the node table at most.
    pub open spec fn same_but_nodes(&self, other: &Graph) -> bool {
        &&& self.spec_config() == other.spec_config()
        &&& self.adjacency() == other.adjacency()
        &&& self.weights() == other.weights()
        &&& self.edge_table() == other.edge_table()
        &&& self.object_table() == other.object_table()
        &&& self.object_order() == other.object_order()
        &&& self.new_edges() == other.new_edges()
        &&& self.new_nodes() == other.new_nodes()
    }

    /// The neighbours of `n`, in the order in which the graph yields them:
    /// none for a node that the graph does not have.
    pub fn neighbors(&self, n: NodeId) -> (list: Vec<NodeId>)
        ensures
            list@ == self.neighbors_of(n),
    {
        neighbors(&self.inner, n)
    }

    /// Whether `n` is a node that has an edge or was added by itself.
    pub fn has_node(&self, n: NodeId) -> (found: bool)
        ensures
            found == self.adjacency().contains_key(n),
    {
        contains_node(&self.inner, n)
    }

    /// The id of the edge between `a` and `b`, if there is one.
    pub fn edge_id(&self, a: NodeId, b: NodeId) -> (id: Option<EdgeId>)
        ensures
            id == self.id_between(a, b),
    {
        edge_weight(&self.inner, a, b)
    }

    /// The edge between `a` and `b`, if there is one.
    pub fn edge(&self, a: NodeId, b: NodeId) -> (found: Option<&Edge>)
        requires
            self.wf(),
        ensures
            found.is_some() == self.edge_between(a, b).is_some(),
            found.is_some() ==> *found.unwrap() == self.edge_between(a, b).unwrap(),
    {
        match edge_weight(&self.inner, a, b) {
            Some(id) => {
                proof {
                    let k = edge_key(a, b);
                    assert(self.weights().contains_key((k.0, k.1)));
                }
                self.map_edges.get(&id)
            },
            None => None,
        }
    }

    /// The length of the edge between `a` and `b`.
    pub fn edge_len(&self, a: NodeId, b: NodeId) -> (r: Result<Length, Error>)
        requires
            self.wf(),
        ensures
            r == (match self.edge_between(a, b) {
                Some(e) => Ok::<Length, Error>(e.len),
                None => Err::<Length, Error>(Error::NotFound),
            }),
    {
        match self.edge(a, b) {
            Some(e) => Ok(e.len),
            None => Err(Error::NotFound),
        }
    }

    /// The edge with id `e`, without what lies on it.
    pub fn edge_by_edge_id(&self, e: EdgeId) -> (r: Result<DataEdge, Error>)
        ensures
            r == (if self.edge_table().contains_key(e) {
                let found = self.edge_table()[e];
                Ok::<DataEdge, Error>(
                    DataEdge { id: found.id, ni: found.ni, nj: found.nj, len: found.len },
                )
            } else {
                Err::<DataEdge, Error>(Error::NotFound)
            }),
    {
        match self.map_edges.get(&e) {
            Some(found) => Ok(found.as_data_edge()),
            None => Err(Error::NotFound),
        }
    }

    /// The objects that lie on the edge between `a` and `b`.
    pub fn objects(&self, a: NodeId, b: NodeId) -> (r: Result<Vec<DataObject>, Error>)
        requires
            self.wf(),
        ensures
            r.is_ok() == self.edge_between(a, b).is_some(),
            r.is_ok() ==> object_views(r.unwrap()@) == self.edge_between(a, b).unwrap()@.objects,
            r.is_err() ==> r == Err::<Vec<DataObject>, Error>(Error::NotFound),
    {
        match self.edge(a, b) {
            Some(e) => Ok(copy_objects(&e.objects)),
            None => Err(Error::NotFound),
        }
    }

    /// The object with id `object_id`.
    pub fn object(&self, object_id: ObjectId) -> (r: Result<DataObject, Error>)
        ensures
            r.is_ok() == self.object_table().contains_key(object_id),
            r.is_ok() ==> r.unwrap()@ == self.object_table()[object_id]@,
            r.is_err() ==> r == Err::<DataObject, Error>(Error::NotFound),
    {
        match self.objects.get(&object_id) {
            Some(o) => Ok(o.copy()),
            None => Err(Error::NotFound),
        }
    }

    /// Every object, in the order in which the objects came.
    pub fn all_objects(&self) -> (list: Vec<DataObject>)
        requires
            self.wf(),
        ensures
            list@.len() == self.object_order().len(),
            forall|i: int|
                0 <= i < list@.len()
                    ==> (#[trigger] list@[i])@ == self.object_table()[self.object_order()[i]]@,
    {
        let mut list: Vec<DataObject> = Vec::new();
        let mut i: usize = 0;
        while i < self.object_ids.len()
            invariant
                i <= self.object_ids.len(),
                self.wf(),
                list@.len() == i,
                forall|j: int|
                    0 <= j < i ==> (#[trigger] list@[j])@ == self.objects@[self.object_ids@[j]]@,
            decreases self.object_ids.len() - i,
        {
            let id = self.object_ids[i];
            assert(self.object_table().contains_key(self.object_order()[i as int]));
            let found = self.objects.get(&id);
            match found {
                Some(o) => {
                    list.push(o.copy());
                },
                None => {
                    assert(false);
                },
            }
            i += 1;
        }
        list
    }

    /// Every node that has an edge or was added by itself, once, in an
    /// order that this contract leaves open.
    pub fn nodes(&self) -> (list: Vec<NodeId>)
        ensures
            list@.no_duplicates(),
            list@.to_set() == self.adjacency().dom(),
    {
        nodes(&self.inner)
    }

    /// The id of every edge that lies between two nodes, in an order that
    /// this contract leaves open.
    pub fn all_edge_ids(&self) -> (list: Vec<EdgeId>)
        ensures
            list@.len() == self.weights().dom().len(),
            list@.to_set() == self.weights().values(),
    {
        all_edge_weights(&self.inner)
    }

    /// The chains that edges were cut into: for each such edge, the ids of
    /// its mini-edges, first to last.
    pub fn map_new_edge(&self) -> (list: Vec<(EdgeId, Vec<EdgeId>)>)
        ensures
            recorded(list@) == self.new_edges(),
    {
        copy_record(&self.map_new_edge)
    }

    /// The nodes that were made from objects: for each edge that was cut
    /// into a chain, the ids of its new nodes, first to last.
    pub fn map_new_node(&self) -> (list: Vec<(EdgeId, Vec<NodeId>)>)
        ensures
            recorded(list@) == self.new_nodes(),
    {
        copy_record(&self.map_new_node)
    }

    /// The object that node `node_id` stands for.
    pub fn as_object_id(node_id: NodeId) -> (id: ObjectId)
        ensures
            id == crate::types::spec_as_object_id(node_id),
    {
        crate::types::as_object_id(node_id)
    }
}

} // verus!
