//! The multi-source Voronoi traversal: one queue shared by all centroids,
//! an owner and a cost for every node that was reached, and a reserve of
//! states that wait for a higher dominance level.

use crate::bfs::{edge_length, search_bound};
use crate::edge::Edge;
use crate::geometry::{add_cost, cost_sum};
use crate::graph::Graph;
use crate::queue::{lemma_min_index, min_index, pop_min, Priced};
use crate::types::{
    as_object_id, spec_as_object_id, CentroidId, EdgeId, Error, Length, NodeId, ObjectId, Position,
    ID_LIMIT, K, NO_CENTROID,
};
use std::collections::HashMap;
use std::collections::HashSet;
use vstd::prelude::*;

verus! {

broadcast use vstd::std_specs::hash::group_hash_axioms;

/// An edge without what lies on it, as a traversal state carries it.
#[derive(Clone, Copy, Debug, PartialEq, Eq, Structural)]
pub struct SimpleEdge {
    pub id: EdgeId,
    pub ni: NodeId,
    pub nj: NodeId,
    pub len: Length,
}

/// What `edge` is as a [`SimpleEdge`].
pub open spec fn simple_of(edge: Option<Edge>) -> Option<SimpleEdge> {
    match edge {
        Some(e) => Some(SimpleEdge { id: e.id, ni: e.ni, nj: e.nj, len: e.len }),
        None => None,
    }
}

impl SimpleEdge {
    /// The edge without what lies on it, where there is an edge.
    pub fn from_some(edge: Option<&Edge>) -> (simple: Option<SimpleEdge>)
        ensures
            simple == (match edge {
                Some(e) => Some(SimpleEdge { id: e.id, ni: e.ni, nj: e.nj, len: e.len }),
                None => None,
            }),
    {
        match edge {
            Some(e) => Some(SimpleEdge { id: e.id, ni: e.ni, nj: e.nj, len: e.len }),
            None => None,
        }
    }
}

/// One crossing of an edge by the front of a centroid.
#[derive(Clone, Copy, Debug)]
pub struct TraverseState {
    /// Cost from the owning centroid to the start of the segment.
    pub cost_ct_to_ns: Length,
    /// Cost from the owning centroid to the end of the segment.
    pub cost_ct_to_ne: Length,
    /// The best cost that was recorded at the end of the segment before.
    pub cost_pt_to_ne: Length,
    /// The centroid that owns this state.
    pub centroid_ct_in_ns: CentroidId,
    /// The centroid that owned the end of the segment before, or none.
    pub centroid_pt_in_ne: CentroidId,
    pub start_node_id: NodeId,
    pub end_node_id: NodeId,
    /// The smaller of the levels of the two centroids, and the end of the
    /// segment that it belongs to.
    pub smallest_k: (K, Position),
    /// The edge that is crossed.
    pub edge: Option<SimpleEdge>,
}

impl Priced for TraverseState {
    open spec fn price(&self) -> Length {
        self.cost_ct_to_ne
    }

    fn priced(&self) -> (p: Length) {
        self.cost_ct_to_ne
    }
}

/// What one step of the traversal gave.
#[derive(Clone, Copy, Debug)]
pub enum Popped {
    /// Nothing waits.
    Exhausted,
    /// A state left the queue and is not handed out: it was beyond the
    /// bound, its edge was crossed already, or it stayed at its centroid.
    Skipped,
    /// A state left the queue and is handed out.
    Visit(TraverseState),
}

/// What a traversal holds, as mathematics.
pub struct VoronoiModel {
    /// The states that wait, in the order in which they were queued.
    pub queue: Seq<TraverseState>,
    /// For each node that was reached, the centroid that owns it and the
    /// cost from that centroid.
    pub costs: Map<NodeId, (CentroidId, Length)>,
    /// The ids of the edges that were crossed in this pass.
    pub visited: Set<EdgeId>,
    /// The dominance level of each object.
    pub levels: Map<ObjectId, K>,
    /// For each edge that was crossed, the centroid with the smaller level
    /// of the two that met there, and that level.
    pub edge_levels: Map<EdgeId, (ObjectId, K)>,
    /// The states that wait for a higher level, in the order in which they
    /// were set aside.
    pub reserve: Seq<TraverseState>,
    /// Whether this is the first pass.
    pub is_initial: bool,
    /// The active level.
    pub current_k: K,
}

/// The level of the object that `centroid` stands for: the number of
/// dimensions where none is recorded.
pub open spec fn level_of(levels: Map<ObjectId, K>, centroid: CentroidId, max_dim: K) -> K {
    if levels.contains_key(spec_as_object_id(centroid)) {
        levels[spec_as_object_id(centroid)]
    } else {
        max_dim
    }
}

/// The smaller of the levels of the centroids at the start and at the end
/// of a segment, with the end that it belongs to: the far end where the
/// levels are equal.
pub open spec fn smaller_level(
    levels: Map<ObjectId, K>,
    start: CentroidId,
    end: CentroidId,
    max_dim: K,
) -> (K, Position) {
    if level_of(levels, start, max_dim) < level_of(levels, end, max_dim) {
        (level_of(levels, start, max_dim), Position::Start)
    } else {
        (level_of(levels, end, max_dim), Position::End)
    }
}

/// The cost of the state at the end of its segment is its cost at the start
/// plus the length of the edge that it carries.
pub open spec fn spans_edge(s: TraverseState) -> bool {
    match s.edge {
        Some(e) => s.cost_ct_to_ne == cost_sum(s.cost_ct_to_ns, e.len),
        None => true,
    }
}

/// The state carries the edge of the graph between its two nodes, and it
/// spans that edge, see [`spans_edge`].
pub open spec fn carries_edge(graph: &Graph, s: TraverseState) -> bool {
    &&& graph.edge_between(s.start_node_id, s.end_node_id).is_some()
    &&& s.edge == simple_of(graph.edge_between(s.start_node_id, s.end_node_id))
    &&& spans_edge(s)
}

/// Every state of `list` carries the edge between its two nodes.
pub open spec fn all_carry(graph: &Graph, list: Seq<TraverseState>) -> bool {
    forall|i: int| 0 <= i < list.len() ==> carries_edge(graph, #[trigger] list[i])
}

/// The state with what is known now about the end of its segment: the
/// owner and the cost recorded there, where something is recorded.
pub open spec fn refreshed(s: TraverseState, costs: Map<NodeId, (CentroidId, Length)>) ->
    TraverseState {
    if costs.contains_key(s.end_node_id) {
        TraverseState {
            centroid_pt_in_ne: costs[s.end_node_id].0,
            cost_pt_to_ne: costs[s.end_node_id].1,
            ..s
        }
    } else {
        s
    }
}

/// Whether the edge between `a` and `b` was crossed in this pass.
pub open spec fn crossed(visited: Set<EdgeId>, graph: &Graph, a: NodeId, b: NodeId) -> bool {
    match graph.id_between(a, b) {
        Some(id) => visited.contains(id),
        None => false,
    }
}

/// Whether a state that left the queue is dropped: it starts beyond the
/// bound, or its edge was crossed already.
pub open spec fn dropped(m: VoronoiModel, graph: &Graph, s: TraverseState) -> bool {
    s.cost_ct_to_ns > search_bound(graph.spec_config().max_dist) || crossed(
        m.visited,
        graph,
        s.start_node_id,
        s.end_node_id,
    )
}

/// The crossed edges after the edge between `a` and `b` was crossed.
pub open spec fn crossing(visited: Set<EdgeId>, graph: &Graph, a: NodeId, b: NodeId) ->
    Set<EdgeId> {
    match graph.id_between(a, b) {
        Some(id) => visited.insert(id),
        None => visited,
    }
}

/// The edge levels after state `s` crossed its edge: the edge gets the
/// centroid of `s` with its level, or the centroid that was at the far
/// end before where that one's level is not above it. A state that stays
/// at its node, or carries no edge, changes nothing.
pub open spec fn levelled(
    edge_levels: Map<EdgeId, (ObjectId, K)>,
    levels: Map<ObjectId, K>,
    s: TraverseState,
    max_dim: K,
) -> Map<EdgeId, (ObjectId, K)> {
    let curr = spec_as_object_id(s.centroid_ct_in_ns);
    let prev = spec_as_object_id(s.centroid_pt_in_ne);
    let k_curr = level_of(levels, s.centroid_ct_in_ns, max_dim);
    let k_prev = level_of(levels, s.centroid_pt_in_ne, max_dim);
    if s.start_node_id == s.end_node_id || s.edge.is_none() {
        edge_levels
    } else if prev == NO_CENTROID || k_curr < k_prev {
        edge_levels.insert(s.edge.unwrap().id, (curr, k_curr))
    } else {
        edge_levels.insert(s.edge.unwrap().id, (prev, k_prev))
    }
}

/// Whether state `s` is set aside for a higher level: it crosses an edge,
/// two different centroids meet on it or its far end is unclaimed, its
/// level is above the active one, and, where two centroids meet, one of
/// them has a level below the number of dimensions.
pub open spec fn set_aside(m: VoronoiModel, s: TraverseState, max_dim: K) -> bool {
    &&& s.start_node_id != s.end_node_id
    &&& s.centroid_ct_in_ns != s.centroid_pt_in_ne
    &&& s.smallest_k.0 > m.current_k
    &&& (s.centroid_pt_in_ne == NO_CENTROID || level_of(m.levels, s.centroid_ct_in_ns, max_dim)
        < max_dim || level_of(m.levels, s.centroid_pt_in_ne, max_dim) < max_dim)
}

/// The model after the way over `s` to the neighbour `node` of its end
/// node was tried.
///
/// An edge that was crossed is left alone, and so is, after the first pass,
/// an edge whose recorded level is above the active one. After the first
/// pass what is known of `node` is forgotten first. Then: an unclaimed node
/// is claimed for the centroid of `s`; a node of the same centroid is
/// improved where the way is cheaper; a node of another centroid keeps its
/// owner unless the way is cheaper. In each of these cases but the one of a
/// way that is not cheaper for the same centroid, a state for the edge is
/// queued, with the cost and the owner that were recorded at `node`.
pub open spec fn relaxed(m: VoronoiModel, graph: &Graph, s: TraverseState, node: NodeId) ->
    VoronoiModel {
    let max_dim = graph.spec_config().max_dim;
    let end = s.end_node_id;
    let edge = graph.edge_between(node, end);
    let cost_next = cost_sum(s.cost_ct_to_ne, edge_length(graph, node, end));
    let ct = s.centroid_ct_in_ns;
    if crossed(m.visited, graph, node, end) {
        m
    } else if !m.is_initial && edge.is_some() && m.edge_levels.contains_key(edge.unwrap().id)
        && m.edge_levels[edge.unwrap().id].1 > m.current_k {
        m
    } else {
        let costs = if m.is_initial {
            m.costs
        } else {
            m.costs.remove(node)
        };
        if costs.contains_key(node) {
            let existing = costs[node].0;
            let prev_cost = costs[node].1;
            if existing != ct || cost_next < prev_cost {
                VoronoiModel {
                    costs: if cost_next < prev_cost {
                        costs.insert(node, (ct, cost_next))
                    } else {
                        costs
                    },
                    queue: m.queue.push(
                        TraverseState {
                            cost_ct_to_ns: s.cost_ct_to_ne,
                            cost_ct_to_ne: cost_next,
                            cost_pt_to_ne: prev_cost,
                            centroid_ct_in_ns: ct,
                            centroid_pt_in_ne: existing,
                            start_node_id: end,
                            end_node_id: node,
                            smallest_k: smaller_level(m.levels, ct, existing, max_dim),
                            edge: simple_of(edge),
                        },
                    ),
                    ..m
                }
            } else {
                VoronoiModel { costs, ..m }
            }
        } else {
            VoronoiModel {
                costs: costs.insert(node, (ct, cost_next)),
                queue: m.queue.push(
                    TraverseState {
                        cost_ct_to_ns: s.cost_ct_to_ne,
                        cost_ct_to_ne: cost_next,
                        cost_pt_to_ne: 0,
                        centroid_ct_in_ns: ct,
                        centroid_pt_in_ne: NO_CENTROID,
                        start_node_id: end,
                        end_node_id: node,
                        smallest_k: (level_of(m.levels, ct, max_dim), Position::Start),
                        edge: simple_of(edge),
                    },
                ),
                ..m
            }
        }
    }
}

/// The model after the ways over `s` to each of `nodes` were tried, first
/// to last.
pub open spec fn relaxed_all(
    m: VoronoiModel,
    graph: &Graph,
    s: TraverseState,
    nodes: Seq<NodeId>,
) -> VoronoiModel
    decreases nodes.len(),
{
    if nodes.len() == 0 {
        m
    } else {
        relaxed(relaxed_all(m, graph, s, nodes.drop_last()), graph, s, nodes.last())
    }
}

/// One step of the traversal: what it gives, and the model after it.
///
/// The cheapest waiting state leaves the queue, the first of them where
/// several cost the same. It is dropped where it starts beyond twice the
/// configured distance or where its edge was crossed in this pass.
/// Otherwise its edge counts as crossed and gets its level, the state is
/// set aside where it waits for a higher level, and the ways from its end
/// node to the neighbours of that node are tried. The state is handed out,
/// with what is known of its end node, unless it stays at its node.
pub open spec fn popped(m: VoronoiModel, graph: &Graph) -> (Popped, VoronoiModel) {
    if m.queue.len() == 0 {
        (Popped::Exhausted, m)
    } else {
        let max_dim = graph.spec_config().max_dim;
        let raw = m.queue[min_index(m.queue)];
        let state = refreshed(raw, m.costs);
        let rest = VoronoiModel { queue: m.queue.remove(min_index(m.queue)), ..m };
        if dropped(m, graph, raw) {
            (Popped::Skipped, rest)
        } else {
            let opened = VoronoiModel {
                visited: crossing(m.visited, graph, raw.start_node_id, raw.end_node_id),
                edge_levels: levelled(m.edge_levels, m.levels, raw, max_dim),
                reserve: if set_aside(m, state, max_dim) {
                    m.reserve.push(state)
                } else {
                    m.reserve
                },
                ..rest
            };
            (
                if state.start_node_id != state.end_node_id {
                    Popped::Visit(state)
                } else {
                    Popped::Skipped
                },
                relaxed_all(opened, graph, raw, graph.neighbors_of(raw.end_node_id)),
            )
        }
    }
}

/// The model after `n` steps.
pub open spec fn after_steps(m: VoronoiModel, graph: &Graph, n: nat) -> VoronoiModel
    decreases n,
{
    if n == 0 {
        m
    } else {
        popped(after_steps(m, graph, (n - 1) as nat), graph).1
    }
}

/// The multi-source Voronoi traversal.
pub struct VoronoiMinHeap<'a> {
    graph: &'a Graph,
    max_dist: Length,
    min_heap: Vec<TraverseState>,
    cost_map: HashMap<NodeId, (CentroidId, Length)>,
    visited: HashSet<EdgeId>,
    map_object_id_k: HashMap<ObjectId, K>,
    map_centroid_edge_id: HashMap<EdgeId, (ObjectId, K)>,
    min_heap_reserve: Vec<TraverseState>,
    is_initial: bool,
    current_k: K,
}

impl<'a> View for VoronoiMinHeap<'a> {
    type V = VoronoiModel;

    closed spec fn view(&self) -> VoronoiModel {
        VoronoiModel {
            queue: self.min_heap@,
            costs: self.cost_map@,
            visited: self.visited@,
            levels: self.map_object_id_k@,
            edge_levels: self.map_centroid_edge_id@,
            reserve: self.min_heap_reserve@,
            is_initial: self.is_initial,
            current_k: self.current_k,
        }
    }
}

/// What the sources of a traversal give: the states that wait and the
/// owners of the nodes.
pub struct Front {
    pub queue: Seq<TraverseState>,
    pub costs: Map<NodeId, (CentroidId, Length)>,
}

/// The front after the edge from `centroid` to its neighbour `node` was
/// queued: the neighbour is claimed for the centroid unless it is claimed
/// at a cost that is not above the length of the edge, and the centroid
/// owns itself at cost zero.
pub open spec fn sourced(
    f: Front,
    graph: &Graph,
    levels: Map<ObjectId, K>,
    centroid: CentroidId,
    node: NodeId,
) -> Front {
    let len = edge_length(graph, node, centroid);
    let claimed = if f.costs.contains_key(node) && f.costs[node].1 <= len {
        f.costs
    } else {
        f.costs.insert(node, (centroid, len))
    };
    Front {
        queue: f.queue.push(
            TraverseState {
                cost_ct_to_ns: 0,
                cost_ct_to_ne: len,
                cost_pt_to_ne: 0,
                centroid_ct_in_ns: centroid,
                centroid_pt_in_ne: NO_CENTROID,
                start_node_id: centroid,
                end_node_id: node,
                smallest_k: (
                    level_of(levels, centroid, graph.spec_config().max_dim),
                    Position::Start,
                ),
                edge: simple_of(graph.edge_between(node, centroid)),
            },
        ),
        costs: claimed.insert(centroid, (centroid, 0)),
    }
}

/// The front after the edges from `centroid` to each of `nodes` were
/// queued, first to last.
pub open spec fn sourced_all(
    f: Front,
    graph: &Graph,
    levels: Map<ObjectId, K>,
    centroid: CentroidId,
    nodes: Seq<NodeId>,
) -> Front
    decreases nodes.len(),
{
    if nodes.len() == 0 {
        f
    } else {
        sourced(
            sourced_all(f, graph, levels, centroid, nodes.drop_last()),
            graph,
            levels,
            centroid,
            nodes.last(),
        )
    }
}

/// The front of the centroids of `centroids`, first to last: for each of
/// them the edges to its neighbours.
pub open spec fn sources(graph: &Graph, levels: Map<ObjectId, K>, centroids: Seq<CentroidId>) ->
    Front
    decreases centroids.len(),
{
    if centroids.len() == 0 {
        Front { queue: Seq::empty(), costs: Map::empty() }
    } else {
        sourced_all(
            sources(graph, levels, centroids.drop_last()),
            graph,
            levels,
            centroids.last(),
            graph.neighbors_of(centroids.last()),
        )
    }
}

/// Every centroid of `centroids` stands for an object that has a level.
pub open spec fn all_levelled(centroids: Seq<CentroidId>, levels: Map<ObjectId, K>) -> bool {
    forall|i: int|
        0 <= i < centroids.len() ==> levels.contains_key(
            spec_as_object_id(#[trigger] centroids[i]),
        )
}

/// The model of a traversal that starts from `centroids` at level `k`.
pub open spec fn started(
    graph: &Graph,
    centroids: Seq<CentroidId>,
    levels: Map<ObjectId, K>,
    k: K,
) -> VoronoiModel {
    VoronoiModel {
        queue: sources(graph, levels, centroids).queue,
        costs: sources(graph, levels, centroids).costs,
        visited: Set::empty(),
        levels,
        edge_levels: Map::empty(),
        reserve: Seq::empty(),
        is_initial: true,
        current_k: k,
    }
}

/// A step took a state out of the queue and left the crossed edges as they
/// were, or it crossed an edge of the graph that was not crossed before.
pub open spec fn progress(before: VoronoiModel, after: VoronoiModel, graph: &Graph) -> bool {
    ||| after.visited == before.visited && after.queue.len() + 1 == before.queue.len()
    ||| exists|id: EdgeId|
        graph.edge_table().contains_key(id) && !before.visited.contains(id) && after.visited
            == before.visited.insert(id)
}

/// The last step of a call for the next state: one that handed the state
/// out, or one that found nothing waiting.
pub open spec fn outcome(visit: Option<TraverseState>) -> Popped {
    match visit {
        Some(s) => Popped::Visit(s),
        None => Popped::Exhausted,
    }
}

/// From `m`, `n` steps that hand nothing out, and then a step that gives
/// `out` and leaves `after`.
pub open spec fn reached(
    m: VoronoiModel,
    graph: &Graph,
    n: nat,
    out: Popped,
    after: VoronoiModel,
) -> bool {
    &&& forall|j: nat| j < n ==> popped(#[trigger] after_steps(m, graph, j), graph).0 is Skipped
    &&& popped(after_steps(m, graph, n), graph).0 == out
    &&& after == after_steps(m, graph, n + 1)
}

/// The edges of the graph that were not crossed in this pass.
pub open spec fn uncrossed(graph: &Graph, visited: Set<EdgeId>) -> Set<EdgeId> {
    graph.edge_table().dom().difference(visited)
}

/// The traversal in `after` has less to do than in `before`: more edges are
/// crossed, or as many are and fewer states wait.
pub open spec fn closer(before: VoronoiModel, after: VoronoiModel, graph: &Graph) -> bool {
    uncrossed(graph, after.visited).len() < uncrossed(graph, before.visited).len() || (uncrossed(
        graph,
        after.visited,
    ).len() == uncrossed(graph, before.visited).len() && after.queue.len() < before.queue.len())
}

/// Trying ways changes neither the levels nor the active level nor the
/// pass.
pub proof fn lemma_relaxed_all_keeps(m: VoronoiModel, graph: &Graph, s: TraverseState,
    nodes: Seq<NodeId>)
    ensures
        relaxed_all(m, graph, s, nodes).current_k == m.current_k,
        relaxed_all(m, graph, s, nodes).levels == m.levels,
        relaxed_all(m, graph, s, nodes).is_initial == m.is_initial,
        relaxed_all(m, graph, s, nodes).visited == m.visited,
        relaxed_all(m, graph, s, nodes).reserve == m.reserve,
        relaxed_all(m, graph, s, nodes).edge_levels == m.edge_levels,
    decreases nodes.len(),
{
    if nodes.len() > 0 {
        lemma_relaxed_all_keeps(m, graph, s, nodes.drop_last());
    }
}

/// Steps change neither the levels nor the active level nor the pass.
pub proof fn lemma_steps_keep(m: VoronoiModel, graph: &Graph, n: nat)
    ensures
        after_steps(m, graph, n).current_k == m.current_k,
        after_steps(m, graph, n).levels == m.levels,
        after_steps(m, graph, n).is_initial == m.is_initial,
    decreases n,
{
    if n > 0 {
        lemma_steps_keep(m, graph, (n - 1) as nat);
        let before = after_steps(m, graph, (n - 1) as nat);
        if before.queue.len() > 0 {
            let max_dim = graph.spec_config().max_dim;
            let raw = before.queue[min_index(before.queue)];
            let state = refreshed(raw, before.costs);
            let rest = VoronoiModel { queue: before.queue.remove(min_index(before.queue)),
                ..before };
            if !dropped(before, graph, raw) {
                let opened = VoronoiModel {
                    visited: crossing(before.visited, graph, raw.start_node_id, raw.end_node_id),
                    edge_levels: levelled(before.edge_levels, before.levels, raw, max_dim),
                    reserve: if set_aside(before, state, max_dim) {
                        before.reserve.push(state)
                    } else {
                        before.reserve
                    },
                    ..rest
                };
                lemma_relaxed_all_keeps(opened, graph, raw, graph.neighbors_of(raw.end_node_id));
            }
        }
    }
}

/// No waiting state ends its segment at a cost below `floor`.
pub open spec fn none_below(queue: Seq<TraverseState>, floor: Length) -> bool {
    forall|i: int| 0 <= i < queue.len() ==> floor <= (#[trigger] queue[i]).cost_ct_to_ne
}

/// The state that step `n + 1` takes out of the queue.
pub open spec fn taken_at(m: VoronoiModel, graph: &Graph, n: nat) -> TraverseState {
    let at = after_steps(m, graph, n);
    at.queue[min_index(at.queue)]
}

/// The states that are queued for the ways over a state end their segments
/// at no lower cost than the state.
pub proof fn lemma_relaxed_all_floor(m: VoronoiModel, graph: &Graph, s: TraverseState,
    nodes: Seq<NodeId>)
    requires
        none_below(m.queue, s.cost_ct_to_ne),
    ensures
        none_below(relaxed_all(m, graph, s, nodes).queue, s.cost_ct_to_ne),
    decreases nodes.len(),
{
    if nodes.len() > 0 {
        lemma_relaxed_all_floor(m, graph, s, nodes.drop_last());
        let before = relaxed_all(m, graph, s, nodes.drop_last());
        let after = relaxed(before, graph, s, nodes.last());
        assert forall|i: int| 0 <= i < after.queue.len() implies s.cost_ct_to_ne <= (
        #[trigger] after.queue[i]).cost_ct_to_ne by {
            if i < before.queue.len() {
                assert(after.queue[i] == before.queue[i]);
            }
        }
    }
}

/// Within a pass the states leave the queue in ascending order of the cost
/// at which their segments end: no state is cheaper than the state that
/// left before it.
pub proof fn lemma_states_ascend(m: VoronoiModel, graph: &Graph, n: nat)
    requires
        after_steps(m, graph, n).queue.len() > 0,
        after_steps(m, graph, n + 1).queue.len() > 0,
    ensures
        taken_at(m, graph, n).cost_ct_to_ne <= taken_at(m, graph, n + 1).cost_ct_to_ne,
{
    let now = after_steps(m, graph, n);
    let raw = now.queue[min_index(now.queue)];
    lemma_min_index(now.queue);
    let rest = VoronoiModel { queue: now.queue.remove(min_index(now.queue)), ..now };
    assert forall|i: int| 0 <= i < rest.queue.len() implies raw.cost_ct_to_ne <= (
    #[trigger] rest.queue[i]).cost_ct_to_ne by {
        if i < min_index(now.queue) {
            assert(rest.queue[i] == now.queue[i]);
        } else {
            assert(rest.queue[i] == now.queue[i + 1]);
        }
    }
    let next = after_steps(m, graph, n + 1);
    assert(next == popped(now, graph).1);
    if !dropped(now, graph, raw) {
        let max_dim = graph.spec_config().max_dim;
        let state = refreshed(raw, now.costs);
        let opened = VoronoiModel {
            visited: crossing(now.visited, graph, raw.start_node_id, raw.end_node_id),
            edge_levels: levelled(now.edge_levels, now.levels, raw, max_dim),
            reserve: if set_aside(now, state, max_dim) {
                now.reserve.push(state)
            } else {
                now.reserve
            },
            ..rest
        };
        lemma_relaxed_all_floor(opened, graph, raw, graph.neighbors_of(raw.end_node_id));
    }
    lemma_min_index(next.queue);
}

/// The two models differ in the active level and in the reserve at most.
pub open spec fn same_front(a: VoronoiModel, b: VoronoiModel) -> bool {
    &&& a.queue == b.queue
    &&& a.costs == b.costs
    &&& a.visited == b.visited
    &&& a.levels == b.levels
    &&& a.edge_levels == b.edge_levels
    &&& a.is_initial == b.is_initial
}

/// In the first pass, trying ways does not depend on the active level.
pub proof fn lemma_relaxed_all_same_front(
    a: VoronoiModel,
    b: VoronoiModel,
    graph: &Graph,
    s: TraverseState,
    nodes: Seq<NodeId>,
)
    requires
        same_front(a, b),
        a.is_initial,
    ensures
        same_front(relaxed_all(a, graph, s, nodes), relaxed_all(b, graph, s, nodes)),
        relaxed_all(a, graph, s, nodes).is_initial,
    decreases nodes.len(),
{
    if nodes.len() > 0 {
        lemma_relaxed_all_same_front(a, b, graph, s, nodes.drop_last());
    }
}

/// In the first pass, a step does not depend on the active level: it
/// gives the same, and leaves the same but for the reserve.
pub proof fn lemma_popped_same_front(a: VoronoiModel, b: VoronoiModel, graph: &Graph)
    requires
        same_front(a, b),
        a.is_initial,
    ensures
        popped(a, graph).0 == popped(b, graph).0,
        same_front(popped(a, graph).1, popped(b, graph).1),
        popped(a, graph).1.is_initial,
{
    if a.queue.len() > 0 {
        let max_dim = graph.spec_config().max_dim;
        let raw = a.queue[min_index(a.queue)];
        let state = refreshed(raw, a.costs);
        if !dropped(a, graph, raw) {
            let rest_a = VoronoiModel { queue: a.queue.remove(min_index(a.queue)), ..a };
            let rest_b = VoronoiModel { queue: b.queue.remove(min_index(b.queue)), ..b };
            let opened_a = VoronoiModel {
                visited: crossing(a.visited, graph, raw.start_node_id, raw.end_node_id),
                edge_levels: levelled(a.edge_levels, a.levels, raw, max_dim),
                reserve: if set_aside(a, state, max_dim) {
                    a.reserve.push(state)
                } else {
                    a.reserve
                },
                ..rest_a
            };
            let opened_b = VoronoiModel {
                visited: crossing(b.visited, graph, raw.start_node_id, raw.end_node_id),
                edge_levels: levelled(b.edge_levels, b.levels, raw, max_dim),
                reserve: if set_aside(b, state, max_dim) {
                    b.reserve.push(state)
                } else {
                    b.reserve
                },
                ..rest_b
            };
            lemma_relaxed_all_same_front(
                opened_a,
                opened_b,
                graph,
                raw,
                graph.neighbors_of(raw.end_node_id),
            );
        }
    }
}

/// In the first pass, no step depends on the active level.
pub proof fn lemma_steps_same_front(a: VoronoiModel, b: VoronoiModel, graph: &Graph, n: nat)
    requires
        same_front(a, b),
        a.is_initial,
    ensures
        same_front(after_steps(a, graph, n), after_steps(b, graph, n)),
        after_steps(a, graph, n).is_initial,
        popped(after_steps(a, graph, n), graph).0 == popped(after_steps(b, graph, n), graph).0,
    decreases n,
{
    if n > 0 {
        lemma_steps_same_front(a, b, graph, (n - 1) as nat);
        lemma_popped_same_front(
            after_steps(a, graph, (n - 1) as nat),
            after_steps(b, graph, (n - 1) as nat),
            graph,
        );
    }
    lemma_popped_same_front(after_steps(a, graph, n), after_steps(b, graph, n), graph);
}

/// Steps add up.
pub proof fn lemma_steps_add(m: VoronoiModel, graph: &Graph, a: nat, b: nat)
    ensures
        after_steps(after_steps(m, graph, a), graph, b) == after_steps(m, graph, a + b),
    decreases b,
{
    if b > 0 {
        lemma_steps_add(m, graph, a, (b - 1) as nat);
        assert((a + b - 1) as nat == a + (b - 1) as nat);
    }
}

/// What a reserved state re-enters the queue as. A state whose level
/// belongs to its start is queued as it is, with its own centroid and cost
/// as what is known of its end. A state whose level belongs to its end is
/// turned round: it starts at its end node for the centroid that was
/// recorded there, at the cost that was recorded there, and ends the
/// length of its edge further.
pub open spec fn replayed(s: TraverseState) -> TraverseState {
    match s.smallest_k.1 {
        Position::Start => TraverseState {
            centroid_pt_in_ne: s.centroid_ct_in_ns,
            cost_pt_to_ne: s.cost_ct_to_ne,
            ..s
        },
        Position::End => TraverseState {
            cost_ct_to_ns: s.cost_pt_to_ne,
            cost_ct_to_ne: cost_sum(
                s.cost_pt_to_ne,
                match s.edge {
                    Some(e) => e.len,
                    None => 0,
                },
            ),
            cost_pt_to_ne: cost_sum(
                s.cost_pt_to_ne,
                match s.edge {
                    Some(e) => e.len,
                    None => 0,
                },
            ),
            centroid_ct_in_ns: s.centroid_pt_in_ne,
            centroid_pt_in_ne: s.centroid_pt_in_ne,
            start_node_id: s.end_node_id,
            end_node_id: s.start_node_id,
            smallest_k: s.smallest_k,
            edge: s.edge,
        },
    }
}

/// The node whose owner is forgotten when the reserved state `s` re-enters
/// the queue: the node that the replayed state ends at.
pub open spec fn forgotten(s: TraverseState) -> NodeId {
    match s.smallest_k.1 {
        Position::Start => s.end_node_id,
        Position::End => s.start_node_id,
    }
}

/// The model after the reserved state `s` was looked at: where its level
/// is not above the active one it re-enters the queue and the owner of the
/// node it ends at is forgotten; otherwise it stays in the reserve.
pub open spec fn replay_one(m: VoronoiModel, s: TraverseState) -> VoronoiModel {
    if s.smallest_k.0 <= m.current_k {
        VoronoiModel {
            queue: m.queue.push(replayed(s)),
            costs: m.costs.remove(forgotten(s)),
            ..m
        }
    } else {
        VoronoiModel { reserve: m.reserve.push(s), ..m }
    }
}

/// The model after each of `list` was looked at, first to last.
pub open spec fn replay_all(m: VoronoiModel, list: Seq<TraverseState>) -> VoronoiModel
    decreases list.len(),
{
    if list.len() == 0 {
        m
    } else {
        replay_one(replay_all(m, list.drop_last()), list.last())
    }
}

/// The model after the reserve was replayed: every reserved state whose
/// level is not above the active one re-enters the queue, in the order of
/// the reserve; the others stay reserved, in their order.
pub open spec fn replay(m: VoronoiModel) -> VoronoiModel {
    replay_all(VoronoiModel { reserve: Seq::empty(), ..m }, m.reserve)
}

/// The model after the traversal was continued at level `k`: the active
/// level is `k`, no edge counts as crossed, and the reserve was replayed.
pub open spec fn continued(m: VoronoiModel, k: K) -> VoronoiModel {
    replay(VoronoiModel { current_k: k, visited: Set::empty(), ..m })
}

/// Looking at reserved states changes neither the active level nor the
/// levels of the objects.
pub proof fn lemma_replay_all_level(m: VoronoiModel, list: Seq<TraverseState>)
    ensures
        replay_all(m, list).current_k == m.current_k,
        replay_all(m, list).levels == m.levels,
    decreases list.len(),
{
    if list.len() > 0 {
        lemma_replay_all_level(m, list.drop_last());
    }
}

/// A traversal that was continued at level `k` has `k` as its active
/// level.
pub proof fn lemma_continued_level(m: VoronoiModel, k: K)
    ensures
        continued(m, k).current_k == k,
        continued(m, k).levels == m.levels,
{
    let raised = VoronoiModel { current_k: k, visited: Set::empty(), ..m };
    lemma_replay_all_level(VoronoiModel { reserve: Seq::empty(), ..raised }, raised.reserve);
}

/// A reserved state that carries its edge re-enters the queue carrying its
/// edge.
pub proof fn lemma_replayed_carries(graph: &Graph, s: TraverseState)
    requires
        graph.wf(),
        carries_edge(graph, s),
    ensures
        carries_edge(graph, replayed(s)),
{
    graph.lemma_edge_between(s.start_node_id, s.end_node_id);
}

/// The graph is in order, and every state that waits in the queue or in
/// the reserve of the model carries the edge between its two nodes.
pub open spec fn sound(graph: &Graph, m: VoronoiModel) -> bool {
    graph.wf() && all_carry(graph, m.queue) && all_carry(graph, m.reserve)
}

/// A state that is queued for a way to a neighbour carries the edge of the
/// way.
pub proof fn lemma_relaxed_carries(m: VoronoiModel, graph: &Graph, s: TraverseState, node: NodeId)
    requires
        graph.wf(),
        all_carry(graph, m.queue),
        graph.neighbors_of(s.end_node_id).contains(node),
    ensures
        all_carry(graph, relaxed(m, graph, s, node).queue),
        relaxed(m, graph, s, node).reserve == m.reserve,
{
    graph.lemma_neighbor_edge(s.end_node_id, node);
    graph.lemma_edge_between(s.end_node_id, node);
    let after = relaxed(m, graph, s, node);
    assert forall|i: int| 0 <= i < after.queue.len() implies carries_edge(
        graph,
        #[trigger] after.queue[i],
    ) by {
        if i < m.queue.len() {
            assert(after.queue[i] == m.queue[i]);
        }
    }
}

/// The states that are queued for the ways to neighbours carry the edges
/// of the ways.
pub proof fn lemma_relaxed_all_carries(
    m: VoronoiModel,
    graph: &Graph,
    s: TraverseState,
    nodes: Seq<NodeId>,
)
    requires
        graph.wf(),
        all_carry(graph, m.queue),
        forall|i: int|
            0 <= i < nodes.len() ==> graph.neighbors_of(s.end_node_id).contains(
                #[trigger] nodes[i],
            ),
    ensures
        all_carry(graph, relaxed_all(m, graph, s, nodes).queue),
        relaxed_all(m, graph, s, nodes).reserve == m.reserve,
    decreases nodes.len(),
{
    if nodes.len() > 0 {
        let front = nodes.drop_last();
        assert forall|i: int| 0 <= i < front.len() implies graph.neighbors_of(
            s.end_node_id,
        ).contains(#[trigger] front[i]) by {
            assert(front[i] == nodes[i]);
        }
        lemma_relaxed_all_carries(m, graph, s, front);
        assert(graph.neighbors_of(s.end_node_id).contains(nodes[nodes.len() - 1]));
        lemma_relaxed_carries(relaxed_all(m, graph, s, front), graph, s, nodes.last());
    }
}

/// A step keeps a model sound, and the state that it hands out carries the
/// edge between its two nodes.
pub proof fn lemma_popped_sound(m: VoronoiModel, graph: &Graph)
    requires
        sound(graph, m),
    ensures
        sound(graph, popped(m, graph).1),
        popped(m, graph).0 matches Popped::Visit(s) ==> carries_edge(graph, s),
{
    if m.queue.len() > 0 {
        lemma_min_index(m.queue);
        let max_dim = graph.spec_config().max_dim;
        let raw = m.queue[min_index(m.queue)];
        let state = refreshed(raw, m.costs);
        let rest = VoronoiModel { queue: m.queue.remove(min_index(m.queue)), ..m };
        assert(carries_edge(graph, raw));
        assert(carries_edge(graph, state));
        assert forall|i: int| 0 <= i < rest.queue.len() implies carries_edge(
            graph,
            #[trigger] rest.queue[i],
        ) by {
            if i < min_index(m.queue) {
                assert(rest.queue[i] == m.queue[i]);
            } else {
                assert(rest.queue[i] == m.queue[i + 1]);
            }
        }
        if !dropped(m, graph, raw) {
            let opened = VoronoiModel {
                visited: crossing(m.visited, graph, raw.start_node_id, raw.end_node_id),
                edge_levels: levelled(m.edge_levels, m.levels, raw, max_dim),
                reserve: if set_aside(m, state, max_dim) {
                    m.reserve.push(state)
                } else {
                    m.reserve
                },
                ..rest
            };
            assert forall|i: int| 0 <= i < opened.reserve.len() implies carries_edge(
                graph,
                #[trigger] opened.reserve[i],
            ) by {
                if i < m.reserve.len() {
                    assert(opened.reserve[i] == m.reserve[i]);
                }
            }
            let around = graph.neighbors_of(raw.end_node_id);
            assert forall|i: int| 0 <= i < around.len() implies graph.neighbors_of(
                raw.end_node_id,
            ).contains(#[trigger] around[i]) by {}
            lemma_relaxed_all_carries(opened, graph, raw, around);
        }
    }
}

/// Steps keep a model sound, and every state that is handed out carries
/// the edge between its two nodes.
pub proof fn lemma_steps_sound(m: VoronoiModel, graph: &Graph, n: nat)
    requires
        sound(graph, m),
    ensures
        sound(graph, after_steps(m, graph, n)),
        popped(after_steps(m, graph, n), graph).0 matches Popped::Visit(s) ==> carries_edge(
            graph,
            s,
        ),
    decreases n,
{
    if n > 0 {
        lemma_steps_sound(m, graph, (n - 1) as nat);
        lemma_popped_sound(after_steps(m, graph, (n - 1) as nat), graph);
    }
    lemma_popped_sound(after_steps(m, graph, n), graph);
}

/// The states that wait for a centroid at the start carry the edges to its
/// neighbours.
pub proof fn lemma_sourced_all_carries(
    f: Front,
    graph: &Graph,
    levels: Map<ObjectId, K>,
    centroid: CentroidId,
    nodes: Seq<NodeId>,
)
    requires
        graph.wf(),
        all_carry(graph, f.queue),
        forall|i: int|
            0 <= i < nodes.len() ==> graph.neighbors_of(centroid).contains(#[trigger] nodes[i]),
    ensures
        all_carry(graph, sourced_all(f, graph, levels, centroid, nodes).queue),
    decreases nodes.len(),
{
    if nodes.len() > 0 {
        let front = nodes.drop_last();
        assert forall|i: int| 0 <= i < front.len() implies graph.neighbors_of(centroid).contains(
            #[trigger] front[i],
        ) by {
            assert(front[i] == nodes[i]);
        }
        lemma_sourced_all_carries(f, graph, levels, centroid, front);
        let before = sourced_all(f, graph, levels, centroid, front);
        let node = nodes.last();
        assert(graph.neighbors_of(centroid).contains(nodes[nodes.len() - 1]));
        graph.lemma_neighbor_edge(centroid, node);
        graph.lemma_edge_between(centroid, node);
        let after = sourced(before, graph, levels, centroid, node);
        assert forall|i: int| 0 <= i < after.queue.len() implies carries_edge(
            graph,
            #[trigger] after.queue[i],
        ) by {
            if i < before.queue.len() {
                assert(after.queue[i] == before.queue[i]);
            }
        }
    }
}

/// The states that wait at the start carry the edges from the centroids to
/// their neighbours.
pub proof fn lemma_sources_carry(
    graph: &Graph,
    levels: Map<ObjectId, K>,
    centroids: Seq<CentroidId>,
)
    requires
        graph.wf(),
    ensures
        all_carry(graph, sources(graph, levels, centroids).queue),
    decreases centroids.len(),
{
    if centroids.len() > 0 {
        lemma_sources_carry(graph, levels, centroids.drop_last());
        let around = graph.neighbors_of(centroids.last());
        assert forall|i: int| 0 <= i < around.len() implies graph.neighbors_of(
            centroids.last(),
        ).contains(#[trigger] around[i]) by {}
        lemma_sourced_all_carries(
            sources(graph, levels, centroids.drop_last()),
            graph,
            levels,
            centroids.last(),
            around,
        );
    }
}

/// Replaying keeps a model sound.
pub proof fn lemma_replay_all_sound(m: VoronoiModel, graph: &Graph, list: Seq<TraverseState>)
    requires
        sound(graph, m),
        all_carry(graph, list),
    ensures
        sound(graph, replay_all(m, list)),
    decreases list.len(),
{
    if list.len() > 0 {
        let front = list.drop_last();
        assert forall|i: int| 0 <= i < front.len() implies carries_edge(
            graph,
            #[trigger] front[i],
        ) by {
            assert(front[i] == list[i]);
        }
        lemma_replay_all_sound(m, graph, front);
        let before = replay_all(m, front);
        let s = list.last();
        assert(carries_edge(graph, list[list.len() - 1]));
        lemma_replayed_carries(graph, s);
        let after = replay_one(before, s);
        assert forall|i: int| 0 <= i < after.queue.len() implies carries_edge(
            graph,
            #[trigger] after.queue[i],
        ) by {
            if i < before.queue.len() {
                assert(after.queue[i] == before.queue[i]);
            }
        }
        assert forall|i: int| 0 <= i < after.reserve.len() implies carries_edge(
            graph,
            #[trigger] after.reserve[i],
        ) by {
            if i < before.reserve.len() {
                assert(after.reserve[i] == before.reserve[i]);
            }
        }
    }
}

/// Continuing keeps a model sound.
pub proof fn lemma_continued_sound(m: VoronoiModel, graph: &Graph, k: K)
    requires
        sound(graph, m),
    ensures
        sound(graph, continued(m, k)),
{
    let raised = VoronoiModel { current_k: k, visited: Set::empty(), ..m };
    let emptied = VoronoiModel { reserve: Seq::empty(), ..raised };
    assert(sound(graph, emptied));
    lemma_replay_all_sound(emptied, graph, raised.reserve);
}

impl<'a> VoronoiMinHeap<'a> {
    /// The graph that is traversed.
    pub closed spec fn graph(&self) -> &Graph {
        self.graph
    }

    /// The bound of the traversal is that of the graph's configuration.
    pub closed spec fn settled(&self) -> bool {
        self.max_dist == self.graph.spec_config().max_dist
    }

    /// The graph is in order, and every state that waits in the queue or in
    /// the reserve carries the edge between its two nodes.
    pub open spec fn wf(&self) -> bool {
        &&& self.graph().wf()
        &&& self.settled()
        &&& all_carry(self.graph(), self@.queue)
        &&& all_carry(self.graph(), self@.reserve)
    }

    /// A traversal of `graph` from the centroids of `centroid_ids` at level
    /// `start_k`: for each centroid the edges to its neighbours wait. A
    /// centroid whose object has no level in `map_object_id_k` is refused.
    pub fn new(
        graph: &'a Graph,
        centroid_ids: Vec<CentroidId>,
        map_object_id_k: HashMap<ObjectId, K>,
        start_k: K,
    ) -> (r: Result<VoronoiMinHeap<'a>, Error>)
        requires
            graph.wf(),
        ensures
            match r {
                Ok(heap) => {
                    &&& all_levelled(centroid_ids@, map_object_id_k@)
                    &&& heap.wf()
                    &&& heap.graph() == graph
                    &&& heap@ == started(graph, centroid_ids@, map_object_id_k@, start_k)
                },
                Err(e) => !all_levelled(centroid_ids@, map_object_id_k@) && e == Error::NotFound,
            },
    {
        let mut c: usize = 0;
        while c < centroid_ids.len()
            invariant
                c <= centroid_ids.len(),
                all_levelled(centroid_ids@.take(c as int), map_object_id_k@),
            decreases centroid_ids.len() - c,
        {
            if !map_object_id_k.contains_key(&as_object_id(centroid_ids[c])) {
                proof {
                    assert(!map_object_id_k@.contains_key(
                        spec_as_object_id(centroid_ids@[c as int]),
                    ));
                }
                return Err(Error::NotFound);
            }
            proof {
                assert forall|i: int| 0 <= i < c + 1 implies map_object_id_k@.contains_key(
                    spec_as_object_id(#[trigger] centroid_ids@.take(c + 1)[i]),
                ) by {
                    if i < c {
                        assert(centroid_ids@.take(c as int)[i] == centroid_ids@[i]);
                    }
                }
            }
            c += 1;
        }
        proof {
            assert(centroid_ids@.take(c as int) =~= centroid_ids@);
        }
        let max_dim = graph.config().max_dim;
        let mut min_heap: Vec<TraverseState> = Vec::new();
        let mut cost_map: HashMap<NodeId, (CentroidId, Length)> = HashMap::new();
        let mut c: usize = 0;
        while c < centroid_ids.len()
            invariant
                c <= centroid_ids.len(),
                graph.wf(),
                max_dim == graph.spec_config().max_dim,
                all_carry(graph, min_heap@),
                (Front { queue: min_heap@, costs: cost_map@ }) == sources(
                    graph,
                    map_object_id_k@,
                    centroid_ids@.take(c as int),
                ),
            decreases centroid_ids.len() - c,
        {
            let centroid_id = centroid_ids[c];
            let around = graph.neighbors(centroid_id);
            let ghost base = Front { queue: min_heap@, costs: cost_map@ };
            let smallest_k = match map_object_id_k.get(&as_object_id(centroid_id)) {
                Some(k) => *k,
                None => max_dim,
            };
            let mut i: usize = 0;
            while i < around.len()
                invariant
                    i <= around.len(),
                    graph.wf(),
                    around@ == graph.neighbors_of(centroid_id),
                    smallest_k == level_of(
                        map_object_id_k@,
                        centroid_id,
                        graph.spec_config().max_dim,
                    ),
                    all_carry(graph, min_heap@),
                    (Front { queue: min_heap@, costs: cost_map@ }) == sourced_all(
                        base,
                        graph,
                        map_object_id_k@,
                        centroid_id,
                        around@.take(i as int),
                    ),
                decreases around.len() - i,
            {
                let node_id = around[i];
                proof {
                    assert(around@.take(i + 1).drop_last() =~= around@.take(i as int));
                    assert(around@.take(i + 1).last() == node_id);
                    assert(graph.neighbors_of(centroid_id).contains(around@[i as int]));
                    graph.lemma_neighbor_edge(centroid_id, node_id);
                    graph.lemma_edge_between(centroid_id, node_id);
                }
                let edge = graph.edge(node_id, centroid_id);
                let len = match edge {
                    Some(e) => e.len,
                    None => 0,
                };
                let ghost queue_before = min_heap@;
                min_heap.push(
                    TraverseState {
                        cost_ct_to_ns: 0,
                        cost_ct_to_ne: len,
                        cost_pt_to_ne: 0,
                        centroid_ct_in_ns: centroid_id,
                        centroid_pt_in_ne: NO_CENTROID,
                        start_node_id: centroid_id,
                        end_node_id: node_id,
                        smallest_k: (smallest_k, Position::Start),
                        edge: SimpleEdge::from_some(edge),
                    },
                );
                proof {
                    assert forall|j: int| 0 <= j < min_heap@.len() implies carries_edge(
                        graph,
                        #[trigger] min_heap@[j],
                    ) by {
                        if j < queue_before.len() {
                            assert(min_heap@[j] == queue_before[j]);
                        }
                    }
                }
                let claimed = match cost_map.get(&node_id) {
                    Some(entry) => entry.1 <= len,
                    None => false,
                };
                if !claimed {
                    cost_map.insert(node_id, (centroid_id, len));
                }
                cost_map.insert(centroid_id, (centroid_id, 0));
                i += 1;
            }
            proof {
                assert(around@.take(i as int) =~= around@);
                assert(centroid_ids@.take(c + 1).drop_last() =~= centroid_ids@.take(c as int));
                assert(centroid_ids@.take(c + 1).last() == centroid_id);
            }
            c += 1;
        }
        proof {
            assert(centroid_ids@.take(c as int) =~= centroid_ids@);
        }
        let heap = VoronoiMinHeap {
            graph,
            max_dist: graph.config().max_dist,
            min_heap,
            cost_map,
            visited: HashSet::new(),
            map_object_id_k,
            map_centroid_edge_id: HashMap::new(),
            min_heap_reserve: Vec::new(),
            is_initial: true,
            current_k: start_k,
        };
        proof {
            assert(heap@.visited =~= Set::empty());
            assert(heap@.edge_levels =~= Map::empty());
        }
        Ok(heap)
    }

    /// The level of the object that `centroid` stands for: the number of
    /// dimensions where none is recorded.
    fn k_of_object(&self, centroid: CentroidId) -> (k: K)
        ensures
            k == level_of(self@.levels, centroid, self.graph().spec_config().max_dim),
    {
        match self.map_object_id_k.get(&as_object_id(centroid)) {
            Some(k) => *k,
            None => self.graph.config().max_dim,
        }
    }

    /// The smaller of the levels of two centroids, with the end of the
    /// segment that it belongs to.
    fn smallest_k(&self, start: CentroidId, end: CentroidId) -> (k: (K, Position))
        ensures
            k == smaller_level(self@.levels, start, end, self.graph().spec_config().max_dim),
    {
        let start_k = self.k_of_object(start);
        let end_k = self.k_of_object(end);
        if start_k < end_k {
            (start_k, Position::Start)
        } else {
            (end_k, Position::End)
        }
    }

    /// Whether the edge between `a` and `b` was crossed in this pass.
    fn is_visited(&self, a: NodeId, b: NodeId) -> (yes: bool)
        ensures
            yes == crossed(self@.visited, self.graph(), a, b),
    {
        match self.graph.edge_id(a, b) {
            Some(edge_id) => self.visited.contains(&edge_id),
            None => false,
        }
    }

    /// Tries the way over `s` to the neighbour `node` of its end node.
    fn relax(&mut self, s: &TraverseState, node: NodeId)
        requires
            old(self).wf(),
            old(self).graph().neighbors_of(s.end_node_id).contains(node),
        ensures
            final(self).wf(),
            final(self).graph() == old(self).graph(),
            final(self)@ == relaxed(old(self)@, old(self).graph(), *s, node),
            final(self)@.visited == old(self)@.visited,
            final(self)@.queue.len() >= old(self)@.queue.len(),
    {
        let end = s.end_node_id;
        let ct = s.centroid_ct_in_ns;
        proof {
            self.graph().lemma_neighbor_edge(end, node);
            self.graph().lemma_edge_between(end, node);
        }
        if self.is_visited(node, end) {
            return ;
        }
        let edge = self.graph.edge(node, end);
        let len = match edge {
            Some(e) => e.len,
            None => 0,
        };
        let simple = SimpleEdge::from_some(edge);
        let cost_next = add_cost(s.cost_ct_to_ne, len);
        if !self.is_initial {
            let locked = match simple {
                Some(e) => match self.map_centroid_edge_id.get(&e.id) {
                    Some(entry) => entry.1 > self.current_k,
                    None => false,
                },
                None => false,
            };
            if locked {
                return ;
            }
            self.cost_map.remove(&node);
        }
        let ghost queue_before = self.min_heap@;
        let known = match self.cost_map.get(&node) {
            Some(entry) => Some((entry.0, entry.1)),
            None => None,
        };
        match known {
            Some((existing, prev_cost)) => {
                if existing != ct || cost_next < prev_cost {
                    if cost_next < prev_cost {
                        self.cost_map.insert(node, (ct, cost_next));
                    }
                    let smallest_k = self.smallest_k(ct, existing);
                    self.min_heap.push(
                        TraverseState {
                            cost_ct_to_ns: s.cost_ct_to_ne,
                            cost_ct_to_ne: cost_next,
                            cost_pt_to_ne: prev_cost,
                            centroid_ct_in_ns: ct,
                            centroid_pt_in_ne: existing,
                            start_node_id: end,
                            end_node_id: node,
                            smallest_k,
                            edge: simple,
                        },
                    );
                }
            },
            None => {
                self.cost_map.insert(node, (ct, cost_next));
                let smallest_k = self.k_of_object(ct);
                self.min_heap.push(
                    TraverseState {
                        cost_ct_to_ns: s.cost_ct_to_ne,
                        cost_ct_to_ne: cost_next,
                        cost_pt_to_ne: 0,
                        centroid_ct_in_ns: ct,
                        centroid_pt_in_ne: NO_CENTROID,
                        start_node_id: end,
                        end_node_id: node,
                        smallest_k: (smallest_k, Position::Start),
                        edge: simple,
                    },
                );
            },
        }
        proof {
            assert forall|j: int| 0 <= j < self.min_heap@.len() implies carries_edge(
                self.graph(),
                #[trigger] self.min_heap@[j],
            ) by {
                if j < queue_before.len() {
                    assert(self.min_heap@[j] == queue_before[j]);
                }
            }
        }
    }

    /// One step of the traversal.
    pub fn pop(&mut self) -> (out: Popped)
        requires
            old(self).wf(),
        ensures
            final(self).wf(),
            final(self).graph() == old(self).graph(),
            (out, final(self)@) == popped(old(self)@, old(self).graph()),
            out is Exhausted <==> old(self)@.queue.len() == 0,
            !(out is Exhausted) ==> progress(old(self)@, final(self)@, old(self).graph()),
            out matches Popped::Visit(s) ==> carries_edge(old(self).graph(), s) && s.start_node_id
                != s.end_node_id && s.cost_ct_to_ns <= search_bound(
                old(self).graph().spec_config().max_dist,
            ) && !old(self)@.visited.contains(s.edge.unwrap().id) && final(self)@.visited.contains(
                s.edge.unwrap().id,
            ),
            out matches Popped::Visit(s) ==> forall|i: int|
                0 <= i < old(self)@.queue.len() ==> s.cost_ct_to_ne <= (
                #[trigger] old(self)@.queue[i]).cost_ct_to_ne,
    {
        let ghost before = self@;
        proof {
            if before.queue.len() > 0 {
                lemma_min_index(before.queue);
            }
        }
        let taken = pop_min(&mut self.min_heap);
        let raw = match taken {
            None => {
                return Popped::Exhausted;
            },
            Some(raw) => raw,
        };
        let ghost rest = self@;
        proof {
            assert(raw == before.queue[min_index(before.queue)]);
            assert(carries_edge(self.graph(), raw));
            assert forall|i: int| 0 <= i < rest.queue.len() implies carries_edge(
                self.graph(),
                #[trigger] rest.queue[i],
            ) by {
                if i < min_index(before.queue) {
                    assert(rest.queue[i] == before.queue[i]);
                } else {
                    assert(rest.queue[i] == before.queue[i + 1]);
                }
            }
        }
        let mut state = raw;
        match self.cost_map.get(&raw.end_node_id) {
            Some(entry) => {
                state.centroid_pt_in_ne = entry.0;
                state.cost_pt_to_ne = entry.1;
            },
            None => {},
        }
        assert(state == refreshed(raw, before.costs));
        let bound = add_cost(self.max_dist, self.max_dist);
        if raw.cost_ct_to_ns > bound {
            return Popped::Skipped;
        }
        let edge_id = match self.graph.edge_id(raw.start_node_id, raw.end_node_id) {
            Some(id) => id,
            None => {
                assert(false);
                return Popped::Skipped;
            },
        };
        if self.visited.contains(&edge_id) {
            return Popped::Skipped;
        }
        self.visited.insert(edge_id);
        proof {
            self.graph().lemma_edge_between(raw.start_node_id, raw.end_node_id);
        }
        // The level of the crossed edge.
        let max_dim = self.graph.config().max_dim;
        if raw.start_node_id != raw.end_node_id {
            match raw.edge {
                Some(e) => {
                    let k_curr = self.k_of_object(raw.centroid_ct_in_ns);
                    let k_prev = self.k_of_object(raw.centroid_pt_in_ne);
                    let curr = as_object_id(raw.centroid_ct_in_ns);
                    let prev = as_object_id(raw.centroid_pt_in_ne);
                    if prev == NO_CENTROID || k_curr < k_prev {
                        self.map_centroid_edge_id.insert(e.id, (curr, k_curr));
                    } else {
                        self.map_centroid_edge_id.insert(e.id, (prev, k_prev));
                    }
                },
                None => {},
            }
        }
        // The reserve.
        if state.start_node_id != state.end_node_id && state.centroid_ct_in_ns
            != state.centroid_pt_in_ne && state.smallest_k.0 > self.current_k {
            if state.centroid_pt_in_ne == NO_CENTROID || self.k_of_object(state.centroid_ct_in_ns)
                < max_dim || self.k_of_object(state.centroid_pt_in_ne) < max_dim {
                let ghost reserve_before = self.min_heap_reserve@;
                self.min_heap_reserve.push(state);
                proof {
                    assert forall|j: int| 0 <= j < self.min_heap_reserve@.len()
                        implies carries_edge(
                        self.graph(),
                        #[trigger] self.min_heap_reserve@[j],
                    ) by {
                        if j < reserve_before.len() {
                            assert(self.min_heap_reserve@[j] == reserve_before[j]);
                        }
                    }
                }
            }
        }
        let ghost opened = self@;
        let around = self.graph.neighbors(raw.end_node_id);
        let mut i: usize = 0;
        while i < around.len()
            invariant
                i <= around.len(),
                self.wf(),
                self.graph() == old(self).graph(),
                around@ == self.graph().neighbors_of(raw.end_node_id),
                self@.visited == opened.visited,
                self@.queue.len() >= opened.queue.len(),
                self@ == relaxed_all(opened, self.graph(), raw, around@.take(i as int)),
            decreases around.len() - i,
        {
            proof {
                assert(around@.take(i + 1).drop_last() =~= around@.take(i as int));
                assert(around@.take(i + 1).last() == around@[i as int]);
                assert(self.graph().neighbors_of(raw.end_node_id).contains(around@[i as int]));
            }
            self.relax(&raw, around[i]);
            i += 1;
        }
        proof {
            assert(around@.take(i as int) =~= around@);
            assert(self.graph().edge_table().contains_key(edge_id));
        }
        if state.start_node_id != state.end_node_id {
            Popped::Visit(state)
        } else {
            Popped::Skipped
        }
    }

    /// Hands out the next state of the traversal: steps until a step hands a
    /// state out or nothing waits any more. There is none where nothing
    /// waits: the pass is over.
    pub fn next(&mut self) -> (visit: Option<TraverseState>)
        requires
            old(self).wf(),
        ensures
            final(self).wf(),
            final(self).graph() == old(self).graph(),
            exists|n: nat| #[trigger]
                reached(old(self)@, old(self).graph(), n, outcome(visit), final(self)@),
            visit.is_none() ==> final(self)@.queue.len() == 0,
            visit.is_some() ==> closer(old(self)@, final(self)@, old(self).graph()),
            visit matches Some(s) ==> carries_edge(old(self).graph(), s) && s.start_node_id
                != s.end_node_id && s.cost_ct_to_ns <= search_bound(
                old(self).graph().spec_config().max_dist,
            ) && final(self)@.visited.contains(s.edge.unwrap().id),
    {
        let ghost first = self@;
        let ghost mut n: nat = 0;
        proof {
            self.graph().lemma_edge_table_finite();
        }
        loop
            invariant
                self.wf(),
                self.graph() == old(self).graph(),
                first == old(self)@,
                self.graph().edge_table().dom().finite(),
                self@ == after_steps(first, self.graph(), n),
                n == 0 ==> self@ == first,
                n > 0 ==> closer(first, self@, self.graph()),
                forall|j: nat|
                    j < n ==> popped(#[trigger] after_steps(first, self.graph(), j),
                        self.graph()).0 is Skipped,
            decreases uncrossed(self.graph(), self@.visited).len(), self@.queue.len(),
        {
            let ghost before = self@;
            let out = self.pop();
            proof {
                assert(after_steps(first, self.graph(), n + 1) == popped(
                    after_steps(first, self.graph(), n),
                    self.graph(),
                ).1);
                if !(out is Exhausted) {
                    if self@.visited != before.visited {
                        let id = choose|id: EdgeId|
                            self.graph().edge_table().contains_key(id) && !before.visited.contains(
                                id,
                            ) && self@.visited == before.visited.insert(id);
                        assert(uncrossed(self.graph(), self@.visited) =~= uncrossed(
                            self.graph(),
                            before.visited,
                        ).remove(id));
                        assert(uncrossed(self.graph(), before.visited).contains(id));
                    }
                    assert(closer(before, self@, self.graph()));
                    assert(closer(first, self@, self.graph()));
                }
            }
            match out {
                Popped::Exhausted => {
                    proof {
                        assert(reached(first, self.graph(), n, Popped::Exhausted, self@));
                    }
                    return None;
                },
                Popped::Visit(s) => {
                    proof {
                        assert(reached(first, self.graph(), n, Popped::Visit(s), self@));
                    }
                    return Some(s);
                },
                Popped::Skipped => {
                    proof {
                        n = n + 1;
                    }
                },
            }
        }
    }

    /// Replays the reserve: every reserved state whose level is not above
    /// the active one re-enters the queue, after the states that wait
    /// there, and the owner of the node it ends at is forgotten.
    pub fn pop_min_heap_reserve(&mut self)
        requires
            old(self).wf(),
        ensures
            final(self).wf(),
            final(self).graph() == old(self).graph(),
            final(self)@ == replay(old(self)@),
    {
        let mut waiting: Vec<TraverseState> = Vec::new();
        std::mem::swap(&mut waiting, &mut self.min_heap_reserve);
        let ghost emptied = self@;
        assert(emptied == (VoronoiModel { reserve: Seq::empty(), ..old(self)@ })) by {
            assert(emptied.reserve =~= Seq::empty());
        }
        let mut i: usize = 0;
        while i < waiting.len()
            invariant
                i <= waiting.len(),
                self.wf(),
                self.graph() == old(self).graph(),
                all_carry(self.graph(), waiting@),
                self@ == replay_all(emptied, waiting@.take(i as int)),
            decreases waiting.len() - i,
        {
            let t = waiting[i];
            proof {
                assert(waiting@.take(i + 1).drop_last() =~= waiting@.take(i as int));
                assert(waiting@.take(i + 1).last() == t);
                assert(carries_edge(self.graph(), waiting@[i as int]));
                lemma_replayed_carries(self.graph(), t);
            }
            if t.smallest_k.0 <= self.current_k {
                let ghost queue_before = self.min_heap@;
                match t.smallest_k.1 {
                    Position::Start => {
                        self.cost_map.remove(&t.end_node_id);
                        let mut again = t;
                        again.centroid_pt_in_ne = t.centroid_ct_in_ns;
                        again.cost_pt_to_ne = t.cost_ct_to_ne;
                        self.min_heap.push(again);
                    },
                    Position::End => {
                        self.cost_map.remove(&t.start_node_id);
                        let len = match t.edge {
                            Some(e) => e.len,
                            None => 0,
                        };
                        self.min_heap.push(
                            TraverseState {
                                cost_ct_to_ns: t.cost_pt_to_ne,
                                cost_ct_to_ne: add_cost(t.cost_pt_to_ne, len),
                                cost_pt_to_ne: add_cost(t.cost_pt_to_ne, len),
                                centroid_ct_in_ns: t.centroid_pt_in_ne,
                                centroid_pt_in_ne: t.centroid_pt_in_ne,
                                start_node_id: t.end_node_id,
                                end_node_id: t.start_node_id,
                                smallest_k: t.smallest_k,
                                edge: t.edge,
                            },
                        );
                    },
                }
                proof {
                    assert forall|j: int| 0 <= j < self.min_heap@.len() implies carries_edge(
                        self.graph(),
                        #[trigger] self.min_heap@[j],
                    ) by {
                        if j < queue_before.len() {
                            assert(self.min_heap@[j] == queue_before[j]);
                        }
                    }
                }
            } else {
                let ghost reserve_before = self.min_heap_reserve@;
                self.min_heap_reserve.push(t);
                proof {
                    assert forall|j: int| 0 <= j < self.min_heap_reserve@.len()
                        implies carries_edge(
                        self.graph(),
                        #[trigger] self.min_heap_reserve@[j],
                    ) by {
                        if j < reserve_before.len() {
                            assert(self.min_heap_reserve@[j] == reserve_before[j]);
                        }
                    }
                }
            }
            i += 1;
        }
        proof {
            assert(waiting@.take(i as int) =~= waiting@);
        }
    }

    /// Continues the traversal at level `k`: the active level becomes `k`,
    /// no edge counts as crossed any more, and the reserve is replayed. A
    /// level that is not above the active one is refused, and nothing
    /// changes.
    pub fn continue_with(&mut self, k: K) -> (r: Result<(), Error>)
        requires
            old(self).wf(),
        ensures
            final(self).wf(),
            final(self).graph() == old(self).graph(),
            r == (if k > old(self)@.current_k {
                Ok::<(), Error>(())
            } else {
                Err::<(), Error>(Error::StateError)
            }),
            final(self)@ == (if r.is_ok() {
                continued(old(self)@, k)
            } else {
                old(self)@
            }),
    {
        if k <= self.current_k {
            return Err(Error::StateError);
        }
        self.set_k(k);
        self.clear_visited();
        self.pop_min_heap_reserve();
        Ok(())
    }

    /// The chains that edges of the graph were cut into: for each such
    /// edge, the ids of its mini-edges, first to last.
    pub fn map_new_edge(&self) -> (list: Vec<(EdgeId, Vec<EdgeId>)>)
        ensures
            crate::records::recorded(list@) == self.graph().new_edges(),
    {
        self.graph.map_new_edge()
    }

    /// The length of the edge with id `edge_id`, zero for an edge that the
    /// graph does not have.
    pub fn edge_length(&self, edge_id: EdgeId) -> (len: Length)
        ensures
            len == (if self.graph().edge_table().contains_key(edge_id) {
                self.graph().edge_table()[edge_id].len
            } else {
                0
            }),
    {
        match self.graph.edge_by_edge_id(edge_id) {
            Ok(e) => e.len,
            Err(_) => 0,
        }
    }

    /// Marks the first pass as over.
    pub fn set_initialized(&mut self)
        ensures
            final(self)@ == (VoronoiModel { is_initial: false, ..old(self)@ }),
            final(self).graph() == old(self).graph(),
            old(self).wf() ==> final(self).wf(),
    {
        self.is_initial = false;
    }

    /// Makes `k` the active level.
    pub fn set_k(&mut self, k: K)
        ensures
            final(self)@ == (VoronoiModel { current_k: k, ..old(self)@ }),
            final(self).graph() == old(self).graph(),
            old(self).wf() ==> final(self).wf(),
    {
        self.current_k = k;
    }

    /// The active level.
    pub fn current_k(&self) -> (k: K)
        ensures
            k == self@.current_k,
    {
        self.current_k
    }

    /// Forgets which edges were crossed.
    pub fn clear_visited(&mut self)
        ensures
            final(self)@ == (VoronoiModel { visited: Set::empty(), ..old(self)@ }),
            final(self).graph() == old(self).graph(),
            old(self).wf() ==> final(self).wf(),
    {
        self.visited = HashSet::new();
        proof {
            assert(self@.visited =~= Set::empty());
        }
    }

    /// Whether `edge_id` is the id of an edge of the data set, and not of a
    /// mini-edge.
    pub fn is_original_edge(&self, edge_id: EdgeId) -> (yes: bool)
        ensures
            yes == (edge_id <= ID_LIMIT),
    {
        edge_id <= ID_LIMIT
    }

    /// Forgets the owner and the cost of `node_id`.
    pub fn remove_cost(&mut self, node_id: NodeId)
        ensures
            final(self)@ == (VoronoiModel {
                costs: old(self)@.costs.remove(node_id),
                ..old(self)@
            }),
            final(self).graph() == old(self).graph(),
            old(self).wf() ==> final(self).wf(),
    {
        self.cost_map.remove(&node_id);
    }
}

} // verus!
