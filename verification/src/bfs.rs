//! The bounded shortest-path traversal: a search from one node that hands
//! out the visited edges in ascending order of cost and stops at twice the
//! configured distance.

use crate::geometry::{add_cost, cost_sum};
use crate::graph::Graph;
use crate::queue::{lemma_min_index, min_index, pop_min, Priced};
use crate::types::{Error, Length, NodeId};
use std::collections::HashMap;
use vstd::prelude::*;

verus! {

broadcast use vstd::std_specs::hash::group_hash_axioms;

/// A visit: the node reached, the node it was reached from, and the cost
/// of the way to it.
#[derive(Clone, Copy, Debug, PartialEq, Eq, Structural)]
pub struct TraverseState {
    pub cost: Length,
    pub node_id: NodeId,
    pub prev_node_id: NodeId,
}

impl Priced for TraverseState {
    open spec fn price(&self) -> Length {
        self.cost
    }

    fn priced(&self) -> (p: Length) {
        self.cost
    }
}

/// What a traversal holds, as mathematics: the visits that wait, in the
/// order in which they were queued, and the best cost known for each node
/// that was reached.
pub struct BfsModel {
    pub queue: Seq<TraverseState>,
    pub costs: Map<NodeId, Length>,
}

/// The best cost known for `n`: the largest length where none is known.
pub open spec fn known_cost(costs: Map<NodeId, Length>, n: NodeId) -> Length {
    if costs.contains_key(n) {
        costs[n]
    } else {
        Length::MAX
    }
}

/// The cost at which the search stops: twice the configured distance.
pub open spec fn search_bound(max_dist: Length) -> Length {
    cost_sum(max_dist, max_dist)
}

/// The length of the edge between `a` and `b`, zero where there is none.
pub open spec fn edge_length(graph: &Graph, a: NodeId, b: NodeId) -> Length {
    match graph.edge_between(a, b) {
        Some(e) => e.len,
        None => 0,
    }
}

/// The model after the edge from the start node to its neighbour `node` was
/// queued.
pub open spec fn seeded(m: BfsModel, graph: &Graph, start: NodeId, node: NodeId) -> BfsModel {
    let cost = edge_length(graph, start, node);
    BfsModel {
        queue: m.queue.push(TraverseState { cost, node_id: node, prev_node_id: start }),
        costs: m.costs.insert(node, cost),
    }
}

/// The model after the edges from the start node to each of `nodes` were
/// queued, first to last.
pub open spec fn seeded_all(m: BfsModel, graph: &Graph, start: NodeId, nodes: Seq<NodeId>) ->
    BfsModel
    decreases nodes.len(),
{
    if nodes.len() == 0 {
        m
    } else {
        seeded(seeded_all(m, graph, start, nodes.drop_last()), graph, start, nodes.last())
    }
}

/// The model of a traversal that starts at `start`: the start node at cost
/// zero, and the edge to each of its neighbours queued.
pub open spec fn initial(graph: &Graph, start: NodeId) -> BfsModel {
    seeded_all(
        BfsModel { queue: Seq::empty(), costs: Map::empty().insert(start, 0) },
        graph,
        start,
        graph.neighbors_of(start),
    )
}

/// The model after the way over `from` to its neighbour `node` was tried:
/// it is queued and becomes the best cost of `node` where it is cheaper
/// than what is known for `node` and below `bound`.
pub open spec fn relaxed(
    m: BfsModel,
    graph: &Graph,
    bound: Length,
    from: TraverseState,
    node: NodeId,
) -> BfsModel {
    let cost = cost_sum(from.cost, edge_length(graph, node, from.node_id));
    if cost < known_cost(m.costs, node) && cost < bound {
        BfsModel {
            queue: m.queue.push(
                TraverseState { cost, node_id: node, prev_node_id: from.node_id },
            ),
            costs: m.costs.insert(node, cost),
        }
    } else {
        m
    }
}

/// The model after the ways over `from` to each of `nodes` were tried,
/// first to last.
pub open spec fn relaxed_all(
    m: BfsModel,
    graph: &Graph,
    bound: Length,
    from: TraverseState,
    nodes: Seq<NodeId>,
) -> BfsModel
    decreases nodes.len(),
{
    if nodes.len() == 0 {
        m
    } else {
        relaxed(
            relaxed_all(m, graph, bound, from, nodes.drop_last()),
            graph,
            bound,
            from,
            nodes.last(),
        )
    }
}

/// The model after one visit was handed out: the cheapest waiting visit
/// leaves the queue, and the ways over it to the neighbours of its node
/// are tried.
pub open spec fn stepped(m: BfsModel, graph: &Graph, bound: Length) -> BfsModel {
    let from = m.queue[min_index(m.queue)];
    relaxed_all(
        BfsModel { queue: m.queue.remove(min_index(m.queue)), costs: m.costs },
        graph,
        bound,
        from,
        graph.neighbors_of(from.node_id),
    )
}

/// The sum of the best costs known for the nodes of `nodes`: what a
/// traversal has left to improve.
pub open spec fn potential(costs: Map<NodeId, Length>, nodes: Seq<NodeId>) -> int
    decreases nodes.len(),
{
    if nodes.len() == 0 {
        0
    } else {
        potential(costs, nodes.drop_last()) + known_cost(costs, nodes.last())
    }
}

/// No node has a higher known cost in `after` than in `before`.
pub open spec fn lowered(before: Map<NodeId, Length>, after: Map<NodeId, Length>) -> bool {
    forall|n: NodeId| known_cost(after, n) <= #[trigger] known_cost(before, n)
}

/// A step took a visit out of the queue and left the costs as they were,
/// or it lowered the known cost of a node of the graph.
pub open spec fn advanced(before: BfsModel, after: BfsModel, graph: &Graph) -> bool {
    &&& lowered(before.costs, after.costs)
    &&& (after.costs == before.costs && after.queue.len() + 1 == before.queue.len()
        || exists|n: NodeId|
        graph.adjacency().contains_key(n) && known_cost(after.costs, n) < known_cost(
            before.costs,
            n,
        ))
}

/// Where no known cost went up, the potential did not go up.
pub proof fn lemma_potential_lowered(
    before: Map<NodeId, Length>,
    after: Map<NodeId, Length>,
    nodes: Seq<NodeId>,
)
    requires
        lowered(before, after),
    ensures
        potential(after, nodes) <= potential(before, nodes),
    decreases nodes.len(),
{
    if nodes.len() > 0 {
        lemma_potential_lowered(before, after, nodes.drop_last());
        assert(known_cost(after, nodes.last()) <= known_cost(before, nodes.last()));
    }
}

/// Where no known cost went up and that of a node of `nodes` went down,
/// the potential went down.
pub proof fn lemma_potential_strict(
    before: Map<NodeId, Length>,
    after: Map<NodeId, Length>,
    nodes: Seq<NodeId>,
    n: NodeId,
)
    requires
        lowered(before, after),
        nodes.contains(n),
        known_cost(after, n) < known_cost(before, n),
    ensures
        potential(after, nodes) < potential(before, nodes),
    decreases nodes.len(),
{
    if nodes.len() > 0 {
        let front = nodes.drop_last();
        lemma_potential_lowered(before, after, front);
        assert(known_cost(after, nodes.last()) <= known_cost(before, nodes.last()));
        if nodes.last() != n {
            let i = choose|i: int| 0 <= i < nodes.len() && nodes[i] == n;
            assert(front[i] == n);
            lemma_potential_strict(before, after, front, n);
        }
    }
}

/// The potential is not negative.
pub proof fn lemma_potential_bounds(costs: Map<NodeId, Length>, nodes: Seq<NodeId>)
    ensures
        0 <= potential(costs, nodes),
    decreases nodes.len(),
{
    if nodes.len() > 0 {
        lemma_potential_bounds(costs, nodes.drop_last());
    }
}

/// The model after `n` steps.
pub open spec fn after_steps(m: BfsModel, graph: &Graph, bound: Length, n: nat) -> BfsModel
    decreases n,
{
    if n == 0 {
        m
    } else {
        stepped(after_steps(m, graph, bound, (n - 1) as nat), graph, bound)
    }
}

/// The visit that step `n + 1` hands out.
pub open spec fn visit_at(m: BfsModel, graph: &Graph, bound: Length, n: nat) -> TraverseState {
    let at = after_steps(m, graph, bound, n);
    at.queue[min_index(at.queue)]
}

/// No waiting visit is cheaper than `floor`.
pub open spec fn none_below(queue: Seq<TraverseState>, floor: Length) -> bool {
    forall|i: int| 0 <= i < queue.len() ==> floor <= (#[trigger] queue[i]).cost
}

/// The ways that are tried over a visit cost no less than the visit.
pub proof fn lemma_relaxed_all_floor(
    m: BfsModel,
    graph: &Graph,
    bound: Length,
    from: TraverseState,
    nodes: Seq<NodeId>,
)
    requires
        none_below(m.queue, from.cost),
    ensures
        none_below(relaxed_all(m, graph, bound, from, nodes).queue, from.cost),
    decreases nodes.len(),
{
    if nodes.len() > 0 {
        lemma_relaxed_all_floor(m, graph, bound, from, nodes.drop_last());
        let before = relaxed_all(m, graph, bound, from, nodes.drop_last());
        let after = relaxed(before, graph, bound, from, nodes.last());
        assert forall|i: int| 0 <= i < after.queue.len() implies from.cost <= (
        #[trigger] after.queue[i]).cost by {
            if i < before.queue.len() {
                assert(after.queue[i] == before.queue[i]);
            }
        }
    }
}

/// The visits are handed out in ascending order of cost: no visit is
/// cheaper than the visit before it.
pub proof fn lemma_visits_ascend(m: BfsModel, graph: &Graph, bound: Length, n: nat)
    requires
        after_steps(m, graph, bound, n).queue.len() > 0,
        after_steps(m, graph, bound, n + 1).queue.len() > 0,
    ensures
        visit_at(m, graph, bound, n).cost <= visit_at(m, graph, bound, n + 1).cost,
{
    let now = after_steps(m, graph, bound, n);
    let from = now.queue[min_index(now.queue)];
    lemma_min_index(now.queue);
    let rest = BfsModel { queue: now.queue.remove(min_index(now.queue)), costs: now.costs };
    assert forall|i: int| 0 <= i < rest.queue.len() implies from.cost <= (
    #[trigger] rest.queue[i]).cost by {
        if i < min_index(now.queue) {
            assert(rest.queue[i] == now.queue[i]);
        } else {
            assert(rest.queue[i] == now.queue[i + 1]);
        }
    }
    lemma_relaxed_all_floor(rest, graph, bound, from, graph.neighbors_of(from.node_id));
    let next = after_steps(m, graph, bound, n + 1);
    assert(next == stepped(now, graph, bound));
    lemma_min_index(next.queue);
}

/// Every waiting visit goes over an edge of the graph.
pub open spec fn on_edges(queue: Seq<TraverseState>, graph: &Graph) -> bool {
    forall|i: int|
        0 <= i < queue.len() ==> graph.neighbors_of((#[trigger] queue[i]).prev_node_id).contains(
            queue[i].node_id,
        )
}

/// The bounded shortest-path traversal.
pub struct BfsMinHeap<'a> {
    graph: &'a Graph,
    max_dist: Length,
    min_heap: Vec<TraverseState>,
    cost_map: HashMap<NodeId, Length>,
}

impl<'a> View for BfsMinHeap<'a> {
    type V = BfsModel;

    closed spec fn view(&self) -> BfsModel {
        BfsModel { queue: self.min_heap@, costs: self.cost_map@ }
    }
}

impl<'a> BfsMinHeap<'a> {
    /// The graph that is searched.
    pub closed spec fn graph(&self) -> &Graph {
        self.graph
    }

    /// The cost at which the search stops.
    pub closed spec fn bound(&self) -> Length {
        search_bound(self.max_dist)
    }

    /// The graph is in order, and every waiting visit goes over one of its
    /// edges.
    pub open spec fn wf(&self) -> bool {
        self.graph().wf() && on_edges(self@.queue, self.graph())
    }

    /// A traversal of `graph` from `start`: the start node has cost zero,
    /// and the edge to each of its neighbours waits at the cost of its
    /// length. A node that the graph does not have is refused.
    pub fn new(graph: &'a Graph, start: NodeId) -> (r: Result<BfsMinHeap<'a>, Error>)
        requires
            graph.wf(),
        ensures
            match r {
                Ok(bfs) => {
                    &&& graph.adjacency().contains_key(start)
                    &&& bfs.wf()
                    &&& bfs.graph() == graph
                    &&& bfs.bound() == search_bound(graph.spec_config().max_dist)
                    &&& bfs@ == initial(graph, start)
                },
                Err(e) => !graph.adjacency().contains_key(start) && e == Error::NotFound,
            },
    {
        if !graph.has_node(start) {
            return Err(Error::NotFound);
        }
        let max_dist = graph.config().max_dist;
        let mut cost_map: HashMap<NodeId, Length> = HashMap::new();
        cost_map.insert(start, 0);
        let mut min_heap: Vec<TraverseState> = Vec::new();
        let around = graph.neighbors(start);
        let ghost first = BfsModel { queue: Seq::empty(), costs: Map::empty().insert(start, 0) };
        let mut i: usize = 0;
        while i < around.len()
            invariant
                i <= around.len(),
                graph.wf(),
                around@ == graph.neighbors_of(start),
                on_edges(min_heap@, graph),
                (BfsModel { queue: min_heap@, costs: cost_map@ }) == seeded_all(
                    first,
                    graph,
                    start,
                    around@.take(i as int),
                ),
            decreases around.len() - i,
        {
            let node_id = around[i];
            proof {
                assert(around@.take(i + 1).drop_last() =~= around@.take(i as int));
                assert(around@.take(i + 1).last() == node_id);
                assert(graph.neighbors_of(start).contains(around@[i as int]));
            }
            let cost = length_between(graph, start, node_id);
            min_heap.push(TraverseState { prev_node_id: start, node_id, cost });
            cost_map.insert(node_id, cost);
            i += 1;
        }
        proof {
            assert(around@.take(i as int) =~= around@);
        }
        Ok(BfsMinHeap { graph, max_dist, min_heap, cost_map })
    }

    /// Hands out the cheapest waiting visit, the first of them where several
    /// cost the same, and tries the ways over it to the neighbours of its
    /// node. There is none where nothing waits: the traversal is over.
    pub fn next(&mut self) -> (visit: Option<TraverseState>)
        requires
            old(self).wf(),
        ensures
            final(self).wf(),
            final(self).graph() == old(self).graph(),
            final(self).bound() == old(self).bound(),
            old(self)@.queue.len() == 0 ==> visit.is_none() && final(self)@ == old(self)@,
            old(self)@.queue.len() > 0 ==> {
                &&& visit == Some(old(self)@.queue[min_index(old(self)@.queue)])
                &&& final(self)@ == stepped(old(self)@, old(self).graph(), old(self).bound())
                &&& forall|i: int|
                    0 <= i < old(self)@.queue.len() ==> visit.unwrap().cost <= (
                    #[trigger] old(self)@.queue[i]).cost
                &&& old(self).graph().neighbors_of(visit.unwrap().prev_node_id).contains(
                    visit.unwrap().node_id,
                )
                &&& advanced(old(self)@, final(self)@, old(self).graph())
            },
    {
        proof {
            if self@.queue.len() > 0 {
                lemma_min_index(self@.queue);
            }
        }
        let ghost before = self@;
        let taken = pop_min(&mut self.min_heap);
        match taken {
            None => None,
            Some(state) => {
                let bound = add_cost(self.max_dist, self.max_dist);
                let around = self.graph.neighbors(state.node_id);
                let ghost popped = BfsModel {
                    queue: before.queue.remove(min_index(before.queue)),
                    costs: before.costs,
                };
                proof {
                    assert forall|i: int| 0 <= i < popped.queue.len()
                        implies self.graph().neighbors_of(
                        (#[trigger] popped.queue[i]).prev_node_id,
                    ).contains(popped.queue[i].node_id) by {
                        if i < min_index(before.queue) {
                            assert(popped.queue[i] == before.queue[i]);
                        } else {
                            assert(popped.queue[i] == before.queue[i + 1]);
                        }
                    }
                }
                let mut i: usize = 0;
                while i < around.len()
                    invariant
                        i <= around.len(),
                        self.graph().wf(),
                        self.graph() == old(self).graph(),
                        self.max_dist == old(self).max_dist,
                        bound == search_bound(self.max_dist),
                        around@ == self.graph().neighbors_of(state.node_id),
                        on_edges(self@.queue, self.graph()),
                        popped.costs == before.costs,
                        popped.queue.len() + 1 == before.queue.len(),
                        lowered(popped.costs, self@.costs),
                        self@.costs == popped.costs && self@.queue.len() == popped.queue.len()
                            || exists|n: NodeId|
                            self.graph().adjacency().contains_key(n) && known_cost(self@.costs, n)
                                < known_cost(popped.costs, n),
                        self@ == relaxed_all(
                            popped,
                            self.graph(),
                            bound,
                            state,
                            around@.take(i as int),
                        ),
                    decreases around.len() - i,
                {
                    let node_id = around[i];
                    proof {
                        assert(around@.take(i + 1).drop_last() =~= around@.take(i as int));
                        assert(around@.take(i + 1).last() == node_id);
                        assert(self.graph().neighbors_of(state.node_id).contains(
                            around@[i as int],
                        ));
                    }
                    let cost_next = add_cost(
                        state.cost,
                        length_between(self.graph, node_id, state.node_id),
                    );
                    let prev_cost = match self.cost_map.get(&node_id) {
                        Some(c) => *c,
                        None => Length::MAX,
                    };
                    let ghost costs_before = self@.costs;
                    if cost_next < prev_cost && cost_next < bound {
                        proof {
                            self.graph().lemma_neighbor_edge(state.node_id, node_id);
                            self.graph().lemma_edge_ends(state.node_id, node_id);
                            assert(known_cost(costs_before, node_id) <= known_cost(
                                popped.costs,
                                node_id,
                            ));
                        }
                        self.min_heap.push(
                            TraverseState {
                                prev_node_id: state.node_id,
                                node_id,
                                cost: cost_next,
                            },
                        );
                        self.cost_map.insert(node_id, cost_next);
                        proof {
                            assert forall|n: NodeId| known_cost(self@.costs,
                                n) <= #[trigger] known_cost(
                                popped.costs,
                                n,
                            ) by {
                                assert(known_cost(costs_before, n) <= known_cost(popped.costs, n));
                            }
                            assert(known_cost(self@.costs, node_id) < known_cost(
                                popped.costs,
                                node_id,
                            ));
                        }
                    }
                    i += 1;
                }
                proof {
                    assert(around@.take(i as int) =~= around@);
                }
                Some(state)
            },
        }
    }

    /// The number of visits that wait.
    pub fn waiting(&self) -> (n: usize)
        ensures
            n == self@.queue.len(),
    {
        self.min_heap.len()
    }

    /// The best cost known for `node`, if the node was reached.
    pub fn cost_of(&self, node: NodeId) -> (cost: Option<Length>)
        ensures
            cost == (if self@.costs.contains_key(node) {
                Some(self@.costs[node])
            } else {
                None
            }),
    {
        match self.cost_map.get(&node) {
            Some(c) => Some(*c),
            None => None,
        }
    }
}

/// The length of the edge between `a` and `b`, zero where there is none.
pub fn length_between(graph: &Graph, a: NodeId, b: NodeId) -> (len: Length)
    requires
        graph.wf(),
    ensures
        len == edge_length(graph, a, b),
{
    match graph.edge(a, b) {
        Some(e) => e.len,
        None => 0,
    }
}

} // verus!
