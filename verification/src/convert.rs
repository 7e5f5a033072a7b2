//! Objects as nodes: an edge is cut into a chain of mini-edges, one node
//! for each object, so that a traversal can start from the objects.

use crate::edge::{between, lies_between, EdgeView};
use crate::geometry::{distance, interpolate, lemma_relative_position, point_between};
use crate::graph::{valid_object, valid_objects, Graph};
use crate::records::{
    add_item, distinct_keys, lemma_with_item_keys, record_index, recorded, with_item,
    with_record,
};
use crate::types::{lemma_views_push, lemma_views_take, object_views, AppConfig, DataNode,
    DataObject, EdgeId, Error, Length, NodeId, ObjectId, ObjectView, EDGE_AFTER_OFFSET,
        EDGE_BEFORE_OFFSET, ID_LIMIT, NODE_OFFSET, POSITION_SCALE};
use vstd::prelude::*;

verus! {

/// The place of an object at position `dist` in a list that is in order of
/// position: the index of the first object beyond `dist`, or the length of
/// the list.
pub open spec fn slot_for(sorted: Seq<ObjectView>, dist: u64) -> int
    decreases sorted.len(),
{
    if sorted.len() == 0 {
        0
    } else if sorted[0].dist > dist {
        0
    } else {
        1 + slot_for(sorted.drop_first(), dist)
    }
}

/// The objects of `list` in order of position; objects at the same
/// position keep their order.
pub open spec fn by_position(list: Seq<ObjectView>) -> Seq<ObjectView>
    decreases list.len(),
{
    if list.len() == 0 {
        list
    } else {
        let front = by_position(list.drop_last());
        front.insert(slot_for(front, list.last().dist), list.last())
    }
}

/// An object that can become a node: an id that is not zero and below the
/// limit, and a position on the edge.
pub open spec fn in_range(o: ObjectView) -> bool {
    0 < o.id < ID_LIMIT && o.dist <= POSITION_SCALE
}

/// Every object of `list` can become a node.
pub open spec fn all_in_range(list: Seq<ObjectView>) -> bool {
    forall|i: int| 0 <= i < list.len() ==> in_range(#[trigger] list[i])
}

/// No two objects of `list` have the same id.
pub open spec fn distinct_ids(list: Seq<ObjectView>) -> bool {
    forall|i: int, j: int| 0 <= i < j < list.len() ==> list[i].id != list[j].id
}

/// The ids that the node and the mini-edges of object `id` would get are
/// not in use.
pub open spec fn unused(g: &Graph, id: ObjectId) -> bool {
    &&& !g.adjacency().contains_key((id + NODE_OFFSET) as u32)
    &&& !g.node_table().contains_key((id + NODE_OFFSET) as u32)
    &&& !g.edge_table().contains_key((id + EDGE_BEFORE_OFFSET) as u32)
    &&& !g.edge_table().contains_key((id + EDGE_AFTER_OFFSET) as u32)
}

/// The ids for the nodes and mini-edges of the objects of `list` are not
/// in use.
pub open spec fn all_unused(g: &Graph, list: Seq<ObjectView>) -> bool {
    forall|i: int| 0 <= i < list.len() ==> unused(g, (#[trigger] list[i]).id)
}

/// The ids of the nodes that the objects of `sorted` become.
pub open spec fn chain_nodes(sorted: Seq<ObjectView>) -> Seq<NodeId> {
    Seq::new(sorted.len(), |i: int| (sorted[i].id + NODE_OFFSET) as u32)
}

/// The ids of the mini-edges of the chain through the objects of `sorted`:
/// for each object the mini-edge that ends at its node, and the mini-edge
/// that leaves the last node.
pub open spec fn chain_edges(sorted: Seq<ObjectView>) -> Seq<EdgeId> {
    if sorted.len() == 0 {
        Seq::empty()
    } else {
        Seq::new(
            sorted.len() + 1,
            |i: int|
                if i < sorted.len() {
                    (sorted[i].id + EDGE_BEFORE_OFFSET) as u32
                } else {
                    (sorted[sorted.len() - 1].id + EDGE_AFTER_OFFSET) as u32
                },
        )
    }
}

/// The node at place `i` of the chain: the first end node of the edge, then
/// the nodes of the objects, then the second end node.
pub open spec fn chain_stop(e: EdgeView, sorted: Seq<ObjectView>, i: int) -> NodeId {
    if i <= 0 {
        e.ni
    } else if i <= sorted.len() {
        (sorted[i - 1].id + NODE_OFFSET) as u32
    } else {
        e.nj
    }
}

/// The position on the edge of place `i` of the chain.
pub open spec fn chain_pos(sorted: Seq<ObjectView>, i: int) -> u64 {
    if i <= 0 {
        0
    } else if i <= sorted.len() {
        sorted[i - 1].dist
    } else {
        POSITION_SCALE
    }
}

/// The node that an object at position `dist` of the edge from `a` to `b`
/// becomes.
pub open spec fn planted(id: NodeId, a: DataNode, b: DataNode, dist: u64) -> DataNode {
    DataNode {
        id,
        lng: point_between(a.lng, b.lng, dist) as i32,
        lat: point_between(a.lat, b.lat, dist) as i32,
    }
}

/// The graph has mini-edge `k` of the chain that edge `e` was cut into:
/// it joins the places `k` and `k + 1`, is as long as the straight line
/// between their nodes, and carries the objects of `e` that lie strictly
/// between the two places, each at its position within the mini-edge.
pub open spec fn has_link(g: &Graph, e: EdgeView, sorted: Seq<ObjectView>, k: int) -> bool {
    let from = chain_stop(e, sorted, k);
    let to = chain_stop(e, sorted, k + 1);
    &&& g.edge_between(from, to).is_some()
    &&& g.node_table().contains_key(from)
    &&& g.node_table().contains_key(to)
    &&& g.edge_between(from, to).unwrap()@ == (EdgeView {
        id: chain_edges(sorted)[k],
        len: distance(g.node_table()[from], g.node_table()[to]) as Length,
        ni: from,
        nj: to,
        objects: between(e.objects, chain_pos(sorted, k), chain_pos(sorted, k + 1)),
    })
}

/// An index before which no object lies beyond `dist`, and at which one
/// does or the list ends, is the place for `dist`.
pub proof fn lemma_slot_for_is(sorted: Seq<ObjectView>, dist: u64, i: int)
    requires
        0 <= i <= sorted.len(),
        forall|j: int| 0 <= j < i ==> sorted[j].dist <= dist,
        i < sorted.len() ==> sorted[i].dist > dist,
    ensures
        slot_for(sorted, dist) == i,
    decreases sorted.len(),
{
    if sorted.len() > 0 && sorted[0].dist <= dist {
        let rest = sorted.drop_first();
        if i == 0 {
            assert(sorted[0].dist > dist);
        }
        assert forall|j: int| 0 <= j < i - 1 implies rest[j].dist <= dist by {
            assert(rest[j] == sorted[j + 1]);
        }
        if i < sorted.len() {
            assert(rest[i - 1] == sorted[i]);
        }
        lemma_slot_for_is(rest, dist, i - 1);
    } else if sorted.len() > 0 {
        if i > 0 {
            assert(sorted[0].dist <= dist);
        }
    }
}

/// The place for `dist` is within the list, no object before it lies
/// beyond `dist`, and the object at it does.
pub proof fn lemma_slot_for(sorted: Seq<ObjectView>, dist: u64)
    ensures
        0 <= slot_for(sorted, dist) <= sorted.len(),
        forall|j: int| 0 <= j < slot_for(sorted, dist) ==> sorted[j].dist <= dist,
        slot_for(sorted, dist) < sorted.len() ==> sorted[slot_for(sorted, dist)].dist > dist,
    decreases sorted.len(),
{
    if sorted.len() > 0 && sorted[0].dist <= dist {
        let rest = sorted.drop_first();
        lemma_slot_for(rest, dist);
        assert forall|j: int| 0 <= j < slot_for(sorted, dist) implies sorted[j].dist <= dist by {
            if j > 0 {
                assert(sorted[j] == rest[j - 1]);
            }
        }
        if slot_for(sorted, dist) < sorted.len() {
            assert(sorted[slot_for(sorted, dist)] == rest[slot_for(rest, dist)]);
        }
    }
}

/// Putting a list in order of position keeps its length and its members.
pub proof fn lemma_by_position(list: Seq<ObjectView>)
    ensures
        by_position(list).len() == list.len(),
        forall|i: int|
            0 <= i < list.len() ==> exists|j: int|
                0 <= j < list.len() && list[j] == #[trigger] by_position(list)[i],
    decreases list.len(),
{
    if list.len() > 0 {
        let head = list.drop_last();
        let x = list.last();
        let front = by_position(head);
        lemma_by_position(head);
        let at = slot_for(front, x.dist);
        lemma_slot_for(front, x.dist);
        let out = front.insert(at, x);
        assert forall|i: int| 0 <= i < list.len() implies exists|j: int|
            0 <= j < list.len() && list[j] == #[trigger] out[i] by {
            if i == at {
                assert(list[list.len() - 1] == out[i]);
            } else {
                let fi = if i < at {
                    i
                } else {
                    i - 1
                };
                assert(out[i] == front[fi]);
                let j = choose|j: int| 0 <= j < head.len() && head[j] == front[fi];
                assert(list[j] == out[i]);
            }
        }
    }
}

/// Putting a list with distinct ids in order of position keeps the ids
/// distinct.
pub proof fn lemma_by_position_distinct(list: Seq<ObjectView>)
    requires
        distinct_ids(list),
    ensures
        distinct_ids(by_position(list)),
    decreases list.len(),
{
    if list.len() > 0 {
        let head = list.drop_last();
        let x = list.last();
        let front = by_position(head);
        assert(distinct_ids(head)) by {
            assert forall|i: int, j: int| 0 <= i < j < head.len() implies head[i].id
                != head[j].id by {
                assert(head[i] == list[i] && head[j] == list[j]);
            }
        }
        lemma_by_position_distinct(head);
        lemma_by_position(head);
        let at = slot_for(front, x.dist);
        lemma_slot_for(front, x.dist);
        let out = front.insert(at, x);
        assert forall|i: int| 0 <= i < front.len() implies (#[trigger] front[i]).id != x.id by {
            let j = choose|j: int| 0 <= j < head.len() && head[j] == front[i];
            assert(list[j] == front[i]);
        }
        assert forall|i: int, j: int| 0 <= i < j < out.len() implies out[i].id != out[j].id by {
            if i == at {
                assert(out[j] == front[j - 1]);
            } else if j == at {
                assert(out[i] == front[i]);
            } else {
                let fi = if i < at {
                    i
                } else {
                    i - 1
                };
                let fj = if j < at {
                    j
                } else {
                    j - 1
                };
                assert(out[i] == front[fi] && out[j] == front[fj]);
            }
        }
    }
}

/// A list in order of position has ascending positions.
pub proof fn lemma_by_position_ascending(list: Seq<ObjectView>)
    ensures
        forall|i: int, j: int|
            0 <= i < j < by_position(list).len() ==> by_position(list)[i].dist <= by_position(
                list,
            )[j].dist,
    decreases list.len(),
{
    if list.len() > 0 {
        let head = list.drop_last();
        let x = list.last();
        let front = by_position(head);
        lemma_by_position_ascending(head);
        let at = slot_for(front, x.dist);
        lemma_slot_for(front, x.dist);
        let out = front.insert(at, x);
        assert forall|i: int, j: int| 0 <= i < j < out.len() implies out[i].dist <= out[j].dist by {
            if i == at {
                assert(out[j] == front[j - 1]);
                if j - 1 > at {
                    assert(front[at].dist <= front[j - 1].dist);
                }
            } else if j == at {
                assert(out[i] == front[i]);
            } else {
                let fi = if i < at {
                    i
                } else {
                    i - 1
                };
                let fj = if j < at {
                    j
                } else {
                    j - 1
                };
                assert(out[i] == front[fi] && out[j] == front[fj]);
            }
        }
    }
}

/// The objects of `list` in order of position; objects at the same
/// position keep their order.
pub fn sort_by_position(list: Vec<DataObject>) -> (sorted: Vec<DataObject>)
    ensures
        object_views(sorted@) == by_position(object_views(list@)),
{
    let mut sorted: Vec<DataObject> = Vec::new();
    let mut i: usize = 0;
    while i < list.len()
        invariant
            i <= list.len(),
            object_views(sorted@) == by_position(object_views(list@.take(i as int))),
        decreases list.len() - i,
    {
        let o = list[i].copy();
        let mut at: usize = 0;
        while at < sorted.len() && sorted[at].dist <= o.dist
            invariant
                at <= sorted.len(),
                forall|j: int| 0 <= j < at ==> sorted@[j].dist <= o.dist,
            decreases sorted.len() - at,
        {
            at += 1;
        }
        let ghost before = sorted@;
        proof {
            let views = object_views(before);
            assert forall|j: int| 0 <= j < at implies views[j].dist <= o.dist by {
                assert(views[j] == before[j]@);
            }
            if at < before.len() {
                assert(views[at as int] == before[at as int]@);
            }
            lemma_slot_for_is(views, o.dist, at as int);
            lemma_views_take(list@, i as int);
            assert(object_views(list@.take(i + 1)).drop_last() =~= object_views(
                list@.take(i as int),
            ));
        }
        sorted.insert(at, o);
        proof {
            assert(object_views(sorted@) =~= object_views(before).insert(at as int, o@));
        }
        i += 1;
    }
    proof {
        assert(list@.take(i as int) =~= list@);
    }
    sorted
}

/// Whether every object of `list` can become a node.
pub fn check_in_range(list: &Vec<DataObject>) -> (ok: bool)
    ensures
        ok == all_in_range(object_views(list@)),
{
    let mut i: usize = 0;
    while i < list.len()
        invariant
            i <= list.len(),
            forall|j: int| 0 <= j < i ==> in_range(#[trigger] object_views(list@)[j]),
        decreases list.len() - i,
    {
        if list[i].id == 0 || list[i].id >= ID_LIMIT || list[i].dist > POSITION_SCALE {
            proof {
                assert(!in_range(object_views(list@)[i as int]));
            }
            return false;
        }
        i += 1;
    }
    true
}

/// Whether no two objects of `list` have the same id.
pub fn check_distinct(list: &Vec<DataObject>) -> (ok: bool)
    ensures
        ok == distinct_ids(object_views(list@)),
{
    let mut j: usize = 0;
    while j < list.len()
        invariant
            j <= list.len(),
            forall|a: int, b: int| 0 <= a < b < j ==> list@[a].id != list@[b].id,
        decreases list.len() - j,
    {
        let mut i: usize = 0;
        while i < j
            invariant
                i <= j < list.len(),
                forall|a: int| 0 <= a < i ==> list@[a].id != list@[j as int].id,
            decreases j - i,
        {
            if list[i].id == list[j].id {
                proof {
                    let views = object_views(list@);
                    assert(views[i as int].id == views[j as int].id);
                }
                return false;
            }
            i += 1;
        }
        j += 1;
    }
    proof {
        let views = object_views(list@);
        assert forall|a: int, b: int| 0 <= a < b < views.len() implies views[a].id
            != views[b].id by {
            assert(views[a] == list@[a]@ && views[b] == list@[b]@);
        }
    }
    true
}

/// The objects of a list that lie strictly between two positions are, at
/// their positions within the stretch, objects that the graph can hold
/// where the objects of the list are.
pub proof fn lemma_between_valid(objects: Seq<ObjectView>, a: u64, b: u64, config: AppConfig)
    requires
        valid_objects(objects, config),
    ensures
        valid_objects(between(objects, a, b), config),
{
    let kept = objects.filter(lies_between(a, b));
    let out = between(objects, a, b);
    assert forall|i: int| 0 <= i < out.len() implies valid_object(#[trigger] out[i], config) by {
        objects.lemma_filter_pred(lies_between(a, b), i);
        assert(kept.contains(kept[i]));
        objects.lemma_filter_contains_rev(lies_between(a, b), kept[i]);
        let j = choose|j: int| 0 <= j < objects.len() && objects[j] == kept[i];
        assert(valid_object(objects[j], config));
        lemma_relative_position(kept[i].dist, a, b);
    }
}

/// Why edge `edge_id` of `g` cannot be cut into a chain through the
/// objects of `list`, if it cannot.
///
/// The edge is not found where the edge table does not hold it or the node
/// table does not hold one of its end nodes. The input is invalid where
/// the edge is a loop or an object cannot become a node. The state is
/// wrong where an id comes twice in the list, or where an id for a new
/// node or mini-edge is in use: the last conversion was not taken back.
pub open spec fn conversion_error(g: &Graph, edge_id: EdgeId, list: Seq<ObjectView>) ->
    Option<Error> {
    if !g.edge_table().contains_key(edge_id) || !g.node_table().contains_key(
        g.edge_table()[edge_id].ni,
    ) || !g.node_table().contains_key(g.edge_table()[edge_id].nj) {
        Some(Error::NotFound)
    } else if g.edge_table()[edge_id].ni == g.edge_table()[edge_id].nj || !all_in_range(list) {
        Some(Error::InvalidInput)
    } else if !distinct_ids(list) || !all_unused(g, list) {
        Some(Error::StateError)
    } else {
        None
    }
}

/// Node `n` was made from one of the first `i` objects of `sorted`.
pub open spec fn is_chain_node(sorted: Seq<ObjectView>, i: int, n: NodeId) -> bool {
    exists|k: int| 0 <= k < i && n == (#[trigger] sorted[k]).id + NODE_OFFSET
}

/// Edge `id` is the mini-edge that ends at the node of one of the first `i`
/// objects of `sorted`, or, with `closed`, the mini-edge that leaves the
/// last node.
pub open spec fn is_chain_edge(sorted: Seq<ObjectView>, i: int, closed: bool, id: EdgeId) -> bool {
    ||| exists|k: int| 0 <= k < i && id == (#[trigger] sorted[k]).id + EDGE_BEFORE_OFFSET
    ||| closed && sorted.len() > 0 && id == sorted[sorted.len() - 1].id + EDGE_AFTER_OFFSET
}

/// Graph `g` is graph `g0` with the first `i` mini-edges of the chain that
/// edge `e` is cut into, and with the last mini-edge too where the chain
/// is `closed`: what `g0` holds is there as it was, the new nodes lie on
/// the straight line between the end nodes of `e`, each mini-edge is as
/// [`has_link`] says, and nothing else was added.
pub open spec fn grown(
    g0: &Graph,
    g: &Graph,
    e: EdgeView,
    sorted: Seq<ObjectView>,
    i: int,
    closed: bool,
) -> bool {
    &&& g.spec_config() == g0.spec_config()
    &&& g.object_table() == g0.object_table()
    &&& g.object_order() == g0.object_order()
    &&& forall|id: EdgeId| #[trigger]
        g0.edge_table().contains_key(id) ==> g.edge_table().contains_key(id) && g.edge_table()[id]
            == g0.edge_table()[id]
    &&& forall|n: NodeId| #[trigger]
        g0.node_table().contains_key(n) ==> g.node_table().contains_key(n) && g.node_table()[n]
            == g0.node_table()[n]
    &&& forall|x: NodeId, y: NodeId|
        g0.id_between(x, y).is_some() ==> #[trigger] g.id_between(x, y) == g0.id_between(x, y)
    &&& forall|k: int|
        0 <= k < i ==> g.node_table().contains_key(#[trigger] chain_stop(e, sorted, k + 1))
            && g.node_table()[chain_stop(e, sorted, k + 1)] == planted(
            chain_stop(e, sorted, k + 1),
            g0.node_table()[e.ni],
            g0.node_table()[e.nj],
            sorted[k].dist,
        )
    &&& forall|k: int| 0 <= k < i ==> #[trigger] has_link(g, e, sorted, k)
    &&& closed ==> has_link(g, e, sorted, sorted.len() as int)
    &&& forall|n: NodeId| #[trigger]
        g.adjacency().contains_key(n) ==> g0.adjacency().contains_key(n) || n == e.ni || n == e.nj
            || is_chain_node(sorted, i, n)
    &&& forall|n: NodeId| #[trigger]
        g.node_table().contains_key(n) ==> g0.node_table().contains_key(n) || is_chain_node(
            sorted,
            i,
            n,
        )
    &&& forall|id: EdgeId| #[trigger]
        g.edge_table().contains_key(id) ==> g0.edge_table().contains_key(id) || is_chain_edge(
            sorted,
            i,
            closed,
            id,
        )
}

/// Graph `g` is graph `g0` after edge `edge_id` was cut into the chain
/// through the objects of `sorted`, with the mini-edges `edge_ids` and the
/// nodes `node_ids`.
pub open spec fn cut(
    g0: &Graph,
    g: &Graph,
    edge_id: EdgeId,
    sorted: Seq<ObjectView>,
    edge_ids: Seq<EdgeId>,
    node_ids: Seq<NodeId>,
) -> bool {
    &&& edge_ids == chain_edges(sorted)
    &&& node_ids == chain_nodes(sorted)
    &&& g.new_edges() == with_record(g0.new_edges(), edge_id, edge_ids)
    &&& g.new_nodes() == with_record(g0.new_nodes(), edge_id, node_ids)
    &&& grown(g0, g, g0.edge_table()[edge_id]@, sorted, sorted.len() as int, sorted.len() > 0)
}

/// In a graph that holds nothing from conversions, the ids for the node
/// and the mini-edges of an object that can become a node are not in use:
/// no conversion is refused there for the state of the graph.
pub proof fn lemma_plain_unused(g: &Graph, list: Seq<ObjectView>)
    requires
        g.plain(),
        all_in_range(list),
    ensures
        all_unused(g, list),
{
    assert forall|i: int| 0 <= i < list.len() implies unused(g, (#[trigger] list[i]).id) by {
        assert(in_range(list[i]));
    }
}

/// Cutting an edge that no chain is recorded for, in a graph that records
/// what it holds from conversions, gives a graph that records what it
/// holds from conversions.
pub proof fn lemma_cut_tidy(
    g0: &Graph,
    g: &Graph,
    edge_id: EdgeId,
    sorted: Seq<ObjectView>,
)
    requires
        g0.tidy(),
        g.wf(),
        g0.edge_table().contains_key(edge_id),
        g0.node_table().contains_key(g0.edge_table()[edge_id].ni),
        g0.node_table().contains_key(g0.edge_table()[edge_id].nj),
        record_index(g0.new_nodes(), edge_id) == g0.new_nodes().len(),
        all_in_range(sorted),
        cut(g0, g, edge_id, sorted, chain_edges(sorted), chain_nodes(sorted)),
    ensures
        g.tidy(),
{
    let e = g0.edge_table()[edge_id]@;
    let n = sorted.len() as int;
    let nodes0 = g0.new_nodes();
    let nodes = g.new_nodes();
    assert(nodes == nodes0.push((edge_id, chain_nodes(sorted))));
    assert forall|m: NodeId| g0.listed_nodes().contains(m) implies g.listed_nodes().contains(
        m,
    ) by {
        let (i, j) = choose|i: int, j: int|
            0 <= i < nodes0.len() && 0 <= j < nodes0[i].1.len() && nodes0[i].1[j] == m;
        assert(nodes[i] == nodes0[i]);
    }
    assert forall|m: NodeId| is_chain_node(sorted, n, m) implies g.listed_nodes().contains(m) by {
        let k = choose|k: int| 0 <= k < n && m == (#[trigger] sorted[k]).id + NODE_OFFSET;
        assert(nodes[nodes0.len() as int].1[k] == m);
    }
    assert forall|m: NodeId| #[trigger] g.listed_nodes().contains(m) implies m > ID_LIMIT by {
        let (i, j) = choose|i: int, j: int|
            0 <= i < nodes.len() && 0 <= j < nodes[i].1.len() && nodes[i].1[j] == m;
        if i < nodes0.len() {
            assert(nodes[i] == nodes0[i]);
            assert(g0.listed_nodes().contains(m));
        } else {
            assert(in_range(sorted[j]));
        }
    }
    assert forall|m: NodeId| #[trigger]
        g.adjacency().contains_key(m) && m > ID_LIMIT implies g.listed_nodes().contains(m) by {
        if g0.adjacency().contains_key(m) {
        } else if m == e.ni || m == e.nj {
            assert(g0.node_table().contains_key(m));
        }
    }
    assert forall|m: NodeId| #[trigger]
        g.node_table().contains_key(m) && m > ID_LIMIT implies g.listed_nodes().contains(m) by {}
    assert forall|id: EdgeId| #[trigger]
        g.edge_table().contains_key(id) && id > ID_LIMIT implies g.edges_at_any(
        g.listed_nodes(),
    ).contains(id) by {
        if g0.edge_table().contains_key(id) {
            let (a, b) = choose|a: NodeId, b: NodeId|
                g0.listed_nodes().contains(a) && g0.id_between(a, b) == Some(id);
            assert(g.id_between(a, b) == Some(id));
        } else {
            assert(is_chain_edge(sorted, n, n > 0, id));
            let k = if exists|k: int|
                0 <= k < n && id == (#[trigger] sorted[k]).id + EDGE_BEFORE_OFFSET {
                choose|k: int| 0 <= k < n && id == (#[trigger] sorted[k]).id + EDGE_BEFORE_OFFSET
            } else {
                n
            };
            assert(has_link(g, e, sorted, k));
            let from = chain_stop(e, sorted, k);
            let to = chain_stop(e, sorted, k + 1);
            g.lemma_edge_between(from, to);
            assert(g.id_between(from, to) == Some(id));
            if k < n {
                assert(is_chain_node(sorted, n, to));
                assert(g.id_between(to, from) == Some(id));
            } else {
                assert(from == sorted[n - 1].id + NODE_OFFSET);
                assert(is_chain_node(sorted, n, from));
            }
        }
    }
}

/// The coordinate at a position between two coordinates lies between them,
/// and positions further on give coordinates further on.
pub proof fn lemma_point_between_ordered(from: i32, to: i32, p: u64, q: u64)
    requires
        from <= to,
        p <= q <= POSITION_SCALE,
    ensures
        from <= point_between(from, to, p) <= point_between(from, to, q) <= to,
        point_between(from, to, 0) == from,
        point_between(from, to, POSITION_SCALE) == to,
{
    let span = to - from;
    let scale = POSITION_SCALE as int;
    assert(0 <= span * p <= span * q && span * q <= span * scale) by (nonlinear_arith)
        requires
            0 <= span,
            0 <= p <= q,
            q <= scale,
    ;
    vstd::arithmetic::div_mod::lemma_div_is_ordered(0, span * p, scale);
    vstd::arithmetic::div_mod::lemma_div_is_ordered(span * p, span * q, scale);
    vstd::arithmetic::div_mod::lemma_div_is_ordered(span * q, span * scale, scale);
    vstd::arithmetic::div_mod::lemma_div_multiples_vanish(span, scale);
    assert(span * scale == scale * span) by (nonlinear_arith);
    assert(span * 0 == 0) by (nonlinear_arith);
}

/// On an edge that runs along the first axis, towards higher coordinates,
/// nothing is rounded but the places of the nodes: mini-edge `k` of the
/// chain that the edge was cut into is as long as the coordinates of its
/// two places are apart, so the lengths of the mini-edges add up to the
/// length of the edge.
pub proof fn lemma_mini_edge_on_axis(
    g0: &Graph,
    g: &Graph,
    edge_id: EdgeId,
    sorted: Seq<ObjectView>,
    k: int,
)
    requires
        g.wf(),
        cut(g0, g, edge_id, sorted, chain_edges(sorted), chain_nodes(sorted)),
        0 <= k <= sorted.len(),
        sorted.len() > 0,
        all_in_range(sorted),
        forall|i: int, j: int| 0 <= i < j < sorted.len() ==> sorted[i].dist <= sorted[j].dist,
        g0.node_table().contains_key(g0.edge_table()[edge_id].ni),
        g0.node_table().contains_key(g0.edge_table()[edge_id].nj),
        g0.node_table()[g0.edge_table()[edge_id].ni].lat
            == g0.node_table()[g0.edge_table()[edge_id].nj].lat,
        g0.node_table()[g0.edge_table()[edge_id].ni].lng
            <= g0.node_table()[g0.edge_table()[edge_id].nj].lng,
    ensures
        ({
            let e = g0.edge_table()[edge_id]@;
            let a = g0.node_table()[e.ni];
            let b = g0.node_table()[e.nj];
            let mini = g.edge_between(chain_stop(e, sorted, k), chain_stop(e, sorted, k + 1));
            mini.is_some() && mini.unwrap().len == point_between(
                a.lng,
                b.lng,
                chain_pos(sorted, k + 1),
            ) - point_between(a.lng, b.lng, chain_pos(sorted, k))
        }),
{
    let e = g0.edge_table()[edge_id]@;
    let a = g0.node_table()[e.ni];
    let b = g0.node_table()[e.nj];
    let n = sorted.len() as int;
    let from = chain_stop(e, sorted, k);
    let to = chain_stop(e, sorted, k + 1);
    let p = chain_pos(sorted, k);
    let q = chain_pos(sorted, k + 1);
    assert(has_link(g, e, sorted, k));
    assert(p <= q <= POSITION_SCALE) by {
        if k >= 1 {
            assert(in_range(sorted[k - 1]));
        }
        if k + 1 <= n {
            assert(in_range(sorted[k]));
        }
    }
    lemma_point_between_ordered(a.lng, b.lng, p, q);
    lemma_point_between_ordered(a.lat, a.lat, p, q);
    let start = g.node_table()[from];
    let end = g.node_table()[to];
    assert(start.lng == point_between(a.lng, b.lng, p) && start.lat == a.lat) by {
        if k == 0 {
            assert(g.node_table()[e.ni] == g0.node_table()[e.ni]);
        } else {
            assert(from == chain_stop(e, sorted, (k - 1) + 1));
            assert(g.node_table()[chain_stop(e, sorted, (k - 1) + 1)] == planted(
                chain_stop(e, sorted, (k - 1) + 1),
                a,
                b,
                sorted[k - 1].dist,
            ));
        }
    }
    assert(end.lng == point_between(a.lng, b.lng, q) && end.lat == a.lat) by {
        if k == n {
            assert(g.node_table()[e.nj] == g0.node_table()[e.nj]);
        } else {
            assert(g.node_table()[chain_stop(e, sorted, k + 1)] == planted(
                chain_stop(e, sorted, k + 1),
                a,
                b,
                sorted[k].dist,
            ));
        }
    }
    crate::geometry::lemma_distance_on_axis(start, end);
}

/// A graph in which an edge was cut holds what the graph before the cut
/// holds, as it is there, and beside it only nodes and edges with ids above
/// the limit.
pub proof fn lemma_cut_keeps(g0: &Graph, g: &Graph, edge_id: EdgeId, sorted: Seq<ObjectView>)
    requires
        all_in_range(sorted),
        cut(g0, g, edge_id, sorted, chain_edges(sorted), chain_nodes(sorted)),
    ensures
        g.keeps(g0),
{
    let n = sorted.len() as int;
    assert forall|id: EdgeId| #[trigger]
        g.edge_table().contains_key(id) implies g0.edge_table().contains_key(id) || id
        > ID_LIMIT by {
        if !g0.edge_table().contains_key(id) {
            assert(is_chain_edge(sorted, n, n > 0, id));
            if exists|k: int| 0 <= k < n && id == (#[trigger] sorted[k]).id + EDGE_BEFORE_OFFSET {
                let k = choose|k: int|
                    0 <= k < n && id == (#[trigger] sorted[k]).id + EDGE_BEFORE_OFFSET;
                assert(in_range(sorted[k]));
            } else {
                assert(in_range(sorted[n - 1]));
            }
        }
    }
    assert forall|m: NodeId| #[trigger]
        g.node_table().contains_key(m) implies g0.node_table().contains_key(m) || m
        > ID_LIMIT by {
        if !g0.node_table().contains_key(m) {
            let k = choose|k: int| 0 <= k < n && m == (#[trigger] sorted[k]).id + NODE_OFFSET;
            assert(in_range(sorted[k]));
        }
    }
}

/// A conversion that is taken back leaves the graph as it was: where the
/// graph `g0` holds nothing from conversions, `g1` is `g0` with an edge
/// cut, and `g2` is `g1` with the conversions taken back, `g2` has the
/// nodes and the edges of `g0` and holds nothing from conversions. So what
/// could be cut in `g0` can be cut in `g2`.
pub proof fn lemma_cut_and_clean(
    g0: &Graph,
    g1: &Graph,
    g2: &Graph,
    edge_id: EdgeId,
    sorted: Seq<ObjectView>,
)
    requires
        g0.wf(),
        g0.plain(),
        g1.wf(),
        g2.wf(),
        g0.edge_table().contains_key(edge_id),
        g0.node_table().contains_key(g0.edge_table()[edge_id].ni),
        g0.node_table().contains_key(g0.edge_table()[edge_id].nj),
        all_in_range(sorted),
        cut(g0, g1, edge_id, sorted, chain_edges(sorted), chain_nodes(sorted)),
        g2.cleaned(g1),
    ensures
        g2.plain(),
        g2.edge_table() == g0.edge_table(),
        g2.node_table() == g0.node_table(),
        g2.object_table() == g0.object_table(),
        forall|id: EdgeId, list: Seq<ObjectView>|
            #[trigger] conversion_error(g2, id, list) == conversion_error(g0, id, list),
{
    assert(g0.new_nodes().len() == 0);
    lemma_cut_tidy(g0, g1, edge_id, sorted);
    lemma_cut_keeps(g0, g1, edge_id, sorted);
    g2.lemma_clean_restores(g0, g1);
    assert forall|id: EdgeId, list: Seq<ObjectView>|
        #[trigger] conversion_error(g2, id, list) == conversion_error(g0, id, list) by {
        if all_in_range(list) {
            lemma_plain_unused(g0, list);
            lemma_plain_unused(g2, list);
        }
    }
}

impl Graph {
    /// Whether the ids for the nodes and mini-edges of the objects of
    /// `list` are not in use.
    fn check_unused(&self, list: &Vec<DataObject>) -> (ok: bool)
        requires
            all_in_range(object_views(list@)),
        ensures
            ok == all_unused(self, object_views(list@)),
    {
        let mut i: usize = 0;
        while i < list.len()
            invariant
                i <= list.len(),
                all_in_range(object_views(list@)),
                forall|j: int| 0 <= j < i ==> unused(self, (#[trigger] object_views(list@)[j]).id),
            decreases list.len() - i,
        {
            let id = list[i].id;
            proof {
                assert(in_range(object_views(list@)[i as int]));
            }
            if self.has_node(id + NODE_OFFSET) || self.node(id + NODE_OFFSET).is_ok()
                || self.has_edge_id(id + EDGE_BEFORE_OFFSET) || self.has_edge_id(
                id + EDGE_AFTER_OFFSET,
            ) {
                proof {
                    assert(!unused(self, object_views(list@)[i as int].id));
                }
                return false;
            }
            i += 1;
        }
        true
    }

    /// Why edge `edge_id` cannot be cut into a chain through the objects of
    /// `objects`, if it cannot.
    pub fn check_conversion(&self, edge_id: EdgeId, objects: &Vec<DataObject>) -> (e: Option<Error>)
        ensures
            e == conversion_error(self, edge_id, object_views(objects@)),
    {
        let edge = match self.edge_by_edge_id(edge_id) {
            Ok(e) => e,
            Err(_) => {
                return Some(Error::NotFound);
            },
        };
        if self.node(edge.ni).is_err() || self.node(edge.nj).is_err() {
            return Some(Error::NotFound);
        }
        if edge.ni == edge.nj || !check_in_range(objects) {
            return Some(Error::InvalidInput);
        }
        if !check_distinct(objects) || !self.check_unused(objects) {
            return Some(Error::StateError);
        }
        None
    }

    /// Cuts edge `edge_id` into a chain through the objects of `objects`,
    /// taken in order of position: the first end node of the edge, a new
    /// node for each object, the second end node. The edge itself stays.
    ///
    /// Each mini-edge is as long as the straight line between its end nodes
    /// and takes over the objects of the edge that lie strictly between
    /// its two ends. The chain is recorded for the edge. A refusal, see
    /// [`conversion_error`], changes nothing.
    pub fn convert_objects_as_node_in_edge(&mut self, edge_id: EdgeId,
        objects: Vec<DataObject>) -> (r:
        Result<(Vec<EdgeId>, Vec<NodeId>), Error>)
        requires
            old(self).wf(),
        ensures
            final(self).wf(),
            match r {
                Ok((edge_ids, node_ids)) => {
                    &&& conversion_error(old(self), edge_id, object_views(objects@)).is_none()
                    &&& cut(
                        old(self),
                        final(self),
                        edge_id,
                        by_position(object_views(objects@)),
                        edge_ids@,
                        node_ids@,
                    )
                },
                Err(e) => conversion_error(old(self), edge_id, object_views(objects@)) == Some(e)
                    && final(self).same_as(old(self)),
            },
            old(self).tidy() && record_index(old(self).new_nodes(), edge_id)
                == old(self).new_nodes().len() ==> final(self).tidy(),
    {
        match self.check_conversion(edge_id, &objects) {
            Some(e) => {
                return Err(e);
            },
            None => {},
        }
        let edge = match self.edge_with_objects(edge_id) {
            Some(e) => e,
            None => {
                return Err(Error::NotFound);
            },
        };
        let a = match self.node(edge.ni) {
            Ok(n) => n,
            Err(e) => {
                return Err(Error::NotFound);
            },
        };
        let b = match self.node(edge.nj) {
            Ok(n) => n,
            Err(e) => {
                return Err(Error::NotFound);
            },
        };
        let ghost list = object_views(objects@);
        let sorted = sort_by_position(objects);
        let ghost s = object_views(sorted@);
        let ghost e = edge@;
        let n = sorted.len();
        proof {
            lemma_by_position(list);
            lemma_by_position_distinct(list);
            assert forall|k: int| 0 <= k < s.len() implies in_range(#[trigger] s[k]) && unused(
                old(self),
                s[k].id,
            ) by {
                let j = choose|j: int| 0 <= j < list.len() && list[j] == s[k];
                assert(in_range(list[j]));
                assert(unused(old(self), list[j].id));
            }
            old(self).lemma_edge_objects(edge_id);
        }
        let mut prev_node_id = edge.ni;
        let mut prev_dist: u64 = 0;
        let mut new_edge_ids: Vec<EdgeId> = Vec::new();
        let mut new_node_ids: Vec<NodeId> = Vec::new();
        let mut i: usize = 0;
        while i < n
            invariant
                i <= n,
                n == sorted@.len(),
                s == object_views(sorted@),
                s.len() == n,
                e == edge@,
                old(self).edge_table().contains_key(edge_id),
                e == old(self).edge_table()[edge_id]@,
                old(self).wf(),
                self.wf(),
                old(self).node_table().contains_key(e.ni),
                old(self).node_table().contains_key(e.nj),
                a == old(self).node_table()[e.ni],
                b == old(self).node_table()[e.nj],
                e.ni != e.nj,
                valid_objects(e.objects, self.spec_config()),
                distinct_ids(s),
                forall|k: int| 0 <= k < s.len() ==> in_range(#[trigger] s[k]),
                forall|k: int| 0 <= k < s.len() ==> unused(old(self), (#[trigger] s[k]).id),
                forall|k: int| i <= k < s.len() ==> unused(self, (#[trigger] s[k]).id),
                self.new_edges() == old(self).new_edges(),
                self.new_nodes() == old(self).new_nodes(),
                prev_node_id == chain_stop(e, s, i as int),
                prev_dist == chain_pos(s, i as int),
                self.node_table().contains_key(prev_node_id),
                new_node_ids@ == chain_nodes(s).take(i as int),
                new_edge_ids@ == (if i == n && n > 0 {
                    chain_edges(s)
                } else {
                    chain_edges(s).take(i as int)
                }),
                grown(old(self), self, e, s, i as int, i == n && n > 0),
            decreases n - i,
        {
            let o = &sorted[i];
            let ghost ov = s[i as int];
            proof {
                assert(ov == o@);
                assert(in_range(s[i as int]));
                assert(unused(self, s[i as int].id));
                assert(unused(old(self), s[i as int].id));
            }
            let new_node_id = o.id + NODE_OFFSET;
            let before_id = o.id + EDGE_BEFORE_OFFSET;
            let after_id = o.id + EDGE_AFTER_OFFSET;
            let node = DataNode {
                id: new_node_id,
                lng: interpolate(a.lng, b.lng, o.dist),
                lat: interpolate(a.lat, b.lat, o.dist),
            };
            let ghost g1 = *self;
            self.plant(node);
            let ghost g2 = *self;
            proof {
                assert(g2.id_between(prev_node_id, new_node_id).is_none()) by {
                    if g1.id_between(prev_node_id, new_node_id).is_some() {
                        g1.lemma_edge_ends(prev_node_id, new_node_id);
                    }
                }
                lemma_between_valid(e.objects, prev_dist, o.dist, self.spec_config());
            }
            let inside = edge.objects_in_between(prev_dist, o.dist);
            self.attach(before_id, prev_node_id, new_node_id, inside);
            let ghost g3 = *self;
            new_node_ids.push(new_node_id);
            new_edge_ids.push(before_id);
            proof {
                assert(chain_nodes(s).take(i + 1) =~= chain_nodes(s).take(i as int).push(
                    new_node_id,
                ));
                assert(chain_edges(s).take(i + 1) =~= chain_edges(s).take(i as int).push(
                    before_id,
                ));
                assert(new_node_id == chain_stop(e, s, i + 1));
                // What the graph held before is still there.
                assert forall|x: NodeId, y: NodeId|
                    old(self).id_between(x, y).is_some() implies #[trigger] g3.id_between(x, y)
                    == old(self).id_between(x, y) by {
                    old(self).lemma_edge_ends(x, y);
                    assert(g1.id_between(x, y) == old(self).id_between(x, y));
                }
                assert forall|m: NodeId| #[trigger]
                    old(self).node_table().contains_key(m) implies g3.node_table().contains_key(m)
                    && g3.node_table()[m] == old(self).node_table()[m] by {
                    assert(g1.node_table().contains_key(m));
                }
                assert forall|id: EdgeId| #[trigger]
                    old(self).edge_table().contains_key(id) implies g3.edge_table().contains_key(
                    id,
                ) && g3.edge_table()[id] == old(self).edge_table()[id] by {
                    assert(g1.edge_table().contains_key(id));
                }
                // The nodes of the chain so far.
                assert forall|k: int| 0 <= k < i + 1 implies g3.node_table().contains_key(
                    #[trigger] chain_stop(e, s, k + 1),
                ) && g3.node_table()[chain_stop(e, s, k + 1)] == planted(
                    chain_stop(e, s, k + 1),
                    old(self).node_table()[e.ni],
                    old(self).node_table()[e.nj],
                    s[k].dist,
                ) by {
                    if k < i {
                        assert(g1.node_table().contains_key(chain_stop(e, s, k + 1)));
                        assert(s[k].id != s[i as int].id);
                    }
                }
                // The mini-edges of the chain so far.
                assert forall|k: int| 0 <= k < i + 1 implies #[trigger] has_link(&g3, e, s, k) by {
                    if k < i {
                        assert(has_link(&g1, e, s, k));
                        let from = chain_stop(e, s, k);
                        let to = chain_stop(e, s, k + 1);
                        assert(s[k].id != s[i as int].id);
                        if k > 0 {
                            assert(s[k - 1].id != s[i as int].id);
                        }
                        assert(from != new_node_id && to != new_node_id);
                        assert(g3.id_between(from, to) == g1.id_between(from, to));
                        let id = g1.id_between(from, to).unwrap();
                        g1.lemma_edge_between(from, to);
                        assert(id == chain_edges(s)[k]);
                        assert(id != before_id);
                    } else {
                        assert(chain_stop(e, s, k) == prev_node_id);
                        assert(chain_edges(s)[k] == before_id);
                        assert(g3.id_between(prev_node_id, new_node_id) == Some(before_id));
                    }
                }
                // Nothing else was added.
                assert(is_chain_node(s, i + 1, new_node_id)) by {
                    assert(new_node_id == s[i as int].id + NODE_OFFSET);
                }
                assert(is_chain_edge(s, i + 1, false, before_id)) by {
                    assert(before_id == s[i as int].id + EDGE_BEFORE_OFFSET);
                }
                assert(prev_node_id == e.ni || is_chain_node(s, i + 1, prev_node_id)) by {
                    if i > 0 {
                        assert(prev_node_id == s[i - 1].id + NODE_OFFSET);
                    }
                }
                assert forall|m: NodeId| is_chain_node(s, i as int, m) implies is_chain_node(
                    s,
                    i + 1,
                    m,
                ) by {
                    let k = choose|k: int| 0 <= k < i && m == (#[trigger] s[k]).id + NODE_OFFSET;
                    assert(0 <= k < i + 1);
                }
                assert forall|id: EdgeId| is_chain_edge(
                    s,
                    i as int,
                    false,
                    id,
                ) implies is_chain_edge(s, i + 1, false, id) by {
                    let k = choose|k: int|
                        0 <= k < i && id == (#[trigger] s[k]).id + EDGE_BEFORE_OFFSET;
                    assert(0 <= k < i + 1);
                }
                assert forall|m: NodeId| #[trigger]
                    g3.adjacency().contains_key(m) implies old(self).adjacency().contains_key(m)
                    || m == e.ni || m == e.nj || is_chain_node(s, i + 1, m) by {
                    if m != new_node_id && m != prev_node_id {
                        assert(g2.adjacency().contains_key(m));
                        assert(g1.adjacency().contains_key(m));
                    }
                }
                assert forall|m: NodeId| #[trigger]
                    g3.node_table().contains_key(m) implies old(self).node_table().contains_key(m)
                    || is_chain_node(s, i + 1, m) by {
                    if m != new_node_id {
                        assert(g1.node_table().contains_key(m));
                    }
                }
                assert forall|id: EdgeId| #[trigger]
                    g3.edge_table().contains_key(id) implies old(self).edge_table().contains_key(
                    id,
                ) || is_chain_edge(s, i + 1, false, id) by {
                    if id != before_id {
                        assert(g1.edge_table().contains_key(id));
                    }
                }
                // The ids that are still to come.
                assert forall|k: int| i + 1 <= k < s.len() implies unused(
                    self,
                    (#[trigger] s[k]).id,
                ) by {
                    assert(unused(&g1, s[k].id));
                    assert(s[k].id != s[i as int].id);
                    assert(in_range(s[k]));
                }
            }
            if i + 1 == n {
                let ghost g4 = *self;
                proof {
                    assert(!g4.edge_table().contains_key(after_id)) by {
                        assert(!g1.edge_table().contains_key(after_id));
                    }
                    assert(g4.id_between(new_node_id, edge.nj).is_none()) by {
                        if g1.id_between(new_node_id, edge.nj).is_some() {
                            g1.lemma_edge_ends(new_node_id, edge.nj);
                        }
                        if i > 0 {
                            assert(!old(self).node_table().contains_key(prev_node_id)) by {
                                assert(unused(old(self), s[i - 1].id));
                            }
                        }
                        assert(prev_node_id != edge.nj);
                    }
                    lemma_between_valid(e.objects, o.dist, POSITION_SCALE, self.spec_config());
                    assert(g4.node_table().contains_key(edge.nj));
                }
                let rest = edge.objects_in_between(o.dist, POSITION_SCALE);
                self.attach(after_id, new_node_id, edge.nj, rest);
                new_edge_ids.push(after_id);
                let ghost g5 = *self;
                proof {
                    assert(chain_edges(s) =~= chain_edges(s).take(i + 1).push(after_id));
                    assert(new_edge_ids@ =~= chain_edges(s));
                    assert forall|x: NodeId, y: NodeId|
                        old(self).id_between(x, y).is_some() implies #[trigger] g5.id_between(x, y)
                        == old(self).id_between(x, y) by {
                        old(self).lemma_edge_ends(x, y);
                        assert(g4.id_between(x, y) == old(self).id_between(x, y));
                    }
                    assert forall|m: NodeId| #[trigger]
                        old(self).node_table().contains_key(m) implies g5.node_table().contains_key(
                        m,
                    ) && g5.node_table()[m] == old(self).node_table()[m] by {
                        assert(g4.node_table().contains_key(m));
                    }
                    assert forall|id: EdgeId| #[trigger]
                        old(self).edge_table().contains_key(id)
                            implies g5.edge_table().contains_key(
                        id,
                    ) && g5.edge_table()[id] == old(self).edge_table()[id] by {
                        assert(g4.edge_table().contains_key(id));
                    }
                    assert forall|k: int| 0 <= k < i + 1 implies g5.node_table().contains_key(
                        #[trigger] chain_stop(e, s, k + 1),
                    ) && g5.node_table()[chain_stop(e, s, k + 1)] == planted(
                        chain_stop(e, s, k + 1),
                        old(self).node_table()[e.ni],
                        old(self).node_table()[e.nj],
                        s[k].dist,
                    ) by {
                        assert(g4.node_table().contains_key(chain_stop(e, s, k + 1)));
                    }
                    assert forall|k: int| 0 <= k < i + 1 implies #[trigger] has_link(&g5,
                        e,
                        s,
                        k,
                    ) by {
                        assert(has_link(&g4, e, s, k));
                        let from = chain_stop(e, s, k);
                        let to = chain_stop(e, s, k + 1);
                        if k > 0 {
                            assert(unused(old(self), s[k - 1].id));
                        }
                        assert(unused(old(self), s[k].id));
                        assert(from != edge.nj || to != new_node_id);
                        assert(to != edge.nj);
                        assert(g5.id_between(from, to) == g4.id_between(from, to));
                        let id = g4.id_between(from, to).unwrap();
                        g4.lemma_edge_between(from, to);
                        assert(id == chain_edges(s)[k]);
                        assert(in_range(s[k]));
                        assert(id != after_id);
                    }
                    assert(has_link(&g5, e, s, s.len() as int)) by {
                        assert(chain_stop(e, s, s.len() as int) == new_node_id);
                        assert(chain_stop(e, s, s.len() as int + 1) == edge.nj);
                        assert(chain_edges(s)[s.len() as int] == after_id);
                        assert(g5.id_between(new_node_id, edge.nj) == Some(after_id));
                    }
                    assert(is_chain_edge(s, s.len() as int, true, after_id));
                    assert forall|id: EdgeId| is_chain_edge(
                        s,
                        i + 1,
                        false,
                        id,
                    ) implies is_chain_edge(s, s.len() as int, true, id) by {}
                    assert forall|m: NodeId| #[trigger]
                        g5.adjacency().contains_key(m) implies old(self).adjacency().contains_key(
                        m,
                    ) || m == e.ni || m == e.nj || is_chain_node(s, s.len() as int, m) by {
                        if m != new_node_id && m != edge.nj {
                            assert(g4.adjacency().contains_key(m));
                        }
                    }
                    assert forall|m: NodeId| #[trigger]
                        g5.node_table().contains_key(m) implies old(self).node_table().contains_key(
                        m,
                    ) || is_chain_node(s, s.len() as int, m) by {
                        assert(g4.node_table().contains_key(m));
                    }
                    assert forall|id: EdgeId| #[trigger]
                        g5.edge_table().contains_key(id)
                            implies old(self).edge_table().contains_key(id) || is_chain_edge(
                        s,
                        s.len() as int,
                        true,
                        id,
                    ) by {
                        if id != after_id {
                            assert(g4.edge_table().contains_key(id));
                        }
                    }
                    assert(grown(old(self), &g5, e, s, s.len() as int, true));
                }
            }
            prev_node_id = new_node_id;
            prev_dist = o.dist;
            i += 1;
        }
        proof {
            assert(new_node_ids@ =~= chain_nodes(s));
            assert(new_edge_ids@ =~= chain_edges(s));
        }
        let ghost g7 = *self;
        let edge_ids = new_edge_ids.clone();
        let node_ids = new_node_ids.clone();
        self.record_chain(edge_id, new_edge_ids, new_node_ids);
        proof {
            assert(grown(old(self), self, e, s, n as int, n > 0)) by {
                assert forall|m: NodeId| #[trigger]
                    self.adjacency().contains_key(m) implies old(self).adjacency().contains_key(m)
                    || m == e.ni || m == e.nj || is_chain_node(s, n as int, m) by {
                    assert(g7.adjacency().contains_key(m));
                }
                assert forall|m: NodeId| #[trigger]
                    self.node_table().contains_key(m) implies old(self).node_table().contains_key(
                    m,
                ) || is_chain_node(s, n as int, m) by {
                    assert(g7.node_table().contains_key(m));
                }
                assert forall|id: EdgeId| #[trigger]
                    self.edge_table().contains_key(id) implies old(self).edge_table().contains_key(
                    id,
                ) || is_chain_edge(s, n as int, n > 0, id) by {
                    assert(g7.edge_table().contains_key(id));
                }
                assert forall|x: NodeId, y: NodeId|
                    old(self).id_between(x, y).is_some() implies #[trigger] self.id_between(x, y)
                    == old(self).id_between(x, y) by {
                    assert(g7.id_between(x, y) == old(self).id_between(x, y));
                }
                assert forall|k: int| 0 <= k < n implies #[trigger] has_link(self, e, s, k) by {
                    assert(has_link(&g7, e, s, k));
                }
                if n > 0 {
                    assert(has_link(&g7, e, s, s.len() as int));
                }
                assert forall|k: int| 0 <= k < n implies self.node_table().contains_key(
                    #[trigger] chain_stop(e, s, k + 1),
                ) && self.node_table()[chain_stop(e, s, k + 1)] == planted(
                    chain_stop(e, s, k + 1),
                    old(self).node_table()[e.ni],
                    old(self).node_table()[e.nj],
                    s[k].dist,
                ) by {
                    assert(g7.node_table().contains_key(chain_stop(e, s, k + 1)));
                }
            }
            if old(self).tidy() && record_index(old(self).new_nodes(), edge_id)
                == old(self).new_nodes().len() {
                lemma_by_position(object_views(objects@));
                assert forall|i: int| 0 <= i < s.len() implies in_range(#[trigger] s[i]) by {
                    let j = choose|j: int|
                        0 <= j < object_views(objects@).len() && object_views(objects@)[j]
                            == s[i];
                    assert(in_range(object_views(objects@)[j]));
                }
                lemma_cut_tidy(old(self), self, edge_id, s);
            }
        }
        Ok((edge_ids, node_ids))
    }

    /// Makes `object` a node on its edge: the edge is cut into a chain of
    /// two mini-edges through the object. Gives the id of the new node. A
    /// refusal, see [`conversion_error`], changes nothing.
    pub fn convert_object_as_node(&mut self, object: DataObject) -> (r: Result<NodeId, Error>)
        requires
            old(self).wf(),
        ensures
            final(self).wf(),
            match r {
                Ok(node_id) => {
                    &&& conversion_error(old(self), object.edge_id, seq![object@]).is_none()
                    &&& node_id == object.id + NODE_OFFSET
                    &&& cut(
                        old(self),
                        final(self),
                        object.edge_id,
                        seq![object@],
                        chain_edges(seq![object@]),
                        chain_nodes(seq![object@]),
                    )
                },
                Err(e) => conversion_error(old(self), object.edge_id, seq![object@]) == Some(e)
                    && final(self).same_as(old(self)),
            },
            old(self).tidy() && record_index(old(self).new_nodes(), object.edge_id)
                == old(self).new_nodes().len() ==> final(self).tidy(),
    {
        let edge_id = object.edge_id;
        let ghost view = object@;
        let mut objects: Vec<DataObject> = Vec::new();
        objects.push(object);
        proof {
            assert(object_views(objects@) =~= seq![view]);
            let one = seq![view];
            assert(one.drop_last() =~= Seq::<ObjectView>::empty());
            assert(by_position(one.drop_last()) =~= Seq::<ObjectView>::empty());
            assert(by_position(one) =~= one);
        }
        match self.convert_objects_as_node_in_edge(edge_id, objects) {
            Ok((_, new_node_ids)) => {
                proof {
                    assert(new_node_ids@[0] == chain_nodes(seq![view])[0]);
                }
                Ok(new_node_ids[0])
            },
            Err(e) => Err(e),
        }
    }

    /// Makes the objects of `objects` nodes, each on its edge. What
    /// earlier conversions added is taken back first. Then the objects are
    /// grouped by edge, the edges in the order in which they first come in
    /// the list, and each edge is cut into the chain through its objects.
    /// Gives the chains: for each such edge the ids of its mini-edges.
    ///
    /// Nothing is cut where an edge cannot be cut or an object comes twice:
    /// see [`batch_error`]. The graph is then as the taking back left it.
    pub fn convert_objects_to_node(&mut self, objects: Vec<DataObject>) -> (r: Result<
        Vec<(EdgeId, Vec<EdgeId>)>,
        Error,
    >)
        requires
            old(self).wf(),
        ensures
            final(self).wf(),
            final(self).spec_config() == old(self).spec_config(),
            final(self).object_table() == old(self).object_table(),
            final(self).object_order() == old(self).object_order(),
            match r {
                Ok(chains) => {
                    &&& recorded(chains@) == final(self).new_edges()
                    &&& chains_of(final(self), grouped(object_views(objects@)))
                    &&& exists|mid: Graph| #[trigger]
                        cut_all(old(self), &mid, final(self), grouped(object_views(objects@)))
                },
                Err(e) => {
                    &&& final(self).cleaned(old(self))
                    &&& batch_error(final(self), grouped(object_views(objects@))) == Some(e)
                },
            },
            old(self).tidy() ==> final(self).tidy(),
            old(self).tidy() && distinct_ids(object_views(objects@)) ==> !(r matches Err(e) && e
                == Error::StateError),
    {
        proof {
            if distinct_ids(object_views(objects@)) {
                lemma_grouped_apart(object_views(objects@));
                lemma_apart_distinct(grouped(object_views(objects@)));
            }
        }
        self.clean();
        let mut groups: Vec<(EdgeId, Vec<DataObject>)> = Vec::new();
        let mut i: usize = 0;
        proof {
            assert(group_views(recorded(groups@)) =~= grouped(
                object_views(objects@.take(0)),
            ));
        }
        while i < objects.len()
            invariant
                i <= objects.len(),
                group_views(recorded(groups@)) == grouped(object_views(objects@.take(i as int))),
            decreases objects.len() - i,
        {
            let o = objects[i].copy();
            proof {
                lemma_views_take(objects@, i as int);
                let views = object_views(objects@.take(i + 1));
                assert(views.drop_last() =~= object_views(objects@.take(i as int)));
                lemma_group_views_item(recorded(groups@), o.edge_id, o);
            }
            add_item(&mut groups, o.edge_id, o);
            i += 1;
        }
        proof {
            assert(objects@.take(i as int) =~= objects@);
            lemma_grouped_keys(object_views(objects@));
        }
        let ghost all = group_views(recorded(groups@));
        let ghost mid = *self;
        let total = groups.len();
        let mut v: usize = 0;
        while v < total
            invariant
                v <= total,
                total == groups@.len(),
                all == group_views(recorded(groups@)),
                all == grouped(object_views(objects@)),
                *self == mid,
                self.wf(),
                self.cleaned(old(self)),
                self.spec_config() == old(self).spec_config(),
                self.object_table() == old(self).object_table(),
                self.object_order() == old(self).object_order(),
                first_error(self, all, v as int).is_none(),
                old(self).tidy() ==> self.plain(),
                distinct_ids(object_views(objects@)) ==> apart_ids(all),
            decreases total - v,
        {
            proof {
                assert(all[v as int] == (
                    groups@[v as int].0,
                    object_views(groups@[v as int].1@),
                ));
            }
            match self.check_conversion(groups[v].0, &groups[v].1) {
                Some(e) => {
                    proof {
                        lemma_first_error_stays(self, all, v + 1, total as int);
                        if old(self).tidy() && distinct_ids(object_views(objects@)) {
                            lemma_batch_on_plain(self, all);
                        }
                    }
                    return Err(e);
                },
                None => {},
            }
            v += 1;
        }
        if !check_across(&groups) {
            return Err(Error::StateError);
        }
        proof {
            assert(batch_error(&mid, all).is_none());
            lemma_first_error_none(&mid, all, total as int);
        }
        let mut g: usize = 0;
        while g < total
            invariant
                g <= total,
                total == groups@.len(),
                all == group_views(recorded(groups@)),
                all == grouped(object_views(objects@)),
                distinct_keys(all),
                mid.wf(),
                mid.cleaned(old(self)),
                batch_error(&mid, all).is_none(),
                forall|j: int|
                    0 <= j < all.len() ==> conversion_error(
                        &mid,
                        (#[trigger] all[j]).0,
                        all[j].1,
                    ).is_none(),
                distinct_across(all),
                self.wf(),
                self.spec_config() == old(self).spec_config(),
                self.object_table() == old(self).object_table(),
                self.object_order() == old(self).object_order(),
                self.new_edges().len() == g,
                self.new_nodes().len() == g,
                stands_on(&mid, self, all, g as int),
                old(self).tidy() ==> self.tidy(),
                forall|j: int|
                    0 <= j < g ==> #[trigger] self.new_edges()[j] == (
                        all[j].0,
                        chain_edges(by_position(all[j].1)),
                    ),
                forall|j: int|
                    0 <= j < g ==> #[trigger] self.new_nodes()[j] == (
                        all[j].0,
                        chain_nodes(by_position(all[j].1)),
                    ),
                forall|j: int|
                    0 <= j < g ==> self.edge_table().contains_key((#[trigger] all[j]).0)
                        && has_chain(self, self.edge_table()[all[j].0]@, by_position(all[j].1)),
            decreases total - g,
        {
            let edge_id = groups[g].0;
            let members = crate::types::copy_objects(&groups[g].1);
            let ghost before = *self;
            proof {
                assert(all[g as int] == (
                    groups@[g as int].0,
                    object_views(groups@[g as int].1@),
                ));
                lemma_still_free(&mid, &before, all, g as int);
            }
            match self.convert_objects_as_node_in_edge(edge_id, members) {
                Ok(_) => {
                    proof {
                        let sorted = by_position(all[g as int].1);
                        let edges = before.new_edges();
                        let nodes = before.new_nodes();
                        assert forall|j: int| 0 <= j < g implies edges[j].0 != edge_id by {
                            assert(all[j].0 != all[g as int].0);
                        }
                        assert forall|j: int| 0 <= j < g implies nodes[j].0 != edge_id by {
                            assert(all[j].0 != all[g as int].0);
                        }
                        crate::records::lemma_record_index_is(edges, edge_id, g as int);
                        crate::records::lemma_record_index_is(nodes, edge_id, g as int);
                        assert(self.new_edges() == edges.push((edge_id, chain_edges(sorted))));
                        assert(self.new_nodes() == nodes.push((edge_id, chain_nodes(sorted))));
                        assert forall|j: int| 0 <= j < g + 1 implies #[trigger] self.new_edges()[j]
                            == (all[j].0, chain_edges(by_position(all[j].1))) by {
                            if j < g {
                                assert(self.new_edges()[j] == edges[j]);
                            }
                        }
                        assert forall|j: int| 0 <= j < g + 1 implies #[trigger] self.new_nodes()[j]
                            == (all[j].0, chain_nodes(by_position(all[j].1))) by {
                            if j < g {
                                assert(self.new_nodes()[j] == nodes[j]);
                            }
                        }
                        let cut_view = before.edge_table()[edge_id]@;
                        assert forall|j: int| 0 <= j < g + 1 implies self.edge_table().contains_key(
                            (#[trigger] all[j]).0,
                        ) && has_chain(
                            self,
                            self.edge_table()[all[j].0]@,
                            by_position(all[j].1),
                        ) by {
                            let key = all[j].0;
                            assert(before.edge_table().contains_key(key));
                            assert(self.edge_table()[key] == before.edge_table()[key]);
                            let e = before.edge_table()[key]@;
                            let s = by_position(all[j].1);
                            if j < g {
                                assert(has_chain(&before, e, s));
                                if s.len() > 0 {
                                    assert forall|k: int| 0 <= k <= s.len()
                                        implies #[trigger] has_link(
                                        self,
                                        e,
                                        s,
                                        k,
                                    ) by {
                                        assert(has_link(&before, e, s, k));
                                        lemma_grown_keeps_link(
                                            &before,
                                            self,
                                            cut_view,
                                            sorted,
                                            sorted.len() as int,
                                            sorted.len() > 0,
                                            e,
                                            s,
                                            k,
                                        );
                                    }
                                }
                            } else {
                                assert(s == sorted);
                                if s.len() > 0 {
                                    assert forall|k: int| 0 <= k <= s.len()
                                        implies #[trigger] has_link(
                                        self,
                                        e,
                                        s,
                                        k,
                                    ) by {
                                        if k < s.len() {
                                            assert(has_link(self, cut_view, sorted, k));
                                        }
                                    }
                                }
                            }
                        }
                        lemma_by_position(all[g as int].1);
                        lemma_stands_on_next(&mid, &before, self, all, g as int);
                    }
                },
                Err(e) => {
                    proof {
                        assert(false);
                    }
                    return Err(e);
                },
            }
            g += 1;
        }
        proof {
            assert(cut_all(old(self), &mid, self, all));
        }
        Ok(self.map_new_edge())
    }

    /// Makes the objects with the ids of `object_ids` nodes, see
    /// [`Graph::convert_objects_to_node`], and gives the ids of the new
    /// nodes, chain by chain. An id that the graph holds no object for is
    /// refused as not found, before anything changes. Ids that are all
    /// different are never refused for the state of a graph that records
    /// what it holds from conversions.
    pub fn convert_object_ids_to_node(&mut self, object_ids: Vec<ObjectId>) -> (r: Result<
        Vec<NodeId>,
        Error,
    >)
        requires
            old(self).wf(),
        ensures
            final(self).wf(),
            final(self).spec_config() == old(self).spec_config(),
            final(self).object_table() == old(self).object_table(),
            final(self).object_order() == old(self).object_order(),
            !all_known(old(self), object_ids@) ==> r == Err::<Vec<NodeId>, Error>(Error::NotFound)
                && final(self).same_as(old(self)),
            match r {
                Ok(nodes) => {
                    &&& all_known(old(self), object_ids@)
                    &&& nodes@ == flattened(final(self).new_nodes())
                    &&& chains_of(final(self), grouped(known_objects(old(self), object_ids@)))
                    &&& exists|mid: Graph| #[trigger]
                        cut_all(
                            old(self),
                            &mid,
                            final(self),
                            grouped(known_objects(old(self), object_ids@)),
                        )
                },
                Err(e) => all_known(old(self), object_ids@) ==> final(self).cleaned(old(self))
                    && batch_error(final(self), grouped(known_objects(old(self), object_ids@)))
                    == Some(e),
            },
            old(self).tidy() ==> final(self).tidy(),
            old(self).tidy() && object_ids@.no_duplicates() ==> !(r matches Err(e) && e
                == Error::StateError),
    {
        let mut objects: Vec<DataObject> = Vec::new();
        let mut i: usize = 0;
        while i < object_ids.len()
            invariant
                i <= object_ids.len(),
                *self == *old(self),
                self.wf(),
                all_known(self, object_ids@.take(i as int)),
                object_views(objects@) == known_objects(self, object_ids@.take(i as int)),
            decreases object_ids.len() - i,
        {
            let ghost front = object_ids@.take(i as int);
            match self.object(object_ids[i]) {
                Ok(o) => {
                    proof {
                        let next = object_ids@.take(i + 1);
                        assert(next.drop_last() =~= front);
                        assert forall|j: int| 0 <= j < next.len()
                            implies self.object_table().contains_key(
                         #[trigger] next[j]) by {
                            if j < i {
                                assert(front[j] == next[j]);
                            }
                        }
                        lemma_views_push(objects@, o);
                        assert(known_objects(self, next) =~= object_views(objects@).push(o@));
                    }
                    objects.push(o);
                },
                Err(e) => {
                    proof {
                        assert(!self.object_table().contains_key(object_ids@[i as int]));
                    }
                    return Err(Error::NotFound);
                },
            }
            i += 1;
        }
        proof {
            assert(object_ids@.take(i as int) =~= object_ids@);
            if object_ids@.no_duplicates() {
                let known = object_views(objects@);
                assert forall|a: int, b: int| 0 <= a < b < known.len() implies known[a].id
                    != known[b].id by {
                    self.lemma_object(object_ids@[a]);
                    self.lemma_object(object_ids@[b]);
                }
            }
        }
        match self.convert_objects_to_node(objects) {
            Ok(_) => {
                let made = self.map_new_node();
                let mut nodes: Vec<NodeId> = Vec::new();
                let mut j: usize = 0;
                while j < made.len()
                    invariant
                        j <= made.len(),
                        nodes@ == flattened(recorded(made@).take(j as int)),
                    decreases made.len() - j,
                {
                    let ghost base = nodes@;
                    let list = &made[j].1;
                    let mut q: usize = 0;
                    while q < list.len()
                        invariant
                            q <= list.len(),
                            nodes@ == base + list@.take(q as int),
                        decreases list.len() - q,
                    {
                        nodes.push(list[q]);
                        proof {
                            assert(base + list@.take(q + 1) =~= (base + list@.take(q as int)).push(
                                list@[q as int],
                            ));
                        }
                        q += 1;
                    }
                    proof {
                        assert(list@.take(q as int) =~= list@);
                        let records = recorded(made@);
                        assert(records.take(j + 1).drop_last() =~= records.take(j as int));
                        assert(records.take(j + 1).last().1 == list@);
                    }
                    j += 1;
                }
                proof {
                    assert(recorded(made@).take(j as int) =~= recorded(made@));
                }
                Ok(nodes)
            },
            Err(e) => Err(e),
        }
    }
}

/// The object with id `id` stands in one of the first `g` groups.
pub open spec fn made_from(groups: Seq<(EdgeId, Seq<ObjectView>)>, g: int, id: ObjectId) -> bool {
    exists|j: int, k: int|
        0 <= j < g && 0 <= k < groups[j].1.len() && (#[trigger] groups[j].1[k]).id == id
}

/// The object with id `id` stands before place `k` of group `j`: in an
/// earlier group, or earlier in the group.
pub open spec fn stands_before(
    groups: Seq<(EdgeId, Seq<ObjectView>)>,
    j: int,
    k: int,
    id: ObjectId,
) -> bool {
    made_from(groups, j, id) || exists|q: int| 0 <= q < k && (#[trigger] groups[j].1[q]).id == id
}

/// No object id stands twice in the groups.
pub open spec fn distinct_across(groups: Seq<(EdgeId, Seq<ObjectView>)>) -> bool {
    forall|j: int, k: int|
        0 <= j < groups.len() && 0 <= k < groups[j].1.len() ==> !stands_before(
            groups,
            j,
            k,
            (#[trigger] groups[j].1[k]).id,
        )
}

/// Why the first of the first `n` groups that cannot be cut cannot be cut,
/// if there is one.
pub open spec fn first_error(g: &Graph, groups: Seq<(EdgeId, Seq<ObjectView>)>, n: int) -> Option<
    Error,
>
    decreases n,
{
    if n <= 0 {
        None
    } else {
        match first_error(g, groups, n - 1) {
            Some(e) => Some(e),
            None => conversion_error(g, groups[n - 1].0, groups[n - 1].1),
        }
    }
}

/// Why the edges of `groups` cannot be cut into the chains through their
/// groups, if they cannot: the error of the first group that cannot be cut,
/// see [`conversion_error`]; or, where every group can be cut by itself, a
/// wrong state where an object id stands twice.
pub open spec fn batch_error(g: &Graph, groups: Seq<(EdgeId, Seq<ObjectView>)>) -> Option<Error> {
    match first_error(g, groups, groups.len() as int) {
        Some(e) => Some(e),
        None => if distinct_across(groups) {
            None
        } else {
            Some(Error::StateError)
        },
    }
}

/// Graph `g` stands on graph `mid` after the first `n` groups were cut:
/// what `mid` holds is there as it was, and every node and edge beside is
/// made from an object of these groups.
pub open spec fn stands_on(
    mid: &Graph,
    g: &Graph,
    groups: Seq<(EdgeId, Seq<ObjectView>)>,
    n: int,
) -> bool {
    &&& forall|id: EdgeId| #[trigger]
        mid.edge_table().contains_key(id) ==> g.edge_table().contains_key(id) && g.edge_table()[id]
            == mid.edge_table()[id]
    &&& forall|m: NodeId| #[trigger]
        mid.node_table().contains_key(m) ==> g.node_table().contains_key(m) && g.node_table()[m]
            == mid.node_table()[m]
    &&& forall|x: NodeId, y: NodeId|
        mid.id_between(x, y).is_some() ==> #[trigger] g.id_between(x, y) == mid.id_between(x, y)
    &&& forall|m: NodeId| #[trigger]
        g.adjacency().contains_key(m) ==> mid.adjacency().contains_key(m)
            || mid.node_table().contains_key(m) || (m > NODE_OFFSET && made_from(
            groups,
            n,
            (m - NODE_OFFSET) as ObjectId,
        ))
    &&& forall|m: NodeId| #[trigger]
        g.node_table().contains_key(m) ==> mid.node_table().contains_key(m) || (m > NODE_OFFSET
            && made_from(groups, n, (m - NODE_OFFSET) as ObjectId))
    &&& forall|id: EdgeId| #[trigger]
        g.edge_table().contains_key(id) ==> mid.edge_table().contains_key(id) || (id
            > EDGE_BEFORE_OFFSET && made_from(groups, n, (id - EDGE_BEFORE_OFFSET) as ObjectId))
            || (id > EDGE_AFTER_OFFSET && made_from(
            groups,
            n,
            (id - EDGE_AFTER_OFFSET) as ObjectId,
        ))
}

/// Graph `after` is graph `before` with the edges of `groups` cut into
/// chains: `mid` is `before` with earlier conversions taken back, every
/// edge of `groups` can be cut in `mid` and no object id stands twice, and
/// `after` stands on `mid`.
pub open spec fn cut_all(
    before: &Graph,
    mid: &Graph,
    after: &Graph,
    groups: Seq<(EdgeId, Seq<ObjectView>)>,
) -> bool {
    &&& mid.wf()
    &&& mid.cleaned(before)
    &&& batch_error(mid, groups).is_none()
    &&& stands_on(mid, after, groups, groups.len() as int)
}

/// An error among the first groups is the error of the whole.
pub proof fn lemma_first_error_stays(
    g: &Graph,
    groups: Seq<(EdgeId, Seq<ObjectView>)>,
    n: int,
    total: int,
)
    requires
        0 <= n <= total,
        first_error(g, groups, n).is_some(),
    ensures
        first_error(g, groups, total) == first_error(g, groups, n),
    decreases total - n,
{
    if n < total {
        lemma_first_error_stays(g, groups, n + 1, total);
    }
}

/// Where the first `n` groups have no error, each of them can be cut.
pub proof fn lemma_first_error_none(g: &Graph, groups: Seq<(EdgeId, Seq<ObjectView>)>, n: int)
    requires
        0 <= n <= groups.len(),
        first_error(g, groups, n).is_none(),
    ensures
        forall|j: int|
            0 <= j < n ==> conversion_error(g, (#[trigger] groups[j]).0, groups[j].1).is_none(),
    decreases n,
{
    if n > 0 {
        lemma_first_error_none(g, groups, n - 1);
    }
}

/// A group whose edge can be cut in `mid` can be cut in a graph that
/// stands on `mid` after the groups before it were cut, where no object id
/// stands twice.
pub proof fn lemma_still_free(
    mid: &Graph,
    g: &Graph,
    groups: Seq<(EdgeId, Seq<ObjectView>)>,
    n: int,
)
    requires
        0 <= n < groups.len(),
        stands_on(mid, g, groups, n),
        distinct_across(groups),
        forall|j: int|
            0 <= j < groups.len() ==> conversion_error(
                mid,
                (#[trigger] groups[j]).0,
                groups[j].1,
            ).is_none(),
    ensures
        conversion_error(g, groups[n].0, groups[n].1).is_none(),
        g.edge_table()[groups[n].0] == mid.edge_table()[groups[n].0],
{
    let key = groups[n].0;
    let list = groups[n].1;
    assert(conversion_error(mid, key, list).is_none());
    assert(mid.edge_table().contains_key(key));
    let e = mid.edge_table()[key];
    assert(mid.node_table().contains_key(e.ni) && mid.node_table().contains_key(e.nj));
    assert forall|k: int| 0 <= k < list.len() implies unused(g, (#[trigger] list[k]).id) by {
        let id = list[k].id;
        assert(in_range(list[k]));
        assert(unused(mid, list[k].id));
        assert(!stands_before(groups, n, k, groups[n].1[k].id));
        assert forall|other: ObjectId| made_from(groups, n, other) implies other != id
            && 0 < other < ID_LIMIT by {
            let (j, q) = choose|j: int, q: int|
                0 <= j < n && 0 <= q < groups[j].1.len() && (#[trigger] groups[j].1[q]).id
                    == other;
            assert(conversion_error(mid, groups[j].0, groups[j].1).is_none());
            assert(in_range(groups[j].1[q]));
        }
    }
}

/// After one more group was cut, the graph stands on `mid` with one more
/// group.
pub proof fn lemma_stands_on_next(
    mid: &Graph,
    before: &Graph,
    after: &Graph,
    groups: Seq<(EdgeId, Seq<ObjectView>)>,
    n: int,
)
    requires
        0 <= n < groups.len(),
        mid.wf(),
        stands_on(mid, before, groups, n),
        conversion_error(mid, groups[n].0, groups[n].1).is_none(),
        before.edge_table()[groups[n].0] == mid.edge_table()[groups[n].0],
        grown(
            before,
            after,
            before.edge_table()[groups[n].0]@,
            by_position(groups[n].1),
            groups[n].1.len() as int,
            groups[n].1.len() > 0,
        ),
    ensures
        stands_on(mid, after, groups, n + 1),
{
    let list = groups[n].1;
    let sorted = by_position(list);
    let e = before.edge_table()[groups[n].0]@;
    lemma_by_position(list);
    assert forall|id: ObjectId| made_from(groups, n, id) implies made_from(groups, n + 1, id) by {
        let (j, q) = choose|j: int, q: int|
            0 <= j < n && 0 <= q < groups[j].1.len() && (#[trigger] groups[j].1[q]).id == id;
        assert(0 <= j < n + 1);
    }
    assert forall|k: int| 0 <= k < sorted.len() implies made_from(
        groups,
        n + 1,
        (#[trigger] sorted[k]).id,
    ) && in_range(sorted[k]) by {
        let q = choose|q: int| 0 <= q < list.len() && list[q] == sorted[k];
        assert(groups[n].1[q].id == sorted[k].id);
        assert(in_range(list[q]));
    }
    assert forall|x: NodeId, y: NodeId| mid.id_between(x, y).is_some()
        implies #[trigger] after.id_between(
        x,
        y,
    ) == mid.id_between(x, y) by {
        assert(before.id_between(x, y) == mid.id_between(x, y));
    }
    assert forall|id: EdgeId| #[trigger] mid.edge_table().contains_key(id)
        implies after.edge_table().contains_key(
     id) && after.edge_table()[id] == mid.edge_table()[id] by {
        assert(before.edge_table().contains_key(id));
    }
    assert forall|m: NodeId| #[trigger] mid.node_table().contains_key(m)
        implies after.node_table().contains_key(
     m) && after.node_table()[m] == mid.node_table()[m] by {
        assert(before.node_table().contains_key(m));
    }
    assert forall|m: NodeId| #[trigger] after.adjacency().contains_key(m)
        implies mid.adjacency().contains_key(
     m) || mid.node_table().contains_key(m) || (m > NODE_OFFSET && made_from(
        groups,
        n + 1,
        (m - NODE_OFFSET) as ObjectId,
    )) by {
        if before.adjacency().contains_key(m) {
        } else if m == e.ni || m == e.nj {
        } else {
            let k = choose|k: int|
                0 <= k < sorted.len() && m == (#[trigger] sorted[k]).id + NODE_OFFSET;
            assert(made_from(groups, n + 1, sorted[k].id));
        }
    }
    assert forall|m: NodeId| #[trigger] after.node_table().contains_key(m)
        implies mid.node_table().contains_key(
     m) || (m > NODE_OFFSET && made_from(groups, n + 1, (m - NODE_OFFSET) as ObjectId)) by {
        if before.node_table().contains_key(m) {
        } else {
            let k = choose|k: int|
                0 <= k < sorted.len() && m == (#[trigger] sorted[k]).id + NODE_OFFSET;
            assert(made_from(groups, n + 1, sorted[k].id));
        }
    }
    assert forall|id: EdgeId| #[trigger] after.edge_table().contains_key(id)
        implies mid.edge_table().contains_key(
     id) || (id > EDGE_BEFORE_OFFSET && made_from(
        groups,
        n + 1,
        (id - EDGE_BEFORE_OFFSET) as ObjectId,
    )) || (id > EDGE_AFTER_OFFSET && made_from(
        groups,
        n + 1,
        (id - EDGE_AFTER_OFFSET) as ObjectId,
    )) by {
        if before.edge_table().contains_key(id) {
        } else {
            assert(is_chain_edge(sorted, sorted.len() as int, sorted.len() > 0, id));
            if exists|k: int|
                0 <= k < sorted.len() && id == (#[trigger] sorted[k]).id + EDGE_BEFORE_OFFSET {
                let k = choose|k: int|
                    0 <= k < sorted.len() && id == (#[trigger] sorted[k]).id
                        + EDGE_BEFORE_OFFSET;
                assert(made_from(groups, n + 1, sorted[k].id));
            } else {
                assert(made_from(groups, n + 1, sorted[sorted.len() - 1].id));
            }
        }
    }
}

/// Whether no object id stands twice in the groups.
pub fn check_across(groups: &Vec<(EdgeId, Vec<DataObject>)>) -> (ok: bool)
    ensures
        ok == distinct_across(group_views(recorded(groups@))),
{
    let ghost all = group_views(recorded(groups@));
    let mut seen: Vec<ObjectId> = Vec::new();
    let mut j: usize = 0;
    while j < groups.len()
        invariant
            j <= groups.len(),
            all == group_views(recorded(groups@)),
            forall|id: ObjectId| seen@.contains(id) <==> made_from(all, j as int, id),
            forall|a: int, k: int|
                0 <= a < j && 0 <= k < all[a].1.len() ==> !stands_before(
                    all,
                    a,
                    k,
                    (#[trigger] all[a].1[k]).id,
                ),
        decreases groups.len() - j,
    {
        let list = &groups[j].1;
        proof {
            assert(all[j as int] == (groups@[j as int].0, object_views(list@)));
        }
        let mut k: usize = 0;
        while k < list.len()
            invariant
                k <= list.len(),
                j < groups.len(),
                all == group_views(recorded(groups@)),
                all[j as int].1 == object_views(list@),
                forall|id: ObjectId| seen@.contains(id)
                    <==> stands_before(all, j as int, k as int, id),
                forall|a: int, q: int|
                    0 <= a < j && 0 <= q < all[a].1.len() ==> !stands_before(
                        all,
                        a,
                        q,
                        (#[trigger] all[a].1[q]).id,
                    ),
                forall|q: int|
                    0 <= q < k
                        ==> !stands_before(all, j as int, q, (#[trigger] all[j as int].1[q]).id),
            decreases list.len() - k,
        {
            let id = list[k].id;
            proof {
                assert(all[j as int].1[k as int] == list@[k as int]@);
            }
            let mut known = false;
            let mut q: usize = 0;
            while q < seen.len()
                invariant
                    q <= seen.len(),
                    known == seen@.take(q as int).contains(id),
                decreases seen.len() - q,
            {
                if seen[q] == id {
                    known = true;
                }
                proof {
                    let next = seen@.take(q + 1);
                    let front = seen@.take(q as int);
                    assert(next.drop_last() =~= front);
                    if front.contains(id) {
                        let w = choose|w: int| 0 <= w < front.len() && front[w] == id;
                        assert(next[w] == id);
                    }
                    if next.contains(id) && seen@[q as int] != id {
                        let w = choose|w: int| 0 <= w < next.len() && next[w] == id;
                        assert(front[w] == id);
                    }
                    if seen@[q as int] == id {
                        assert(next[q as int] == id);
                    }
                }
                q += 1;
            }
            proof {
                assert(seen@.take(q as int) =~= seen@);
            }
            if known {
                proof {
                    assert(stands_before(all, j as int, k as int, all[j as int].1[k as int].id));
                }
                return false;
            }
            let ghost before = seen@;
            seen.push(id);
            proof {
                assert forall|other: ObjectId| seen@.contains(other) <==> stands_before(
                    all,
                    j as int,
                    k + 1,
                    other,
                ) by {
                    if seen@.contains(other) {
                        let w = choose|w: int| 0 <= w < seen@.len() && seen@[w] == other;
                        if w < before.len() {
                            assert(before[w] == other);
                            assert(before.contains(other));
                            if !made_from(all, j as int, other) {
                                let p = choose|p: int|
                                    0 <= p < k && (#[trigger] all[j as int].1[p]).id == other;
                                assert(0 <= p < k + 1);
                            }
                        } else {
                            assert(all[j as int].1[k as int].id == other);
                        }
                    }
                    if stands_before(all, j as int, k + 1, other) {
                        if made_from(all, j as int, other) {
                            assert(before.contains(other));
                            let w = choose|w: int| 0 <= w < before.len() && before[w] == other;
                            assert(seen@[w] == other);
                        } else {
                            let p = choose|p: int|
                                0 <= p < k + 1 && (#[trigger] all[j as int].1[p]).id == other;
                            if p < k {
                                assert(stands_before(all, j as int, k as int, other));
                                assert(before.contains(other));
                                let w = choose|w: int| 0 <= w < before.len() && before[w] == other;
                                assert(seen@[w] == other);
                            } else {
                                assert(seen@[before.len() as int] == other);
                            }
                        }
                    }
                }
            }
            k += 1;
        }
        proof {
            assert forall|id: ObjectId| seen@.contains(id) <==> made_from(all, j + 1, id) by {
                if seen@.contains(id) {
                    if made_from(all, j as int, id) {
                        let (a, q) = choose|a: int, q: int|
                            0 <= a < j && 0 <= q < all[a].1.len() && (#[trigger] all[a].1[q]).id
                                == id;
                        assert(0 <= a < j + 1);
                    } else {
                        let p = choose|p: int|
                            0 <= p < list@.len() && (#[trigger] all[j as int].1[p]).id == id;
                    }
                }
                if made_from(all, j + 1, id) {
                    let (a, q) = choose|a: int, q: int|
                        0 <= a < j + 1 && 0 <= q < all[a].1.len() && (#[trigger] all[a].1[q]).id
                            == id;
                    if a < j {
                        assert(made_from(all, j as int, id));
                    } else {
                        assert(stands_before(all, j as int, list@.len() as int, id));
                    }
                }
            }
        }
        j += 1;
    }
    true
}

/// The objects of `list` grouped by edge: for each edge, in the order in
/// which the edges first come in the list, the objects on it, in their
/// order in the list.
pub open spec fn grouped(list: Seq<ObjectView>) -> Seq<(EdgeId, Seq<ObjectView>)>
    decreases list.len(),
{
    if list.len() == 0 {
        Seq::empty()
    } else {
        with_item(grouped(list.drop_last()), list.last().edge_id, list.last())
    }
}

/// No object id stands twice in the groups, neither in one group nor in
/// two.
pub open spec fn apart_ids(groups: Seq<(EdgeId, Seq<ObjectView>)>) -> bool {
    forall|j: int, k: int, p: int, q: int|
        0 <= j < groups.len() && 0 <= k < groups[j].1.len() && 0 <= p < groups.len() && 0 <= q
            < groups[p].1.len() && (j != p || k != q) ==> (#[trigger] groups[j].1[k]).id != (
        #[trigger] groups[p].1[q]).id
}

/// Every object of the groups is an object of `list`.
pub open spec fn taken_from(groups: Seq<(EdgeId, Seq<ObjectView>)>, list: Seq<ObjectView>) -> bool {
    forall|j: int, k: int|
        0 <= j < groups.len() && 0 <= k < groups[j].1.len() ==> list.contains(
            #[trigger] groups[j].1[k],
        )
}

/// Grouping a list without an id that stands twice gives groups without an
/// id that stands twice, and the objects of the groups are those of the
/// list.
pub proof fn lemma_grouped_apart(list: Seq<ObjectView>)
    requires
        distinct_ids(list),
    ensures
        apart_ids(grouped(list)),
        taken_from(grouped(list), list),
    decreases list.len(),
{
    if list.len() > 0 {
        let front = list.drop_last();
        let x = list.last();
        let last = list.len() - 1;
        assert(distinct_ids(front)) by {
            assert forall|i: int, j: int| 0 <= i < j < front.len() implies front[i].id
                != front[j].id by {
                assert(front[i] == list[i] && front[j] == list[j]);
            }
        }
        lemma_grouped_apart(front);
        let before = grouped(front);
        let after = grouped(list);
        let at = record_index(before, x.edge_id);
        crate::records::lemma_record_index(before, x.edge_id);
        // Where an object of the groups comes from: the groups before, or
        // the object that was added.
        assert forall|j: int, k: int|
            0 <= j < after.len() && 0 <= k < after[j].1.len() implies (#[trigger] after[j].1[k]
            == x && j == at && k == after[j].1.len() - 1) || (j < before.len() && k
            < before[j].1.len() && after[j].1[k] == before[j].1[k]) by {
            if at < before.len() {
                if j != at {
                    assert(after[j] == before[j]);
                }
            } else {
                if j < before.len() {
                    assert(after[j] == before[j]);
                }
            }
        }
        assert forall|j: int, k: int|
            0 <= j < before.len() && 0 <= k < before[j].1.len() implies (
        #[trigger] before[j].1[k]).id != x.id by {
            assert(front.contains(before[j].1[k]));
            let i = choose|i: int| 0 <= i < front.len() && front[i] == before[j].1[k];
            assert(list[i] == front[i]);
            assert(list[i].id != list[last].id);
        }
        assert forall|j: int, k: int|
            0 <= j < after.len() && 0 <= k < after[j].1.len() implies list.contains(
            #[trigger] after[j].1[k],
        ) by {
            if after[j].1[k] == x && j == at && k == after[j].1.len() - 1 {
                assert(list[last] == x);
            } else {
                assert(front.contains(before[j].1[k]));
                let i = choose|i: int| 0 <= i < front.len() && front[i] == before[j].1[k];
                assert(list[i] == front[i]);
            }
        }
        assert forall|j: int, k: int, p: int, q: int|
            0 <= j < after.len() && 0 <= k < after[j].1.len() && 0 <= p < after.len() && 0 <= q
                < after[p].1.len() && (j != p || k != q) implies (#[trigger] after[j].1[k]).id != (
        #[trigger] after[p].1[q]).id by {
            let first_new = after[j].1[k] == x && j == at && k == after[j].1.len() - 1;
            let second_new = after[p].1[q] == x && p == at && q == after[p].1.len() - 1;
            if first_new && second_new {
                assert(false);
            } else if first_new {
                assert(before[p].1[q].id != x.id);
            } else if second_new {
                assert(before[j].1[k].id != x.id);
            } else {
                assert(before[j].1[k].id != before[p].1[q].id);
            }
        }
    }
}

/// Groups without an id that stands twice can be cut one after the other:
/// no group holds an id twice, and no id stands in two groups.
pub proof fn lemma_apart_distinct(groups: Seq<(EdgeId, Seq<ObjectView>)>)
    requires
        apart_ids(groups),
    ensures
        distinct_across(groups),
        forall|j: int| 0 <= j < groups.len() ==> distinct_ids((#[trigger] groups[j]).1),
{
    assert forall|j: int, k: int|
        0 <= j < groups.len() && 0 <= k < groups[j].1.len() implies !stands_before(
        groups,
        j,
        k,
        (#[trigger] groups[j].1[k]).id,
    ) by {
        let id = groups[j].1[k].id;
        if made_from(groups, j, id) {
            let (p, q) = choose|p: int, q: int|
                0 <= p < j && 0 <= q < groups[p].1.len() && (#[trigger] groups[p].1[q]).id == id;
            assert(groups[j].1[k].id != groups[p].1[q].id);
        }
        if exists|q: int| 0 <= q < k && (#[trigger] groups[j].1[q]).id == id {
            let q = choose|q: int| 0 <= q < k && (#[trigger] groups[j].1[q]).id == id;
            assert(groups[j].1[k].id != groups[j].1[q].id);
        }
    }
    assert forall|j: int| 0 <= j < groups.len() implies distinct_ids((#[trigger] groups[j]).1) by {
        assert forall|a: int, b: int| 0 <= a < b < groups[j].1.len() implies groups[j].1[a].id
            != groups[j].1[b].id by {
            assert(groups[j].1[a].id != groups[j].1[b].id);
        }
    }
}

/// In a graph that holds nothing from conversions, groups without an id
/// that stands twice are never refused for the state of the graph: where
/// they cannot be cut, an edge or a node is not found or an object cannot
/// become a node.
pub proof fn lemma_batch_on_plain(g: &Graph, groups: Seq<(EdgeId, Seq<ObjectView>)>)
    requires
        g.plain(),
        apart_ids(groups),
    ensures
        batch_error(g, groups) != Some(Error::StateError),
{
    lemma_apart_distinct(groups);
    lemma_first_error_on_plain(g, groups, groups.len() as int);
}

/// In a graph that holds nothing from conversions, the first group that
/// cannot be cut is not refused for the state of the graph, where no group
/// holds an id twice.
pub proof fn lemma_first_error_on_plain(
    g: &Graph,
    groups: Seq<(EdgeId, Seq<ObjectView>)>,
    n: int,
)
    requires
        g.plain(),
        n <= groups.len(),
        forall|j: int| 0 <= j < groups.len() ==> distinct_ids((#[trigger] groups[j]).1),
    ensures
        first_error(g, groups, n) != Some(Error::StateError),
    decreases n,
{
    if n > 0 {
        lemma_first_error_on_plain(g, groups, n - 1);
        assert(distinct_ids(groups[n - 1].1));
        if all_in_range(groups[n - 1].1) {
            lemma_plain_unused(g, groups[n - 1].1);
        }
    }
}

/// The graph has every mini-edge of the chain that edge `e` was cut into.
pub open spec fn has_chain(g: &Graph, e: EdgeView, sorted: Seq<ObjectView>) -> bool {
    sorted.len() > 0 ==> forall|k: int| 0 <= k <= sorted.len()
        ==> #[trigger] has_link(g, e, sorted, k)
}

/// What a graph in order holds of a chain stays when another edge is cut.
pub proof fn lemma_grown_keeps_link(
    g0: &Graph,
    g: &Graph,
    cut_edge: EdgeView,
    cut_at: Seq<ObjectView>,
    i: int,
    closed: bool,
    e: EdgeView,
    sorted: Seq<ObjectView>,
    k: int,
)
    requires
        g0.wf(),
        grown(g0, g, cut_edge, cut_at, i, closed),
        has_link(g0, e, sorted, k),
    ensures
        has_link(g, e, sorted, k),
{
    let from = chain_stop(e, sorted, k);
    let to = chain_stop(e, sorted, k + 1);
    g0.lemma_edge_between(from, to);
    assert(g.id_between(from, to) == g0.id_between(from, to));
    assert(g0.node_table().contains_key(from) && g0.node_table().contains_key(to));
    let id = g0.id_between(from, to).unwrap();
    assert(g0.edge_table().contains_key(id));
}

/// The graph records, for each group of `groups` and in their order, the
/// chain through the objects of the group: the ids of its mini-edges and
/// the ids of its nodes. The edge of each group is there, and so is every
/// mini-edge of its chain.
pub open spec fn chains_of(g: &Graph, groups: Seq<(EdgeId, Seq<ObjectView>)>) -> bool {
    &&& forall|j: int|
        0 <= j < groups.len() ==> g.edge_table().contains_key((#[trigger] groups[j]).0)
            && has_chain(g, g.edge_table()[groups[j].0]@, by_position(groups[j].1))
    &&& g.new_edges().len() == groups.len()
    &&& g.new_nodes().len() == groups.len()
    &&& forall|j: int|
        0 <= j < groups.len() ==> #[trigger] g.new_edges()[j] == (
            groups[j].0,
            chain_edges(by_position(groups[j].1)),
        )
    &&& forall|j: int|
        0 <= j < groups.len() ==> #[trigger] g.new_nodes()[j] == (
            groups[j].0,
            chain_nodes(by_position(groups[j].1)),
        )
}

/// The graph holds an object for each id of `ids`.
pub open spec fn all_known(g: &Graph, ids: Seq<ObjectId>) -> bool {
    forall|i: int| 0 <= i < ids.len() ==> g.object_table().contains_key(#[trigger] ids[i])
}

/// The objects that the graph holds for the ids of `ids`, in their order.
pub open spec fn known_objects(g: &Graph, ids: Seq<ObjectId>) -> Seq<ObjectView> {
    Seq::new(ids.len(), |i: int| g.object_table()[ids[i]]@)
}

/// The groups of a list with their objects as mathematics.
pub open spec fn group_views(list: Seq<(EdgeId, Seq<DataObject>)>) -> Seq<
    (EdgeId, Seq<ObjectView>),
> {
    list.map_values(|p: (EdgeId, Seq<DataObject>)| (p.0, object_views(p.1)))
}

/// Adding an object to its group and then taking the groups as
/// mathematics gives what adding the object as mathematics gives.
pub proof fn lemma_group_views_item(list: Seq<(EdgeId, Seq<DataObject>)>, key: EdgeId,
    o: DataObject)
    ensures
        group_views(with_item(list, key, o)) == with_item(group_views(list), key, o@),
{
    let views = group_views(list);
    crate::records::lemma_record_index(list, key);
    let at = crate::records::record_index(list, key);
    assert forall|j: int| 0 <= j < at implies views[j].0 != key by {
        assert(views[j].0 == list[j].0);
    }
    crate::records::lemma_record_index_is(views, key, at);
    if at < list.len() {
        lemma_views_push(list[at].1, o);
        assert(group_views(with_item(list, key, o)) =~= with_item(views, key, o@));
    } else {
        assert(object_views(seq![o]) =~= seq![o@]);
        assert(group_views(with_item(list, key, o)) =~= with_item(views, key, o@));
    }
}

/// The lists of `list`, one after the other.
pub open spec fn flattened(list: Seq<(EdgeId, Seq<NodeId>)>) -> Seq<NodeId>
    decreases list.len(),
{
    if list.len() == 0 {
        Seq::empty()
    } else {
        flattened(list.drop_last()) + list.last().1
    }
}

/// No edge has two groups.
pub proof fn lemma_grouped_keys(list: Seq<ObjectView>)
    ensures
        distinct_keys(grouped(list)),
    decreases list.len(),
{
    if list.len() > 0 {
        lemma_grouped_keys(list.drop_last());
        lemma_with_item_keys(grouped(list.drop_last()), list.last().edge_id, list.last());
    }
}

} // verus!
