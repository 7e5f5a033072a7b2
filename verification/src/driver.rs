//! The passes over a data set: the store is built object by object and
//! group by group, and kept up as objects come and go.
//!
//! An object or a level that cannot be worked on is passed over and
//! counted; the pass goes on with the next.

use crate::convert::conversion_error;
use crate::dominance::{dominance_run, paired_between, DomTraverse, Tally, LEVELS};
use crate::edge_result::Coverage;
use crate::graph::Graph;
use crate::queries::{generate_k, levels_up_to, Group, GroupView, Queries};
use crate::store::{
    edge_table, lemma_edge_table, removed_at, removed_everywhere, ResultVoronoi,
};
use crate::types::{
    object_views, DataEdge, DataObject, EdgeId, Error, ObjectId, ObjectView, Range, ID_LIMIT, K,
    NODE_OFFSET,
};
use crate::voronoi::{
    all_edges_known, built, exhausted_after, gathered, lemma_exhausted_once, overlaid, remapped,
    scope_error, stored, Voronoi,
};
use crate::voronoi_heap::{
    after_steps, continued, lemma_continued_level, lemma_steps_keep, VoronoiModel,
};
use vstd::prelude::*;

verus! {

/// The levels of the queries of a group as a sequence.
pub open spec fn group_levels(queries: Seq<crate::types::QueryView>) -> Seq<K> {
    queries.map_values(|q: crate::types::QueryView| q.k)
}

/// The levels of `levels` from `k` up, in their order.
pub open spec fn levels_from(levels: Seq<K>, k: K) -> Seq<K> {
    levels.filter(|l: K| l >= k)
}

/// The levels of the queries of `group`, in the order of the group.
pub fn levels_of(group: &Group) -> (levels: Vec<K>)
    ensures
        levels@ == group_levels(group@.queries),
{
    let mut levels: Vec<K> = Vec::new();
    let mut walk = group.iter();
    let ghost all = group@.queries;
    let ghost mut seen: nat = 0;
    proof {
        assert(all.skip(0) =~= all);
        assert(levels@ =~= group_levels(all.take(0)));
    }
    loop
        invariant
            walk.wf(),
            seen <= all.len(),
            walk.remaining() == all.skip(seen as int),
            levels@ == group_levels(all.take(seen as int)),
        ensures
            levels@ == group_levels(all),
        decreases all.len() - seen,
    {
        match walk.next() {
            Some(q) => {
                levels.push(q.k);
                proof {
                    assert(all.skip(seen as int)[0] == all[seen as int]);
                    assert(all.skip(seen as int).drop_first() =~= all.skip(seen as int + 1));
                    assert(group_levels(all.take(seen as int + 1)) =~= group_levels(
                        all.take(seen as int),
                    ).push(all[seen as int].k));
                    seen = seen + 1;
                }
            },
            None => {
                proof {
                    assert(all.skip(seen as int).len() == 0);
                    assert(all.take(seen as int) =~= all);
                }
                break ;
            },
        }
    }
    levels
}

/// The levels of `levels` from `k` up, in their order.
pub fn from_level(levels: &Vec<K>, k: K) -> (kept: Vec<K>)
    ensures
        kept@ == levels_from(levels@, k),
{
    let mut kept: Vec<K> = Vec::new();
    let ghost keep = |l: K| l >= k;
    let mut i: usize = 0;
    while i < levels.len()
        invariant
            i <= levels.len(),
            keep == (|l: K| l >= k),
            kept@ == levels@.take(i as int).filter(keep),
        decreases levels.len() - i,
    {
        proof {
            reveal(Seq::filter);
            assert(levels@.take(i + 1).drop_last() =~= levels@.take(i as int));
        }
        if levels[i] >= k {
            kept.push(levels[i]);
        }
        i += 1;
    }
    proof {
        assert(levels@.take(i as int) =~= levels@);
    }
    kept
}

/// The number of steps after which a traversal from the model `m` finds
/// nothing waiting.
pub open spec fn run_length(m: VoronoiModel, graph: &Graph) -> nat {
    choose|n: nat| exhausted_after(m, graph, n)
}

/// A scope on its way into a store, level by level.
pub struct Covering {
    /// The traversal.
    pub heap: VoronoiModel,
    /// The ranges of the object, by edge.
    pub scope: Seq<(EdgeId, Seq<Range>)>,
    /// What the store holds.
    pub store: Map<(EdgeId, K), Coverage>,
    /// The number of levels that were passed over.
    pub skipped: int,
}

/// `c` after the ranges of its scope were recorded at level `k` for the
/// object `object_id`. With `renew`, what the store holds for the object at
/// level `k` is removed first. Where the store does not know an edge of
/// the scope, nothing is recorded and the level counts as passed over.
pub open spec fn recorded_level(
    c: Covering,
    edges: Map<EdgeId, DataEdge>,
    object_id: ObjectId,
    renew: bool,
    k: K,
) -> Covering {
    let cleared = if renew && object_id < ID_LIMIT {
        removed_at(c.store, (object_id + NODE_OFFSET) as ObjectId, k)
    } else {
        c.store
    };
    if all_edges_known(edges, c.scope) {
        Covering { store: stored(cleared, edges, c.scope, k, c.scope.len() as int), ..c }
    } else {
        Covering { store: cleared, skipped: c.skipped + 1, ..c }
    }
}

/// `c` after its scope was continued at level `k` on `graph` and recorded.
/// A level that is not above the active one is passed over, and nothing
/// changes but the count.
pub open spec fn continued_level(
    c: Covering,
    graph: &Graph,
    edges: Map<EdgeId, DataEdge>,
    object_id: ObjectId,
    renew: bool,
    k: K,
) -> Covering {
    if k > c.heap.current_k {
        let resumed = continued(c.heap, k);
        let n = run_length(resumed, graph);
        recorded_level(
            Covering {
                heap: after_steps(resumed, graph, n),
                scope: remapped(
                    overlaid(
                        c.scope,
                        gathered(
                            resumed,
                            graph,
                            (object_id + NODE_OFFSET) as ObjectId,
                            graph.spec_config().max_dist,
                            n,
                        ),
                    ),
                    graph,
                    graph.new_edges(),
                    graph.new_edges().len() as int,
                ),
                ..c
            },
            edges,
            object_id,
            renew,
            k,
        )
    } else {
        Covering { skipped: c.skipped + 1, ..c }
    }
}

/// `first`, which stands after the first of `levels`, after the levels
/// before the `n`-th were worked on as well, each as [`continued_level`]
/// says.
pub open spec fn covering(
    first: Covering,
    graph: &Graph,
    edges: Map<EdgeId, DataEdge>,
    object_id: ObjectId,
    renew: bool,
    levels: Seq<K>,
    n: int,
) -> Covering
    decreases n,
{
    if n <= 1 {
        first
    } else {
        continued_level(
            covering(first, graph, edges, object_id, renew, levels, n - 1),
            graph,
            edges,
            object_id,
            renew,
            levels[n - 1],
        )
    }
}

/// The coverage of the object with id `object_id` was brought into a store
/// for the levels of `levels`, which are not empty: the scope was built at
/// the first level, see [`built`], with the traversal `heap` and the
/// ranges `scope`, and recorded; then it was continued and recorded at
/// each further level, see [`covering`]. This took the graph from `before`
/// to `after` and the store from `store0` to `store1`, and `skipped`
/// levels were passed over.
pub open spec fn covered_with(
    before: &Graph,
    after: &Graph,
    store0: Map<(EdgeId, K), Coverage>,
    store1: Map<(EdgeId, K), Coverage>,
    edges: Map<EdgeId, DataEdge>,
    object_id: ObjectId,
    levels: Seq<K>,
    renew: bool,
    skipped: int,
    heap: VoronoiModel,
    scope: Seq<(EdgeId, Seq<Range>)>,
) -> bool {
    let first = recorded_level(
        Covering { heap, scope, store: store0, skipped: 0 },
        edges,
        object_id,
        renew,
        levels[0],
    );
    let end = covering(first, after, edges, object_id, renew, levels, levels.len() as int);
    &&& before.object_table().contains_key(object_id)
    &&& exists|mid: Graph, cleaned: Graph, bare: Graph, visits: nat, steps: nat, tally: Tally|
        #[trigger] built(
            before,
            &mid,
            &cleaned,
            &bare,
            after,
            before.object_table()[object_id]@,
            levels[0],
            visits,
            steps,
            tally,
            heap,
            scope,
        )
    &&& store1 == end.store
    &&& skipped == end.skipped
}

/// What bringing the coverage of the object with id `object_id` into a
/// store for the levels of `levels` does: it takes the graph from `before`
/// to `after` and the store from `store0` to `store1`, and passes over
/// `skipped` levels.
///
/// Without levels nothing happens. Where the scope cannot be built at the
/// first level, see [`scope_error`], every level is passed over and the
/// store is as it was. Else see [`covered_with`].
pub open spec fn cover_outcome(
    before: &Graph,
    after: &Graph,
    store0: Map<(EdgeId, K), Coverage>,
    store1: Map<(EdgeId, K), Coverage>,
    edges: Map<EdgeId, DataEdge>,
    object_id: ObjectId,
    levels: Seq<K>,
    renew: bool,
    skipped: int,
) -> bool {
    if levels.len() == 0 {
        skipped == 0 && store1 == store0 && after == before
    } else {
        ||| skipped == levels.len() && store1 == store0 && exists|e: Error| #[trigger]
            scope_error(before, after, object_id, levels[0], e)
        ||| exists|heap: VoronoiModel, scope: Seq<(EdgeId, Seq<Range>)>| #[trigger]
            covered_with(
                before,
                after,
                store0,
                store1,
                edges,
                object_id,
                levels,
                renew,
                skipped,
                heap,
                scope,
            )
    }
}

/// Brings the coverage of object `object_id` into `result` for the levels
/// of `levels`, taken in their order: the scope of the object is built at
/// the first level and continued at each further one, and after each the
/// ranges are recorded. With `renew`, what `result` holds for the object
/// at a level is removed before the ranges of that level are recorded.
/// Gives the number of levels that were passed over: all of them where the
/// scope cannot be built, and each level at which it cannot be continued
/// or its ranges cannot be recorded.
pub fn cover(
    graph: &mut Graph,
    result: &mut ResultVoronoi,
    object_id: ObjectId,
    levels: &Vec<K>,
    renew: bool,
) -> (skipped: usize)
    requires
        old(graph).wf(),
        old(result).wf(),
    ensures
        final(graph).wf(),
        final(graph).spec_config() == old(graph).spec_config(),
        final(graph).object_table() == old(graph).object_table(),
        final(graph).object_order() == old(graph).object_order(),
        final(result).wf(),
        final(result).edges() == old(result).edges(),
        old(graph).plain() ==> final(graph).tidy(),
        skipped <= levels@.len(),
        cover_outcome(
            old(graph),
            final(graph),
            old(result)@,
            final(result)@,
            old(result).edges(),
            object_id,
            levels@,
            renew,
            skipped as int,
        ),
{
    if levels.len() == 0 {
        return 0;
    }
    let ghost edges = result.edges();
    let ghost store0 = result@;
    proof {
        if graph.object_table().contains_key(object_id) {
            graph.lemma_object(object_id);
        }
    }
    let mut skipped: usize = 0;
    let mut voronoi = match Voronoi::initial_voronoi(graph, object_id, levels[0]) {
        Ok(v) => v,
        Err(e) => {
            proof {
                assert(scope_error(old(graph), graph, object_id, levels@[0], e));
            }
            return levels.len();
        },
    };
    let ghost after = *voronoi.graph();
    let ghost o = old(graph).object_table()[object_id]@;
    let ghost heap = voronoi.heap();
    let ghost scope = voronoi.scope();
    proof {
        let (mid, cleaned, bare, visits, steps, tally) = choose|
            mid: Graph,
            cleaned: Graph,
            bare: Graph,
            visits: nat,
            steps: nat,
            tally: Tally,
        | #[trigger]
            voronoi.built_from(
                old(graph),
                &mid,
                &cleaned,
                &bare,
                o,
                levels@[0],
                visits,
                steps,
                tally,
            );
        assert(built(
            old(graph),
            &mid,
            &cleaned,
            &bare,
            &after,
            o,
            levels@[0],
            visits,
            steps,
            tally,
            heap,
            scope,
        ));
    }
    if renew && object_id < ID_LIMIT {
        result.remove(object_id + NODE_OFFSET, levels[0]);
    }
    if voronoi.save_to_result(result).is_err() {
        skipped += 1;
    }
    let ghost first = recorded_level(
        Covering { heap, scope, store: store0, skipped: 0 },
        edges,
        object_id,
        renew,
        levels@[0],
    );
    let mut i: usize = 1;
    while i < levels.len()
        invariant
            1 <= i <= levels.len(),
            voronoi.wf(),
            *voronoi.graph() == after,
            voronoi.centroid() == object_id + NODE_OFFSET,
            voronoi.max_distance() == after.spec_config().max_dist,
            result.wf(),
            result.edges() == edges,
            skipped <= i,
            covering(first, &after, edges, object_id, renew, levels@, i as int) == (Covering {
                heap: voronoi.heap(),
                scope: voronoi.scope(),
                store: result@,
                skipped: skipped as int,
            }),
        decreases levels.len() - i,
    {
        let ghost paused = voronoi;
        match voronoi.continue_voronoi(levels[i]) {
            Ok(()) => {
                proof {
                    let k = levels@[i as int];
                    let resumed = continued(paused.heap(), k);
                    let n = choose|n: nat| #[trigger] voronoi.continued_from(&paused, k, n);
                    lemma_exhausted_once(resumed, &after, n, run_length(resumed, &after));
                    lemma_steps_keep(resumed, &after, n);
                    lemma_continued_level(paused.heap(), k);
                }
                if renew && object_id < ID_LIMIT {
                    result.remove(object_id + NODE_OFFSET, levels[i]);
                }
                if voronoi.save_to_result(result).is_err() {
                    skipped += 1;
                }
            },
            Err(_) => {
                skipped += 1;
            },
        }
        i += 1;
    }
    proof {
        assert(covered_with(
            old(graph),
            &after,
            store0,
            result@,
            edges,
            object_id,
            levels@,
            renew,
            skipped as int,
            heap,
            scope,
        ));
    }
    skipped
}

/// A data set and its store in the course of a pass, with the number of
/// levels that were passed over so far.
pub struct Pass {
    /// The graph.
    pub graph: Graph,
    /// What the store holds.
    pub store: Map<(EdgeId, K), Coverage>,
    /// The number of levels that were passed over.
    pub skipped: int,
}

/// A count as it is handed out: a count above the largest number is
/// handed out as the largest number.
pub open spec fn capped(n: int) -> int {
    if n > usize::MAX {
        usize::MAX as int
    } else {
        n
    }
}

/// From `a` to `b`, the coverage of the object with id `object_id` was
/// brought into the store for the levels of `levels`: see
/// [`cover_outcome`].
pub open spec fn covered(
    a: Pass,
    b: Pass,
    edges: Map<EdgeId, DataEdge>,
    object_id: ObjectId,
    levels: Seq<K>,
    renew: bool,
) -> bool {
    cover_outcome(
        &a.graph,
        &b.graph,
        a.store,
        b.store,
        edges,
        object_id,
        levels,
        renew,
        b.skipped - a.skipped,
    )
}

/// From `a` to `b`, the conversions were taken back, and nothing else
/// changed.
pub open spec fn settled(a: Pass, b: Pass) -> bool {
    b.graph.cleaned(&a.graph) && b.store == a.store && b.skipped == a.skipped
}

/// From `a` to `b`, the coverage of the object with id `object_id` was
/// brought into the store for the levels of `levels`, and the conversions
/// were taken back.
pub open spec fn covered_and_settled(
    a: Pass,
    b: Pass,
    edges: Map<EdgeId, DataEdge>,
    object_id: ObjectId,
    levels: Seq<K>,
    renew: bool,
) -> bool {
    exists|mid: Pass| #[trigger]
        covered(a, mid, edges, object_id, levels, renew) && settled(mid, b)
}

/// From `a` to `b`, the coverage of the object with id `object_id` was
/// brought into the store for the levels of each of the first `n` groups
/// of `groups`, group by group, and after each group the conversions were
/// taken back.
pub open spec fn groups_covered(
    a: Pass,
    b: Pass,
    edges: Map<EdgeId, DataEdge>,
    object_id: ObjectId,
    groups: Seq<GroupView>,
    n: int,
) -> bool
    decreases n,
{
    if n <= 0 {
        b == a
    } else {
        exists|mid: Pass|
            groups_covered(a, mid, edges, object_id, groups, n - 1)
                && #[trigger] covered_and_settled(
                mid,
                b,
                edges,
                object_id,
                group_levels(groups[n - 1].queries),
                false,
            )
    }
}

/// From `a` to `b`, the coverage of the object with id `object_id` was
/// brought into the store for every group of `groups`, and then the
/// conversions were taken back.
pub open spec fn object_built(
    a: Pass,
    b: Pass,
    edges: Map<EdgeId, DataEdge>,
    object_id: ObjectId,
    groups: Seq<GroupView>,
) -> bool {
    exists|mid: Pass| #[trigger]
        groups_covered(a, mid, edges, object_id, groups, groups.len() as int) && settled(mid, b)
}

/// From `a` to `b`, each of the first `n` objects of `objects` was worked
/// on as [`object_built`] says, object by object.
pub open spec fn objects_built(
    a: Pass,
    b: Pass,
    edges: Map<EdgeId, DataEdge>,
    objects: Seq<ObjectId>,
    groups: Seq<GroupView>,
    n: int,
) -> bool
    decreases n,
{
    if n <= 0 {
        b == a
    } else {
        exists|mid: Pass|
            objects_built(a, mid, edges, objects, groups, n - 1) && #[trigger] object_built(
                mid,
                b,
                edges,
                objects[n - 1],
                groups,
            )
    }
}

/// The store `store` was built for the data set `before` and the groups
/// `groups`, which left the graph `after`; `skipped` is the number of
/// levels that were passed over, as it is handed out. The store knows the
/// edges that lie between two nodes and starts empty, and every object of
/// the graph is worked on, in the order in which the objects came: see
/// [`object_built`].
pub open spec fn construct_outcome(
    before: &Graph,
    after: &Graph,
    store: Map<(EdgeId, K), Coverage>,
    groups: Seq<GroupView>,
    skipped: int,
) -> bool {
    exists|total: int| #[trigger]
        capped(total) == skipped && objects_built(
            Pass { graph: *before, store: Map::empty(), skipped: 0 },
            Pass { graph: *after, store, skipped: total },
            before.linked_edges(),
            before.object_order(),
            groups,
            before.object_order().len() as int,
        )
}

/// A store that is made from the edges of a graph knows the edges that
/// lie between two nodes of the graph.
proof fn lemma_store_edges(graph: &Graph, list: Seq<DataEdge>)
    requires
        forall|i: int|
            0 <= i < list.len() ==> graph.weights().values().contains((#[trigger] list[i]).id)
                && list[i] == (DataEdge {
                id: list[i].id,
                ni: graph.edge_table()[list[i].id].ni,
                nj: graph.edge_table()[list[i].id].nj,
                len: graph.edge_table()[list[i].id].len,
            }),
        forall|id: EdgeId|
            graph.weights().values().contains(id) ==> exists|i: int|
                0 <= i < list.len() && (#[trigger] list[i]).id == id,
    ensures
        edge_table(list) == graph.linked_edges(),
{
    let table = edge_table(list);
    let linked = graph.linked_edges();
    assert forall|id: EdgeId| #[trigger] table.dom().contains(id) implies linked.dom().contains(id)
        && table[id] == linked[id] by {
        lemma_edge_table(list, id);
    }
    assert forall|id: EdgeId| #[trigger] linked.dom().contains(id) implies table.dom().contains(
        id,
    ) by {
        lemma_edge_table(list, id);
    }
    assert(edge_table(list) =~= graph.linked_edges());
}

/// The ids of `objects`, which are the objects of `graph` in their order,
/// are the ids of that order.
proof fn lemma_ids_in_order(graph: &Graph, objects: Seq<DataObject>)
    requires
        graph.wf(),
        objects.len() == graph.object_order().len(),
        forall|i: int|
            0 <= i < objects.len() ==> (#[trigger] objects[i])@
                == graph.object_table()[graph.object_order()[i]]@,
        forall|i: int|
            0 <= i < graph.object_order().len() ==> graph.object_table().contains_key(
                #[trigger] graph.object_order()[i],
            ),
    ensures
        forall|i: int|
            0 <= i < objects.len() ==> (#[trigger] objects[i]).id == graph.object_order()[i],
{
    assert forall|i: int| 0 <= i < objects.len() implies (#[trigger] objects[i]).id
        == graph.object_order()[i] by {
        graph.lemma_object(graph.object_order()[i]);
        assert(objects[i]@.id == objects[i].id);
    }
}

/// Builds the store for a data set: for each object of the graph, in the
/// order in which the objects came, and for each group of queries, the
/// coverage of the object is recorded for the levels of the group. After
/// each group and each object the conversions are taken back. Gives the store and the
/// number of levels that were passed over.
pub fn construct(graph: &mut Graph, queries: &Queries) -> (r: (ResultVoronoi, usize))
    requires
        old(graph).wf(),
    ensures
        final(graph).wf(),
        final(graph).spec_config() == old(graph).spec_config(),
        old(graph).plain() ==> final(graph).plain(),
        final(graph).object_table() == old(graph).object_table(),
        final(graph).object_order() == old(graph).object_order(),
        r.0.wf(),
        r.0.edges() == old(graph).linked_edges(),
        construct_outcome(old(graph), final(graph), r.0@, queries@, r.1 as int),
{
    let linked = graph.map_edges();
    proof {
        lemma_store_edges(graph, linked@);
    }
    let mut result = ResultVoronoi::from_edge_ids(linked);
    let objects = graph.all_objects();
    let ghost edges = result.edges();
    let ghost order = graph.object_order();
    let ghost start = Pass { graph: *graph, store: result@, skipped: 0 };
    let ghost mut total: int = 0;
    proof {
        graph.lemma_objects_filed();
        lemma_ids_in_order(graph, objects@);
    }
    let mut skipped: usize = 0;
    let mut o: usize = 0;
    while o < objects.len()
        invariant
            o <= objects.len(),
            objects@.len() == order.len(),
            forall|i: int| 0 <= i < objects@.len() ==> (#[trigger] objects@[i]).id == order[i],
            graph.wf(),
            graph.spec_config() == old(graph).spec_config(),
            old(graph).plain() ==> graph.plain(),
            graph.object_table() == old(graph).object_table(),
            graph.object_order() == old(graph).object_order(),
            result.wf(),
            result.edges() == edges,
            total >= 0,
            skipped == capped(total),
            objects_built(
                start,
                Pass { graph: *graph, store: result@, skipped: total },
                edges,
                order,
                queries@,
                o as int,
            ),
        decreases objects.len() - o,
    {
        let ghost begin = Pass { graph: *graph, store: result@, skipped: total };
        let mut walk = queries.iter();
        let ghost mut done: int = 0;
        proof {
            assert(queries@.skip(0) =~= queries@);
        }
        loop
            invariant
                walk.wf(),
                0 <= done <= queries@.len(),
                walk.remaining() == queries@.skip(done),
                o < objects.len(),
                graph.wf(),
                graph.spec_config() == old(graph).spec_config(),
                old(graph).plain() ==> graph.plain(),
                graph.object_table() == old(graph).object_table(),
                graph.object_order() == old(graph).object_order(),
                result.wf(),
                result.edges() == edges,
                total >= 0,
                skipped == capped(total),
                groups_covered(
                    begin,
                    Pass { graph: *graph, store: result@, skipped: total },
                    edges,
                    objects@[o as int].id,
                    queries@,
                    done,
                ),
            ensures
                graph.wf(),
                graph.spec_config() == old(graph).spec_config(),
                old(graph).plain() ==> graph.plain(),
                graph.object_table() == old(graph).object_table(),
                graph.object_order() == old(graph).object_order(),
                result.wf(),
                result.edges() == edges,
                total >= 0,
                skipped == capped(total),
                groups_covered(
                    begin,
                    Pass { graph: *graph, store: result@, skipped: total },
                    edges,
                    objects@[o as int].id,
                    queries@,
                    queries@.len() as int,
                ),
            decreases queries@.len() - done,
        {
            let ghost mid = Pass { graph: *graph, store: result@, skipped: total };
            match walk.next() {
                Some(group) => {
                    let levels = levels_of(group);
                    let passed = cover(graph, &mut result, objects[o].id, &levels, false);
                    skipped = skipped.saturating_add(passed);
                    proof {
                        total = total + passed;
                    }
                    let ghost unsettled = Pass { graph: *graph, store: result@, skipped: total };
                    graph.clean();
                    proof {
                        assert(queries@.skip(done)[0] == queries@[done]);
                        assert(queries@.skip(done).drop_first() =~= queries@.skip(done + 1));
                        done = done + 1;
                        let now = Pass { graph: *graph, store: result@, skipped: total };
                        assert(covered(
                            mid,
                            unsettled,
                            edges,
                            objects@[o as int].id,
                            group_levels(queries@[done - 1].queries),
                            false,
                        ));
                        assert(settled(unsettled, now));
                        assert(covered_and_settled(
                            mid,
                            now,
                            edges,
                            objects@[o as int].id,
                            group_levels(queries@[done - 1].queries),
                            false,
                        ));
                    }
                },
                None => {
                    proof {
                        assert(queries@.skip(done).len() == 0);
                    }
                    break ;
                },
            }
        }
        let ghost covered_all = Pass { graph: *graph, store: result@, skipped: total };
        graph.clean();
        proof {
            let now = Pass { graph: *graph, store: result@, skipped: total };
            assert(settled(covered_all, now));
            assert(object_built(begin, now, edges, order[o as int + 1 - 1], queries@));
            assert(objects_built(start, now, edges, order, queries@, o as int + 1));
        }
        o += 1;
    }
    (result, skipped)
}

/// From `a` to `b`, each of the first `n` objects of `objects` was worked
/// on for the levels of `levels`, as [`covered_and_settled`] says, object
/// by object.
pub open spec fn objects_levelled(
    a: Pass,
    b: Pass,
    edges: Map<EdgeId, DataEdge>,
    objects: Seq<ObjectId>,
    levels: Seq<K>,
    n: int,
) -> bool
    decreases n,
{
    if n <= 0 {
        b == a
    } else {
        exists|mid: Pass|
            objects_levelled(a, mid, edges, objects, levels, n - 1)
                && #[trigger] covered_and_settled(mid, b, edges, objects[n - 1], levels, false)
    }
}

/// The store `store` was built for the data set `before` without queries,
/// which left the graph `after`; `skipped` is the number of levels that
/// were passed over, as it is handed out. The store starts empty, and
/// every object of the graph is worked on, in the order in which the
/// objects came, for the levels from one above half of the number of
/// dimensions up to that number.
pub open spec fn levelled_outcome(
    before: &Graph,
    after: &Graph,
    store: Map<(EdgeId, K), Coverage>,
    skipped: int,
) -> bool {
    exists|total: int| #[trigger]
        capped(total) == skipped && objects_levelled(
            Pass { graph: *before, store: Map::empty(), skipped: 0 },
            Pass { graph: *after, store, skipped: total },
            before.linked_edges(),
            before.object_order(),
            levels_up_to(before.spec_config().max_dim),
            before.object_order().len() as int,
        )
}

/// Builds the store for a data set without queries: for each object of the
/// graph, in the order in which the objects came, the coverage of the
/// object is recorded for the levels from one above half of the number of
/// dimensions up to that number. After each object the conversions are
/// taken back. Gives the store and the number of levels that were passed
/// over.
pub fn construct_new_query(graph: &mut Graph) -> (r: (ResultVoronoi, usize))
    requires
        old(graph).wf(),
    ensures
        final(graph).wf(),
        final(graph).spec_config() == old(graph).spec_config(),
        old(graph).plain() ==> final(graph).plain(),
        final(graph).object_table() == old(graph).object_table(),
        final(graph).object_order() == old(graph).object_order(),
        r.0.wf(),
        r.0.edges() == old(graph).linked_edges(),
        levelled_outcome(old(graph), final(graph), r.0@, r.1 as int),
{
    let linked = graph.map_edges();
    proof {
        lemma_store_edges(graph, linked@);
    }
    let mut result = ResultVoronoi::from_edge_ids(linked);
    let objects = graph.all_objects();
    let levels = generate_k(graph.config().max_dim);
    let ghost edges = result.edges();
    let ghost order = graph.object_order();
    let ghost start = Pass { graph: *graph, store: result@, skipped: 0 };
    let ghost mut total: int = 0;
    proof {
        graph.lemma_objects_filed();
        lemma_ids_in_order(graph, objects@);
    }
    let mut skipped: usize = 0;
    let mut o: usize = 0;
    while o < objects.len()
        invariant
            o <= objects.len(),
            objects@.len() == order.len(),
            forall|i: int| 0 <= i < objects@.len() ==> (#[trigger] objects@[i]).id == order[i],
            graph.wf(),
            graph.spec_config() == old(graph).spec_config(),
            old(graph).plain() ==> graph.plain(),
            graph.object_table() == old(graph).object_table(),
            graph.object_order() == old(graph).object_order(),
            result.wf(),
            result.edges() == edges,
            total >= 0,
            skipped == capped(total),
            objects_levelled(
                start,
                Pass { graph: *graph, store: result@, skipped: total },
                edges,
                order,
                levels@,
                o as int,
            ),
        decreases objects.len() - o,
    {
        let ghost begin = Pass { graph: *graph, store: result@, skipped: total };
        let passed = cover(graph, &mut result, objects[o].id, &levels, false);
        skipped = skipped.saturating_add(passed);
        proof {
            total = total + passed;
        }
        let ghost mid = Pass { graph: *graph, store: result@, skipped: total };
        graph.clean();
        proof {
            let now = Pass { graph: *graph, store: result@, skipped: total };
            assert(covered(begin, mid, edges, order[o as int], levels@, false));
            assert(settled(mid, now));
            assert(covered_and_settled(begin, now, edges, order[o as int + 1 - 1], levels@, false));
            assert(objects_levelled(start, now, edges, order, levels@, o as int + 1));
        }
        o += 1;
    }
    (result, skipped)
}

/// From `a` to `b`, the coverage of each of the first `n` objects of
/// `dominated` was renewed for the levels of `levels` from the strength at
/// which the object is dominated, object by object, and after each the
/// conversions were taken back.
pub open spec fn dominated_renewed(
    a: Pass,
    b: Pass,
    edges: Map<EdgeId, DataEdge>,
    levels: Seq<K>,
    dominated: Seq<(ObjectId, K)>,
    n: int,
) -> bool
    decreases n,
{
    if n <= 0 {
        b == a
    } else {
        exists|mid: Pass|
            dominated_renewed(a, mid, edges, levels, dominated, n - 1)
                && #[trigger] covered_and_settled(
                mid,
                b,
                edges,
                dominated[n - 1].0,
                levels_from(levels, dominated[n - 1].1),
                true,
            )
    }
}

/// From `a` to `b`, the coverage of the objects of `dominated` was renewed
/// for each of the first `n` groups of `groups`, group by group: see
/// [`dominated_renewed`].
pub open spec fn groups_renewed(
    a: Pass,
    b: Pass,
    edges: Map<EdgeId, DataEdge>,
    groups: Seq<GroupView>,
    dominated: Seq<(ObjectId, K)>,
    n: int,
) -> bool
    decreases n,
{
    if n <= 0 {
        b == a
    } else {
        exists|mid: Pass|
            groups_renewed(a, mid, edges, groups, dominated, n - 1)
                && #[trigger] dominated_renewed(
                mid,
                b,
                edges,
                group_levels(groups[n - 1].queries),
                dominated,
                dominated.len() as int,
            )
    }
}

/// From `a` to `b`, the coverage of the objects of `dominated` was renewed
/// for every group of `groups`: see [`groups_renewed`].
pub open spec fn renewed(
    a: Pass,
    b: Pass,
    edges: Map<EdgeId, DataEdge>,
    groups: Seq<GroupView>,
    dominated: Seq<(ObjectId, K)>,
) -> bool {
    b.skipped >= a.skipped && groups_renewed(
        Pass { skipped: 0, ..a },
        Pass { skipped: b.skipped - a.skipped, ..b },
        edges,
        groups,
        dominated,
        groups.len() as int,
    )
}

/// What renewing the coverage of the objects of `dominated` does: it
/// takes the graph from `before` to `after` and the store from `store0` to
/// `store1`, see [`renewed`]; `skipped` is the number of levels that were
/// passed over, as it is handed out.
pub open spec fn renew_outcome(
    before: &Graph,
    after: &Graph,
    store0: Map<(EdgeId, K), Coverage>,
    store1: Map<(EdgeId, K), Coverage>,
    edges: Map<EdgeId, DataEdge>,
    groups: Seq<GroupView>,
    dominated: Seq<(ObjectId, K)>,
    skipped: int,
) -> bool {
    exists|total: int| #[trigger]
        capped(total) == skipped && renewed(
            Pass { graph: *before, store: store0, skipped: 0 },
            Pass { graph: *after, store: store1, skipped: total },
            edges,
            groups,
            dominated,
        )
}

/// Renews in `result` the coverage of each object of `dominated`, for the
/// levels of each group of `queries` from the strength at which the object
/// is dominated. After each object the conversions are taken back. Gives
/// the number of levels that were passed over.
pub fn renew(
    graph: &mut Graph,
    queries: &Queries,
    result: &mut ResultVoronoi,
    dominated: &Vec<(ObjectId, K)>,
) -> (skipped: usize)
    requires
        old(graph).wf(),
        old(result).wf(),
    ensures
        final(graph).wf(),
        final(graph).spec_config() == old(graph).spec_config(),
        old(graph).plain() ==> final(graph).plain(),
        final(graph).object_table() == old(graph).object_table(),
        final(graph).object_order() == old(graph).object_order(),
        final(result).wf(),
        final(result).edges() == old(result).edges(),
        renew_outcome(
            old(graph),
            final(graph),
            old(result)@,
            final(result)@,
            old(result).edges(),
            queries@,
            dominated@,
            skipped as int,
        ),
{
    let ghost edges = result.edges();
    let ghost start = Pass { graph: *graph, store: result@, skipped: 0 };
    let ghost mut total: int = 0;
    let mut skipped: usize = 0;
    let mut walk = queries.iter();
    let ghost mut done: int = 0;
    proof {
        assert(queries@.skip(0) =~= queries@);
    }
    loop
        invariant
            walk.wf(),
            0 <= done <= queries@.len(),
            walk.remaining() == queries@.skip(done),
            graph.wf(),
            graph.spec_config() == old(graph).spec_config(),
            old(graph).plain() ==> graph.plain(),
            graph.object_table() == old(graph).object_table(),
            graph.object_order() == old(graph).object_order(),
            result.wf(),
            result.edges() == edges,
            total >= 0,
            skipped == capped(total),
            groups_renewed(
                start,
                Pass { graph: *graph, store: result@, skipped: total },
                edges,
                queries@,
                dominated@,
                done,
            ),
        ensures
            graph.wf(),
            graph.spec_config() == old(graph).spec_config(),
            old(graph).plain() ==> graph.plain(),
            graph.object_table() == old(graph).object_table(),
            graph.object_order() == old(graph).object_order(),
            result.wf(),
            result.edges() == edges,
            total >= 0,
            skipped == capped(total),
            groups_renewed(
                start,
                Pass { graph: *graph, store: result@, skipped: total },
                edges,
                queries@,
                dominated@,
                queries@.len() as int,
            ),
        decreases queries@.len() - done,
    {
        let group = match walk.next() {
            Some(group) => group,
            None => {
                proof {
                    assert(queries@.skip(done).len() == 0);
                }
                break ;
            },
        };
        proof {
            assert(queries@.skip(done)[0] == queries@[done]);
            assert(queries@.skip(done).drop_first() =~= queries@.skip(done + 1));
        }
        let levels = levels_of(group);
        let ghost begin = Pass { graph: *graph, store: result@, skipped: total };
        let mut d: usize = 0;
        while d < dominated.len()
            invariant
                d <= dominated.len(),
                graph.wf(),
                graph.spec_config() == old(graph).spec_config(),
                old(graph).plain() ==> graph.plain(),
                graph.object_table() == old(graph).object_table(),
                graph.object_order() == old(graph).object_order(),
                result.wf(),
                result.edges() == edges,
                total >= 0,
                skipped == capped(total),
                dominated_renewed(
                    begin,
                    Pass { graph: *graph, store: result@, skipped: total },
                    edges,
                    levels@,
                    dominated@,
                    d as int,
                ),
            decreases dominated.len() - d,
        {
            let ghost first = Pass { graph: *graph, store: result@, skipped: total };
            let above = from_level(&levels, dominated[d].1);
            let passed = cover(graph, result, dominated[d].0, &above, true);
            skipped = skipped.saturating_add(passed);
            proof {
                total = total + passed;
            }
            let ghost mid = Pass { graph: *graph, store: result@, skipped: total };
            graph.clean();
            proof {
                let now = Pass { graph: *graph, store: result@, skipped: total };
                assert(covered(first, mid, edges, dominated@[d as int].0, above@, true));
                assert(settled(mid, now));
                assert(covered_and_settled(
                    first,
                    now,
                    edges,
                    dominated@[d as int + 1 - 1].0,
                    levels_from(levels@, dominated@[d as int + 1 - 1].1),
                    true,
                ));
                assert(dominated_renewed(begin, now, edges, levels@, dominated@, d as int + 1));
            }
            d += 1;
        }
        proof {
            let now = Pass { graph: *graph, store: result@, skipped: total };
            assert(dominated_renewed(
                begin,
                now,
                edges,
                group_levels(queries@[done + 1 - 1].queries),
                dominated@,
                dominated@.len() as int,
            ));
            assert(groups_renewed(start, now, edges, queries@, dominated@, done + 1));
            done = done + 1;
        }
    }
    proof {
        let end = Pass { graph: *graph, store: result@, skipped: total };
        assert(renewed(start, end, edges, queries@, dominated@));
        assert(capped(total) == skipped as int);
    }
    skipped
}

/// From `a` to `b`, one object was passed over, and nothing else changed.
pub open spec fn passed_over(a: Pass, b: Pass) -> bool {
    b.graph.same_as(&a.graph) && b.store == a.store && b.skipped == a.skipped + 1
}

/// From `a`, where the object `o` lies on its edge, to `b`, the coverage
/// of `o` was built and the coverage of the objects that it dominates was
/// renewed.
///
/// The dominance traversal for `o` gave `tally` after `visits` visits, on
/// the graph `mid`, and left the graph `sorted`. From there the coverage
/// of `o` was recorded for every group of `groups`, which led to `built`,
/// and from there the coverage of each object that `o` dominates was
/// renewed from the strength of the dominance.
pub open spec fn placed_with(
    a: Pass,
    b: Pass,
    edges: Map<EdgeId, DataEdge>,
    groups: Seq<GroupView>,
    o: ObjectView,
    mid: &Graph,
    sorted: &Graph,
    visits: nat,
    tally: Tally,
    built: Pass,
) -> bool {
    &&& dominance_run(&a.graph, mid, sorted, o, visits, tally)
    &&& object_built(Pass { graph: *sorted, ..a }, built, edges, o.id, groups)
    &&& renewed(built, b, edges, groups, paired_between(tally.dominate, 0, LEVELS as int))
}

/// From `a`, where the object `o` lies on its edge, to `b`: where `o`
/// cannot be made a node, see [`conversion_error`], it is passed over;
/// else see [`placed_with`].
pub open spec fn placed(
    a: Pass,
    b: Pass,
    edges: Map<EdgeId, DataEdge>,
    groups: Seq<GroupView>,
    o: ObjectView,
) -> bool {
    if conversion_error(&a.graph, o.edge_id, seq![o]).is_some() {
        passed_over(a, b)
    } else {
        exists|mid: Graph, sorted: Graph, visits: nat, tally: Tally, built: Pass| #[trigger]
            placed_with(a, b, edges, groups, o, &mid, &sorted, visits, tally, built)
    }
}

/// From `a` to `b`, the object `o` was brought into the data set and its
/// store. An object that the graph refuses, see
/// [`Graph::object_refusal`], is passed over. Else the
/// object is put on its edge, which gives the graph `held`, and then see
/// [`placed`].
pub open spec fn inserted_one(
    a: Pass,
    b: Pass,
    edges: Map<EdgeId, DataEdge>,
    groups: Seq<GroupView>,
    o: ObjectView,
) -> bool {
    if a.graph.object_refusal(o).is_some() {
        passed_over(a, b)
    } else {
        exists|held: Graph| #[trigger]
            held.with_object(&a.graph, o) && held.wf() && placed(
                Pass { graph: held, ..a },
                b,
                edges,
                groups,
                o,
            )
    }
}

/// From `a` to `b`, each of the first `n` objects of `objects` was brought
/// into the data set and its store, object by object: see
/// [`inserted_one`].
pub open spec fn objects_inserted(
    a: Pass,
    b: Pass,
    edges: Map<EdgeId, DataEdge>,
    groups: Seq<GroupView>,
    objects: Seq<ObjectView>,
    n: int,
) -> bool
    decreases n,
{
    if n <= 0 {
        b == a
    } else {
        exists|mid: Pass|
            objects_inserted(a, mid, edges, groups, objects, n - 1) && #[trigger] inserted_one(
                mid,
                b,
                edges,
                groups,
                objects[n - 1],
            )
    }
}

/// What bringing the objects `objects` into a data set and its store
/// does: it takes the graph from `before` to `after` and the store from
/// `store0` to `store1`, see [`objects_inserted`]; `skipped` is the number
/// of objects and levels that were passed over, as it is handed out.
pub open spec fn insertion_outcome(
    before: &Graph,
    after: &Graph,
    store0: Map<(EdgeId, K), Coverage>,
    store1: Map<(EdgeId, K), Coverage>,
    edges: Map<EdgeId, DataEdge>,
    groups: Seq<GroupView>,
    objects: Seq<ObjectView>,
    skipped: int,
) -> bool {
    exists|total: int| #[trigger]
        capped(total) == skipped && objects_inserted(
            Pass { graph: *before, store: store0, skipped: 0 },
            Pass { graph: *after, store: store1, skipped: total },
            edges,
            groups,
            objects,
            objects.len() as int,
        )
}

/// Brings new objects into a data set and its store. Each object of
/// `objects`, in their order, is put on its edge; its coverage is recorded
/// for the levels of each group of `queries`; and the coverage of each
/// object that it dominates is renewed from the strength of the
/// dominance. Gives the number of objects and levels that were passed
/// over.
pub fn insertion(
    graph: &mut Graph,
    queries: &Queries,
    result: &mut ResultVoronoi,
    objects: Vec<DataObject>,
) -> (skipped: usize)
    requires
        old(graph).wf(),
        old(result).wf(),
    ensures
        final(graph).wf(),
        final(graph).spec_config() == old(graph).spec_config(),
        old(graph).plain() ==> final(graph).plain(),
        final(result).wf(),
        final(result).edges() == old(result).edges(),
        insertion_outcome(
            old(graph),
            final(graph),
            old(result)@,
            final(result)@,
            old(result).edges(),
            queries@,
            object_views(objects@),
            skipped as int,
        ),
{
    let ghost edges = result.edges();
    let ghost views = object_views(objects@);
    let ghost start = Pass { graph: *graph, store: result@, skipped: 0 };
    let ghost mut total: int = 0;
    let mut skipped: usize = 0;
    let mut o: usize = 0;
    while o < objects.len()
        invariant
            o <= objects.len(),
            views == object_views(objects@),
            graph.wf(),
            graph.spec_config() == old(graph).spec_config(),
            old(graph).plain() ==> graph.plain(),
            result.wf(),
            result.edges() == edges,
            total >= 0,
            skipped == capped(total),
            objects_inserted(
                start,
                Pass { graph: *graph, store: result@, skipped: total },
                edges,
                queries@,
                views,
                o as int,
            ),
        decreases objects.len() - o,
    {
        let ghost begin = Pass { graph: *graph, store: result@, skipped: total };
        let ghost ov = objects@[o as int]@;
        proof {
            assert(views[o as int + 1 - 1] == ov);
        }
        let object_id = objects[o].id;
        if graph.insert_object(objects[o].copy()).is_err() {
            skipped = skipped.saturating_add(1);
            proof {
                total = total + 1;
                let now = Pass { graph: *graph, store: result@, skipped: total };
                assert(passed_over(begin, now));
                assert(inserted_one(begin, now, edges, queries@, views[o as int + 1 - 1]));
                assert(objects_inserted(start, now, edges, queries@, views, o as int + 1));
            }
            o += 1;
            continue ;
        }
        let ghost held = *graph;
        let ghost on_edge = Pass { graph: held, ..begin };
        let found = match DomTraverse::dominate_dominated_by(graph, objects[o].copy()) {
            Ok(found) => found,
            Err(_) => {
                skipped = skipped.saturating_add(1);
                proof {
                    total = total + 1;
                    let now = Pass { graph: *graph, store: result@, skipped: total };
                    assert(passed_over(on_edge, now));
                    assert(placed(on_edge, now, edges, queries@, ov));
                    assert(inserted_one(begin, now, edges, queries@, views[o as int + 1 - 1]));
                    assert(objects_inserted(start, now, edges, queries@, views, o as int + 1));
                }
                o += 1;
                continue ;
            },
        };
        let dominated = found.map_dominate_objects();
        let ghost tally = found@;
        let ghost sorted = *graph;
        let ghost (mid, visits) = choose|mid: Graph, visits: nat| #[trigger]
            dominance_run(&held, &mid, &sorted, ov, visits, tally);
        let ghost ready = Pass { graph: sorted, ..begin };
        let mut walk = queries.iter();
        let ghost mut done: int = 0;
        proof {
            assert(queries@.skip(0) =~= queries@);
        }
        loop
            invariant
                walk.wf(),
                0 <= done <= queries@.len(),
                walk.remaining() == queries@.skip(done),
                graph.wf(),
                graph.spec_config() == old(graph).spec_config(),
                old(graph).plain() ==> graph.plain(),
                result.wf(),
                result.edges() == edges,
                total >= 0,
                skipped == capped(total),
                groups_covered(
                    ready,
                    Pass { graph: *graph, store: result@, skipped: total },
                    edges,
                    object_id,
                    queries@,
                    done,
                ),
            ensures
                graph.wf(),
                graph.spec_config() == old(graph).spec_config(),
                old(graph).plain() ==> graph.plain(),
                result.wf(),
                result.edges() == edges,
                total >= 0,
                skipped == capped(total),
                groups_covered(
                    ready,
                    Pass { graph: *graph, store: result@, skipped: total },
                    edges,
                    object_id,
                    queries@,
                    queries@.len() as int,
                ),
            decreases queries@.len() - done,
        {
            let ghost first = Pass { graph: *graph, store: result@, skipped: total };
            match walk.next() {
                Some(group) => {
                    let levels = levels_of(group);
                    let passed = cover(graph, result, object_id, &levels, false);
                    skipped = skipped.saturating_add(passed);
                    proof {
                        total = total + passed;
                    }
                    let ghost unsettled = Pass { graph: *graph, store: result@, skipped: total };
                    graph.clean();
                    proof {
                        assert(queries@.skip(done)[0] == queries@[done]);
                        assert(queries@.skip(done).drop_first() =~= queries@.skip(done + 1));
                        done = done + 1;
                        let now = Pass { graph: *graph, store: result@, skipped: total };
                        assert(covered(
                            first,
                            unsettled,
                            edges,
                            object_id,
                            group_levels(queries@[done - 1].queries),
                            false,
                        ));
                        assert(settled(unsettled, now));
                        assert(covered_and_settled(
                            first,
                            now,
                            edges,
                            object_id,
                            group_levels(queries@[done - 1].queries),
                            false,
                        ));
                    }
                },
                None => {
                    proof {
                        assert(queries@.skip(done).len() == 0);
                    }
                    break ;
                },
            }
        }
        let ghost covered_all = Pass { graph: *graph, store: result@, skipped: total };
        graph.clean();
        let ghost built = Pass { graph: *graph, store: result@, skipped: total };
        proof {
            assert(settled(covered_all, built));
            assert(object_built(ready, built, edges, ov.id, queries@));
        }
        let passed = renew(graph, queries, result, &dominated);
        skipped = skipped.saturating_add(passed);
        proof {
            let more = choose|more: int| #[trigger]
                capped(more) == passed as int && renewed(
                    Pass { graph: built.graph, store: built.store, skipped: 0 },
                    Pass { graph: *graph, store: result@, skipped: more },
                    edges,
                    queries@,
                    dominated@,
                );
            total = total + more;
            let now = Pass { graph: *graph, store: result@, skipped: total };
            assert(renewed(built, now, edges, queries@, dominated@));
            assert(placed_with(
                on_edge,
                now,
                edges,
                queries@,
                ov,
                &mid,
                &sorted,
                visits,
                tally,
                built,
            ));
            assert(placed(on_edge, now, edges, queries@, ov));
            assert(inserted_one(begin, now, edges, queries@, views[o as int + 1 - 1]));
            assert(objects_inserted(start, now, edges, queries@, views, o as int + 1));
        }
        o += 1;
    }
    skipped
}

/// `store` without the coverage of the object with id `id`, at every
/// level of every edge. An id that no object can have leaves the store as
/// it is.
pub open spec fn forgotten(store: Map<(EdgeId, K), Coverage>, id: ObjectId) -> Map<
    (EdgeId, K),
    Coverage,
> {
    if id < ID_LIMIT {
        removed_everywhere(store, (id + NODE_OFFSET) as ObjectId)
    } else {
        store
    }
}

/// `store` without the coverage of each of the first `n` objects of
/// `dominated`.
pub open spec fn forgotten_all(
    store: Map<(EdgeId, K), Coverage>,
    dominated: Seq<(ObjectId, K)>,
    n: int,
) -> Map<(EdgeId, K), Coverage>
    decreases n,
{
    if n <= 0 {
        store
    } else {
        forgotten(forgotten_all(store, dominated, n - 1), dominated[n - 1].0)
    }
}

/// From `a`, which holds the object with id `object_id`, to `b`, the
/// object was taken out of the data set and its store.
///
/// The dominance traversal for the object gave `tally` after `visits`
/// visits, on the graph `mid`, and left the graph `sorted`; `bare` is
/// `sorted` without the object. The coverage of the object and of each
/// object that it dominated left the store, and from there the coverage of
/// each object that it dominated was renewed from the strength of the
/// dominance.
pub open spec fn deleted_with(
    a: Pass,
    b: Pass,
    edges: Map<EdgeId, DataEdge>,
    groups: Seq<GroupView>,
    object_id: ObjectId,
    mid: &Graph,
    sorted: &Graph,
    bare: &Graph,
    visits: nat,
    tally: Tally,
) -> bool {
    let o = a.graph.object_table()[object_id]@;
    let dominated = paired_between(tally.dominate, 0, LEVELS as int);
    &&& dominance_run(&a.graph, mid, sorted, o, visits, tally)
    &&& bare.wf()
    &&& bare.without_object(sorted, object_id)
    &&& renewed(
        Pass {
            graph: *bare,
            store: forgotten_all(
                forgotten(a.store, object_id),
                dominated,
                dominated.len() as int,
            ),
            skipped: a.skipped,
        },
        b,
        edges,
        groups,
        dominated,
    )
}

/// From `a` to `b`, the object with id `object_id` was taken out of the
/// data set and its store. An object that the graph does not hold, or
/// that cannot be made a node, see [`conversion_error`], is passed over.
/// Else see [`deleted_with`].
pub open spec fn deleted_one(
    a: Pass,
    b: Pass,
    edges: Map<EdgeId, DataEdge>,
    groups: Seq<GroupView>,
    object_id: ObjectId,
) -> bool {
    if !a.graph.object_table().contains_key(object_id) {
        passed_over(a, b)
    } else {
        let o = a.graph.object_table()[object_id]@;
        if conversion_error(&a.graph, o.edge_id, seq![o]).is_some() {
            passed_over(a, b)
        } else {
            exists|mid: Graph, sorted: Graph, bare: Graph, visits: nat, tally: Tally| #[trigger]
                deleted_with(
                    a,
                    b,
                    edges,
                    groups,
                    object_id,
                    &mid,
                    &sorted,
                    &bare,
                    visits,
                    tally,
                )
        }
    }
}

/// From `a` to `b`, each of the first `n` objects of `deleted` was taken
/// out of the data set and its store, object by object: see
/// [`deleted_one`].
pub open spec fn objects_deleted(
    a: Pass,
    b: Pass,
    edges: Map<EdgeId, DataEdge>,
    groups: Seq<GroupView>,
    deleted: Seq<ObjectId>,
    n: int,
) -> bool
    decreases n,
{
    if n <= 0 {
        b == a
    } else {
        exists|mid: Pass|
            objects_deleted(a, mid, edges, groups, deleted, n - 1) && #[trigger] deleted_one(
                mid,
                b,
                edges,
                groups,
                deleted[n - 1],
            )
    }
}

/// What taking the objects with the ids `deleted` out of a data set and
/// its store does: it takes the graph from `before` to `after` and the
/// store from `store0` to `store1`, see [`objects_deleted`]; `skipped` is
/// the number of objects and levels that were passed over, as it is
/// handed out.
pub open spec fn deletion_outcome(
    before: &Graph,
    after: &Graph,
    store0: Map<(EdgeId, K), Coverage>,
    store1: Map<(EdgeId, K), Coverage>,
    edges: Map<EdgeId, DataEdge>,
    groups: Seq<GroupView>,
    deleted: Seq<ObjectId>,
    skipped: int,
) -> bool {
    exists|total: int| #[trigger]
        capped(total) == skipped && objects_deleted(
            Pass { graph: *before, store: store0, skipped: 0 },
            Pass { graph: *after, store: store1, skipped: total },
            edges,
            groups,
            deleted,
            deleted.len() as int,
        )
}

/// Takes objects out of a data set and its store. For each id of
/// `deleted`, in their order: the objects that the object dominates are
/// found; the object leaves the graph and the store; and the coverage of
/// each object that it dominated is removed and renewed from the strength
/// of the dominance. Gives the number of objects and levels that were
/// passed over.
pub fn deletion(
    graph: &mut Graph,
    queries: &Queries,
    result: &mut ResultVoronoi,
    deleted: Vec<ObjectId>,
) -> (skipped: usize)
    requires
        old(graph).wf(),
        old(result).wf(),
    ensures
        final(graph).wf(),
        final(graph).spec_config() == old(graph).spec_config(),
        old(graph).plain() ==> final(graph).plain(),
        final(result).wf(),
        final(result).edges() == old(result).edges(),
        deletion_outcome(
            old(graph),
            final(graph),
            old(result)@,
            final(result)@,
            old(result).edges(),
            queries@,
            deleted@,
            skipped as int,
        ),
{
    let ghost edges = result.edges();
    let ghost start = Pass { graph: *graph, store: result@, skipped: 0 };
    let ghost mut total: int = 0;
    let mut skipped: usize = 0;
    let mut o: usize = 0;
    while o < deleted.len()
        invariant
            o <= deleted.len(),
            graph.wf(),
            graph.spec_config() == old(graph).spec_config(),
            old(graph).plain() ==> graph.plain(),
            result.wf(),
            result.edges() == edges,
            total >= 0,
            skipped == capped(total),
            objects_deleted(
                start,
                Pass { graph: *graph, store: result@, skipped: total },
                edges,
                queries@,
                deleted@,
                o as int,
            ),
        decreases deleted.len() - o,
    {
        let ghost begin = Pass { graph: *graph, store: result@, skipped: total };
        let object_id = deleted[o];
        let found = match DomTraverse::dominate_dominated_by_from_id(graph, object_id) {
            Ok(found) => found,
            Err(_) => {
                skipped = skipped.saturating_add(1);
                proof {
                    total = total + 1;
                    let now = Pass { graph: *graph, store: result@, skipped: total };
                    assert(passed_over(begin, now));
                    assert(deleted_one(begin, now, edges, queries@, deleted@[o as int + 1 - 1]));
                    assert(objects_deleted(start, now, edges, queries@, deleted@, o as int + 1));
                }
                o += 1;
                continue ;
            },
        };
        let dominated = found.map_dominate_objects();
        let ghost tally = found@;
        let ghost sorted = *graph;
        let ghost ov = begin.graph.object_table()[object_id]@;
        let ghost (mid, visits) = choose|mid: Graph, visits: nat| #[trigger]
            dominance_run(&begin.graph, &mid, &sorted, ov, visits, tally);
        if graph.remove_object(object_id).is_err() {
            skipped = skipped.saturating_add(1);
            o += 1;
            continue ;
        }
        let ghost bare = *graph;
        if object_id < ID_LIMIT {
            result.remove_all(object_id + NODE_OFFSET);
        }
        let ghost cleared = result@;
        let mut d: usize = 0;
        while d < dominated.len()
            invariant
                d <= dominated.len(),
                result.wf(),
                result.edges() == edges,
                result@ == forgotten_all(cleared, dominated@, d as int),
            decreases dominated.len() - d,
        {
            if dominated[d].0 < ID_LIMIT {
                result.remove_all(dominated[d].0 + NODE_OFFSET);
            }
            d += 1;
        }
        let ghost emptied = Pass { graph: bare, store: result@, skipped: total };
        let passed = renew(graph, queries, result, &dominated);
        skipped = skipped.saturating_add(passed);
        proof {
            let more = choose|more: int| #[trigger]
                capped(more) == passed as int && renewed(
                    Pass { graph: emptied.graph, store: emptied.store, skipped: 0 },
                    Pass { graph: *graph, store: result@, skipped: more },
                    edges,
                    queries@,
                    dominated@,
                );
            total = total + more;
            let now = Pass { graph: *graph, store: result@, skipped: total };
            assert(renewed(emptied, now, edges, queries@, dominated@));
            assert(deleted_with(
                begin,
                now,
                edges,
                queries@,
                object_id,
                &mid,
                &sorted,
                &bare,
                visits,
                tally,
            ));
            assert(deleted_one(begin, now, edges, queries@, deleted@[o as int + 1 - 1]));
            assert(objects_deleted(start, now, edges, queries@, deleted@, o as int + 1));
        }
        o += 1;
    }
    skipped
}

} // verus!
