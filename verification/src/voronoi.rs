//! The Voronoi scope builder: it runs the multi-source traversal for one
//! object and keeps, for each edge, the ranges that belong to the object.

use crate::convert::{
    all_in_range, all_known, batch_error, by_position, chain_edges, chain_stop, chains_of,
    conversion_error, cut_all, distinct_ids, first_error, flattened, grouped, has_link, in_range,
    known_objects, lemma_by_position, lemma_by_position_distinct, lemma_first_error_stays, unused,
};
use crate::dominance::{
    dominance_run, flat_between, levels_between, DomTraverse, Tally, LEVELS,
};
use crate::types::ObjectView;
use crate::edge_result::Coverage;
use crate::geometry::{add_cost, lemma_distance_bound, DISTANCE_LIMIT};
use crate::graph::Graph;
use crate::records::{
    add_item, copy_items, distinct_keys, find_record, put_record, record_index, record_of,
    recorded, with_item, with_record,
};
use crate::scope::{
    apart, append_ranges, chain_offset, holds, inside, join_range, joined, joined_all,
    lemma_joined_all_keeps, merged, owned_range, scope_of,
};
use crate::store::ResultVoronoi;
use crate::types::{
    CentroidId, DataEdge, EdgeId, Error, Length, ObjectId, Range, ID_LIMIT, K, NODE_OFFSET,
};
use crate::voronoi_heap::{
    after_steps, continued, lemma_steps_add, lemma_steps_same_front, outcome, popped, reached,
    all_levelled, lemma_steps_sound, same_front, sound, started, uncrossed, Popped,
    VoronoiMinHeap, VoronoiModel,
};
use vstd::prelude::*;

verus! {

/// The ranges, by edge, that the first `n` steps of a traversal from the
/// model `m` give to `centroid`: for each state that is handed out, the
/// part of its edge that belongs to the centroid.
pub open spec fn gathered(
    m: VoronoiModel,
    graph: &Graph,
    centroid: CentroidId,
    max_distance: Length,
    n: nat,
) -> Seq<(EdgeId, Seq<Range>)>
    decreases n,
{
    if n == 0 {
        Seq::empty()
    } else {
        let before = gathered(m, graph, centroid, max_distance, (n - 1) as nat);
        match popped(after_steps(m, graph, (n - 1) as nat), graph).0 {
            Popped::Visit(s) => match owned_range(s, centroid, max_distance) {
                Some(r) => match s.edge {
                    Some(e) => with_item(before, e.id, r),
                    None => before,
                },
                None => before,
            },
            _ => before,
        }
    }
}

/// `base` extended by the lists of `top`: for each edge of `top`, each
/// range of `top` is joined to the ranges that `base` holds for the edge.
/// What a centroid held it holds afterwards, and ranges of a centroid
/// that overlap or meet become one.
pub open spec fn overlaid(base: Seq<(EdgeId, Seq<Range>)>, top: Seq<(EdgeId, Seq<Range>)>) -> Seq<
    (EdgeId, Seq<Range>),
>
    decreases top.len(),
{
    if top.len() == 0 {
        base
    } else {
        let before = overlaid(base, top.drop_last());
        with_record(
            before,
            top.last().0,
            joined_all(ranges_on(before, top.last().0), top.last().1),
        )
    }
}

/// A traversal from the model `m` finds nothing waiting at step `n + 1`,
/// and not before.
pub open spec fn exhausted_after(m: VoronoiModel, graph: &Graph, n: nat) -> bool {
    &&& popped(after_steps(m, graph, n), graph).0 is Exhausted
    &&& forall|j: nat| j < n
        ==> !(popped(#[trigger] after_steps(m, graph, j), graph).0 is Exhausted)
}

/// The length of mini-edge `id`, zero for an edge that the graph does not
/// have.
pub open spec fn mini_length(graph: &Graph, id: EdgeId) -> Length {
    if graph.edge_table().contains_key(id) {
        graph.edge_table()[id].len
    } else {
        0
    }
}

/// The ranges that `scope` has for edge `id`: none where it has no list.
pub open spec fn ranges_on(scope: Seq<(EdgeId, Seq<Range>)>, id: EdgeId) -> Seq<Range> {
    match record_of(scope, id) {
        Some(ranges) => ranges,
        None => Seq::empty(),
    }
}

/// The chain of the mini-edges `minis`: for each its length and its
/// ranges.
pub open spec fn chain_of(scope: Seq<(EdgeId, Seq<Range>)>, graph: &Graph, minis: Seq<EdgeId>) ->
    Seq<
    (Length, Seq<Range>),
> {
    Seq::new(minis.len(), |i: int| (mini_length(graph, minis[i]), ranges_on(scope, minis[i])))
}

/// `scope` after the ranges of the first `n` chains of `chains` were put
/// together: each edge that was cut gets the merged ranges of its chain,
/// in place of what it had.
pub open spec fn remapped(
    scope: Seq<(EdgeId, Seq<Range>)>,
    graph: &Graph,
    chains: Seq<(EdgeId, Seq<EdgeId>)>,
    n: int,
) -> Seq<(EdgeId, Seq<Range>)>
    decreases n,
{
    if n <= 0 {
        scope
    } else {
        let before = remapped(scope, graph, chains, n - 1);
        with_record(
            before,
            chains[n - 1].0,
            merged(chain_of(before, graph, chains[n - 1].1), chains[n - 1].1.len() as int),
        )
    }
}

/// Every edge of the data set that `scope` has ranges for is known to the
/// store.
pub open spec fn all_edges_known(edges: Map<EdgeId, DataEdge>, scope: Seq<(EdgeId,
    Seq<Range>)>) -> bool {
    forall|i: int|
        0 <= i < scope.len() && (#[trigger] scope[i]).0 <= ID_LIMIT ==> edges.contains_key(
            scope[i].0,
        )
}

/// The store `m` after the ranges of the first `n` edges of `scope` were
/// recorded at level `k`. Edges that are not of the data set are passed
/// over.
pub open spec fn stored(
    m: Map<(EdgeId, K), Coverage>,
    edges: Map<EdgeId, DataEdge>,
    scope: Seq<(EdgeId, Seq<Range>)>,
    k: K,
    n: int,
) -> Map<(EdgeId, K), Coverage>
    decreases n,
{
    if n <= 0 {
        m
    } else {
        let before = stored(m, edges, scope, k, n - 1);
        let edge_id = scope[n - 1].0;
        if edge_id <= ID_LIMIT {
            before.insert(
                (edge_id, k),
                (if before.contains_key((edge_id, k)) {
                    before[(edge_id, k)]
                } else {
                    Coverage::fresh(edges[edge_id].len)
                }).with_ranges(scope[n - 1].1),
            )
        } else {
            before
        }
    }
}

/// In the first pass, the ranges that a traversal gives do not depend on
/// the active level.
pub proof fn lemma_gathered_same_front(
    a: VoronoiModel,
    b: VoronoiModel,
    graph: &Graph,
    centroid: CentroidId,
    max_distance: Length,
    n: nat,
)
    requires
        same_front(a, b),
        a.is_initial,
    ensures
        gathered(a, graph, centroid, max_distance, n) == gathered(
            b,
            graph,
            centroid,
            max_distance,
            n,
        ),
    decreases n,
{
    if n > 0 {
        lemma_gathered_same_front(a, b, graph, centroid, max_distance, (n - 1) as nat);
        lemma_steps_same_front(a, b, graph, (n - 1) as nat);
    }
}

/// In the first pass, when a traversal is over does not depend on the
/// active level.
pub proof fn lemma_exhausted_same_front(a: VoronoiModel, b: VoronoiModel, graph: &Graph, n: nat)
    requires
        same_front(a, b),
        a.is_initial,
        exhausted_after(a, graph, n),
    ensures
        exhausted_after(b, graph, n),
{
    lemma_steps_same_front(a, b, graph, n);
    assert forall|j: nat| j < n implies !(popped(#[trigger] after_steps(b, graph, j),
        graph).0 is Exhausted) by {
        lemma_steps_same_front(a, b, graph, j);
        assert(!(popped(after_steps(a, graph, j), graph).0 is Exhausted));
    }
}

/// A traversal is over after one number of steps only.
pub proof fn lemma_exhausted_once(m: VoronoiModel, graph: &Graph, n: nat, k: nat)
    requires
        exhausted_after(m, graph, n),
        exhausted_after(m, graph, k),
    ensures
        n == k,
{
    if n < k {
        assert(!(popped(after_steps(m, graph, n), graph).0 is Exhausted));
    } else if k < n {
        assert(!(popped(after_steps(m, graph, k), graph).0 is Exhausted));
    }
}

/// Extending a scope never takes a point from a centroid.
pub proof fn lemma_overlaid_keeps(
    base: Seq<(EdgeId, Seq<Range>)>,
    top: Seq<(EdgeId, Seq<Range>)>,
    e: EdgeId,
    c: CentroidId,
    x: int,
)
    requires
        holds(ranges_on(base, e), c, x),
    ensures
        holds(ranges_on(overlaid(base, top), e), c, x),
    decreases top.len(),
{
    if top.len() > 0 {
        let before = overlaid(base, top.drop_last());
        lemma_overlaid_keeps(base, top.drop_last(), e, c, x);
        let key = top.last().0;
        let more = joined_all(ranges_on(before, key), top.last().1);
        if key == e {
            lemma_joined_all_keeps(ranges_on(before, key), top.last().1, c, x);
            crate::records::lemma_with_record_same(before, key, more);
        } else {
            crate::records::lemma_with_record_other(before, key, more, e);
        }
    }
}

/// Putting chains together leaves the ranges of an edge that was not cut
/// as they are.
pub proof fn lemma_remapped_other(
    scope: Seq<(EdgeId, Seq<Range>)>,
    graph: &Graph,
    chains: Seq<(EdgeId, Seq<EdgeId>)>,
    n: int,
    e: EdgeId,
)
    requires
        0 <= n <= chains.len(),
        forall|i: int| 0 <= i < chains.len() ==> (#[trigger] chains[i]).0 != e,
    ensures
        ranges_on(remapped(scope, graph, chains, n), e) == ranges_on(scope, e),
    decreases n,
{
    if n > 0 {
        lemma_remapped_other(scope, graph, chains, n - 1, e);
        let before = remapped(scope, graph, chains, n - 1);
        assert(chains[n - 1].0 != e);
        crate::records::lemma_with_record_other(
            before,
            chains[n - 1].0,
            merged(chain_of(before, graph, chains[n - 1].1), chains[n - 1].1.len() as int),
            e,
        );
    }
}

/// The scope after the first pass of a traversal that starts in the model
/// `m` and runs `n` steps.
pub open spec fn first_scope(
    m: VoronoiModel,
    graph: &Graph,
    centroid: CentroidId,
    max_distance: Length,
    n: nat,
) -> Seq<(EdgeId, Seq<Range>)> {
    remapped(
        overlaid(Seq::empty(), gathered(m, graph, centroid, max_distance, n)),
        graph,
        graph.new_edges(),
        graph.new_edges().len() as int,
    )
}

/// The scope after a first pass of `n` steps from the model `m` was
/// continued at level `k` with a run of `more` steps.
pub open spec fn continued_scope(
    m: VoronoiModel,
    graph: &Graph,
    centroid: CentroidId,
    max_distance: Length,
    n: nat,
    k: K,
    more: nat,
) -> Seq<(EdgeId, Seq<Range>)> {
    let resumed = continued(VoronoiModel { is_initial: false, ..after_steps(m, graph, n) }, k);
    remapped(
        overlaid(
            first_scope(m, graph, centroid, max_distance, n),
            gathered(resumed, graph, centroid, max_distance, more),
        ),
        graph,
        graph.new_edges(),
        graph.new_edges().len() as int,
    )
}

/// A scope that is built at one level and continued at a higher one holds,
/// on every edge that was not cut into a chain, every point that the scope
/// holds which is built at the higher level from the same centroids with
/// the same levels.
pub proof fn lemma_continued_holds_fresh(
    graph: &Graph,
    centroids: Seq<CentroidId>,
    levels: Map<ObjectId, K>,
    centroid: CentroidId,
    max_distance: Length,
    k1: K,
    k2: K,
    first_steps: nat,
    more_steps: nat,
    fresh_steps: nat,
    e: EdgeId,
    x: int,
)
    requires
        exhausted_after(started(graph, centroids, levels, k1), graph, first_steps),
        exhausted_after(started(graph, centroids, levels, k2), graph, fresh_steps),
        !graph.cut_edges().contains(e),
        holds(
            ranges_on(
                first_scope(
                    started(graph, centroids, levels, k2),
                    graph,
                    centroid,
                    max_distance,
                    fresh_steps,
                ),
                e,
            ),
            centroid,
            x,
        ),
    ensures
        holds(
            ranges_on(
                continued_scope(
                    started(graph, centroids, levels, k1),
                    graph,
                    centroid,
                    max_distance,
                    first_steps,
                    k2,
                    more_steps,
                ),
                e,
            ),
            centroid,
            x,
        ),
{
    let m1 = started(graph, centroids, levels, k1);
    let m2 = started(graph, centroids, levels, k2);
    let chains = graph.new_edges();
    assert forall|i: int| 0 <= i < chains.len() implies (#[trigger] chains[i]).0 != e by {
        if chains[i].0 == e {
            assert(graph.cut_edges().contains(e));
        }
    }
    lemma_exhausted_same_front(m2, m1, graph, fresh_steps);
    lemma_exhausted_once(m1, graph, first_steps, fresh_steps);
    lemma_gathered_same_front(m2, m1, graph, centroid, max_distance, fresh_steps);
    let found = gathered(m1, graph, centroid, max_distance, first_steps);
    let kept = overlaid(Seq::empty(), found);
    lemma_remapped_other(kept, graph, chains, chains.len() as int, e);
    let first = first_scope(m1, graph, centroid, max_distance, first_steps);
    let resumed = continued(
        VoronoiModel { is_initial: false, ..after_steps(m1, graph, first_steps) },
        k2,
    );
    let again = gathered(resumed, graph, centroid, max_distance, more_steps);
    lemma_overlaid_keeps(first, again, e, centroid, x);
    lemma_remapped_other(overlaid(first, again), graph, chains, chains.len() as int, e);
}

/// The ranges that a sound traversal gives for an edge lie within the
/// edge, and no edge has two lists.
pub proof fn lemma_gathered_inside(
    m: VoronoiModel,
    graph: &Graph,
    centroid: CentroidId,
    max_distance: Length,
    n: nat,
    e: EdgeId,
)
    requires
        sound(graph, m),
    ensures
        inside(
            ranges_on(gathered(m, graph, centroid, max_distance, n), e),
            mini_length(graph, e),
        ),
        distinct_keys(gathered(m, graph, centroid, max_distance, n)),
    decreases n,
{
    if n > 0 {
        let before = gathered(m, graph, centroid, max_distance, (n - 1) as nat);
        lemma_gathered_inside(m, graph, centroid, max_distance, (n - 1) as nat, e);
        lemma_steps_sound(m, graph, (n - 1) as nat);
        match popped(after_steps(m, graph, (n - 1) as nat), graph).0 {
            Popped::Visit(s) => {
                match owned_range(s, centroid, max_distance) {
                    Some(r) => {
                        match s.edge {
                            Some(edge) => {
                                crate::scope::lemma_owned_range(s, centroid, max_distance);
                                graph.lemma_edge_between(s.start_node_id, s.end_node_id);
                                crate::records::lemma_with_item_keys(before, edge.id, r);
                                if edge.id == e {
                                    crate::records::lemma_with_item_same(before, edge.id, r);
                                    let have = ranges_on(before, e);
                                    let now = ranges_on(with_item(before, edge.id, r), e);
                                    assert(now == have.push(r));
                                    assert forall|i: int| 0 <= i < now.len() implies (
                                    #[trigger] now[i]).start <= now[i].end && now[i].end
                                        <= mini_length(graph, e) by {
                                        if i < have.len() {
                                            assert(now[i] == have[i]);
                                        }
                                    }
                                } else {
                                    crate::records::lemma_with_item_other(before, edge.id, r, e);
                                }
                            },
                            None => {},
                        }
                    },
                    None => {},
                }
            },
            _ => {},
        }
    }
}

/// Extending a scope by lists that lie within an edge leaves the ranges of
/// the edge within the edge and apart, where they were so.
pub proof fn lemma_overlaid_inside(
    base: Seq<(EdgeId, Seq<Range>)>,
    top: Seq<(EdgeId, Seq<Range>)>,
    e: EdgeId,
    len: Length,
)
    requires
        inside(ranges_on(base, e), len),
        apart(ranges_on(base, e)),
        forall|i: int| 0 <= i < top.len() && (#[trigger] top[i]).0 == e ==> inside(top[i].1, len),
    ensures
        inside(ranges_on(overlaid(base, top), e), len),
        apart(ranges_on(overlaid(base, top), e)),
    decreases top.len(),
{
    if top.len() > 0 {
        let front = top.drop_last();
        assert forall|i: int| 0 <= i < front.len() && (#[trigger] front[i]).0 == e implies inside(
            front[i].1,
            len,
        ) by {
            assert(front[i] == top[i]);
        }
        lemma_overlaid_inside(base, front, e, len);
        let before = overlaid(base, front);
        let key = top.last().0;
        let more = joined_all(ranges_on(before, key), top.last().1);
        if key == e {
            assert(top[top.len() - 1].0 == e);
            crate::scope::lemma_joined_all_inside(ranges_on(before, e), top.last().1, len);
            crate::records::lemma_with_record_same(before, key, more);
        } else {
            crate::records::lemma_with_record_other(before, key, more, e);
        }
    }
}

/// Where no edge was cut twice, the ranges of an edge that was cut are the
/// ranges of its chain put together.
pub proof fn lemma_remapped_key(
    scope: Seq<(EdgeId, Seq<Range>)>,
    graph: &Graph,
    chains: Seq<(EdgeId, Seq<EdgeId>)>,
    n: int,
    j: int,
)
    requires
        distinct_keys(chains),
        0 <= j < n <= chains.len(),
    ensures
        ranges_on(remapped(scope, graph, chains, n), chains[j].0) == merged(
            chain_of(remapped(scope, graph, chains, j), graph, chains[j].1),
            chains[j].1.len() as int,
        ),
    decreases n,
{
    let before = remapped(scope, graph, chains, n - 1);
    let put = merged(chain_of(before, graph, chains[n - 1].1), chains[n - 1].1.len() as int);
    if n - 1 == j {
        crate::records::lemma_with_record_same(before, chains[j].0, put);
    } else {
        lemma_remapped_key(scope, graph, chains, n - 1, j);
        assert(chains[j].0 != chains[n - 1].0);
        crate::records::lemma_with_record_other(before, chains[n - 1].0, put, chains[j].0);
    }
}

/// None of the mini-edges of `minis` is itself an edge that was cut.
pub open spec fn plain_chain(chains: Seq<(EdgeId, Seq<EdgeId>)>, minis: Seq<EdgeId>) -> bool {
    forall|i: int, q: int|
        0 <= i < chains.len() && 0 <= q < minis.len() ==> (#[trigger] chains[i]).0
            != #[trigger] minis[q]
}

/// The lengths of the mini-edges `minis`, added up.
pub open spec fn minis_length(graph: &Graph, minis: Seq<EdgeId>) -> int
    decreases minis.len(),
{
    if minis.len() == 0 {
        0
    } else {
        minis_length(graph, minis.drop_last()) + mini_length(graph, minis.last())
    }
}

/// The chain of some mini-edges is as long as the mini-edges are together,
/// whatever the scope holds.
pub proof fn lemma_chain_of_length(
    scope: Seq<(EdgeId, Seq<Range>)>,
    graph: &Graph,
    minis: Seq<EdgeId>,
    n: int,
)
    requires
        0 <= n <= minis.len(),
    ensures
        crate::scope::chain_length(chain_of(scope, graph, minis), n) == minis_length(
            graph,
            minis.take(n),
        ),
    decreases n,
{
    if n > 0 {
        lemma_chain_of_length(scope, graph, minis, n - 1);
        assert(minis.take(n).drop_last() =~= minis.take(n - 1));
        assert(minis.take(n).last() == minis[n - 1]);
    } else {
        assert(minis.take(0) =~= Seq::<EdgeId>::empty());
    }
}

/// Where the edges of `groups` can be cut in the graph `bare`, each group
/// by itself can.
pub proof fn lemma_each_group_fits(bare: &Graph, groups: Seq<(EdgeId, Seq<ObjectView>)>, i: int)
    requires
        batch_error(bare, groups).is_none(),
        0 <= i < groups.len(),
    ensures
        conversion_error(bare, groups[i].0, groups[i].1).is_none(),
{
    if conversion_error(bare, groups[i].0, groups[i].1).is_some() {
        assert(first_error(bare, groups, i + 1).is_some());
        lemma_first_error_stays(bare, groups, i + 1, groups.len() as int);
    }
}

/// In a graph that records the chains of `groups`, whose edges could be
/// cut in the graph `bare`, no mini-edge of a chain is itself an edge that
/// was cut.
pub proof fn lemma_chains_plain(
    bare: &Graph,
    graph: &Graph,
    groups: Seq<(EdgeId, Seq<ObjectView>)>,
    j: int,
)
    requires
        batch_error(bare, groups).is_none(),
        chains_of(graph, groups),
        0 <= j < groups.len(),
    ensures
        plain_chain(graph.new_edges(), graph.new_edges()[j].1),
{
    let chains = graph.new_edges();
    let sorted = by_position(groups[j].1);
    let minis = chains[j].1;
    assert(minis == chain_edges(sorted));
    lemma_each_group_fits(bare, groups, j);
    lemma_by_position(groups[j].1);
    assert forall|q: int| 0 <= q < minis.len() implies !bare.edge_table().contains_key(
        #[trigger] minis[q],
    ) by {
        let at = if q < sorted.len() {
            q
        } else {
            sorted.len() - 1
        };
        let p = choose|p: int| 0 <= p < groups[j].1.len() && groups[j].1[p] == sorted[at];
        assert(unused(bare, groups[j].1[p].id));
    }
    assert forall|i: int, q: int| 0 <= i < chains.len() && 0 <= q < minis.len() implies (
    #[trigger] chains[i]).0 != #[trigger] minis[q] by {
        lemma_each_group_fits(bare, groups, i);
        assert(chains[i].0 == groups[i].0);
    }
}

/// Mini-edges that are each shorter than `limit` are together shorter than
/// `limit` times their number.
pub proof fn lemma_minis_length(graph: &Graph, minis: Seq<EdgeId>, limit: int)
    requires
        forall|q: int| 0 <= q < minis.len() ==> mini_length(graph, #[trigger] minis[q]) < limit,
    ensures
        0 <= minis_length(graph, minis) <= minis.len() * limit,
    decreases minis.len(),
{
    if minis.len() > 0 {
        let front = minis.drop_last();
        assert forall|q: int| 0 <= q < front.len() implies mini_length(
            graph,
            #[trigger] front[q],
        ) < limit by {
            assert(front[q] == minis[q]);
        }
        lemma_minis_length(graph, front, limit);
        assert(mini_length(graph, minis[minis.len() - 1]) < limit);
        assert(front.len() * limit + limit == minis.len() * limit) by (nonlinear_arith)
            requires
                front.len() + 1 == minis.len(),
        ;
    }
}

/// A list of objects that can become nodes, with distinct ids, has fewer
/// members than there are ids.
pub proof fn lemma_distinct_few(list: Seq<ObjectView>)
    requires
        all_in_range(list),
        distinct_ids(list),
    ensures
        list.len() < ID_LIMIT,
{
    let ids = Seq::new(list.len(), |i: int| list[i].id as int);
    let all = vstd::set_lib::set_int_range(1, ID_LIMIT as int);
    assert(ids.no_duplicates());
    ids.unique_seq_to_set();
    vstd::set_lib::lemma_int_range(1, ID_LIMIT as int);
    assert(ids.to_set().subset_of(all)) by {
        assert forall|x: int| ids.to_set().contains(x) implies all.contains(x) by {
            let i = choose|i: int| 0 <= i < ids.len() && ids[i] == x;
            assert(in_range(list[i]));
        }
    }
    vstd::set_lib::lemma_len_subset(ids.to_set(), all);
}

/// In a graph in order that records the chains of `groups`, whose edges
/// could be cut in the graph `bare`, the mini-edges of a chain are together
/// not longer than the largest length.
pub proof fn lemma_chain_short(
    bare: &Graph,
    graph: &Graph,
    groups: Seq<(EdgeId, Seq<ObjectView>)>,
    j: int,
)
    requires
        graph.wf(),
        batch_error(bare, groups).is_none(),
        chains_of(graph, groups),
        0 <= j < groups.len(),
    ensures
        minis_length(graph, graph.new_edges()[j].1) <= Length::MAX,
{
    let sorted = by_position(groups[j].1);
    let minis = graph.new_edges()[j].1;
    let e = graph.edge_table()[groups[j].0]@;
    assert(minis == chain_edges(sorted));
    lemma_each_group_fits(bare, groups, j);
    lemma_by_position(groups[j].1);
    lemma_by_position_distinct(groups[j].1);
    assert(all_in_range(sorted)) by {
        assert forall|i: int| 0 <= i < sorted.len() implies in_range(#[trigger] sorted[i]) by {
            let p = choose|p: int| 0 <= p < groups[j].1.len() && groups[j].1[p] == sorted[i];
            assert(in_range(groups[j].1[p]));
        }
    }
    lemma_distinct_few(sorted);
    assert forall|q: int| 0 <= q < minis.len() implies mini_length(graph, #[trigger] minis[q])
        < DISTANCE_LIMIT by {
        assert(has_link(graph, e, sorted, q));
        let from = chain_stop(e, sorted, q);
        let to = chain_stop(e, sorted, q + 1);
        graph.lemma_edge_between(from, to);
        lemma_distance_bound(graph.node_table()[from], graph.node_table()[to]);
    }
    lemma_minis_length(graph, minis, DISTANCE_LIMIT as int);
    assert(minis.len() * DISTANCE_LIMIT <= ID_LIMIT * DISTANCE_LIMIT) by (nonlinear_arith)
        requires
            minis.len() <= ID_LIMIT,
    ;
}

/// A scope that is built at one level and continued at a higher one holds,
/// on an edge that was cut into a chain, every point that the scope holds
/// which is built at the higher level from the same centroids with the
/// same levels. This is so where no mini-edge of the chain was cut itself
/// and the chain is not longer than the largest length.
pub proof fn lemma_continued_holds_fresh_on_chain(
    graph: &Graph,
    centroids: Seq<CentroidId>,
    levels: Map<ObjectId, K>,
    centroid: CentroidId,
    max_distance: Length,
    k1: K,
    k2: K,
    first_steps: nat,
    more_steps: nat,
    fresh_steps: nat,
    j: int,
    x: int,
)
    requires
        graph.wf(),
        exhausted_after(started(graph, centroids, levels, k1), graph, first_steps),
        exhausted_after(started(graph, centroids, levels, k2), graph, fresh_steps),
        0 <= j < graph.new_edges().len(),
        plain_chain(graph.new_edges(), graph.new_edges()[j].1),
        minis_length(graph, graph.new_edges()[j].1) <= Length::MAX,
        holds(
            ranges_on(
                first_scope(
                    started(graph, centroids, levels, k2),
                    graph,
                    centroid,
                    max_distance,
                    fresh_steps,
                ),
                graph.new_edges()[j].0,
            ),
            centroid,
            x,
        ),
    ensures
        holds(
            ranges_on(
                continued_scope(
                    started(graph, centroids, levels, k1),
                    graph,
                    centroid,
                    max_distance,
                    first_steps,
                    k2,
                    more_steps,
                ),
                graph.new_edges()[j].0,
            ),
            centroid,
            x,
        ),
{
    let m1 = started(graph, centroids, levels, k1);
    let m2 = started(graph, centroids, levels, k2);
    let chains = graph.new_edges();
    let total = chains.len() as int;
    let e = chains[j].0;
    let minis = chains[j].1;
    let n = minis.len() as int;
    graph.lemma_chains_distinct();
    crate::voronoi_heap::lemma_sources_carry(graph, levels, centroids);
    assert(sound(graph, m1));
    lemma_exhausted_same_front(m2, m1, graph, fresh_steps);
    lemma_exhausted_once(m1, graph, first_steps, fresh_steps);
    lemma_gathered_same_front(m2, m1, graph, centroid, max_distance, fresh_steps);
    let found = gathered(m1, graph, centroid, max_distance, first_steps);
    let kept = overlaid(Seq::empty(), found);
    let first = first_scope(m1, graph, centroid, max_distance, first_steps);
    let ended = after_steps(m1, graph, first_steps);
    crate::voronoi_heap::lemma_steps_sound(m1, graph, first_steps);
    let paused = VoronoiModel { is_initial: false, ..ended };
    assert(sound(graph, paused));
    crate::voronoi_heap::lemma_continued_sound(paused, graph, k2);
    let resumed = continued(paused, k2);
    let again = gathered(resumed, graph, centroid, max_distance, more_steps);
    let grown = overlaid(first, again);
    // The ranges of the edge are the ranges of its chain put together.
    lemma_remapped_key(kept, graph, chains, total, j);
    lemma_remapped_key(grown, graph, chains, total, j);
    let less = chain_of(kept, graph, minis);
    let more = chain_of(grown, graph, minis);
    assert forall|q: int| 0 <= q < n implies ranges_on(
        remapped(kept, graph, chains, j),
        #[trigger] minis[q],
    ) == ranges_on(kept, minis[q]) && ranges_on(remapped(grown, graph, chains, j), minis[q])
        == ranges_on(grown, minis[q]) && ranges_on(first, minis[q]) == ranges_on(
        kept,
        minis[q],
    ) by {
        assert forall|i: int| 0 <= i < chains.len() implies (#[trigger] chains[i]).0
            != minis[q] by {}
        lemma_remapped_other(kept, graph, chains, j, minis[q]);
        lemma_remapped_other(grown, graph, chains, j, minis[q]);
        lemma_remapped_other(kept, graph, chains, total, minis[q]);
    }
    assert(chain_of(remapped(kept, graph, chains, j), graph, minis) =~= less);
    assert(chain_of(remapped(grown, graph, chains, j), graph, minis) =~= more);
    // Both chains fit, and their ranges are apart.
    assert forall|q: int| 0 <= q < n implies inside(
        less[q].1,
        mini_length(graph, #[trigger] minis[q]),
    ) && apart(less[q].1) && inside(more[q].1, mini_length(graph, minis[q])) && apart(
        more[q].1,
    ) by {
        let mini = minis[q];
        lemma_gathered_inside(m1, graph, centroid, max_distance, first_steps, mini);
        lemma_gathered_inside(resumed, graph, centroid, max_distance, more_steps, mini);
        assert forall|i: int| 0 <= i < found.len() && (#[trigger] found[i]).0
            == mini implies inside(found[i].1, mini_length(graph, mini)) by {
            crate::records::lemma_record_at(found, i);
        }
        assert forall|i: int| 0 <= i < again.len() && (#[trigger] again[i]).0
            == mini implies inside(again[i].1, mini_length(graph, mini)) by {
            crate::records::lemma_record_at(again, i);
        }
        let none = Seq::<(EdgeId, Seq<Range>)>::empty();
        assert(ranges_on(none, mini) =~= Seq::<Range>::empty());
        lemma_overlaid_inside(none, found, mini, mini_length(graph, mini));
        lemma_overlaid_inside(first, again, mini, mini_length(graph, mini));
    }
    lemma_chain_of_length(kept, graph, minis, n);
    lemma_chain_of_length(grown, graph, minis, n);
    assert(minis.take(n) =~= minis);
    assert(crate::scope::chain_fits(less)) by {
        assert forall|i: int, q: int|
            0 <= i < less.len() && 0 <= q < less[i].1.len() implies (#[trigger] less[i].1[q]).start
            <= less[i].1[q].end && less[i].1[q].end <= less[i].0 by {
            assert(inside(less[i].1, mini_length(graph, minis[i])));
        }
    }
    assert(crate::scope::chain_fits(more)) by {
        assert forall|i: int, q: int|
            0 <= i < more.len() && 0 <= q < more[i].1.len() implies (#[trigger] more[i].1[q]).start
            <= more[i].1[q].end && more[i].1[q].end <= more[i].0 by {
            assert(inside(more[i].1, mini_length(graph, minis[i])));
        }
    }
    assert forall|i: int, y: int| 0 <= i < less.len() && #[trigger] holds(
        less[i].1,
        centroid,
        y,
    ) implies holds(more[i].1, centroid, y) by {
        assert(ranges_on(first, minis[i]) == less[i].1);
        lemma_overlaid_keeps(first, again, minis[i], centroid, y);
    }
    assert forall|i: int| 0 <= i < n implies apart(#[trigger] less[i].1) by {
        assert(inside(less[i].1, mini_length(graph, minis[i])));
    }
    assert forall|i: int| 0 <= i < n implies apart(#[trigger] more[i].1) by {
        assert(inside(more[i].1, mini_length(graph, minis[i])));
    }
    crate::scope::lemma_merged_grows(less, more, centroid, x);
}

/// A scope that is built at one level and continued at a higher one holds,
/// on every edge, every point that the scope holds which is built at the
/// higher level from the same centroids with the same levels. This is so
/// on every graph in order that records the chains of `groups`, whose
/// edges could be cut in the graph `bare`.
pub proof fn lemma_continued_holds_fresh_everywhere(
    bare: &Graph,
    graph: &Graph,
    groups: Seq<(EdgeId, Seq<ObjectView>)>,
    centroids: Seq<CentroidId>,
    levels: Map<ObjectId, K>,
    centroid: CentroidId,
    max_distance: Length,
    k1: K,
    k2: K,
    first_steps: nat,
    more_steps: nat,
    fresh_steps: nat,
    e: EdgeId,
    x: int,
)
    requires
        graph.wf(),
        batch_error(bare, groups).is_none(),
        chains_of(graph, groups),
        exhausted_after(started(graph, centroids, levels, k1), graph, first_steps),
        exhausted_after(started(graph, centroids, levels, k2), graph, fresh_steps),
        holds(
            ranges_on(
                first_scope(
                    started(graph, centroids, levels, k2),
                    graph,
                    centroid,
                    max_distance,
                    fresh_steps,
                ),
                e,
            ),
            centroid,
            x,
        ),
    ensures
        holds(
            ranges_on(
                continued_scope(
                    started(graph, centroids, levels, k1),
                    graph,
                    centroid,
                    max_distance,
                    first_steps,
                    k2,
                    more_steps,
                ),
                e,
            ),
            centroid,
            x,
        ),
{
    if graph.cut_edges().contains(e) {
        let j = choose|j: int|
            0 <= j < graph.new_edges().len() && (#[trigger] graph.new_edges()[j]).0 == e;
        lemma_chains_plain(bare, graph, groups, j);
        lemma_chain_short(bare, graph, groups, j);
        lemma_continued_holds_fresh_on_chain(
            graph,
            centroids,
            levels,
            centroid,
            max_distance,
            k1,
            k2,
            first_steps,
            more_steps,
            fresh_steps,
            j,
            x,
        );
    } else {
        lemma_continued_holds_fresh(
            graph,
            centroids,
            levels,
            centroid,
            max_distance,
            k1,
            k2,
            first_steps,
            more_steps,
            fresh_steps,
            e,
            x,
        );
    }
}

/// Steps that hand nothing out add no ranges.
pub proof fn lemma_gathered_skipped(
    m: VoronoiModel,
    graph: &Graph,
    centroid: CentroidId,
    max_distance: Length,
    done: nat,
    k: nat,
)
    requires
        forall|j: nat| j < k
            ==> popped(#[trigger] after_steps(m, graph, done + j), graph).0 is Skipped,
    ensures
        gathered(m, graph, centroid, max_distance, done + k) == gathered(
            m,
            graph,
            centroid,
            max_distance,
            done,
        ),
    decreases k,
{
    if k > 0 {
        assert forall|j: nat| j < (k - 1) as nat implies popped(
            #[trigger] after_steps(m, graph, done + j),
            graph,
        ).0 is Skipped by {}
        lemma_gathered_skipped(m, graph, centroid, max_distance, done, (k - 1) as nat);
        let last = (k - 1) as nat;
        assert(popped(after_steps(m, graph, done + last), graph).0 is Skipped);
        assert((done + k - 1) as nat == done + last);
    }
}

/// The objects that become centroids for the object `o` at level `k`:
/// those that dominate it at strength `k` or above, by ascending strength,
/// and then `o` itself, each once.
pub open spec fn candidates_of(tally: Tally, o: ObjectView, k: K) -> Seq<ObjectId> {
    first_seen(flat_between(tally.dominated_by, k as int, LEVELS as int).push(o.id))
}

/// The levels of the centroids for the object `o` at level `k`: for each
/// object that dominates it at strength `k` or above its strength, and for
/// `o` the number of dimensions.
pub open spec fn levels_of(tally: Tally, o: ObjectView, k: K, max_dim: K) -> Map<ObjectId, K> {
    levels_between(tally.dominated_by, k as int, LEVELS as int).insert(o.id, max_dim)
}

/// Building the scope of `o` at level `k` ended with the error `e` after
/// the dominance traversal had left the graph `cleaned` with `tally`. A
/// centroid is not found where the graph holds no object for it, and then
/// nothing changed. Or the centroids could not be made nodes, see
/// [`batch_error`], and `after` is `cleaned` with earlier conversions taken
/// back. Or a centroid that was made a node has no level.
pub open spec fn late_error(
    cleaned: &Graph,
    after: &Graph,
    tally: Tally,
    o: ObjectView,
    k: K,
    e: Error,
) -> bool {
    let candidates = candidates_of(tally, o, k);
    let groups = grouped(known_objects(cleaned, candidates));
    ||| !all_known(cleaned, candidates) && e == Error::NotFound && after.same_as(cleaned)
    ||| all_known(cleaned, candidates) && after.cleaned(cleaned) && batch_error(after, groups)
        == Some(e)
    ||| all_known(cleaned, candidates) && chains_of(after, groups) && !all_levelled(
        flattened(after.new_nodes()),
        levels_of(tally, o, k, cleaned.spec_config().max_dim),
    ) && e == Error::NotFound
}

/// Building the scope of `o` at level `k` ended with the error `e` after
/// the dominance traversal: the traversal gave `tally` after `visits`
/// visits on the graph `mid` and left the graph `cleaned`, and then
/// [`late_error`] holds.
pub open spec fn stopped_late(
    before: &Graph,
    mid: &Graph,
    cleaned: &Graph,
    after: &Graph,
    o: ObjectView,
    k: K,
    visits: nat,
    tally: Tally,
    e: Error,
) -> bool {
    dominance_run(before, mid, cleaned, o, visits, tally) && late_error(
        cleaned,
        after,
        tally,
        o,
        k,
        e,
    )
}

/// Why the scope of the object with id `object_id` cannot be built at
/// level `k` from the graph `before`, which is left as `after`.
///
/// The object is not found where the graph does not hold it; nothing
/// changes. Or the object cannot be made a node, see [`conversion_error`];
/// nothing changes. Or the centroids cannot be made nodes, or one of them
/// has no level: see [`late_error`].
pub open spec fn scope_error(before: &Graph, after: &Graph, object_id: ObjectId, k: K,
    e: Error) -> bool {
    if !before.object_table().contains_key(object_id) {
        e == Error::NotFound && after.same_as(before)
    } else {
        let o = before.object_table()[object_id]@;
        ||| conversion_error(before, o.edge_id, seq![o]) == Some(e) && after.same_as(before)
        ||| exists|mid: Graph, cleaned: Graph, visits: nat, tally: Tally| #[trigger]
            stopped_late(before, &mid, &cleaned, after, o, k, visits, tally, e)
    }
}

/// The scope of the object `o` was built at level `k` from the graph
/// `before`, which left the graph `after`, the traversal `heap` and the
/// ranges `scope`.
///
/// The dominance traversal for `o` gave `tally` after `visits` visits, on
/// the graph `mid`, and left the graph `cleaned`. The objects that
/// dominate `o` at strength `k` or above, each once and by ascending
/// strength, and `o` itself were made nodes: `after` stands on `bare`,
/// which is `cleaned` with earlier conversions taken back. The traversal
/// started from these nodes, each with its strength as level and `o` with
/// the number of dimensions, and its first pass took `steps` steps.
pub open spec fn built(
    before: &Graph,
    mid: &Graph,
    cleaned: &Graph,
    bare: &Graph,
    after: &Graph,
    o: ObjectView,
    k: K,
    visits: nat,
    steps: nat,
    tally: Tally,
    heap: VoronoiModel,
    scope: Seq<(EdgeId, Seq<Range>)>,
) -> bool {
    let candidates = candidates_of(tally, o, k);
    let levels = levels_of(tally, o, k, before.spec_config().max_dim);
    let m = started(after, flattened(after.new_nodes()), levels, k);
    &&& dominance_run(before, mid, cleaned, o, visits, tally)
    &&& all_known(cleaned, candidates)
    &&& cut_all(cleaned, bare, after, grouped(known_objects(cleaned, candidates)))
    &&& chains_of(after, grouped(known_objects(cleaned, candidates)))
    &&& exhausted_after(m, after, steps)
    &&& heap == (VoronoiModel { is_initial: false, ..after_steps(m, after, steps) })
    &&& scope == first_scope(
        m,
        after,
        (o.id + NODE_OFFSET) as ObjectId,
        before.spec_config().max_dist,
        steps,
    )
}

/// The ids of `list`, each once, in the order in which they first come.
pub open spec fn first_seen(list: Seq<ObjectId>) -> Seq<ObjectId>
    decreases list.len(),
{
    if list.len() == 0 {
        list
    } else {
        let front = first_seen(list.drop_last());
        if front.contains(list.last()) {
            front
        } else {
            front.push(list.last())
        }
    }
}

/// The ids of `list`, each once, in the order in which they first come.
pub fn once_each(list: &Vec<ObjectId>) -> (once: Vec<ObjectId>)
    ensures
        once@ == first_seen(list@),
        once@.no_duplicates(),
{
    let mut once: Vec<ObjectId> = Vec::new();
    let mut i: usize = 0;
    while i < list.len()
        invariant
            i <= list.len(),
            once@ == first_seen(list@.take(i as int)),
            once@.no_duplicates(),
        decreases list.len() - i,
    {
        let id = list[i];
        let mut seen = false;
        let mut j: usize = 0;
        while j < once.len()
            invariant
                j <= once.len(),
                seen == once@.take(j as int).contains(id),
            decreases once.len() - j,
        {
            if once[j] == id {
                seen = true;
            }
            proof {
                let next = once@.take(j + 1);
                let front = once@.take(j as int);
                assert(next.drop_last() =~= front);
                if front.contains(id) {
                    let q = choose|q: int| 0 <= q < front.len() && front[q] == id;
                    assert(next[q] == id);
                }
                if next.contains(id) && once@[j as int] != id {
                    let q = choose|q: int| 0 <= q < next.len() && next[q] == id;
                    assert(front[q] == id);
                }
                if once@[j as int] == id {
                    assert(next[j as int] == id);
                }
            }
            j += 1;
        }
        proof {
            assert(once@.take(j as int) =~= once@);
            assert(list@.take(i + 1).drop_last() =~= list@.take(i as int));
        }
        if !seen {
            proof {
                crate::adjacency::lemma_push_fresh(once@, id);
            }
            once.push(id);
        }
        i += 1;
    }
    proof {
        assert(list@.take(i as int) =~= list@);
    }
    once
}

/// The Voronoi scope of one object.
pub struct Voronoi<'a> {
    scope: Vec<(EdgeId, Vec<Range>)>,
    min_heap: VoronoiMinHeap<'a>,
    max_distance: Length,
    start_centroid_id: CentroidId,
}

impl<'a> Voronoi<'a> {
    /// The ranges of the object, by edge.
    pub closed spec fn scope(&self) -> Seq<(EdgeId, Seq<Range>)> {
        recorded(self.scope@)
    }

    /// The traversal.
    pub closed spec fn heap(&self) -> VoronoiModel {
        self.min_heap@
    }

    /// The graph that is traversed.
    pub closed spec fn graph(&self) -> &Graph {
        self.min_heap.graph()
    }

    /// The centroid that the ranges are kept for.
    pub closed spec fn centroid(&self) -> CentroidId {
        self.start_centroid_id
    }

    /// The distance at which the scope of a centroid ends.
    pub closed spec fn max_distance(&self) -> Length {
        self.max_distance
    }

    /// The traversal is in order.
    pub closed spec fn wf(&self) -> bool {
        self.min_heap.wf()
    }

    /// The Voronoi scope of the object with id `object_id` at level
    /// `k_start`.
    ///
    /// The objects around the object are sorted by dominance. Those that
    /// dominate it at strength `k_start` or above, each once, and the object
    /// itself are made nodes; they are the centroids, each with its
    /// strength as level, the object with the number of dimensions. The
    /// traversal runs from the centroids until nothing waits; the ranges
    /// that belong to the object are recorded by edge and put together
    /// chain by chain. Then the first pass is over.
    ///
    /// An object that the graph does not hold is refused as not found. An
    /// error of a conversion or of the traversal is handed on. On a graph
    /// that holds nothing from conversions, the scope is never refused for
    /// the state of the graph.
    pub fn initial_voronoi(graph: &'a mut Graph, object_id: ObjectId, k_start: K) -> (r: Result<
        Voronoi<'a>,
        Error,
    >)
        requires
            old(graph).wf(),
        ensures
            final(graph).wf(),
            final(graph).spec_config() == old(graph).spec_config(),
            final(graph).object_table() == old(graph).object_table(),
            final(graph).object_order() == old(graph).object_order(),
            old(graph).plain() ==> final(graph).tidy(),
            old(graph).plain() ==> !(r matches Err(e) && e == Error::StateError),
            !old(graph).object_table().contains_key(object_id) ==> (r matches Err(e) && e
                == Error::NotFound),
            r matches Err(e) ==> scope_error(old(graph), final(graph), object_id, k_start, e),
            r matches Ok(v) ==> {
                &&& v.wf()
                &&& *v.graph() == *final(graph)
                &&& old(graph).object_table().contains_key(object_id)
                &&& v.centroid() == object_id + NODE_OFFSET
                &&& v.max_distance() == old(graph).spec_config().max_dist
                &&& v.graph().spec_config() == old(graph).spec_config()
                &&& v.graph().object_table() == old(graph).object_table()
                &&& v.heap().current_k == k_start
                &&& !v.heap().is_initial
                &&& v.heap().queue.len() == 0
                &&& exists|
                    mid: Graph,
                    cleaned: Graph,
                    bare: Graph,
                    visits: nat,
                    steps: nat,
                    tally: Tally,
                | #[trigger]
                    v.built_from(
                        old(graph),
                        &mid,
                        &cleaned,
                        &bare,
                        old(graph).object_table()[object_id]@,
                        k_start,
                        visits,
                        steps,
                        tally,
                    )
            },
    {
        let config = graph.config();
        proof {
            if graph.object_table().contains_key(object_id) {
                graph.lemma_object(object_id);
            }
        }
        let ghost o = graph.object_table()[object_id]@;
        let found = match DomTraverse::dominate_dominated_by_from_id(graph, object_id) {
            Ok(found) => found,
            Err(e) => {
                proof {
                    if old(graph).plain() && old(graph).object_table().contains_key(object_id) {
                        if crate::convert::all_in_range(seq![o]) {
                            crate::convert::lemma_plain_unused(old(graph), seq![o]);
                        }
                    }
                }
                return Err(e);
            },
        };
        let ghost cleaned = *graph;
        let ghost tally = found@;
        let ghost (mid, visits) = choose|mid: Graph, visits: nat| #[trigger]
            dominance_run(old(graph), &mid, &cleaned, o, visits, tally);
        let mut met = found.dominated_by_objects(k_start);
        met.push(object_id);
        let candidates = once_each(&met);
        let ghost ids = candidates@;
        let mut levels = found.map_dominated_by_objects_k(k_start);
        levels.insert(object_id, config.max_dim);
        let centroid_ids = match graph.convert_object_ids_to_node(candidates) {
            Ok(ids) => ids,
            Err(e) => {
                proof {
                    if old(graph).plain() && all_known(&cleaned, ids) {
                        let known = known_objects(&cleaned, ids);
                        assert forall|i: int, j: int| 0 <= i < j < known.len() implies known[i].id
                            != known[j].id by {
                            cleaned.lemma_object(ids[i]);
                            cleaned.lemma_object(ids[j]);
                        }
                        graph.lemma_cleaned_plain(&cleaned);
                        crate::convert::lemma_grouped_apart(known);
                        crate::convert::lemma_batch_on_plain(graph, grouped(known));
                    }
                    assert(late_error(&cleaned, graph, tally, o, k_start, e));
                    assert(stopped_late(old(graph), &mid, &cleaned, graph, o, k_start, visits,
                        tally, e));
                }
                return Err(e);
            },
        };
        let shared: &'a Graph = graph;
        let min_heap = match VoronoiMinHeap::new(shared, centroid_ids, levels, k_start) {
            Ok(heap) => heap,
            Err(e) => {
                proof {
                    assert(late_error(&cleaned, graph, tally, o, k_start, e));
                    assert(stopped_late(old(graph), &mid, &cleaned, graph, o, k_start, visits,
                        tally, e));
                }
                return Err(e);
            },
        };
        let ghost start = min_heap@;
        let voronoi = Voronoi::first_pass(min_heap, config.max_dist, object_id + NODE_OFFSET);
        proof {
            let n = choose|n: nat| #[trigger] voronoi.first_pass_of(start, voronoi.graph(), n);
            crate::voronoi_heap::lemma_steps_keep(start, voronoi.graph(), n);
            let bare = choose|bare: Graph| #[trigger]
                cut_all(
                    &cleaned,
                    &bare,
                    voronoi.graph(),
                    grouped(known_objects(&cleaned, candidates_of(tally, o, k_start))),
                );
            assert(voronoi.built_from(
                old(graph),
                &mid,
                &cleaned,
                &bare,
                o,
                k_start,
                visits,
                n,
                tally,
            ));
        }
        Ok(voronoi)
    }

    /// This builder is the scope of the object `o` at level `k`, built
    /// from the graph `before`: its graph, traversal and ranges are as
    /// [`built`] says, it keeps the ranges of the node that `o` was made,
    /// and its scope ends at the distance of the configuration.
    pub open spec fn built_from(
        &self,
        before: &Graph,
        mid: &Graph,
        cleaned: &Graph,
        bare: &Graph,
        o: ObjectView,
        k: K,
        visits: nat,
        steps: nat,
        tally: Tally,
    ) -> bool {
        &&& self.centroid() == o.id + NODE_OFFSET
        &&& self.max_distance() == before.spec_config().max_dist
        &&& built(
            before,
            mid,
            cleaned,
            bare,
            self.graph(),
            o,
            k,
            visits,
            steps,
            tally,
            self.heap(),
            self.scope(),
        )
    }

    /// The scope of `start_centroid_id` after the first pass of the
    /// traversal `min_heap`: the traversal runs until nothing waits, the
    /// ranges that belong to the centroid are recorded by edge and put
    /// together chain by chain, and the first pass is over.
    pub fn first_pass(
        min_heap: VoronoiMinHeap<'a>,
        max_distance: Length,
        start_centroid_id: CentroidId,
    ) -> (v: Voronoi<'a>)
        requires
            min_heap.wf(),
        ensures
            v.wf(),
            v.graph() == min_heap.graph(),
            v.centroid() == start_centroid_id,
            v.max_distance() == max_distance,
            exists|n: nat| #[trigger] v.first_pass_of(min_heap@, min_heap.graph(), n),
    {
        let mut voronoi = Voronoi::new(min_heap, max_distance, start_centroid_id);
        let ghost fresh = voronoi;
        voronoi.compute_scope();
        let ghost found = voronoi;
        voronoi.convert_voronoi_scope_to_original_edge();
        voronoi.min_heap.set_initialized();
        proof {
            let n = choose|n: nat| #[trigger] found.ran(&fresh, n);
            assert(voronoi.first_pass_of(min_heap@, min_heap.graph(), n));
        }
        voronoi
    }

    /// This builder is what the first pass of a traversal that starts in
    /// the model `m` gives after a run of `n` steps: the run found nothing
    /// waiting at step `n + 1` and not before, the ranges that it gave to
    /// the centroid are recorded by edge and put together chain by chain,
    /// and the first pass is over.
    pub open spec fn first_pass_of(&self, m: VoronoiModel, graph: &Graph, n: nat) -> bool {
        &&& exhausted_after(m, graph, n)
        &&& self.heap() == (VoronoiModel { is_initial: false, ..after_steps(m, graph, n) })
        &&& self.scope() == first_scope(m, graph, self.centroid(), self.max_distance(), n)
    }

    /// A scope builder on a traversal that has not run yet.
    pub fn new(min_heap: VoronoiMinHeap<'a>, max_distance: Length,
        start_centroid_id: CentroidId) -> (v:
        Voronoi<'a>)
        requires
            min_heap.wf(),
        ensures
            v.wf(),
            v.heap() == min_heap@,
            v.graph() == min_heap.graph(),
            v.centroid() == start_centroid_id,
            v.max_distance() == max_distance,
            v.scope() == Seq::<(EdgeId, Seq<Range>)>::empty(),
    {
        let v = Voronoi { scope: Vec::new(), min_heap, max_distance, start_centroid_id };
        proof {
            assert(v.scope() =~= Seq::<(EdgeId, Seq<Range>)>::empty());
        }
        v
    }

    /// Runs the traversal until nothing waits, and records for each edge
    /// that was crossed the ranges that belong to the centroid: what was
    /// recorded for the edge before stays, and the ranges that are new are
    /// added.
    pub fn compute_scope(&mut self)
        requires
            old(self).wf(),
        ensures
            final(self).wf(),
            final(self).graph() == old(self).graph(),
            final(self).centroid() == old(self).centroid(),
            final(self).max_distance() == old(self).max_distance(),
            exists|n: nat| #[trigger]
                final(self).ran(old(self), n),
    {
        let ghost m = self.min_heap@;
        let ghost graph = self.min_heap.graph();
        let ghost centroid = self.start_centroid_id;
        let ghost maxd = self.max_distance;
        let mut found: Vec<(EdgeId, Vec<Range>)> = Vec::new();
        let ghost mut done: nat = 0;
        proof {
            graph.lemma_edge_table_finite();
            assert(recorded(found@) =~= gathered(m, graph, centroid, maxd, 0));
        }
        loop
            invariant
                self.min_heap.wf(),
                self.min_heap.graph() == graph,
                graph.edge_table().dom().finite(),
                self.start_centroid_id == centroid,
                self.max_distance == maxd,
                self.scope == old(self).scope,
                m == old(self).min_heap@,
                graph == old(self).min_heap.graph(),
                centroid == old(self).start_centroid_id,
                maxd == old(self).max_distance,
                self.min_heap@ == after_steps(m, graph, done),
                recorded(found@) == gathered(m, graph, centroid, maxd, done),
                forall|j: nat|
                    j < done
                        ==> !(popped(#[trigger] after_steps(m, graph, j), graph).0 is Exhausted),
            ensures
                self.min_heap.wf(),
                self.min_heap.graph() == graph,
                self.start_centroid_id == centroid,
                self.max_distance == maxd,
                self.scope == old(self).scope,
                self.min_heap@ == after_steps(m, graph, done),
                recorded(found@) == gathered(m, graph, centroid, maxd, done),
                exhausted_after(m, graph, done),
            decreases uncrossed(graph, self.min_heap@.visited).len(), self.min_heap@.queue.len(),
        {
            let ghost before = self.min_heap@;
            let visit = self.min_heap.next();
            let ghost skipped = choose|k: nat| #[trigger]
                reached(before, graph, k, outcome(visit), self.min_heap@);
            proof {
                assert forall|j: nat| j < skipped implies popped(
                    #[trigger] after_steps(m, graph, done + j),
                    graph,
                ).0 is Skipped by {
                    lemma_steps_add(m, graph, done, j);
                    assert(popped(after_steps(before, graph, j), graph).0 is Skipped);
                }
                lemma_gathered_skipped(m, graph, centroid, maxd, done, skipped);
                lemma_steps_add(m, graph, done, skipped);
                lemma_steps_add(m, graph, done, skipped + 1);
                assert forall|j: nat| j < done + skipped implies !(popped(
                    #[trigger] after_steps(m, graph, j),
                    graph,
                ).0 is Exhausted) by {
                    if j >= done {
                        let d = (j - done) as nat;
                        assert(j == done + d);
                        assert(popped(after_steps(m, graph, done + d), graph).0 is Skipped);
                    }
                }
            }
            match visit {
                None => {
                    proof {
                        done = done + skipped;
                        assert(popped(after_steps(m, graph, done), graph).1 == after_steps(
                            m,
                            graph,
                            done,
                        ));
                    }
                    break ;
                },
                Some(state) => {
                    let owned = scope_of(&state, self.start_centroid_id, self.max_distance);
                    match (owned, state.edge) {
                        (Some(range), Some(edge)) => {
                            add_item(&mut found, edge.id, range);
                        },
                        _ => {},
                    }
                    proof {
                        let at = done + skipped;
                        assert(popped(after_steps(m, graph, at), graph).0 == Popped::Visit(state));
                        assert((at + 1 - 1) as nat == at);
                        done = at + 1;
                    }
                },
            }
        }
        let mut i: usize = 0;
        let ghost base = recorded(self.scope@);
        while i < found.len()
            invariant
                i <= found.len(),
                self.min_heap.wf(),
                self.min_heap.graph() == graph,
                self.start_centroid_id == centroid,
                self.max_distance == maxd,
                self.min_heap@ == after_steps(m, graph, done),
                recorded(self.scope@) == overlaid(base, recorded(found@).take(i as int)),
            decreases found.len() - i,
        {
            proof {
                let top = recorded(found@);
                assert(top.take(i + 1).drop_last() =~= top.take(i as int));
                assert(top.take(i + 1).last() == (found@[i as int].0, found@[i as int].1@));
            }
            let key = found[i].0;
            let at = find_record(&self.scope, key);
            let mut have: Vec<Range> = if at < self.scope.len() {
                proof {
                    assert(recorded(self.scope@)[at as int] == (
                        self.scope@[at as int].0,
                        self.scope@[at as int].1@,
                    ));
                }
                copy_items(&self.scope[at].1)
            } else {
                Vec::new()
            };
            let more = &found[i].1;
            let ghost held = have@;
            let mut j: usize = 0;
            while j < more.len()
                invariant
                    j <= more.len(),
                    have@ == joined_all(held, more@.take(j as int)),
                decreases more.len() - j,
            {
                proof {
                    assert(more@.take(j + 1).drop_last() =~= more@.take(j as int));
                }
                join_range(&mut have, more[j]);
                j += 1;
            }
            proof {
                assert(more@.take(j as int) =~= more@);
            }
            put_record(&mut self.scope, key, have);
            i += 1;
        }
        proof {
            assert(recorded(found@).take(i as int) =~= recorded(found@));
            assert(self.ran(old(self), done));
        }
    }

    /// This builder is what `before` is after a run of `n` steps: the
    /// traversal found nothing waiting at step `n + 1` and not before, and
    /// the ranges that the run gave to the centroid are recorded by edge,
    /// beside what `before` had for the edge.
    pub open spec fn ran(&self, before: &Voronoi<'a>, n: nat) -> bool {
        &&& exhausted_after(before.heap(), before.graph(), n)
        &&& self.heap() == after_steps(before.heap(), before.graph(), n)
        &&& self.scope() == overlaid(
            before.scope(),
            gathered(before.heap(), before.graph(), before.centroid(), before.max_distance(), n),
        )
    }

    /// Joins `range` to the ranges of edge `edge_id`: it becomes one range
    /// with the ranges of its centroid that it overlaps or meets.
    pub fn add_scope(&mut self, range: Range, edge_id: EdgeId)
        ensures
            final(self).scope() == with_record(
                old(self).scope(),
                edge_id,
                joined(ranges_on(old(self).scope(), edge_id), range),
            ),
            final(self).heap() == old(self).heap(),
            final(self).graph() == old(self).graph(),
            final(self).centroid() == old(self).centroid(),
            final(self).max_distance() == old(self).max_distance(),
            old(self).wf() ==> final(self).wf(),
    {
        let mut have = self.ranges(edge_id);
        join_range(&mut have, range);
        put_record(&mut self.scope, edge_id, have);
    }

    /// Joins `range` to the ranges of edge `edge`: see
    /// [`Voronoi::add_scope`].
    pub fn insert(&mut self, edge: EdgeId, range: Range)
        ensures
            final(self).scope() == with_record(
                old(self).scope(),
                edge,
                joined(ranges_on(old(self).scope(), edge), range),
            ),
            final(self).heap() == old(self).heap(),
            final(self).graph() == old(self).graph(),
            final(self).centroid() == old(self).centroid(),
            final(self).max_distance() == old(self).max_distance(),
            old(self).wf() ==> final(self).wf(),
    {
        self.add_scope(range, edge);
    }

    /// Whether ranges are recorded for edge `edge`, be it none.
    pub fn has_record(&self, edge: EdgeId) -> (yes: bool)
        ensures
            yes == record_of(self.scope(), edge).is_some(),
    {
        find_record(&self.scope, edge) < self.scope.len()
    }

    /// The ranges that are recorded for edge `edge_index`, if the edge has
    /// a record.
    pub fn get(&self, edge_index: EdgeId) -> (found: Option<Vec<Range>>)
        ensures
            match found {
                Some(list) => record_of(self.scope(), edge_index) == Some(list@),
                None => record_of(self.scope(), edge_index).is_none(),
            },
    {
        let at = find_record(&self.scope, edge_index);
        if at < self.scope.len() {
            proof {
                assert(self.scope()[at as int] == (self.scope@[at as int].0,
                    self.scope@[at as int].1@));
            }
            Some(copy_items(&self.scope[at].1))
        } else {
            None
        }
    }

    /// Forgets the first record of edge `edge_index`, if the edge has one.
    pub fn remove(&mut self, edge_index: EdgeId)
        ensures
            final(self).scope() == (if record_index(old(self).scope(),
                edge_index) < old(self).scope().len() {
                old(self).scope().remove(record_index(old(self).scope(), edge_index))
            } else {
                old(self).scope()
            }),
            final(self).heap() == old(self).heap(),
            final(self).graph() == old(self).graph(),
            final(self).centroid() == old(self).centroid(),
            final(self).max_distance() == old(self).max_distance(),
            old(self).wf() ==> final(self).wf(),
    {
        let at = find_record(&self.scope, edge_index);
        if at < self.scope.len() {
            self.scope.remove(at);
            proof {
                assert(recorded(self.scope@) =~= recorded(old(self).scope@).remove(at as int));
            }
        }
    }

    /// Puts the ranges of the mini-edges together: each edge that was cut
    /// into a chain gets the ranges of its chain in its own coordinates, in
    /// place of what was recorded for it. The chains are taken in the order
    /// in which the graph records them.
    pub fn convert_voronoi_scope_to_original_edge(&mut self)
        requires
            old(self).wf(),
        ensures
            final(self).wf(),
            final(self).heap() == old(self).heap(),
            final(self).graph() == old(self).graph(),
            final(self).centroid() == old(self).centroid(),
            final(self).max_distance() == old(self).max_distance(),
            final(self).scope() == remapped(
                old(self).scope(),
                old(self).graph(),
                old(self).graph().new_edges(),
                old(self).graph().new_edges().len() as int,
            ),
    {
        let chains = self.min_heap.map_new_edge();
        let ghost graph = self.min_heap.graph();
        let ghost all = recorded(chains@);
        let ghost first = recorded(self.scope@);
        let mut c: usize = 0;
        while c < chains.len()
            invariant
                c <= chains.len(),
                all == recorded(chains@),
                all == graph.new_edges(),
                graph == self.min_heap.graph(),
                self.min_heap.wf(),
                self.min_heap == old(self).min_heap,
                self.start_centroid_id == old(self).start_centroid_id,
                self.max_distance == old(self).max_distance,
                recorded(self.scope@) == remapped(first, graph, all, c as int),
            decreases chains.len() - c,
        {
            let edge_id = chains[c].0;
            let minis = &chains[c].1;
            let ghost scope = recorded(self.scope@);
            let ghost chain = chain_of(scope, graph, minis@);
            let mut out: Vec<Range> = Vec::new();
            let mut offset: Length = 0;
            let mut j: usize = 0;
            proof {
                assert(all[c as int] == (chains@[c as int].0, chains@[c as int].1@));
                assert(out@ =~= merged(chain, 0));
            }
            while j < minis.len()
                invariant
                    j <= minis.len(),
                    graph == self.min_heap.graph(),
                    self.min_heap.wf(),
                    scope == recorded(self.scope@),
                    chain == chain_of(scope, graph, minis@),
                    out@ == merged(chain, j as int),
                    offset == chain_offset(chain, j as int),
                decreases minis.len() - j,
            {
                let mini = minis[j];
                let len = self.min_heap.edge_length(mini);
                let at = find_record(&self.scope, mini);
                proof {
                    assert(chain[j as int] == (mini_length(graph, mini), ranges_on(scope, mini)));
                }
                if at < self.scope.len() {
                    proof {
                        assert(scope[at as int] == (self.scope@[at as int].0,
                            self.scope@[at as int].1@));
                    }
                    append_ranges(&mut out, &self.scope[at].1, offset);
                } else {
                    let none: Vec<Range> = Vec::new();
                    append_ranges(&mut out, &none, offset);
                }
                offset = add_cost(offset, len);
                j += 1;
            }
            put_record(&mut self.scope, edge_id, out);
            c += 1;
        }
    }

    /// Continues at level `k`: the traversal replays what it had set aside
    /// for levels up to `k`, runs until nothing waits, and the ranges are
    /// recorded and put together as in the first pass. A level that is not
    /// above the active one is refused, and nothing changes.
    pub fn continue_voronoi(&mut self, k: K) -> (r: Result<(), Error>)
        requires
            old(self).wf(),
        ensures
            final(self).wf(),
            final(self).graph() == old(self).graph(),
            final(self).centroid() == old(self).centroid(),
            final(self).max_distance() == old(self).max_distance(),
            r == (if k > old(self).heap().current_k {
                Ok::<(), Error>(())
            } else {
                Err::<(), Error>(Error::StateError)
            }),
            r.is_err()
                ==> final(self).heap() == old(self).heap() && final(self).scope()
                    == old(self).scope(),
            r.is_ok() ==> exists|n: nat| #[trigger]
                final(self).continued_from(old(self), k, n),
    {
        match self.min_heap.continue_with(k) {
            Ok(()) => {},
            Err(e) => {
                return Err(e);
            },
        }
        let ghost resumed = *self;
        self.compute_scope();
        let ghost found = *self;
        self.convert_voronoi_scope_to_original_edge();
        proof {
            let n = choose|n: nat| #[trigger] found.ran(&resumed, n);
            assert(self.continued_from(old(self), k, n));
        }
        Ok(())
    }

    /// This builder is what `before` is after it was continued at level
    /// `k` with a run of `n` steps: the reserve was replayed at level `k`,
    /// the run found nothing waiting at step `n + 1` and not before, and
    /// the ranges that it gave to the centroid were recorded by edge and
    /// put together chain by chain.
    pub open spec fn continued_from(&self, before: &Voronoi<'a>, k: K, n: nat) -> bool {
        let resumed = continued(before.heap(), k);
        &&& exhausted_after(resumed, before.graph(), n)
        &&& self.heap() == after_steps(resumed, before.graph(), n)
        &&& self.scope() == remapped(
            overlaid(
                before.scope(),
                gathered(resumed, before.graph(), before.centroid(), before.max_distance(), n),
            ),
            before.graph(),
            before.graph().new_edges(),
            before.graph().new_edges().len() as int,
        )
    }

    /// Records the ranges of every edge of the data set in `result`, at the
    /// active level. Where `result` does not know one of these edges,
    /// nothing is recorded and the edge is reported as not found.
    pub fn save_to_result(&self, result: &mut ResultVoronoi) -> (r: Result<(), Error>)
        requires
            old(result).wf(),
        ensures
            final(result).wf(),
            final(result).edges() == old(result).edges(),
            r == (if all_edges_known(old(result).edges(), self.scope()) {
                Ok::<(), Error>(())
            } else {
                Err::<(), Error>(Error::NotFound)
            }),
            final(result)@ == (if r.is_ok() {
                stored(
                    old(result)@,
                    old(result).edges(),
                    self.scope(),
                    self.heap().current_k,
                    self.scope().len() as int,
                )
            } else {
                old(result)@
            }),
    {
        let mut i: usize = 0;
        while i < self.scope.len()
            invariant
                i <= self.scope.len(),
                *result == *old(result),
                result.wf(),
                all_edges_known(result.edges(), self.scope().take(i as int)),
            decreases self.scope.len() - i,
        {
            if self.scope[i].0 <= ID_LIMIT && !result.knows(self.scope[i].0) {
                proof {
                    assert(self.scope()[i as int].0 == self.scope@[i as int].0);
                }
                return Err(Error::NotFound);
            }
            proof {
                let front = self.scope().take(i as int);
                let next = self.scope().take(i + 1);
                assert forall|j: int| 0 <= j < next.len() && (#[trigger] next[j]).0
                    <= ID_LIMIT implies result.edges().contains_key(next[j].0) by {
                    if j < i {
                        assert(front[j] == next[j]);
                    }
                }
            }
            i += 1;
        }
        proof {
            assert(self.scope().take(i as int) =~= self.scope());
        }
        let k = self.min_heap.current_k();
        let mut i: usize = 0;
        while i < self.scope.len()
            invariant
                i <= self.scope.len(),
                result.wf(),
                result.edges() == old(result).edges(),
                all_edges_known(result.edges(), self.scope()),
                k == self.heap().current_k,
                result@ == stored(old(result)@, old(result).edges(), self.scope(), k, i as int),
            decreases self.scope.len() - i,
        {
            let edge_id = self.scope[i].0;
            proof {
                assert(self.scope()[i as int] == (self.scope@[i as int].0,
                    self.scope@[i as int].1@));
            }
            if edge_id <= ID_LIMIT {
                let ranges = copy_items(&self.scope[i].1);
                let done = result.insert(k, edge_id, ranges);
                assert(done.is_ok());
            }
            i += 1;
        }
        Ok(())
    }

    /// The ranges that are recorded for edge `edge_id`: none where nothing
    /// is recorded for the edge.
    pub fn ranges(&self, edge_id: EdgeId) -> (list: Vec<Range>)
        ensures
            list@ == ranges_on(self.scope(), edge_id),
    {
        let at = find_record(&self.scope, edge_id);
        if at < self.scope.len() {
            proof {
                assert(self.scope()[at as int] == (self.scope@[at as int].0,
                    self.scope@[at as int].1@));
            }
            copy_items(&self.scope[at].1)
        } else {
            Vec::new()
        }
    }

    /// The edges that ranges are recorded for, in the order in which they
    /// were first recorded.
    pub fn edges(&self) -> (list: Vec<EdgeId>)
        ensures
            list@.len() == self.scope().len(),
            forall|i: int| 0 <= i < list@.len() ==> list@[i] == (#[trigger] self.scope()[i]).0,
    {
        let mut list: Vec<EdgeId> = Vec::new();
        let mut i: usize = 0;
        while i < self.scope.len()
            invariant
                i <= self.scope.len(),
                list@.len() == i,
                forall|j: int| 0 <= j < i ==> list@[j] == (#[trigger] self.scope()[j]).0,
            decreases self.scope.len() - i,
        {
            list.push(self.scope[i].0);
            i += 1;
        }
        list
    }

    /// The active level.
    pub fn current_k(&self) -> (k: K)
        ensures
            k == self.heap().current_k,
    {
        self.min_heap.current_k()
    }
}

} // verus!
