//! Dominance between objects: the comparison of two attribute vectors, and
//! the traversal that sorts the objects around a query object into those it
//! dominates and those that dominate it.

use crate::bfs::{
    after_steps, initial, lemma_potential_bounds, lemma_potential_lowered,
    lemma_potential_strict, potential, search_bound, visit_at, BfsMinHeap, BfsModel,
};
use crate::convert::{chain_edges, chain_nodes, conversion_error, cut, has_link};
use crate::graph::Graph;
use crate::types::{
    object_views, DataObject, Error, NodeId, ObjectId, ObjectView, K, NODE_OFFSET,
};
use std::collections::HashMap;
use vstd::prelude::*;

verus! {

/// The number of dimensions among the first `n` in which `a` is not below
/// `b`: a dimension with equal values counts.
pub open spec fn not_below(a: Seq<i64>, b: Seq<i64>, n: int) -> int
    decreases n,
{
    if n <= 0 {
        0
    } else {
        not_below(a, b, n - 1) + (if a[n - 1] >= b[n - 1] {
            1int
        } else {
            0int
        })
    }
}

/// The dimensions that two attribute vectors are compared in: those that
/// both have.
pub open spec fn common_dims(a: Seq<i64>, b: Seq<i64>) -> int {
    if a.len() <= b.len() {
        a.len() as int
    } else {
        b.len() as int
    }
}

/// How a query with attributes `a` compares to an object with attributes
/// `b`: the number of dimensions in which the query is not below the
/// object, and the number in which the object is not below the query.
pub open spec fn scores(a: Seq<i64>, b: Seq<i64>) -> (int, int) {
    (not_below(a, b, common_dims(a, b)), not_below(b, a, common_dims(a, b)))
}

/// How two objects stand to each other.
#[derive(Clone, Copy, Debug, PartialEq, Eq, Structural)]
pub enum Domination {
    /// The query dominates the object, at this strength.
    Dominator(K),
    /// The object dominates the query, at this strength.
    Dominated(K),
    /// Neither dominates the other.
    Neither,
}

/// The strength that stands for a count of dimensions: the count itself,
/// or the largest strength where the count is above it.
pub open spec fn strength(count: int) -> K {
    if count > K::MAX {
        K::MAX
    } else {
        count as K
    }
}

/// How a query with attributes `a` stands to an object with attributes
/// `b`. The side that is not below the other in more dimensions dominates.
/// The strength is the count of the side that loses: the number of
/// dimensions in which the dominated side is not below the other, as it
/// stands, with nothing added to it.
pub open spec fn domination(a: Seq<i64>, b: Seq<i64>) -> Domination {
    let (gt, lt) = scores(a, b);
    if gt > lt {
        Domination::Dominator(strength(lt))
    } else if lt > gt {
        Domination::Dominated(strength(gt))
    } else {
        Domination::Neither
    }
}

/// The counts are between zero and the number of dimensions compared.
pub proof fn lemma_not_below_bounds(a: Seq<i64>, b: Seq<i64>, n: int)
    ensures
        0 <= not_below(a, b, n),
        n >= 0 ==> not_below(a, b, n) <= n,
    decreases n,
{
    if n > 0 {
        lemma_not_below_bounds(a, b, n - 1);
    }
}

/// Seen from the other object the two counts change places: where a query
/// compares to an object with the counts `gt` and `lt`, the object
/// compares to the query with the counts `lt` and `gt`.
pub proof fn lemma_scores_mirror(a: Seq<i64>, b: Seq<i64>)
    ensures
        scores(b, a) == (scores(a, b).1, scores(a, b).0),
{
}

/// Dominance is mirrored: where one object dominates another at some
/// strength, the other is dominated by it at that strength, and where
/// neither dominates, neither does the other way round.
pub proof fn lemma_domination_mirror(a: Seq<i64>, b: Seq<i64>)
    ensures
        domination(a, b) matches Domination::Dominator(k) ==> domination(b, a)
            == Domination::Dominated(k),
        domination(a, b) matches Domination::Dominated(k) ==> domination(b, a)
            == Domination::Dominator(k),
        domination(a, b) == Domination::Neither ==> domination(b, a) == Domination::Neither,
{
    lemma_scores_mirror(a, b);
}

/// How a query with attributes `a` stands to an object with attributes
/// `b`.
pub fn compare(a: &Vec<i64>, b: &Vec<i64>) -> (d: Domination)
    ensures
        d == domination(a@, b@),
{
    let n = if a.len() <= b.len() {
        a.len()
    } else {
        b.len()
    };
    let mut src_score: usize = 0;
    let mut dst_score: usize = 0;
    let mut i: usize = 0;
    while i < n
        invariant
            i <= n,
            n == common_dims(a@, b@),
            src_score == not_below(a@, b@, i as int),
            dst_score == not_below(b@, a@, i as int),
            src_score <= i,
            dst_score <= i,
        decreases n - i,
    {
        if a[i] > b[i] {
            src_score += 1;
        } else if a[i] < b[i] {
            dst_score += 1;
        } else {
            src_score += 1;
            dst_score += 1;
        }
        i += 1;
    }
    if src_score > dst_score {
        Domination::Dominator(as_strength(dst_score))
    } else if src_score < dst_score {
        Domination::Dominated(as_strength(src_score))
    } else {
        Domination::Neither
    }
}

/// The strength that stands for a count of dimensions.
fn as_strength(count: usize) -> (k: K)
    ensures
        k == strength(count as int),
{
    if count > 255 {
        255
    } else {
        count as K
    }
}

broadcast use vstd::std_specs::hash::group_hash_axioms;

/// The number of strengths.
pub const LEVELS: usize = 256;

/// What a dominance traversal found, as mathematics: for each strength, the
/// ids of the objects that dominate the query at that strength, and of those
/// that the query dominates at that strength, in the order in which they
/// were met.
pub struct Tally {
    pub dominated_by: Seq<Seq<ObjectId>>,
    pub dominate: Seq<Seq<ObjectId>>,
}

/// A tally with nothing in it.
pub open spec fn empty_tally() -> Tally {
    Tally {
        dominated_by: Seq::new(LEVELS as nat, |k: int| Seq::<ObjectId>::empty()),
        dominate: Seq::new(LEVELS as nat, |k: int| Seq::<ObjectId>::empty()),
    }
}

/// The tally after the object `o` was compared to a query with the
/// attributes `a`.
pub open spec fn tallied(t: Tally, a: Seq<i64>, o: ObjectView) -> Tally {
    match domination(a, o.attr) {
        Domination::Dominator(k) => Tally {
            dominate: t.dominate.update(k as int, t.dominate[k as int].push(o.id)),
            ..t
        },
        Domination::Dominated(k) => Tally {
            dominated_by: t.dominated_by.update(k as int, t.dominated_by[k as int].push(o.id)),
            ..t
        },
        Domination::Neither => t,
    }
}

/// The tally after each of `objects` was compared to the query, first to
/// last.
pub open spec fn tallied_all(t: Tally, a: Seq<i64>, objects: Seq<ObjectView>) -> Tally
    decreases objects.len(),
{
    if objects.len() == 0 {
        t
    } else {
        tallied(tallied_all(t, a, objects.drop_last()), a, objects.last())
    }
}

/// The objects on the edge between `x` and `y`.
pub open spec fn objects_on(graph: &Graph, x: NodeId, y: NodeId) -> Seq<ObjectView> {
    match graph.edge_between(x, y) {
        Some(e) => e@.objects,
        None => Seq::empty(),
    }
}

/// The tally after the first `n` visits of a traversal that starts in the
/// model `m`: for each visit, the objects on the visited edge are compared
/// to the query.
pub open spec fn tally_run(graph: &Graph, a: Seq<i64>, m: BfsModel, n: nat) -> Tally
    decreases n,
{
    if n == 0 {
        empty_tally()
    } else {
        let bound = search_bound(graph.spec_config().max_dist);
        let v = visit_at(m, graph, bound, (n - 1) as nat);
        tallied_all(
            tally_run(graph, a, m, (n - 1) as nat),
            a,
            objects_on(graph, v.node_id, v.prev_node_id),
        )
    }
}

/// A traversal that starts in the model `m` is over after exactly `n`
/// visits.
pub open spec fn complete_run(graph: &Graph, m: BfsModel, n: nat) -> bool {
    let bound = search_bound(graph.spec_config().max_dist);
    &&& after_steps(m, graph, bound, n).queue.len() == 0
    &&& forall|j: nat| j < n ==> (#[trigger] after_steps(m, graph, bound, j)).queue.len() > 0
}

/// The tally `t` is what the traversal of `graph` from `centroid` finds
/// for a query with the attributes `a`, after `n` visits.
pub open spec fn surveyed(graph: &Graph, centroid: NodeId, a: Seq<i64>, n: nat, t: Tally) -> bool {
    complete_run(graph, initial(graph, centroid), n) && t == tally_run(
        graph,
        a,
        initial(graph, centroid),
        n,
    )
}

/// The tally `t` is what the dominance traversal for the query `o` finds
/// when it starts from the graph `before`: `mid` is `before` with the
/// query made a node on its edge, the traversal of `mid` from that node
/// gives `t` after `n` visits, and `after` is `mid` with the conversion
/// taken back.
pub open spec fn dominance_run(
    before: &Graph,
    mid: &Graph,
    after: &Graph,
    o: ObjectView,
    n: nat,
    t: Tally,
) -> bool {
    &&& mid.wf()
    &&& cut(before, mid, o.edge_id, seq![o], chain_edges(seq![o]), chain_nodes(seq![o]))
    &&& surveyed(mid, (o.id + NODE_OFFSET) as NodeId, o.attr, n, t)
    &&& after.cleaned(mid)
}

/// The tally has a bucket for each strength.
pub open spec fn well_sized(t: Tally) -> bool {
    t.dominated_by.len() == LEVELS && t.dominate.len() == LEVELS
}

/// The object `x` lies on the edge of visit `j + 1` of a traversal that
/// starts in the model `m`.
pub open spec fn met_at(graph: &Graph, m: BfsModel, j: nat, x: ObjectView) -> bool {
    let bound = search_bound(graph.spec_config().max_dist);
    let v = visit_at(m, graph, bound, j);
    objects_on(graph, v.node_id, v.prev_node_id).contains(x)
}

/// The object `x` lies on the edge of one of the first `n` visits of a
/// traversal that starts in the model `m`.
pub open spec fn met(graph: &Graph, m: BfsModel, n: nat, x: ObjectView) -> bool {
    exists|j: nat| j < n && #[trigger] met_at(graph, m, j, x)
}

/// The tally files the id `id` in no bucket.
pub open spec fn absent(t: Tally, id: ObjectId) -> bool {
    forall|k: int|
        0 <= k < LEVELS ==> !(#[trigger] t.dominate[k]).contains(id) && !t.dominated_by[k].contains(
            id,
        )
}

/// A list with one more member holds what it held and that member.
proof fn lemma_push_contains(s: Seq<ObjectId>, x: ObjectId, y: ObjectId)
    ensures
        s.push(x).contains(y) <==> s.contains(y) || x == y,
{
    if s.contains(y) {
        let i = choose|i: int| 0 <= i < s.len() && s[i] == y;
        assert(s.push(x)[i] == y);
    }
    if x == y {
        assert(s.push(x)[s.len() as int] == y);
    }
    if s.push(x).contains(y) {
        let i = choose|i: int| 0 <= i < s.push(x).len() && s.push(x)[i] == y;
        if i < s.len() {
            assert(s[i] == y);
        }
    }
}

/// What a tally files after one comparison: what it filed before, and the
/// object that was compared, in the bucket of its strength on the side on
/// which it stands.
pub proof fn lemma_tallied_members(t: Tally, a: Seq<i64>, o: ObjectView, id: ObjectId, k: int)
    requires
        well_sized(t),
        0 <= k < LEVELS,
    ensures
        well_sized(tallied(t, a, o)),
        tallied(t, a, o).dominate[k].contains(id) <==> t.dominate[k].contains(id) || (o.id == id
            && domination(a, o.attr) == Domination::Dominator(k as K)),
        tallied(t, a, o).dominated_by[k].contains(id) <==> t.dominated_by[k].contains(id) || (o.id
            == id && domination(a, o.attr) == Domination::Dominated(k as K)),
{
    match domination(a, o.attr) {
        Domination::Dominator(s) => {
            lemma_push_contains(t.dominate[s as int], o.id, id);
        },
        Domination::Dominated(s) => {
            lemma_push_contains(t.dominated_by[s as int], o.id, id);
        },
        Domination::Neither => {},
    }
}

/// What a tally files after the objects of a list were compared: what it
/// filed before, and each object of the list, in the bucket of its
/// strength on the side on which it stands.
pub proof fn lemma_tallied_all_members(
    t: Tally,
    a: Seq<i64>,
    objects: Seq<ObjectView>,
    id: ObjectId,
    k: int,
)
    requires
        well_sized(t),
        0 <= k < LEVELS,
    ensures
        well_sized(tallied_all(t, a, objects)),
        tallied_all(t, a, objects).dominate[k].contains(id) <==> t.dominate[k].contains(id) || (
        exists|x: ObjectView| #[trigger]
            objects.contains(x) && x.id == id && domination(a, x.attr) == Domination::Dominator(
                k as K,
            )),
        tallied_all(t, a, objects).dominated_by[k].contains(id) <==> t.dominated_by[k].contains(id)
            || (exists|x: ObjectView| #[trigger]
            objects.contains(x) && x.id == id && domination(a, x.attr) == Domination::Dominated(
                k as K,
            )),
    decreases objects.len(),
{
    if objects.len() > 0 {
        let front = objects.drop_last();
        let last = objects.last();
        lemma_tallied_all_members(t, a, front, id, k);
        lemma_tallied_members(tallied_all(t, a, front), a, last, id, k);
        assert(objects.contains(last)) by {
            assert(objects[objects.len() - 1] == last);
        }
        assert forall|x: ObjectView| front.contains(x) implies objects.contains(x) by {
            let i = choose|i: int| 0 <= i < front.len() && front[i] == x;
            assert(objects[i] == x);
        }
        assert forall|x: ObjectView| objects.contains(x) implies front.contains(x) || x == last by {
            let i = choose|i: int| 0 <= i < objects.len() && objects[i] == x;
            if i < front.len() {
                assert(front[i] == x);
            }
        }
    }
}

/// What the tally of a traversal files: an id stands in the bucket of a
/// strength, on one side, where an object with that id was met that stands
/// to the query on that side at that strength, and nowhere else.
pub proof fn lemma_tally_run_members(
    graph: &Graph,
    a: Seq<i64>,
    m: BfsModel,
    n: nat,
    id: ObjectId,
    k: int,
)
    requires
        0 <= k < LEVELS,
    ensures
        well_sized(tally_run(graph, a, m, n)),
        tally_run(graph, a, m, n).dominate[k].contains(id) <==> (exists|x: ObjectView| #[trigger]
            met(graph, m, n, x) && x.id == id && domination(a, x.attr) == Domination::Dominator(
                k as K,
            )),
        tally_run(graph, a, m, n).dominated_by[k].contains(id) <==> (exists|x: ObjectView|
            #[trigger] met(graph, m, n, x) && x.id == id && domination(a, x.attr)
                == Domination::Dominated(k as K)),
    decreases n,
{
    let now = tally_run(graph, a, m, n);
    let up = Domination::Dominator(k as K);
    let down = Domination::Dominated(k as K);
    if n > 0 {
        let before = (n - 1) as nat;
        lemma_tally_run_members(graph, a, m, before, id, k);
        let bound = search_bound(graph.spec_config().max_dist);
        let v = visit_at(m, graph, bound, before);
        let objects = objects_on(graph, v.node_id, v.prev_node_id);
        let was = tally_run(graph, a, m, before);
        lemma_tallied_all_members(was, a, objects, id, k);
        assert forall|x: ObjectView| #[trigger] met(graph, m, n, x) implies met(
            graph,
            m,
            before,
            x,
        ) || objects.contains(x) by {
            let j = choose|j: nat| j < n && #[trigger] met_at(graph, m, j, x);
            if j < before {
                assert(met(graph, m, before, x));
            }
        }
        assert forall|x: ObjectView| #[trigger] met(graph, m, before, x) implies met(
            graph,
            m,
            n,
            x,
        ) by {
            let j = choose|j: nat| j < before && #[trigger] met_at(graph, m, j, x);
            assert(j < n && met_at(graph, m, j, x));
        }
        assert forall|x: ObjectView| #[trigger] objects.contains(x) implies met(graph, m, n, x) by {
            assert(met_at(graph, m, before, x));
        }
        if now.dominate[k].contains(id) {
            if was.dominate[k].contains(id) {
                let x = choose|x: ObjectView| #[trigger]
                    met(graph, m, before, x) && x.id == id && domination(a, x.attr) == up;
                assert(met(graph, m, n, x));
            } else {
                let x = choose|x: ObjectView| #[trigger]
                    objects.contains(x) && x.id == id && domination(a, x.attr) == up;
                assert(met(graph, m, n, x));
            }
        }
        if exists|x: ObjectView| #[trigger]
            met(graph, m, n, x) && x.id == id && domination(a, x.attr) == up {
            let x = choose|x: ObjectView| #[trigger]
                met(graph, m, n, x) && x.id == id && domination(a, x.attr) == up;
            if met(graph, m, before, x) {
                assert(was.dominate[k].contains(id));
            } else {
                assert(objects.contains(x));
            }
        }
        if now.dominated_by[k].contains(id) {
            if was.dominated_by[k].contains(id) {
                let x = choose|x: ObjectView| #[trigger]
                    met(graph, m, before, x) && x.id == id && domination(a, x.attr) == down;
                assert(met(graph, m, n, x));
            } else {
                let x = choose|x: ObjectView| #[trigger]
                    objects.contains(x) && x.id == id && domination(a, x.attr) == down;
                assert(met(graph, m, n, x));
            }
        }
        if exists|x: ObjectView| #[trigger]
            met(graph, m, n, x) && x.id == id && domination(a, x.attr) == down {
            let x = choose|x: ObjectView| #[trigger]
                met(graph, m, n, x) && x.id == id && domination(a, x.attr) == down;
            if met(graph, m, before, x) {
                assert(was.dominated_by[k].contains(id));
            } else {
                assert(objects.contains(x));
            }
        }
    } else {
        assert(now.dominate[k] =~= Seq::<ObjectId>::empty());
        assert(now.dominated_by[k] =~= Seq::<ObjectId>::empty());
    }
}

/// Where an object was met and its id stands for one object, an object
/// with its id that stands to the query in some way was met exactly where
/// the object stands to the query in that way.
proof fn lemma_one_object(
    graph: &Graph,
    m: BfsModel,
    n: nat,
    a: Seq<i64>,
    b: ObjectView,
    d: Domination,
)
    requires
        met(graph, m, n, b),
        forall|x: ObjectView| #[trigger] met(graph, m, n, x) && x.id == b.id ==> x.attr == b.attr,
    ensures
        (exists|x: ObjectView| #[trigger]
            met(graph, m, n, x) && x.id == b.id && domination(a, x.attr) == d) <==> domination(
            a,
            b.attr,
        ) == d,
{
    if exists|x: ObjectView| #[trigger]
        met(graph, m, n, x) && x.id == b.id && domination(a, x.attr) == d {
        let x = choose|x: ObjectView| #[trigger]
            met(graph, m, n, x) && x.id == b.id && domination(a, x.attr) == d;
        assert(x.attr == b.attr);
    }
}

/// The results of two dominance traversals mirror each other. Where the
/// traversal for the object `a` meets the object `b` and the traversal for
/// `b` meets `a`, and each id stands for one object: `a` dominates `b` at
/// some strength in the tally of `a` where `b` is dominated by `a` at that
/// strength in the tally of `b`, and the other way round; and `b` stands
/// in no bucket of the tally of `a` where `a` stands in no bucket of the
/// tally of `b`.
pub proof fn lemma_tallies_mirror(
    graph_a: &Graph,
    start_a: BfsModel,
    visits_a: nat,
    graph_b: &Graph,
    start_b: BfsModel,
    visits_b: nat,
    a: ObjectView,
    b: ObjectView,
    k: K,
)
    requires
        met(graph_a, start_a, visits_a, b),
        met(graph_b, start_b, visits_b, a),
        forall|x: ObjectView| #[trigger]
            met(graph_a, start_a, visits_a, x) && x.id == b.id ==> x.attr == b.attr,
        forall|x: ObjectView| #[trigger]
            met(graph_b, start_b, visits_b, x) && x.id == a.id ==> x.attr == a.attr,
    ensures
        tally_run(graph_a, a.attr, start_a, visits_a).dominate[k as int].contains(b.id)
            <==> tally_run(graph_b, b.attr, start_b, visits_b).dominated_by[k as int].contains(
            a.id,
        ),
        tally_run(graph_a, a.attr, start_a, visits_a).dominated_by[k as int].contains(b.id)
            <==> tally_run(graph_b, b.attr, start_b, visits_b).dominate[k as int].contains(a.id),
        absent(tally_run(graph_a, a.attr, start_a, visits_a), b.id) <==> absent(
            tally_run(graph_b, b.attr, start_b, visits_b),
            a.id,
        ),
{
    let ta = tally_run(graph_a, a.attr, start_a, visits_a);
    let tb = tally_run(graph_b, b.attr, start_b, visits_b);
    lemma_domination_mirror(a.attr, b.attr);
    lemma_domination_mirror(b.attr, a.attr);
    lemma_tally_run_members(graph_a, a.attr, start_a, visits_a, b.id, 0);
    lemma_tally_run_members(graph_b, b.attr, start_b, visits_b, a.id, 0);
    assert forall|s: int| 0 <= s < LEVELS implies (#[trigger] ta.dominate[s]).contains(b.id)
        == (domination(a.attr, b.attr) == Domination::Dominator(s as K))
        && ta.dominated_by[s].contains(b.id) == (domination(a.attr, b.attr)
        == Domination::Dominated(s as K)) by {
        lemma_tally_run_members(graph_a, a.attr, start_a, visits_a, b.id, s);
        lemma_one_object(graph_a, start_a, visits_a, a.attr, b, Domination::Dominator(s as K));
        lemma_one_object(graph_a, start_a, visits_a, a.attr, b, Domination::Dominated(s as K));
    }
    assert forall|s: int| 0 <= s < LEVELS implies (#[trigger] tb.dominate[s]).contains(a.id)
        == (domination(b.attr, a.attr) == Domination::Dominator(s as K))
        && tb.dominated_by[s].contains(a.id) == (domination(b.attr, a.attr)
        == Domination::Dominated(s as K)) by {
        lemma_tally_run_members(graph_b, b.attr, start_b, visits_b, a.id, s);
        lemma_one_object(graph_b, start_b, visits_b, b.attr, a, Domination::Dominator(s as K));
        lemma_one_object(graph_b, start_b, visits_b, b.attr, a, Domination::Dominated(s as K));
    }
    assert(ta.dominate[k as int].contains(b.id) == (domination(a.attr, b.attr)
        == Domination::Dominator(k)));
    assert(tb.dominate[k as int].contains(a.id) == (domination(b.attr, a.attr)
        == Domination::Dominator(k)));
    if absent(ta, b.id) {
        match domination(a.attr, b.attr) {
            Domination::Dominator(s) => {
                assert(ta.dominate[s as int].contains(b.id));
            },
            Domination::Dominated(s) => {
                assert(!ta.dominate[s as int].contains(b.id));
                assert(ta.dominated_by[s as int].contains(b.id));
            },
            Domination::Neither => {},
        }
    }
    if absent(tb, a.id) {
        match domination(b.attr, a.attr) {
            Domination::Dominator(s) => {
                assert(tb.dominate[s as int].contains(a.id));
            },
            Domination::Dominated(s) => {
                assert(!tb.dominate[s as int].contains(a.id));
                assert(tb.dominated_by[s as int].contains(a.id));
            },
            Domination::Neither => {},
        }
    }
}

/// The buckets from `lo` up to, but not including, `hi`, one after the
/// other.
pub open spec fn flat_between(buckets: Seq<Seq<ObjectId>>, lo: int, hi: int) -> Seq<ObjectId>
    decreases hi - lo,
{
    if lo >= hi {
        Seq::empty()
    } else {
        flat_between(buckets, lo, hi - 1) + buckets[hi - 1]
    }
}

/// The ids of `ids`, each with the strength `k`.
pub open spec fn at_strength(ids: Seq<ObjectId>, k: K) -> Seq<(ObjectId, K)> {
    ids.map_values(|id: ObjectId| (id, k))
}

/// The ids of the buckets from `lo` up to, but not including, `hi`, each
/// with the strength of its bucket, one bucket after the other.
pub open spec fn paired_between(buckets: Seq<Seq<ObjectId>>, lo: int, hi: int) -> Seq<(ObjectId, K)>
    decreases hi - lo,
{
    if lo >= hi {
        Seq::empty()
    } else {
        paired_between(buckets, lo, hi - 1) + at_strength(buckets[hi - 1], (hi - 1) as K)
    }
}

/// `m` with strength `k` recorded for each id of `ids`, first to last.
pub open spec fn with_level(m: Map<ObjectId, K>, ids: Seq<ObjectId>, k: K) -> Map<ObjectId, K>
    decreases ids.len(),
{
    if ids.len() == 0 {
        m
    } else {
        with_level(m, ids.drop_last(), k).insert(ids.last(), k)
    }
}

/// The strength of each object in the buckets from `lo` up to, but not
/// including, `hi`: where an object stands in several buckets, the highest
/// strength.
pub open spec fn levels_between(buckets: Seq<Seq<ObjectId>>, lo: int, hi: int) -> Map<ObjectId, K>
    decreases hi - lo,
{
    if lo >= hi {
        Map::empty()
    } else {
        with_level(levels_between(buckets, lo, hi - 1), buckets[hi - 1], (hi - 1) as K)
    }
}

/// The buckets of a vector as sequences.
pub open spec fn bucket_views(v: Seq<Vec<ObjectId>>) -> Seq<Seq<ObjectId>> {
    Seq::new(v.len(), |k: int| v[k]@)
}

/// What a dominance traversal found.
#[derive(Debug)]
pub struct DomTraverse {
    originator: DataObject,
    dominated_by: Vec<Vec<ObjectId>>,
    dominate: Vec<Vec<ObjectId>>,
}

impl View for DomTraverse {
    type V = Tally;

    closed spec fn view(&self) -> Tally {
        Tally {
            dominated_by: bucket_views(self.dominated_by@),
            dominate: bucket_views(self.dominate@),
        }
    }
}

/// A vector of empty buckets, one for each strength.
fn empty_buckets() -> (buckets: Vec<Vec<ObjectId>>)
    ensures
        buckets@.len() == LEVELS,
        bucket_views(buckets@) == Seq::new(LEVELS as nat, |k: int| Seq::<ObjectId>::empty()),
{
    let mut buckets: Vec<Vec<ObjectId>> = Vec::new();
    let mut k: usize = 0;
    while k < LEVELS
        invariant
            k <= LEVELS,
            buckets@.len() == k,
            forall|j: int| 0 <= j < k ==> (#[trigger] buckets@[j])@ == Seq::<ObjectId>::empty(),
        decreases LEVELS - k,
    {
        buckets.push(Vec::new());
        k += 1;
    }
    proof {
        assert(bucket_views(buckets@) =~= Seq::new(
            LEVELS as nat,
            |k: int| Seq::<ObjectId>::empty(),
        ));
    }
    buckets
}

impl DomTraverse {
    /// There is a bucket for each strength.
    pub closed spec fn wf(&self) -> bool {
        self.dominated_by@.len() == LEVELS && self.dominate@.len() == LEVELS
    }

    /// The query object.
    pub closed spec fn originator(&self) -> ObjectView {
        self.originator@
    }

    /// Compares `o` to the query and files it.
    fn tally(&mut self, o: &DataObject)
        requires
            old(self).wf(),
        ensures
            final(self).wf(),
            final(self).originator() == old(self).originator(),
            final(self)@ == tallied(old(self)@, old(self).originator().attr, o@),
    {
        match compare(&self.originator.attr, &o.attr) {
            Domination::Dominator(k) => {
                self.dominate[k as usize].push(o.id);
                proof {
                    assert(bucket_views(self.dominate@) =~= bucket_views(
                        old(self).dominate@,
                    ).update(k as int, old(self).dominate@[k as int]@.push(o.id)));
                }
            },
            Domination::Dominated(k) => {
                self.dominated_by[k as usize].push(o.id);
                proof {
                    assert(bucket_views(self.dominated_by@) =~= bucket_views(
                        old(self).dominated_by@,
                    ).update(k as int, old(self).dominated_by@[k as int]@.push(o.id)));
                }
            },
            Domination::Neither => {},
        }
    }

    /// Compares the objects around `centroid_id` to the query `originator`:
    /// a bounded traversal from that node visits the edges within reach,
    /// and every object on a visited edge is compared to the query and
    /// filed by who dominates and at which strength. A node that the graph
    /// does not have is refused.
    pub fn around(graph: &Graph, centroid_id: NodeId, originator: DataObject) -> (r: Result<
        DomTraverse,
        Error,
    >)
        requires
            graph.wf(),
        ensures
            match r {
                Ok(found) => {
                    &&& graph.adjacency().contains_key(centroid_id)
                    &&& found.wf()
                    &&& found.originator() == originator@
                    &&& exists|n: nat| #[trigger]
                        surveyed(graph, centroid_id, originator@.attr, n, found@)
                },
                Err(e) => !graph.adjacency().contains_key(centroid_id) && e == Error::NotFound,
            },
    {
        let mut bfs = match BfsMinHeap::new(graph, centroid_id) {
            Ok(bfs) => bfs,
            Err(e) => {
                return Err(e);
            },
        };
        let everywhere = graph.nodes();
        let ghost a = originator@.attr;
        let ghost query = originator@;
        let ghost m = initial(graph, centroid_id);
        let ghost bound = search_bound(graph.spec_config().max_dist);
        let mut found = DomTraverse {
            originator,
            dominated_by: empty_buckets(),
            dominate: empty_buckets(),
        };
        let ghost mut n: nat = 0;
        loop
            invariant
                graph.wf(),
                query == originator@,
                a == query.attr,
                graph.adjacency().contains_key(centroid_id),
                bfs.wf(),
                bfs.graph() == graph,
                bfs.bound() == bound,
                bound == search_bound(graph.spec_config().max_dist),
                m == initial(graph, centroid_id),
                everywhere@.to_set() == graph.adjacency().dom(),
                found.wf(),
                found.originator().attr == a,
                found.originator() == query,
                bfs@ == after_steps(m, graph, bound, n),
                found@ == tally_run(graph, a, m, n),
                forall|j: nat| j < n
                    ==> (#[trigger] after_steps(m, graph, bound, j)).queue.len() > 0,
            decreases potential(bfs@.costs, everywhere@), bfs@.queue.len(),
        {
            let ghost before = bfs@;
            let visit = match bfs.next() {
                Some(v) => v,
                None => {
                    proof {
                        assert(bfs@ == before);
                        assert(complete_run(graph, m, n));
                        assert(surveyed(graph, centroid_id, a, n, found@));
                    }
                    return Ok(found);
                },
            };
            proof {
                lemma_potential_lowered(before.costs, bfs@.costs, everywhere@);
                lemma_potential_bounds(bfs@.costs, everywhere@);
                if !(bfs@.costs == before.costs && bfs@.queue.len() + 1 == before.queue.len()) {
                    let x = choose|x: NodeId|
                        graph.adjacency().contains_key(x) && crate::bfs::known_cost(bfs@.costs, x)
                            < crate::bfs::known_cost(before.costs, x);
                    assert(everywhere@.to_set().contains(x));
                    lemma_potential_strict(before.costs, bfs@.costs, everywhere@, x);
                }
                graph.lemma_neighbor_edge(visit.prev_node_id, visit.node_id);
                graph.lemma_edge_between(visit.prev_node_id, visit.node_id);
                assert(visit == visit_at(m, graph, bound, n));
            }
            let objects = match graph.objects(visit.node_id, visit.prev_node_id) {
                Ok(list) => list,
                Err(e) => {
                    proof {
                        assert(false);
                    }
                    return Err(e);
                },
            };
            let ghost start = found@;
            let mut i: usize = 0;
            while i < objects.len()
                invariant
                    i <= objects.len(),
                    found.wf(),
                    found.originator().attr == a,
                    found.originator() == query,
                    found@ == tallied_all(start, a, object_views(objects@).take(i as int)),
                decreases objects.len() - i,
            {
                proof {
                    let views = object_views(objects@);
                    assert(views.take(i + 1).drop_last() =~= views.take(i as int));
                    assert(views.take(i + 1).last() == objects@[i as int]@);
                }
                found.tally(&objects[i]);
                i += 1;
            }
            proof {
                assert(object_views(objects@).take(i as int) =~= object_views(objects@));
                n = n + 1;
            }
        }
    }

    /// Sorts the objects around `originator` by dominance: the object is
    /// made a node on its edge, the objects on the edges within reach are
    /// compared to it, and the conversion is taken back.
    ///
    /// An object that cannot be made a node is refused, and nothing
    /// changes: see [`conversion_error`].
    pub fn dominate_dominated_by(graph: &mut Graph, originator: DataObject) -> (r: Result<
        DomTraverse,
        Error,
    >)
        requires
            old(graph).wf(),
        ensures
            final(graph).wf(),
            match r {
                Ok(found) => {
                    &&& conversion_error(
                        old(graph),
                        originator.edge_id,
                        seq![originator@],
                    ).is_none()
                    &&& found.wf()
                    &&& found.originator() == originator@
                    &&& exists|mid: Graph, n: nat| #[trigger]
                        dominance_run(old(graph), &mid, final(graph), originator@, n, found@)
                },
                Err(e) => conversion_error(old(graph), originator.edge_id, seq![originator@])
                    == Some(e) && final(graph).same_as(old(graph)),
            },
            old(graph).plain() ==> final(graph).plain(),
    {
        let ghost o = originator@;
        let centroid_id = match graph.convert_object_as_node(originator.copy()) {
            Ok(id) => id,
            Err(e) => {
                return Err(e);
            },
        };
        let ghost mid = *graph;
        proof {
            let one = seq![o];
            let e = old(graph).edge_table()[o.edge_id]@;
            assert(has_link(&mid, e, one, 0));
            assert(crate::convert::chain_stop(e, one, 1) == centroid_id);
            mid.lemma_edge_ends(e.ni, centroid_id);
        }
        let found = match DomTraverse::around(graph, centroid_id, originator) {
            Ok(found) => found,
            Err(e) => {
                proof {
                    assert(false);
                }
                return Err(e);
            },
        };
        graph.clean();
        proof {
            let n = choose|n: nat| #[trigger] surveyed(&mid, centroid_id, o.attr, n, found@);
            assert(dominance_run(old(graph), &mid, graph, o, n, found@));
        }
        Ok(found)
    }

    /// Sorts the objects around the object with id `object_id` by
    /// dominance. An object that the graph does not hold is refused as not
    /// found.
    pub fn dominate_dominated_by_from_id(graph: &mut Graph, object_id: ObjectId) -> (r: Result<
        DomTraverse,
        Error,
    >)
        requires
            old(graph).wf(),
        ensures
            final(graph).wf(),
            !old(graph).object_table().contains_key(object_id) ==> (r matches Err(e) && e
                == Error::NotFound) && final(graph).same_as(old(graph)),
            old(graph).object_table().contains_key(object_id) ==> {
                let o = old(graph).object_table()[object_id]@;
                match r {
                    Ok(found) => {
                        &&& conversion_error(old(graph), o.edge_id, seq![o]).is_none()
                        &&& found.wf()
                        &&& found.originator() == o
                        &&& exists|mid: Graph, n: nat| #[trigger]
                            dominance_run(old(graph), &mid, final(graph), o, n, found@)
                    },
                    Err(e) => conversion_error(old(graph), o.edge_id, seq![o]) == Some(e)
                        && final(graph).same_as(old(graph)),
                }
            },
            old(graph).plain() ==> final(graph).plain(),
    {
        let object = match graph.object(object_id) {
            Ok(o) => o,
            Err(e) => {
                return Err(e);
            },
        };
        DomTraverse::dominate_dominated_by(graph, object)
    }

    /// The ids of the objects that dominate the query at strength `k`, in
    /// the order in which they were met.
    pub fn dominated_by(&self, k: K) -> (ids: Vec<ObjectId>)
        requires
            self.wf(),
        ensures
            ids@ == self@.dominated_by[k as int],
    {
        self.dominated_by[k as usize].clone()
    }

    /// The ids of the objects that the query dominates at strength `k`, in
    /// the order in which they were met.
    pub fn dominate(&self, k: K) -> (ids: Vec<ObjectId>)
        requires
            self.wf(),
        ensures
            ids@ == self@.dominate[k as int],
    {
        self.dominate[k as usize].clone()
    }

    /// The ids of the objects that dominate the query at strength
    /// `k_start` or above, by ascending strength.
    pub fn dominated_by_objects(&self, k_start: K) -> (ids: Vec<ObjectId>)
        requires
            self.wf(),
        ensures
            ids@ == flat_between(self@.dominated_by, k_start as int, LEVELS as int),
    {
        let mut ids: Vec<ObjectId> = Vec::new();
        let mut k: usize = k_start as usize;
        while k < LEVELS
            invariant
                k_start <= k <= LEVELS,
                self.wf(),
                ids@ == flat_between(self@.dominated_by, k_start as int, k as int),
            decreases LEVELS - k,
        {
            let bucket = &self.dominated_by[k];
            let ghost base = ids@;
            let mut i: usize = 0;
            while i < bucket.len()
                invariant
                    i <= bucket.len(),
                    ids@ == base + bucket@.take(i as int),
                decreases bucket.len() - i,
            {
                ids.push(bucket[i]);
                proof {
                    assert(base + bucket@.take(i + 1) =~= (base + bucket@.take(i as int)).push(
                        bucket@[i as int],
                    ));
                }
                i += 1;
            }
            proof {
                assert(bucket@.take(i as int) =~= bucket@);
            }
            k += 1;
        }
        ids
    }

    /// The ids of the objects that dominate the query at any strength, by
    /// ascending strength.
    pub fn dominated_by_objects_all_k(&self) -> (ids: Vec<ObjectId>)
        requires
            self.wf(),
        ensures
            ids@ == flat_between(self@.dominated_by, 0, LEVELS as int),
    {
        self.dominated_by_objects(0)
    }

    /// The strength of each object that dominates the query at strength
    /// `k_start` or above.
    pub fn map_dominated_by_objects_k(&self, k_start: K) -> (levels: HashMap<ObjectId, K>)
        requires
            self.wf(),
        ensures
            levels@ == levels_between(self@.dominated_by, k_start as int, LEVELS as int),
    {
        let mut levels: HashMap<ObjectId, K> = HashMap::new();
        let mut k: usize = k_start as usize;
        proof {
            assert(levels@ =~= levels_between(self@.dominated_by, k_start as int, k as int));
        }
        while k < LEVELS
            invariant
                k_start <= k <= LEVELS,
                self.wf(),
                levels@ == levels_between(self@.dominated_by, k_start as int, k as int),
            decreases LEVELS - k,
        {
            let bucket = &self.dominated_by[k];
            let ghost base = levels@;
            let mut i: usize = 0;
            while i < bucket.len()
                invariant
                    i <= bucket.len(),
                    k < LEVELS,
                    levels@ == with_level(base, bucket@.take(i as int), k as K),
                decreases bucket.len() - i,
            {
                proof {
                    assert(bucket@.take(i + 1).drop_last() =~= bucket@.take(i as int));
                }
                levels.insert(bucket[i], k as K);
                i += 1;
            }
            proof {
                assert(bucket@.take(i as int) =~= bucket@);
            }
            k += 1;
        }
        levels
    }

    /// The objects that the query dominates, each with the strength, by
    /// ascending strength.
    pub fn map_dominate_objects(&self) -> (pairs: Vec<(ObjectId, K)>)
        requires
            self.wf(),
        ensures
            pairs@ == paired_between(self@.dominate, 0, LEVELS as int),
    {
        let mut pairs: Vec<(ObjectId, K)> = Vec::new();
        let mut k: usize = 0;
        while k < LEVELS
            invariant
                k <= LEVELS,
                self.wf(),
                pairs@ == paired_between(self@.dominate, 0, k as int),
            decreases LEVELS - k,
        {
            let bucket = &self.dominate[k];
            let ghost base = pairs@;
            let mut i: usize = 0;
            while i < bucket.len()
                invariant
                    i <= bucket.len(),
                    k < LEVELS,
                    pairs@ == base + at_strength(bucket@.take(i as int), k as K),
                decreases bucket.len() - i,
            {
                pairs.push((bucket[i], k as K));
                proof {
                    assert(base + at_strength(bucket@.take(i + 1), k as K) =~= (base + at_strength(
                        bucket@.take(i as int),
                        k as K,
                    )).push((bucket@[i as int], k as K)));
                }
                i += 1;
            }
            proof {
                assert(bucket@.take(i as int) =~= bucket@);
            }
            k += 1;
        }
        pairs
    }
}

} // verus!
