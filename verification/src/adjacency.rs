//! The adjacency structure of the network: petgraph's `GraphMap`, keyed by
//! node id, with the edge id as edge weight.
//!
//! Verus does not look inside a `GraphMap`. What it holds is named by
//! [`adjacency_of`] and [`weights_of`], and each method this crate uses is
//! reached through a wrapper whose contract is taken from petgraph's source
//! and is believed, not proved.

use petgraph::graphmap::GraphMap;
use petgraph::Undirected;
use std::hash::RandomState;
use vstd::prelude::*;

verus! {

#[verifier::external_type_specification]
#[verifier::external_body]
pub struct ExUndirected(Undirected);

#[verifier::external_type_specification]
#[verifier::external_body]
#[verifier::reject_recursive_types(N)]
#[verifier::reject_recursive_types(E)]
#[verifier::reject_recursive_types(Ty)]
#[verifier::reject_recursive_types(S)]
pub struct ExGraphMap<N, E, Ty, S: std::hash::BuildHasher>(GraphMap<N, E, Ty, S>);

/// The neighbour list of every node of `g`, in the order in which
/// `GraphMap::neighbors` yields it. The domain is the set of nodes.
pub uninterp spec fn adjacency_of(g: GraphMap<u32, u32, Undirected, RandomState>) -> Map<u32,
    Seq<u32>>;

/// The edge ids of `g`, keyed by the ordered pair of the endpoints.
pub uninterp spec fn weights_of(g: GraphMap<u32, u32, Undirected, RandomState>) -> Map<(u32, u32),
    u32>;

/// The key under which the undirected edge between `a` and `b` is stored:
/// the smaller endpoint first.
pub open spec fn edge_key(a: u32, b: u32) -> (u32, u32) {
    if a <= b {
        (a, b)
    } else {
        (b, a)
    }
}

/// The neighbour list of `a` in `adj`, empty for a node that is not there.
pub open spec fn links(adj: Map<u32, Seq<u32>>, a: u32) -> Seq<u32> {
    if adj.contains_key(a) {
        adj[a]
    } else {
        Seq::empty()
    }
}

/// `adj` after `b` was appended to the neighbour list of `a`.
pub open spec fn with_link(adj: Map<u32, Seq<u32>>, a: u32, b: u32) -> Map<u32, Seq<u32>> {
    adj.insert(a, links(adj, a).push(b))
}

/// `s` after its element at `i` was replaced by the last one and the last
/// one dropped, as `Vec::swap_remove` does.
pub open spec fn swap_removed(s: Seq<u32>, i: int) -> Seq<u32> {
    s.update(i, s.last()).drop_last()
}

/// `adj` after `b` was taken out of the neighbour list of `a`, where it
/// stands at most once.
pub open spec fn without_link(adj: Map<u32, Seq<u32>>, a: u32, b: u32) -> Map<u32, Seq<u32>> {
    if adj.contains_key(a) && adj[a].contains(b) {
        adj.insert(a, swap_removed(adj[a], adj[a].index_of(b)))
    } else {
        adj
    }
}

/// `adj` after node `n` was removed together with every link to it.
pub open spec fn without_node(adj: Map<u32, Seq<u32>>, n: u32) -> Map<u32, Seq<u32>> {
    Map::new(
        |m: u32| adj.contains_key(m) && m != n,
        |m: u32| links(without_link(adj, m, n), m),
    )
}

/// `w` without the edges that have `n` as an endpoint.
pub open spec fn without_edges_at(w: Map<(u32, u32), u32>, n: u32) -> Map<(u32, u32), u32> {
    Map::new(
        |k: (u32, u32)| w.contains_key(k) && k.0 != n && k.1 != n,
        |k: (u32, u32)| w[k],
    )
}

/// The edge id stored for the pair `a`, `b`, if there is one.
pub open spec fn weight_at(w: Map<(u32, u32), u32>, a: u32, b: u32) -> Option<u32> {
    if w.contains_key(edge_key(a, b)) {
        Some(w[edge_key(a, b)])
    } else {
        None
    }
}

/// What petgraph keeps true of every `GraphMap`: a node's neighbours are
/// exactly the nodes it shares an edge with, each listed once, and both
/// endpoints of an edge are nodes.
pub open spec fn consistent(adj: Map<u32, Seq<u32>>, w: Map<(u32, u32), u32>) -> bool {
    &&& forall|a: u32| #[trigger] adj.contains_key(a) ==> adj[a].no_duplicates()
    &&& forall|a: u32, b: u32|
        adj.contains_key(a) && #[trigger] adj[a].contains(b) ==> w.contains_key(edge_key(a, b))
            && adj.contains_key(b)
    &&& forall|a: u32, b: u32| #[trigger]
        w.contains_key((a, b)) ==> a <= b && adj.contains_key(a) && adj.contains_key(b)
            && adj[a].contains(b) && adj[b].contains(a)
}

/// `adj` after an edge between `a` and `b` was added where there was none.
pub open spec fn linked(adj: Map<u32, Seq<u32>>, a: u32, b: u32) -> Map<u32, Seq<u32>> {
    if a == b {
        with_link(adj, a, a)
    } else {
        with_link(with_link(adj, a, b), b, a)
    }
}

/// A list without duplicates that gains a member it did not have has no
/// duplicates, and holds what it held and the new member.
pub proof fn lemma_push_fresh(s: Seq<u32>, x: u32)
    requires
        s.no_duplicates(),
        !s.contains(x),
    ensures
        s.push(x).no_duplicates(),
        forall|y: u32| s.push(x).contains(y) <==> (s.contains(y) || y == x),
{
    let t = s.push(x);
    assert forall|i: int, j: int| 0 <= i < t.len() && 0 <= j < t.len() && i != j implies t[i]
        != t[j] by {
        if i < s.len() && j < s.len() {
        } else if i < s.len() {
            assert(s.contains(s[i]));
        } else {
            assert(s.contains(s[j]));
        }
    }
    assert forall|y: u32| t.contains(y) <==> (s.contains(y) || y == x) by {
        if t.contains(y) {
            let i = choose|i: int| 0 <= i < t.len() && t[i] == y;
            if i < s.len() {
                assert(s[i] == y);
            }
        }
        if s.contains(y) {
            let i = choose|i: int| 0 <= i < s.len() && s[i] == y;
            assert(t[i] == y);
        }
        if y == x {
            assert(t[s.len() as int] == x);
        }
    }
}

/// Adding an edge between two nodes that had none keeps the neighbour lists
/// and the edges in step.
pub proof fn lemma_linked_consistent(
    adj: Map<u32, Seq<u32>>,
    w: Map<(u32, u32), u32>,
    a: u32,
    b: u32,
    id: u32,
)
    requires
        consistent(adj, w),
        !w.contains_key(edge_key(a, b)),
    ensures
        consistent(linked(adj, a, b), w.insert(edge_key(a, b), id)),
        forall|n: u32|
            links(linked(adj, a, b), n).to_set() =~= (if n == a && n == b {
                links(adj, n).to_set().insert(a)
            } else if n == a {
                links(adj, n).to_set().insert(b)
            } else if n == b {
                links(adj, n).to_set().insert(a)
            } else {
                links(adj, n).to_set()
            }),
{
    let adj2 = linked(adj, a, b);
    let w2 = w.insert(edge_key(a, b), id);
    let la = links(adj, a);
    let lb = links(adj, b);
    assert(!la.contains(b)) by {
        if la.contains(b) {
            assert(adj.contains_key(a) && adj[a].contains(b));
        }
    }
    assert(!lb.contains(a)) by {
        if lb.contains(a) {
            assert(adj.contains_key(b) && adj[b].contains(a));
            assert(edge_key(b, a) == edge_key(a, b));
        }
    }
    assert(la.no_duplicates()) by {
        if adj.contains_key(a) {
        }
    }
    assert(lb.no_duplicates()) by {
        if adj.contains_key(b) {
        }
    }
    lemma_push_fresh(la, b);
    lemma_push_fresh(lb, a);
    assert(adj2.contains_key(a) && adj2.contains_key(b));
    assert(adj2[a] == la.push(b));
    if a != b {
        assert(links(with_link(adj, a, b), b) == lb);
        assert(adj2[b] == lb.push(a));
    }
    assert forall|n: u32| n != a && n != b implies adj2.contains_key(n) == adj.contains_key(n)
        && (adj.contains_key(n) ==> adj2[n] == adj[n]) by {}
    assert forall|x: u32| #[trigger] adj2.contains_key(x) implies adj2[x].no_duplicates() by {
        if x != a && x != b {
            assert(adj.contains_key(x));
        }
    }
    assert forall|x: u32, y: u32| adj2.contains_key(x) && #[trigger] adj2[x].contains(
        y,
    ) implies w2.contains_key(edge_key(x, y)) && adj2.contains_key(y) by {
        if x == a && y == b {
        } else if x == b && y == a {
            assert(edge_key(b, a) == edge_key(a, b));
        } else {
            if x == a {
                assert(la.contains(y));
            } else if x == b {
                assert(lb.contains(y));
            }
            assert(adj.contains_key(x) && adj[x].contains(y));
            assert(w.contains_key(edge_key(x, y)) && adj.contains_key(y));
        }
    }
    assert forall|x: u32, y: u32| #[trigger] w2.contains_key((x, y)) implies x <= y
        && adj2.contains_key(x) && adj2.contains_key(y) && adj2[x].contains(y) && adj2[y].contains(
        x,
    ) by {
        if (x, y) == edge_key(a, b) {
        } else {
            assert(w.contains_key((x, y)));
            assert(adj[x].contains(y) && adj[y].contains(x));
            if x == a {
                assert(la.contains(y));
            } else if x == b {
                assert(lb.contains(y));
            }
            if y == a {
                assert(la.contains(x));
            } else if y == b {
                assert(lb.contains(x));
            }
        }
    }
    assert forall|n: u32|
        links(adj2, n).to_set() =~= (if n == a && n == b {
            links(adj, n).to_set().insert(a)
        } else if n == a {
            links(adj, n).to_set().insert(b)
        } else if n == b {
            links(adj, n).to_set().insert(a)
        } else {
            links(adj, n).to_set()
        }) by {
        if n == a {
            assert(links(adj2, n) == la.push(b));
        } else if n == b {
            assert(links(adj2, n) == lb.push(a));
        } else {
            assert(links(adj2, n) == links(adj, n));
        }
    }
}

/// What a swap-removal leaves of a list without duplicates: no duplicates,
/// and every member but the one that was taken out.
pub proof fn lemma_swap_removed(s: Seq<u32>, i: int)
    requires
        s.no_duplicates(),
        0 <= i < s.len(),
    ensures
        swap_removed(s, i).no_duplicates(),
        forall|y: u32| swap_removed(s, i).contains(y) <==> (s.contains(y) && y != s[i]),
{
    let t = swap_removed(s, i);
    assert forall|y: u32| t.contains(y) <==> (s.contains(y) && y != s[i]) by {
        if t.contains(y) {
            let j = choose|j: int| 0 <= j < t.len() && t[j] == y;
            if j == i {
                assert(t[j] == s[s.len() - 1]);
            } else {
                assert(t[j] == s[j]);
            }
        }
        if s.contains(y) && y != s[i] {
            let j = choose|j: int| 0 <= j < s.len() && s[j] == y;
            if j == s.len() - 1 {
                assert(t[i] == y);
            } else {
                assert(t[j] == y);
            }
        }
    }
}

/// Removing a node with its edges keeps the neighbour lists and the edges
/// in step.
pub proof fn lemma_without_node_consistent(adj: Map<u32, Seq<u32>>, w: Map<(u32, u32), u32>, n: u32)
    requires
        consistent(adj, w),
    ensures
        consistent(without_node(adj, n), without_edges_at(w, n)),
        forall|m: u32, y: u32|
            #![trigger without_node(adj, n)[m].contains(y)]
            adj.contains_key(m) && m != n
                ==> (without_node(adj, n)[m].contains(y) <==> adj[m].contains(
                y,
            ) && y != n),
        !adj.contains_key(n) ==> without_node(adj, n) =~= adj && without_edges_at(w, n) =~= w,
{
    let adj2 = without_node(adj, n);
    let w2 = without_edges_at(w, n);
    assert forall|m: u32| #[trigger] adj2.contains_key(m) implies adj2[m].no_duplicates() && (
    forall|y: u32| adj2[m].contains(y) <==> adj[m].contains(y) && y != n) by {
        assert(adj.contains_key(m));
        if adj[m].contains(n) {
            let i = adj[m].index_of(n);
            lemma_swap_removed(adj[m], i);
        }
    }
    assert forall|m: u32, y: u32|
        #![trigger adj2[m].contains(y)]
        adj.contains_key(m) && m != n implies (adj2[m].contains(y) <==> adj[m].contains(y) && y
            != n) by {
        assert(adj2.contains_key(m));
    }
    assert forall|a: u32, b: u32| adj2.contains_key(a) && #[trigger] adj2[a].contains(
        b,
    ) implies w2.contains_key(edge_key(a, b)) && adj2.contains_key(b) by {
        assert(adj.contains_key(a) && adj[a].contains(b));
    }
    assert forall|a: u32, b: u32| #[trigger] w2.contains_key((a, b)) implies a <= b
        && adj2.contains_key(a) && adj2.contains_key(b) && adj2[a].contains(b) && adj2[b].contains(
        a,
    ) by {
        assert(w.contains_key((a, b)));
        assert(adj[a].contains(b) && adj[b].contains(a));
    }
    if !adj.contains_key(n) {
        assert forall|m: u32| adj.contains_key(m) implies adj2[m] == adj[m] by {
            if adj[m].contains(n) {
                assert(adj.contains_key(n));
            }
        }
        assert forall|k: (u32, u32)| w.contains_key(k) implies k.0 != n && k.1 != n by {
            assert(w.contains_key((k.0, k.1)));
        }
    }
}

/// `adj` after the edge between `a` and `b` was taken out.
pub open spec fn unlinked(adj: Map<u32, Seq<u32>>, a: u32, b: u32) -> Map<u32, Seq<u32>> {
    if a == b {
        without_link(adj, a, a)
    } else {
        without_link(without_link(adj, a, b), b, a)
    }
}

/// Taking an edge out keeps the neighbour lists and the edges in step, and
/// keeps every node.
pub proof fn lemma_unlinked_consistent(adj: Map<u32, Seq<u32>>, w: Map<(u32, u32), u32>, a: u32,
    b: u32)
    requires
        consistent(adj, w),
    ensures
        consistent(unlinked(adj, a, b), w.remove(edge_key(a, b))),
        unlinked(adj, a, b).dom() == adj.dom(),
        forall|n: u32, y: u32|
            #![trigger links(unlinked(adj, a, b), n).contains(y)]
            links(unlinked(adj, a, b), n).contains(y) <==> (links(adj, n).contains(y) && !(n == a
                && y == b) && !(n == b && y == a)),
{
    let adj2 = unlinked(adj, a, b);
    let w2 = w.remove(edge_key(a, b));
    if adj.contains_key(a) && adj[a].contains(b) {
        lemma_swap_removed(adj[a], adj[a].index_of(b));
    }
    let mid = without_link(adj, a, b);
    if a != b && adj.contains_key(b) && adj[b].contains(a) {
        lemma_swap_removed(adj[b], adj[b].index_of(a));
        assert(mid.contains_key(b) && mid[b] == adj[b]);
    }
    assert(adj2.dom() =~= adj.dom());
    assert forall|n: u32, y: u32|
        #![trigger links(adj2, n).contains(y)]
        links(adj2, n).contains(y) <==> (links(adj, n).contains(y) && !(n == a && y == b) && !(n
            == b && y == a)) by {
        if n == a && a != b {
            assert(links(adj2, n) == links(mid, n));
        } else if n == b && a != b {
            assert(links(mid, n) == links(adj, n));
        } else if n != a && n != b {
            assert(links(adj2, n) == links(adj, n));
        }
    }
    assert forall|x: u32| #[trigger] adj2.contains_key(x) implies adj2[x].no_duplicates() by {
        assert(adj.contains_key(x));
        if x == a && a != b {
            assert(adj2[x] == mid[x]);
        } else if x == b && a != b {
            assert(mid[x] == adj[x]);
        } else if x != a && x != b {
            assert(adj2[x] == adj[x]);
        }
    }
    assert forall|x: u32, y: u32| adj2.contains_key(x) && #[trigger] adj2[x].contains(
        y,
    ) implies w2.contains_key(edge_key(x, y)) && adj2.contains_key(y) by {
        assert(links(adj2, x).contains(y));
        assert(adj.contains_key(x) && adj[x].contains(y));
    }
    assert forall|x: u32, y: u32| #[trigger] w2.contains_key((x, y)) implies x <= y
        && adj2.contains_key(x) && adj2.contains_key(y) && adj2[x].contains(y) && adj2[y].contains(
        x,
    ) by {
        assert(w.contains_key((x, y)));
        assert(adj[x].contains(y) && adj[y].contains(x));
        assert(links(adj2, x).contains(y));
        assert(links(adj2, y).contains(x));
    }
}

/// `GraphMap::new`: a graph without nodes and edges.
#[verifier::external_body]
pub(crate) fn new_map() -> (g: GraphMap<u32, u32, Undirected, RandomState>)
    ensures
        adjacency_of(g) =~= Map::empty(),
        weights_of(g) =~= Map::empty(),
{
    GraphMap::new()
}

/// `GraphMap::add_node`: `n` becomes a node, without neighbours, unless it is
/// one already. Edges are left as they are.
#[verifier::external_body]
pub(crate) fn add_node(g: &mut GraphMap<u32, u32, Undirected, RandomState>, n: u32)
    ensures
        adjacency_of(*final(g)) == (if adjacency_of(*old(g)).contains_key(n) {
            adjacency_of(*old(g))
        } else {
            adjacency_of(*old(g)).insert(n, Seq::empty())
        }),
        weights_of(*final(g)) == weights_of(*old(g)),
{
    g.add_node(n);
}

/// `GraphMap::add_edge`: stores `id` for the pair `a`, `b` and returns the id
/// stored before, if any. Where the pair had no edge, each endpoint is
/// appended to the other's neighbour list (once for a self-loop), which
/// makes a node of an endpoint that was none.
#[verifier::external_body]
pub(crate) fn add_edge(
    g: &mut GraphMap<u32, u32, Undirected, RandomState>,
    a: u32,
    b: u32,
    id: u32,
) -> (previous: Option<u32>)
    ensures
        previous == weight_at(weights_of(*old(g)), a, b),
        weights_of(*final(g)) == weights_of(*old(g)).insert(edge_key(a, b), id),
        adjacency_of(*final(g)) == (if previous.is_some() {
            adjacency_of(*old(g))
        } else {
            linked(adjacency_of(*old(g)), a, b)
        }),
{
    g.add_edge(a, b, id)
}

/// `GraphMap::remove_edge`: takes the edge between `a` and `b` out and
/// returns its id, if there was one. Each endpoint leaves the other's
/// neighbour list by a swap with the last entry. Nodes stay.
#[verifier::external_body]
pub(crate) fn remove_edge(g: &mut GraphMap<u32, u32, Undirected, RandomState>, a: u32, b: u32) ->
    (previous:
    Option<u32>)
    requires
        links(adjacency_of(*old(g)), a).no_duplicates(),
        links(adjacency_of(*old(g)), b).no_duplicates(),
    ensures
        previous == weight_at(weights_of(*old(g)), a, b),
        weights_of(*final(g)) == weights_of(*old(g)).remove(edge_key(a, b)),
        adjacency_of(*final(g)) == unlinked(adjacency_of(*old(g)), a, b),
{
    g.remove_edge(a, b)
}

/// `GraphMap::remove_node`: says whether `n` was a node. If it was, it is
/// removed with all its edges, and leaves the neighbour list of each of its
/// neighbours by a swap with the last entry.
#[verifier::external_body]
pub(crate) fn remove_node(g: &mut GraphMap<u32, u32, Undirected, RandomState>, n: u32) ->
    (found: bool)
    requires
        consistent(adjacency_of(*old(g)), weights_of(*old(g))),
    ensures
        found == adjacency_of(*old(g)).contains_key(n),
        adjacency_of(*final(g)) == (if found {
            without_node(adjacency_of(*old(g)), n)
        } else {
            adjacency_of(*old(g))
        }),
        weights_of(*final(g)) == (if found {
            without_edges_at(weights_of(*old(g)), n)
        } else {
            weights_of(*old(g))
        }),
{
    g.remove_node(n)
}

/// `GraphMap::edge_weight`: the id of the edge between `a` and `b`, if there
/// is one.
#[verifier::external_body]
pub(crate) fn edge_weight(g: &GraphMap<u32, u32, Undirected, RandomState>, a: u32, b: u32) ->
    (id: Option<u32>)
    ensures
        id == weight_at(weights_of(*g), a, b),
{
    g.edge_weight(a, b).copied()
}

/// `GraphMap::contains_node`: whether `n` is a node.
#[verifier::external_body]
pub(crate) fn contains_node(g: &GraphMap<u32, u32, Undirected, RandomState>, n: u32) ->
    (found: bool)
    ensures
        found == adjacency_of(*g).contains_key(n),
{
    g.contains_node(n)
}

/// `GraphMap::neighbors`: the neighbours of `a` in the graph's order, none
/// for a node that is not there.
#[verifier::external_body]
pub(crate) fn neighbors(g: &GraphMap<u32, u32, Undirected, RandomState>, a: u32) -> (list: Vec<u32>)
    ensures
        list@ == links(adjacency_of(*g), a),
{
    g.neighbors(a).collect()
}

/// `GraphMap::nodes`: every node once, in an order this contract leaves open.
#[verifier::external_body]
pub(crate) fn nodes(g: &GraphMap<u32, u32, Undirected, RandomState>) -> (list: Vec<u32>)
    ensures
        list@.no_duplicates(),
        list@.to_set() == adjacency_of(*g).dom(),
{
    g.nodes().collect()
}

/// `GraphMap::all_edges`: the id of every edge, one entry for each pair of
/// endpoints, in an order this contract leaves open.
#[verifier::external_body]
pub(crate) fn all_edge_weights(g: &GraphMap<u32, u32, Undirected, RandomState>) -> (list: Vec<u32>)
    ensures
        list@.len() == weights_of(*g).dom().len(),
        list@.to_set() == weights_of(*g).values(),
{
    g.all_edges().map(|(_, _, id)| *id).collect()
}

} // verus!
