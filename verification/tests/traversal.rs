use network_voronoi::bfs::BfsMinHeap;
use network_voronoi::dominance::{compare, DomTraverse, Domination};
use network_voronoi::graph::Graph;
use network_voronoi::queue::pop_min;
use network_voronoi::scope::{append_ranges, bisect, join_range, scope_of, sort_by_start};
use network_voronoi::store::ResultVoronoi;
use network_voronoi::types::{
    Action, AppConfig, DataEdge, DataNode, DataObject, Error, Position, Range,
};
use network_voronoi::voronoi::{once_each, Voronoi};
use network_voronoi::voronoi_heap::{Popped, SimpleEdge, TraverseState, VoronoiMinHeap};
use std::collections::HashMap;

fn node(id: u32, lng: i32, lat: i32) -> DataNode {
    DataNode { id, lng, lat }
}

fn object(id: u32, edge_id: u32, dist: u64, attr: Vec<i64>) -> DataObject {
    DataObject { id, attr, dist, edge_id, action: Action::Insertion }
}

/// Six nodes in a row, ten apart, and three objects.
fn sample_graph() -> Graph {
    let mut graph = Graph::new(AppConfig::default());
    let nodes = [
        node(1, 0, 0),
        node(2, 10, 0),
        node(3, 20, 0),
        node(4, 30, 0),
        node(6, 40, 0),
        node(5, 50, 0),
    ];
    for n in nodes.iter() {
        graph.insert_node(*n).unwrap();
    }
    let pairs = [(1, 1, 2), (2, 2, 3), (3, 3, 4), (4, 4, 6), (5, 6, 5)];
    for (id, a, b) in pairs.iter() {
        let ni = graph.node(*a).unwrap();
        let nj = graph.node(*b).unwrap();
        graph.insert_edge(DataEdge::new(*id, &ni, &nj)).unwrap();
    }
    graph.insert_object(object(1, 1, 500_000, vec![7, 5, 5, 5])).unwrap();
    graph.insert_object(object(2, 3, 500_000, vec![5, 5, 5, 5])).unwrap();
    graph.insert_object(object(3, 5, 500_000, vec![6, 5, 5, 5])).unwrap();
    graph
}

/// One edge of length ten between the nodes 1 and 2.
fn one_edge(max_dist: u64) -> Graph {
    let mut graph = Graph::new(AppConfig { max_dim: 2, max_dist });
    graph.insert_node(node(1, 0, 0)).unwrap();
    graph.insert_node(node(2, 10, 0)).unwrap();
    graph.insert_edge(DataEdge { id: 1, ni: 1, nj: 2, len: 10 }).unwrap();
    graph
}

fn state(ns: u64, ne: u64, pt: u64, ct_id: u32, pt_id: u32, start: u32, end: u32) -> TraverseState {
    TraverseState {
        cost_ct_to_ns: ns,
        cost_ct_to_ne: ne,
        cost_pt_to_ne: pt,
        centroid_ct_in_ns: ct_id,
        centroid_pt_in_ne: pt_id,
        start_node_id: start,
        end_node_id: end,
        smallest_k: (1, Position::Start),
        edge: Some(SimpleEdge { id: 1, ni: 1, nj: 2, len: 10 }),
    }
}

#[test]
fn bfs_min_heap_new() {
    let graph = sample_graph();
    let mut bfs = BfsMinHeap::new(&graph, 1).unwrap();

    let node_id_orders = [2, 3, 4, 6, 5];
    for node_id in node_id_orders.iter() {
        let state = bfs.next().unwrap();
        assert_eq!(state.node_id, *node_id);
    }
    assert!(bfs.next().is_none());
    assert!(bfs.next().is_none());
}

#[test]
fn bfs_costs_and_bound() {
    let graph = sample_graph();
    let mut bfs = BfsMinHeap::new(&graph, 3).unwrap();
    assert_eq!(bfs.waiting(), 2);
    assert_eq!(bfs.cost_of(3), Some(0));
    assert_eq!(bfs.cost_of(2), Some(10));
    assert_eq!(bfs.cost_of(1), None);
    let mut visits = Vec::new();
    while let Some(s) = bfs.next() {
        visits.push((s.prev_node_id, s.node_id, s.cost));
    }
    assert_eq!(visits, vec![(3, 2, 10), (3, 4, 10), (2, 1, 20), (4, 6, 20), (6, 5, 30)]);
    assert_eq!(bfs.cost_of(5), Some(30));
    assert!(matches!(BfsMinHeap::new(&graph, 77), Err(Error::NotFound)));

    // With a distance of seven the search stops at fourteen.
    let mut near = Graph::new(AppConfig { max_dim: 4, max_dist: 7 });
    for (id, x) in [(1, 0), (2, 10), (3, 13), (4, 14)] {
        near.insert_node(node(id, x, 0)).unwrap();
    }
    for (id, a, b, len) in [(1, 1, 2, 10), (2, 2, 3, 3), (3, 3, 4, 1)] {
        near.insert_edge(DataEdge { id, ni: a, nj: b, len }).unwrap();
    }
    let mut bfs = BfsMinHeap::new(&near, 1).unwrap();
    let mut visits = Vec::new();
    while let Some(s) = bfs.next() {
        visits.push((s.node_id, s.cost));
    }
    assert_eq!(visits, vec![(2, 10), (3, 13)]);
}

#[test]
fn queue_hands_out_the_cheapest_first_come() {
    let mut queue = vec![
        state(0, 7, 0, 1, 0, 1, 2),
        state(0, 3, 0, 2, 0, 1, 2),
        state(0, 9, 0, 3, 0, 1, 2),
        state(0, 3, 0, 4, 0, 1, 2),
    ];
    let order: Vec<u32> =
        std::iter::from_fn(|| pop_min(&mut queue)).map(|s| s.centroid_ct_in_ns).collect();
    assert_eq!(order, vec![2, 4, 1, 3]);
    assert!(pop_min(&mut queue).is_none());
}

#[test]
fn dominance_counts_mirror() {
    // Not below in three dimensions against one: the strength is the count
    // of the side that loses.
    let a = vec![5, 5, 5, 5];
    let b = vec![4, 4, 4, 6];
    assert_eq!(compare(&a, &b), Domination::Dominator(1));
    assert_eq!(compare(&b, &a), Domination::Dominated(1));
    // A tie counts for both sides.
    assert_eq!(compare(&vec![1, 2, 3], &vec![1, 2, 2]), Domination::Dominator(2));
    assert_eq!(compare(&vec![1, 2, 2], &vec![1, 2, 3]), Domination::Dominated(2));
    assert_eq!(compare(&vec![7, 5, 5, 5], &vec![6, 5, 5, 5]), Domination::Dominator(3));
    assert_eq!(compare(&vec![6, 5, 5, 5], &vec![7, 5, 5, 5]), Domination::Dominated(3));
    assert_eq!(compare(&vec![1, 2], &vec![2, 1]), Domination::Neither);
    assert_eq!(compare(&vec![1, 2], &vec![1, 2]), Domination::Neither);
    assert_eq!(compare(&vec![], &vec![]), Domination::Neither);
    // Only the dimensions that both have are compared.
    assert_eq!(compare(&vec![3, 3, 9], &vec![2, 2]), Domination::Dominator(0));
}

#[test]
fn dom_traverse_test() {
    let mut graph = sample_graph();
    let object_id = 3;
    let result = DomTraverse::dominate_dominated_by_from_id(&mut graph, object_id).unwrap();
    assert_eq!(result.dominate(3).len(), 1);
    assert_eq!(result.dominated_by(3).len(), 1);
    assert_eq!(result.dominate(3), vec![2]);
    assert_eq!(result.dominated_by(3), vec![1]);
    assert_eq!(result.dominated_by_objects(3), vec![1]);
    assert_eq!(result.dominated_by_objects(4), Vec::<u32>::new());
    assert_eq!(result.dominated_by_objects_all_k(), vec![1]);
    assert_eq!(result.map_dominate_objects(), vec![(2, 3)]);
    let levels = result.map_dominated_by_objects_k(0);
    assert_eq!(levels.len(), 1);
    assert_eq!(levels.get(&1), Some(&3));
    // The graph is as it was.
    assert_eq!(graph.nodes().len(), 6);
    assert_eq!(graph.all_edge_ids().len(), 5);
    assert_eq!(graph.map_new_node().len(), 0);
    // From the other side the roles change places.
    let seen_from_2 = DomTraverse::dominate_dominated_by_from_id(&mut graph, 2).unwrap();
    assert_eq!(seen_from_2.dominated_by(3), vec![1, 3]);
    assert_eq!(seen_from_2.dominate(3), Vec::<u32>::new());
    assert!(matches!(
        DomTraverse::dominate_dominated_by_from_id(&mut graph, 30),
        Err(Error::NotFound)
    ));
}

#[test]
fn voronoi_minheap_new_voronoi_minheap() {
    let graph = sample_graph();
    let mut map_object_id_k = HashMap::new();
    map_object_id_k.insert(1, 3);
    map_object_id_k.insert(2, 4);
    map_object_id_k.insert(3, 3);
    let mut voronoi_minheap =
        VoronoiMinHeap::new(&graph, vec![1, 2, 3], map_object_id_k, 3).unwrap();

    let mut count = 0;
    while let Some(_state) = voronoi_minheap.next() {
        count += 1;
    }
    assert_eq!(count, 5);
}

#[test]
fn voronoi_minheap_needs_a_level_for_each_centroid() {
    let graph = sample_graph();
    let mut levels = HashMap::new();
    levels.insert(1, 3);
    assert!(matches!(VoronoiMinHeap::new(&graph, vec![1, 2], levels, 3), Err(Error::NotFound)));
}

#[test]
fn voronoi_minheap_steps() {
    let graph = one_edge(100);
    let mut levels = HashMap::new();
    levels.insert(1, 1);
    levels.insert(2, 1);
    let mut heap = VoronoiMinHeap::new(&graph, vec![1, 2], levels, 1).unwrap();
    // The front of node 1 crosses the edge and meets node 2 at cost zero.
    match heap.pop() {
        Popped::Visit(s) => {
            assert_eq!((s.start_node_id, s.end_node_id), (1, 2));
            assert_eq!((s.cost_ct_to_ns, s.cost_ct_to_ne, s.cost_pt_to_ne), (0, 10, 0));
            assert_eq!((s.centroid_ct_in_ns, s.centroid_pt_in_ne), (1, 2));
            assert_eq!(s.edge, Some(SimpleEdge { id: 1, ni: 1, nj: 2, len: 10 }));
        }
        _ => panic!("a visit was expected"),
    }
    // The front of node 2 finds the edge crossed.
    assert!(matches!(heap.pop(), Popped::Skipped));
    assert!(matches!(heap.pop(), Popped::Exhausted));
    assert!(heap.next().is_none());
    assert_eq!(heap.current_k(), 1);
    assert_eq!(heap.continue_with(1), Err(Error::StateError));
    assert_eq!(heap.continue_with(0), Err(Error::StateError));
    assert_eq!(heap.continue_with(2), Ok(()));
    assert_eq!(heap.current_k(), 2);
    assert!(heap.is_original_edge(100_000));
    assert!(!heap.is_original_edge(100_001));
}

#[test]
fn two_centroids_share_an_edge_at_the_bisector() {
    // Centroids at both ends of an edge of length ten.
    let s = state(0, 10, 0, 1, 2, 1, 2);
    assert_eq!(bisect(0, 0, 10), 5);
    assert_eq!(scope_of(&s, 1, 100), Some(Range { start: 0, end: 5, centroid_id: 1 }));
    assert_eq!(scope_of(&s, 2, 100), Some(Range { start: 5, end: 10, centroid_id: 2 }));
    assert_eq!(scope_of(&s, 3, 100), None);
    // The same meeting seen from the far end of the edge.
    let back = state(0, 10, 0, 2, 1, 2, 1);
    assert_eq!(scope_of(&back, 2, 100), Some(Range { start: 5, end: 10, centroid_id: 2 }));
    assert_eq!(scope_of(&back, 1, 100), Some(Range { start: 0, end: 5, centroid_id: 1 }));
    // Fronts that have come different ways.
    assert_eq!(bisect(4, 0, 10), 3);
    assert_eq!(bisect(0, 4, 10), 7);
    assert_eq!(bisect(0, 20, 10), 10);
    assert_eq!(bisect(20, 0, 10), 0);
    assert_eq!(bisect(u64::MAX, u64::MAX, u64::MAX), u64::MAX / 2);
    let uneven = state(4, 14, 0, 1, 2, 1, 2);
    assert_eq!(scope_of(&uneven, 1, 100), Some(Range { start: 0, end: 3, centroid_id: 1 }));
    assert_eq!(scope_of(&uneven, 2, 100), Some(Range { start: 3, end: 10, centroid_id: 2 }));
    let all_far = state(20, 30, 0, 1, 2, 1, 2);
    assert_eq!(scope_of(&all_far, 1, 100), None);
    assert_eq!(scope_of(&all_far, 2, 100), Some(Range { start: 0, end: 10, centroid_id: 2 }));
}

#[test]
fn one_centroid_owns_up_to_the_distance() {
    // A distance of four on an edge of length ten, the centroid at its start.
    let s = state(0, 10, 0, 1, 0, 1, 2);
    assert_eq!(scope_of(&s, 1, 4), Some(Range { start: 0, end: 4, centroid_id: 1 }));
    assert_eq!(scope_of(&s, 2, 4), None);
    // From the far end.
    let back = state(0, 10, 0, 1, 0, 2, 1);
    assert_eq!(scope_of(&back, 1, 4), Some(Range { start: 6, end: 10, centroid_id: 1 }));
    // Within the distance the whole edge is owned.
    assert_eq!(scope_of(&s, 1, 10), Some(Range { start: 0, end: 10, centroid_id: 1 }));
    assert_eq!(scope_of(&s, 1, 100), Some(Range { start: 0, end: 10, centroid_id: 1 }));
    // A front that has come three already.
    let later = state(3, 13, 13, 1, 1, 1, 2);
    assert_eq!(scope_of(&later, 1, 4), Some(Range { start: 0, end: 1, centroid_id: 1 }));
    assert_eq!(scope_of(&later, 1, 3), None);
    assert_eq!(scope_of(&later, 1, 2), None);
    let mut no_edge = s;
    no_edge.edge = None;
    assert_eq!(scope_of(&no_edge, 1, 4), None);
}

#[test]
fn scope_on_one_edge_with_two_centroids() {
    // Centroids at both ends of an edge of length ten, at the same level.
    let graph = one_edge(100);
    let mut levels = HashMap::new();
    levels.insert(1, 1);
    levels.insert(2, 1);
    let heap = VoronoiMinHeap::new(&graph, vec![1, 2], levels.clone(), 1).unwrap();
    let left = Voronoi::first_pass(heap, 100, 1);
    assert_eq!(left.ranges(1), vec![Range { start: 0, end: 5, centroid_id: 1 }]);
    assert_eq!(left.edges(), vec![1]);
    let heap = VoronoiMinHeap::new(&graph, vec![1, 2], levels, 1).unwrap();
    let right = Voronoi::first_pass(heap, 100, 2);
    assert_eq!(right.ranges(1), vec![Range { start: 5, end: 10, centroid_id: 2 }]);
    assert_eq!(right.ranges(2), Vec::<Range>::new());
}

#[test]
fn an_object_at_the_end_of_its_edge() {
    let mut graph = one_edge(100);
    graph.insert_object(object(1, 1, 0, vec![1, 1])).unwrap();
    graph.insert_object(object(2, 1, 1_000_000, vec![2, 2])).unwrap();
    let v = Voronoi::initial_voronoi(&mut graph, 1, 2).unwrap();
    // The mini-edge before the object has no length.
    assert_eq!(v.ranges(200001), Vec::<Range>::new());
    assert_eq!(v.ranges(300001), vec![Range { start: 0, end: 10, centroid_id: 100001 }]);
    assert_eq!(v.ranges(1), vec![Range { start: 0, end: 10, centroid_id: 100001 }]);
    assert_eq!(v.current_k(), 2);
}

#[test]
fn scope_ends_at_the_distance() {
    let mut graph = one_edge(4);
    graph.insert_object(object(1, 1, 0, vec![1, 1])).unwrap();
    let v = Voronoi::initial_voronoi(&mut graph, 1, 2).unwrap();
    assert_eq!(v.ranges(300001), vec![Range { start: 0, end: 4, centroid_id: 100001 }]);
    assert_eq!(v.ranges(1), vec![Range { start: 0, end: 4, centroid_id: 100001 }]);
    let mut result = ResultVoronoi::from_edge_ids(vec![DataEdge { id: 1, ni: 1, nj: 2, len: 10 }]);
    assert_eq!(v.save_to_result(&mut result), Ok(()));
    for x in 0..4 {
        assert_eq!(result.owners(1, 2, x), vec![100001]);
    }
    for x in 4..10 {
        assert_eq!(result.owners(1, 2, x), Vec::<u32>::new());
    }
    let mut other = ResultVoronoi::from_edge_ids(vec![DataEdge { id: 2, ni: 1, nj: 2, len: 10 }]);
    assert_eq!(v.save_to_result(&mut other), Err(Error::NotFound));
    assert!(other.get(2, 2).is_none());
}

#[test]
fn voronoi_test() {
    let mut graph = sample_graph();
    let object_id = 2;
    let mut voronoi = Voronoi::initial_voronoi(&mut graph, object_id, 3).unwrap();

    let tests = [(200002, 1), (300002, 1)];
    for (edge_id, range_len) in tests.iter() {
        let mut is_exist = false;
        for e in voronoi.edges() {
            if e == *edge_id && voronoi.ranges(e).len() == *range_len {
                is_exist = true;
            }
        }
        assert!(is_exist);
    }
    assert_eq!(voronoi.ranges(200002), vec![Range { start: 0, end: 5, centroid_id: 100002 }]);
    assert_eq!(voronoi.ranges(300002), vec![Range { start: 0, end: 5, centroid_id: 100002 }]);
    // The two halves make up the edge that was cut.
    assert_eq!(voronoi.ranges(3), vec![Range { start: 0, end: 10, centroid_id: 100002 }]);

    assert_eq!(voronoi.continue_voronoi(4), Ok(()));
    assert_eq!(voronoi.continue_voronoi(4), Err(Error::StateError));
    assert_eq!(voronoi.continue_voronoi(3), Err(Error::StateError));
    assert_eq!(voronoi.current_k(), 4);
}

#[test]
fn test_voronoi() {
    // Six nodes in a row, ten apart; one object on the edge from 4 to 6 and
    // one on the edge from 1 to 2.
    let mut graph = Graph::new(AppConfig { max_dim: 1, max_dist: 100 });
    let nodes = [
        node(1, 0, 0),
        node(2, 10, 0),
        node(3, 20, 0),
        node(4, 30, 0),
        node(6, 40, 0),
        node(5, 50, 0),
    ];
    for n in nodes.iter() {
        graph.insert_node(*n).unwrap();
    }
    let pairs = [(1, 1, 2), (2, 2, 3), (3, 3, 4), (4, 4, 6), (5, 6, 5)];
    for (id, a, b) in pairs.iter() {
        let ni = graph.node(*a).unwrap();
        let nj = graph.node(*b).unwrap();
        graph.insert_edge(DataEdge::new(*id, &ni, &nj)).unwrap();
    }
    graph.insert_object(object(1, 4, 353_553, vec![1])).unwrap();
    graph.insert_object(object(2, 1, 800_000, vec![1])).unwrap();

    let centroids = graph.convert_object_ids_to_node(vec![1, 2]).unwrap();
    assert_eq!(centroids, vec![100001, 100002]);
    // The objects lie at 33 and at 8, so the mini-edges are 3, 7, 8 and 2 long.
    assert_eq!(graph.edge_len(4, 100001), Ok(3));
    assert_eq!(graph.edge_len(100001, 6), Ok(7));
    assert_eq!(graph.edge_len(1, 100002), Ok(8));
    assert_eq!(graph.edge_len(100002, 2), Ok(2));
    let mut levels = HashMap::new();
    levels.insert(1, 1);
    levels.insert(2, 1);

    let heap = VoronoiMinHeap::new(&graph, centroids.clone(), levels.clone(), 1).unwrap();
    let first = Voronoi::first_pass(heap, 100, 100001);
    assert_eq!(first.ranges(4), vec![Range { start: 0, end: 10, centroid_id: 100001 }]);
    assert_eq!(first.ranges(5), vec![Range { start: 0, end: 10, centroid_id: 100001 }]);
    assert_eq!(first.ranges(1), Vec::<Range>::new());
    assert_eq!(first.ranges(2), Vec::<Range>::new());

    let heap = VoronoiMinHeap::new(&graph, centroids, levels, 1).unwrap();
    let second = Voronoi::first_pass(heap, 100, 100002);
    assert_eq!(second.ranges(1), vec![Range { start: 0, end: 10, centroid_id: 100002 }]);
    assert_eq!(second.ranges(2), vec![Range { start: 0, end: 10, centroid_id: 100002 }]);
    assert_eq!(second.ranges(4), Vec::<Range>::new());
    assert_eq!(second.ranges(5), Vec::<Range>::new());

    // The fronts meet on the edge from 3 to 4, twelve and a half from each
    // object: the halves are apart and make up the edge.
    let left = second.ranges(3);
    let right = first.ranges(3);
    assert_eq!(left, vec![Range { start: 0, end: 1, centroid_id: 100002 }]);
    assert_eq!(right, vec![Range { start: 1, end: 10, centroid_id: 100001 }]);
}

#[test]
fn continued_scope_agrees_with_a_fresh_one() {
    let mut levels = HashMap::new();
    levels.insert(1, 3);
    levels.insert(3, 3);
    levels.insert(2, 4);
    let mut graph = sample_graph();
    let centroids = graph.convert_object_ids_to_node(vec![1, 3, 2]).unwrap();
    assert_eq!(centroids, vec![100001, 100003, 100002]);
    for centroid in [100001u32, 100002, 100003] {
        let heap = VoronoiMinHeap::new(&graph, centroids.clone(), levels.clone(), 3).unwrap();
        let mut stepwise = Voronoi::first_pass(heap, 100, centroid);
        stepwise.continue_voronoi(4).unwrap();
        let heap = VoronoiMinHeap::new(&graph, centroids.clone(), levels.clone(), 4).unwrap();
        let fresh = Voronoi::first_pass(heap, 100, centroid);
        for e in fresh.edges() {
            let held = stepwise.ranges(e);
            for r in fresh.ranges(e) {
                for x in r.start..r.end {
                    let holds = |h: &Range| {
                        h.centroid_id == r.centroid_id && h.start <= x && x < h.end
                    };
                    assert!(held.iter().any(holds));
                }
            }
        }
    }
}

#[test]
fn chain_ranges_are_put_together() {
    let a = Range { start: 0, end: 3, centroid_id: 7 };
    let b = Range { start: 0, end: 4, centroid_id: 7 };
    let c = Range { start: 0, end: 2, centroid_id: 8 };
    let d = Range { start: 2, end: 3, centroid_id: 7 };
    let mut out = Vec::new();
    append_ranges(&mut out, &vec![a], 0);
    append_ranges(&mut out, &vec![b], 3);
    append_ranges(&mut out, &vec![d, c], 7);
    assert_eq!(
        out,
        vec![
            Range { start: 0, end: 7, centroid_id: 7 },
            Range { start: 7, end: 9, centroid_id: 8 },
            Range { start: 9, end: 10, centroid_id: 7 },
        ]
    );
    let covered: u64 = out.iter().map(|r| r.end - r.start).sum();
    assert_eq!(covered, 3 + 4 + 3);
    assert_eq!(sort_by_start(&vec![d, a, c]), vec![a, c, d]);
    // A gap keeps two ranges of one centroid apart.
    let mut gap = Vec::new();
    append_ranges(&mut gap, &vec![Range { start: 0, end: 2, centroid_id: 7 }], 0);
    append_ranges(&mut gap, &vec![Range { start: 1, end: 3, centroid_id: 7 }], 3);
    assert_eq!(
        gap,
        vec![Range { start: 0, end: 2, centroid_id: 7 }, Range { start: 4, end: 6, centroid_id: 7 }]
    );
}

#[test]
fn ranges_of_a_centroid_grow_together() {
    let r = |start: u64, end: u64, centroid_id: u32| Range { start, end, centroid_id };
    let mut have = vec![r(0, 2, 7), r(5, 6, 7), r(1, 4, 8), r(8, 9, 7)];
    join_range(&mut have, r(2, 5, 7));
    assert_eq!(have, vec![r(1, 4, 8), r(8, 9, 7), r(0, 6, 7)]);
    // What was held is held; the range of the other centroid is untouched.
    join_range(&mut have, r(3, 3, 7));
    assert_eq!(have, vec![r(1, 4, 8), r(8, 9, 7), r(0, 6, 7)]);
    join_range(&mut have, r(0, 6, 7));
    assert_eq!(have, vec![r(1, 4, 8), r(8, 9, 7), r(0, 6, 7)]);
    join_range(&mut have, r(7, 8, 7));
    assert_eq!(have, vec![r(1, 4, 8), r(0, 6, 7), r(7, 9, 7)]);
    join_range(&mut have, r(0, 20, 7));
    assert_eq!(have, vec![r(1, 4, 8), r(0, 20, 7)]);
}

#[test]
fn scope_records_by_edge() {
    let graph = one_edge(100);
    let mut levels = HashMap::new();
    levels.insert(1, 1);
    let heap = VoronoiMinHeap::new(&graph, vec![1], levels, 1).unwrap();
    let mut v = Voronoi::new(heap, 100, 1);
    assert!(!v.has_record(5));
    assert_eq!(v.get(5), None);
    v.insert(5, Range { start: 0, end: 3, centroid_id: 1 });
    v.add_scope(Range { start: 3, end: 4, centroid_id: 1 }, 5);
    v.add_scope(Range { start: 6, end: 7, centroid_id: 1 }, 5);
    assert!(v.has_record(5));
    assert_eq!(
        v.get(5),
        Some(vec![
            Range { start: 0, end: 4, centroid_id: 1 },
            Range { start: 6, end: 7, centroid_id: 1 }
        ])
    );
    v.remove(5);
    assert!(!v.has_record(5));
    v.compute_scope();
    assert_eq!(v.ranges(1), vec![Range { start: 0, end: 10, centroid_id: 1 }]);
}

#[test]
fn ids_once_each() {
    assert_eq!(once_each(&vec![3, 1, 3, 2, 1]), vec![3, 1, 2]);
    assert_eq!(once_each(&vec![]), Vec::<u32>::new());
}

#[test]
fn scope_grows_when_the_level_rises() {
    // Two centroids of level five meet on an edge while the active level is
    // three: the meeting waits in the reserve.
    let mut graph = Graph::new(AppConfig { max_dim: 10, max_dist: 100 });
    graph.insert_node(node(1, 0, 0)).unwrap();
    graph.insert_node(node(2, 10, 0)).unwrap();
    graph.insert_edge(DataEdge { id: 1, ni: 1, nj: 2, len: 10 }).unwrap();
    let mut levels = HashMap::new();
    levels.insert(1, 5);
    levels.insert(2, 5);
    let heap = VoronoiMinHeap::new(&graph, vec![1, 2], levels, 3).unwrap();
    let mut v = Voronoi::first_pass(heap, 100, 1);
    assert_eq!(v.ranges(1), vec![Range { start: 0, end: 5, centroid_id: 1 }]);
    assert_eq!(v.continue_voronoi(4), Ok(()));
    assert_eq!(v.ranges(1), vec![Range { start: 0, end: 5, centroid_id: 1 }]);
    // At level five the front of the centroid runs on alone.
    assert_eq!(v.continue_voronoi(5), Ok(()));
    assert_eq!(v.ranges(1), vec![Range { start: 0, end: 10, centroid_id: 1 }]);
}

#[test]
fn a_replayed_state_spans_its_edge() {
    // Four nodes in a row, ten apart, with a centroid at each end. The
    // fronts meet on the edge in the middle. The centroid at the far end
    // has the smaller level, four, so the meeting is set aside at level
    // three and turned round at level four.
    let mut graph = Graph::new(AppConfig { max_dim: 10, max_dist: 100 });
    for (id, x) in [(1, 0), (2, 10), (3, 20), (4, 30)] {
        graph.insert_node(node(id, x, 0)).unwrap();
    }
    for (id, a, b) in [(1, 1, 2), (2, 2, 3), (3, 3, 4)] {
        graph.insert_edge(DataEdge { id, ni: a, nj: b, len: 10 }).unwrap();
    }
    let mut levels = HashMap::new();
    levels.insert(1, 5);
    levels.insert(4, 4);
    let mut heap = VoronoiMinHeap::new(&graph, vec![1, 4], levels, 3).unwrap();
    let mut met = Vec::new();
    while let Some(s) = heap.next() {
        assert_eq!(s.cost_ct_to_ne, s.cost_ct_to_ns + 10);
        met.push((s.start_node_id, s.end_node_id, s.centroid_ct_in_ns, s.smallest_k));
    }
    assert_eq!(
        met,
        vec![
            (1, 2, 1, (5, Position::Start)),
            (4, 3, 4, (4, Position::Start)),
            (2, 3, 1, (4, Position::End)),
        ]
    );
    heap.set_initialized();
    assert_eq!(heap.continue_with(4), Ok(()));
    let again = heap.next().unwrap();
    // It starts where the front of the other centroid stood, at the cost
    // of that front, and ends the length of the edge further.
    assert_eq!((again.start_node_id, again.end_node_id), (3, 2));
    assert_eq!(again.centroid_ct_in_ns, 4);
    assert_eq!(again.cost_ct_to_ns, 10);
    assert_eq!(again.cost_ct_to_ne, 20);
}
