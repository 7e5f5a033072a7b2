use network_voronoi::edge::Edge;
use network_voronoi::geometry::{add_cost, interpolate, isqrt, node_distance, rescale};
use network_voronoi::graph::Graph;
use network_voronoi::records::MapOldToNewEdges;
use network_voronoi::types::{
    as_edge_ni_id, as_edge_nj_id, as_node_id, as_object_id, Action, AppConfig, DataEdge,
    DataNode, DataObject, Error, Range,
};

fn node(id: u32, lng: i32, lat: i32) -> DataNode {
    DataNode { id, lng, lat }
}

fn object(id: u32, edge_id: u32, dist: u64, attr: Vec<i64>) -> DataObject {
    DataObject { id, attr, dist, edge_id, action: Action::Insertion }
}

/// Six nodes in a row, ten apart, and three objects.
fn sample_graph() -> Graph {
    let mut graph = Graph::new(AppConfig::default());
    let nodes = [
        node(1, 0, 0),
        node(2, 10, 0),
        node(3, 20, 0),
        node(4, 30, 0),
        node(6, 40, 0),
        node(5, 50, 0),
    ];
    for n in nodes.iter() {
        graph.insert_node(*n).unwrap();
    }
    let pairs = [(1, 1, 2), (2, 2, 3), (3, 3, 4), (4, 4, 6), (5, 6, 5)];
    for (id, a, b) in pairs.iter() {
        let ni = graph.node(*a).unwrap();
        let nj = graph.node(*b).unwrap();
        graph.insert_edge(DataEdge::new(*id, &ni, &nj)).unwrap();
    }
    graph.insert_object(object(1, 1, 500_000, vec![7, 5, 5, 5])).unwrap();
    graph.insert_object(object(2, 3, 500_000, vec![5, 5, 5, 5])).unwrap();
    graph.insert_object(object(3, 5, 500_000, vec![6, 5, 5, 5])).unwrap();
    graph
}

#[test]
fn create_node() {
    let n1 = node(1, 1, 2);
    assert_eq!(n1.id, 1);
}

#[test]
fn create_edge() {
    let n1 = node(1, 3, 0);
    let n2 = node(2, 0, 4);
    let e1 = DataEdge::new(1, &n1, &n2);
    assert!(e1.len == 5);
    assert_eq!(e1.ni, 1);
    assert_eq!(e1.nj, 2);
}

#[test]
fn graph_new() {
    let graph = sample_graph();
    assert_eq!(graph.nodes().len(), 6);
    assert_eq!(graph.all_edge_ids().len(), 5);
    assert_eq!(graph.map_edges().len(), 5);
    assert_eq!(graph.all_objects().len(), 3);
    assert_eq!(graph.config().max_dim, 4);
    assert_eq!(graph.config().max_dist, 100);
}

#[test]
fn edge_objet_in_between() {
    let mut e = Edge::new(1, 10, 1, 1);
    for d in [1_000_000u64, 2_000_000, 3_000_000, 4_000_000, 5_000_000] {
        e.add_object(object(1, 1, d, Vec::new()));
    }
    let objects = e.objects_in_between(1_500_000, 3_500_000);
    assert_eq!(objects.len(), 2);
    assert_eq!(objects[0].dist, 250_000);
    assert_eq!(objects[1].dist, 750_000);

    let objects = e.objects_in_between(1_500_000, 1_700_000);
    assert_eq!(objects.len(), 0);

    // The ends of the stretch are not inside it.
    let objects = e.objects_in_between(1_000_000, 3_000_000);
    assert_eq!(objects.len(), 1);
    assert_eq!(objects[0].dist, 500_000);
}

#[test]
fn convert_objects_as_node() {
    let mut graph = sample_graph();
    let objects = vec![
        object(100, 3, 300_000, Vec::new()),
        object(101, 3, 400_000, Vec::new()),
        object(102, 3, 800_000, Vec::new()),
    ];
    let (new_edge_ids, new_node_ids) = graph.convert_objects_as_node_in_edge(3, objects).unwrap();
    assert_eq!(new_node_ids.len(), 3);
    assert_eq!(new_node_ids, vec![100100, 100101, 100102]);
    assert_eq!(new_edge_ids, vec![200100, 200101, 200102, 300102]);

    let ids = graph.all_edge_ids();
    let e1 = ids.contains(&as_edge_ni_id(100));
    let e2 = ids.contains(&as_edge_ni_id(101));
    let e3 = ids.contains(&as_edge_nj_id(102));
    assert!(e1 == true && e2 == true && e3 == true);

    // The mini-edges are as long as the stretches between the objects.
    assert_eq!(graph.edge_len(3, 100100), Ok(3));
    assert_eq!(graph.edge_len(100100, 100101), Ok(1));
    assert_eq!(graph.edge_len(100101, 100102), Ok(4));
    assert_eq!(graph.edge_len(100102, 4), Ok(2));
    // The edge that was cut stays, with its object.
    assert_eq!(graph.edge_len(3, 4), Ok(10));
    // The object of the edge, at one half, lies on the third mini-edge.
    let on_third = graph.objects(100101, 100102).unwrap();
    assert_eq!(on_third.len(), 1);
    assert_eq!(on_third[0].id, 2);
    assert_eq!(on_third[0].dist, 250_000);
    assert_eq!(graph.objects(3, 100100).unwrap().len(), 0);
    assert_eq!(graph.map_new_edge(), vec![(3, vec![200100, 200101, 200102, 300102])]);
    assert_eq!(graph.map_new_node(), vec![(3, vec![100100, 100101, 100102])]);
}

#[test]
fn test_graph_with_centroids() {
    let mut g = Graph::new(AppConfig { max_dim: 1, max_dist: 100 });
    g.insert_node(node(1, 0, 0)).unwrap();
    g.insert_node(node(2, 3000, 4000)).unwrap();
    g.insert_edge(DataEdge { id: 1, ni: 1, nj: 2, len: 5000 }).unwrap();
    let objects = vec![object(1, 1, 400_000, vec![1]), object(2, 1, 800_000, vec![1])];
    let (new_edges, new_nodes) = g.convert_objects_as_node_in_edge(1, objects).unwrap();
    assert_eq!(g.all_edge_ids().len(), 4);
    assert_eq!(g.nodes().len(), 4);
    for (_, chain) in g.map_new_edge() {
        assert_eq!(chain.len(), 3);
    }
    assert_eq!(new_edges.len(), 3);
    assert_eq!(new_nodes.len(), 2);
    assert_eq!(g.node(100001), Ok(node(100001, 1200, 1600)));
    assert_eq!(g.node(100002), Ok(node(100002, 2400, 3200)));
    assert_eq!(g.edge_len(1, 100001), Ok(2000));
    assert_eq!(g.edge_len(100001, 100002), Ok(2000));
    assert_eq!(g.edge_len(100002, 2), Ok(1000));
}

#[test]
fn two_objects_cut_an_edge_in_three() {
    // Objects at three and at seven tenths of an edge of length ten.
    let mut g = Graph::new(AppConfig { max_dim: 0, max_dist: 100 });
    g.insert_node(node(1, 0, 0)).unwrap();
    g.insert_node(node(2, 10, 0)).unwrap();
    g.insert_edge(DataEdge { id: 1, ni: 1, nj: 2, len: 10 }).unwrap();
    g.insert_object(object(7, 1, 500_000, Vec::new())).unwrap();
    g.insert_object(object(8, 1, 300_000, Vec::new())).unwrap();
    g.insert_object(object(9, 1, 100_000, Vec::new())).unwrap();
    let cut = vec![object(21, 1, 700_000, Vec::new()), object(20, 1, 300_000, Vec::new())];
    let (edges, nodes) = g.convert_objects_as_node_in_edge(1, cut).unwrap();
    assert_eq!(nodes, vec![100020, 100021]);
    assert_eq!(edges, vec![200020, 200021, 300021]);
    assert_eq!(g.edge_len(1, 100020), Ok(3));
    assert_eq!(g.edge_len(100020, 100021), Ok(4));
    assert_eq!(g.edge_len(100021, 2), Ok(3));
    // The middle mini-edge carries the object that lay between the two.
    let middle = g.objects(100020, 100021).unwrap();
    assert_eq!(middle.len(), 1);
    assert_eq!(middle[0].id, 7);
    assert_eq!(middle[0].dist, 500_000);
    // The object at three tenths lies at an end of a mini-edge, on none.
    let first = g.objects(1, 100020).unwrap();
    assert_eq!(first.len(), 1);
    assert_eq!(first[0].id, 9);
    assert_eq!(first[0].dist, 333_333);
    assert_eq!(g.objects(100021, 2).unwrap().len(), 0);
}

#[test]
fn clean_takes_the_chain_back() {
    let mut graph = sample_graph();
    let o = graph.object(2).unwrap();
    let id = graph.convert_object_as_node(o).unwrap();
    assert_eq!(id, 100002);
    assert_eq!(graph.nodes().len(), 7);
    assert_eq!(graph.all_edge_ids().len(), 7);
    assert!(graph.has_node(100002));
    assert_eq!(graph.neighbors(100002).len(), 2);
    graph.clean();
    assert_eq!(graph.nodes().len(), 6);
    assert_eq!(graph.all_edge_ids().len(), 5);
    assert!(!graph.has_node(100002));
    assert!(!graph.has_edge_id(200002));
    assert_eq!(graph.node(100002), Err(Error::NotFound));
    assert_eq!(graph.map_new_edge().len(), 0);
    assert_eq!(graph.map_new_node().len(), 0);
    assert_eq!(graph.edge_len(3, 4), Ok(10));
    let mut around = graph.neighbors(3);
    around.sort();
    assert_eq!(around, vec![2, 4]);
    assert!(!graph.has_edge_id(300002));
    let mut edges = graph.all_edge_ids();
    edges.sort();
    assert_eq!(edges, vec![1, 2, 3, 4, 5]);
    // A second clean changes nothing.
    graph.clean();
    assert_eq!(graph.nodes().len(), 6);
    assert_eq!(graph.all_edge_ids().len(), 5);
    // The same conversion works again.
    let o = graph.object(2).unwrap();
    assert_eq!(graph.convert_object_as_node(o), Ok(100002));
    // Without a clean between the two it is refused.
    let o = graph.object(2).unwrap();
    assert_eq!(graph.convert_object_as_node(o), Err(Error::StateError));
}

#[test]
fn conversion_errors() {
    let mut graph = sample_graph();
    // An edge that is not there.
    assert_eq!(
        graph.convert_objects_as_node_in_edge(77, vec![object(50, 77, 1, vec![])]),
        Err(Error::NotFound)
    );
    // An id of zero, an id at the limit, a position beyond the edge.
    assert_eq!(
        graph.convert_objects_as_node_in_edge(3, vec![object(0, 3, 1, vec![])]),
        Err(Error::InvalidInput)
    );
    assert_eq!(
        graph.convert_objects_as_node_in_edge(3, vec![object(100_000, 3, 1, vec![])]),
        Err(Error::InvalidInput)
    );
    assert_eq!(
        graph.convert_objects_as_node_in_edge(3, vec![object(5, 3, 1_000_001, vec![])]),
        Err(Error::InvalidInput)
    );
    // The same id twice.
    assert_eq!(
        graph.convert_objects_as_node_in_edge(
            3,
            vec![object(5, 3, 1, vec![]), object(5, 3, 2, vec![])]
        ),
        Err(Error::StateError)
    );
    assert_eq!(graph.nodes().len(), 6);
    // A conversion that was not taken back.
    let o = graph.object(2).unwrap();
    graph.convert_object_as_node(o).unwrap();
    let o = graph.object(2).unwrap();
    assert_eq!(graph.convert_object_as_node(o), Err(Error::StateError));
    assert_eq!(graph.nodes().len(), 7);
}

#[test]
fn batch_conversion_groups_by_edge() {
    let mut graph = sample_graph();
    let chains = graph
        .convert_objects_to_node(vec![
            object(12, 3, 900_000, vec![]),
            object(10, 1, 500_000, vec![]),
            object(11, 3, 100_000, vec![]),
        ])
        .unwrap();
    assert_eq!(chains, vec![(3, vec![200011, 200012, 300012]), (1, vec![200010, 300010])]);
    assert_eq!(graph.map_new_node(), vec![(3, vec![100011, 100012]), (1, vec![100010])]);
    let ids = graph.convert_object_ids_to_node(vec![3, 1]).unwrap();
    assert_eq!(ids, vec![100003, 100001]);
    assert_eq!(graph.map_new_edge(), vec![(5, vec![200003, 300003]), (1, vec![200001, 300001])]);
    assert_eq!(graph.convert_object_ids_to_node(vec![3, 99]), Err(Error::NotFound));
    // A batch that cannot be finished is taken back.
    assert_eq!(
        graph.convert_objects_to_node(vec![
            object(10, 1, 500_000, vec![]),
            object(11, 9, 1, vec![])
        ]),
        Err(Error::NotFound)
    );
    assert_eq!(graph.map_new_edge().len(), 0);
    assert_eq!(graph.nodes().len(), 6);
}

#[test]
fn insert_errors() {
    let mut graph = sample_graph();
    assert_eq!(graph.insert_node(node(100_001, 0, 0)), Err(Error::InvalidInput));
    assert_eq!(graph.insert_node(node(100_000, 0, 0)), Ok(()));
    // An id in use, a pair with an edge, an id above the limit.
    let used_id = DataEdge { id: 1, ni: 1, nj: 3, len: 1 };
    assert_eq!(graph.insert_edge(used_id), Err(Error::InvalidInput));
    let used_pair = DataEdge { id: 9, ni: 2, nj: 1, len: 1 };
    assert_eq!(graph.insert_edge(used_pair), Err(Error::InvalidInput));
    assert_eq!(
        graph.insert_edge(DataEdge { id: 100_001, ni: 1, nj: 3, len: 1 }),
        Err(Error::InvalidInput)
    );
    // An end node that is not there.
    assert_eq!(graph.insert_edge(DataEdge { id: 9, ni: 1, nj: 77, len: 1 }), Err(Error::NotFound));
    assert_eq!(graph.insert_edge(DataEdge { id: 9, ni: 1, nj: 3, len: 20 }), Ok(()));
    // Objects.
    assert_eq!(graph.insert_object(object(1, 1, 0, vec![1, 2, 3, 4])), Err(Error::InvalidInput));
    assert_eq!(graph.insert_object(object(4, 1, 0, vec![1, 2, 3])), Err(Error::InvalidInput));
    assert_eq!(graph.insert_object(object(0, 1, 0, vec![1, 2, 3, 4])), Err(Error::InvalidInput));
    assert_eq!(
        graph.insert_object(object(4, 1, 1_000_001, vec![1, 2, 3, 4])),
        Err(Error::InvalidInput)
    );
    assert_eq!(graph.insert_object(object(4, 77, 0, vec![1, 2, 3, 4])), Err(Error::NotFound));
    assert_eq!(graph.insert_object(object(4, 9, 0, vec![1, 2, 3, 4])), Ok(()));
    assert_eq!(graph.objects(1, 3).unwrap().len(), 1);
}

#[test]
fn lookups() {
    let mut graph = sample_graph();
    assert_eq!(graph.edge_id(1, 2), Some(1));
    assert_eq!(graph.edge_id(2, 1), Some(1));
    assert_eq!(graph.edge_id(1, 3), None);
    assert_eq!(graph.edge_len(1, 3), Err(Error::NotFound));
    assert_eq!(graph.edge(6, 5).unwrap().id, 5);
    assert!(graph.edge(5, 5).is_none());
    assert_eq!(graph.edge_by_edge_id(4), Ok(DataEdge { id: 4, ni: 4, nj: 6, len: 10 }));
    assert_eq!(graph.edge_by_edge_id(40), Err(Error::NotFound));
    assert_eq!(graph.object(3).unwrap().edge_id, 5);
    assert!(graph.object(30).is_err());
    assert!(graph.objects(1, 3).is_err());
    assert_eq!(graph.neighbors(1), vec![2]);
    assert_eq!(graph.neighbors(99), Vec::<u32>::new());
    let ids: Vec<u32> = graph.all_objects().iter().map(|o| o.id).collect();
    assert_eq!(ids, vec![1, 2, 3]);
    assert_eq!(graph.remove_object(2), Ok(()));
    assert_eq!(graph.remove_object(2), Err(Error::NotFound));
    assert_eq!(graph.objects(3, 4).unwrap().len(), 0);
    let ids: Vec<u32> = graph.all_objects().iter().map(|o| o.id).collect();
    assert_eq!(ids, vec![1, 3]);
    graph.remove_node(2);
    assert_eq!(graph.nodes().len(), 5);
    assert_eq!(graph.all_edge_ids().len(), 3);
    assert_eq!(graph.edge_by_edge_id(1), Err(Error::NotFound));
    assert_eq!(graph.neighbors(1), Vec::<u32>::new());
    assert_eq!(graph.neighbors(3), vec![4]);
}

#[test]
fn id_offsets() {
    assert_eq!(as_node_id(5), 100005);
    assert_eq!(as_edge_ni_id(5), 200005);
    assert_eq!(as_edge_nj_id(5), 300005);
    assert_eq!(as_object_id(100005), 5);
    assert_eq!(as_object_id(5), 5);
    assert_eq!(as_object_id(100000), 100000);
    assert_eq!(Graph::as_object_id(100001), 1);
    assert_eq!(Action::from_code(1), Action::Insertion);
    assert_eq!(Action::from_code(0), Action::Deletion);
    assert_eq!(Action::from_code(-4), Action::Deletion);
}

#[test]
fn arithmetic() {
    assert_eq!(isqrt(0), 0);
    assert_eq!(isqrt(24), 4);
    assert_eq!(isqrt(25), 5);
    assert_eq!(isqrt(26), 5);
    assert_eq!(isqrt((1u128 << 64) + 5), 1u64 << 32);
    assert_eq!(node_distance(&node(1, -3, 0), &node(2, 0, 4)), 5);
    let far = node_distance(&node(1, i32::MIN, i32::MIN), &node(2, i32::MAX, i32::MAX));
    assert_eq!(far, 6074000998);
    assert_eq!(add_cost(3, 4), 7);
    assert_eq!(add_cost(u64::MAX, 4), u64::MAX);
    assert_eq!(add_cost(u64::MAX - 4, 4), u64::MAX);
    assert_eq!(interpolate(0, 10, 300_000), 3);
    assert_eq!(interpolate(10, 0, 300_000), 7);
    assert_eq!(interpolate(-5, 5, 1_000_000), 5);
    assert_eq!(interpolate(0, 3, 500_000), 1);
    assert_eq!(interpolate(3, 0, 500_000), 2);
    assert_eq!(rescale(300_000, 100_000, 500_000), 500_000);
    assert_eq!(rescale(1, 0, 3), 333_333);
}

#[test]
fn cut_edges_can_be_taken_out() {
    let mut graph = sample_graph();
    let o = graph.object(2).unwrap();
    graph.convert_object_as_node(o).unwrap();
    assert_eq!(graph.edge_id(3, 4), Some(3));
    graph.remove_old_mapped_edges();
    assert_eq!(graph.edge_id(3, 4), None);
    assert_eq!(graph.edge_id(4, 3), None);
    assert!(!graph.has_edge_id(3));
    assert!(graph.has_node(3) && graph.has_node(4));
    assert_eq!(graph.edge_id(3, 100002), Some(200002));
    assert_eq!(graph.edge_id(100002, 4), Some(300002));
    let mut around = graph.neighbors(3);
    around.sort();
    assert_eq!(around, vec![2, 100002]);
    assert_eq!(graph.all_edge_ids().len(), 6);
    assert_eq!(graph.map_new_edge(), vec![(3, vec![200002, 300002])]);
}

#[test]
fn ends_and_objects_by_id() {
    let mut graph = sample_graph();
    assert_eq!(graph.nodes_from_edge_id(4), Ok(vec![4, 6]));
    assert_eq!(graph.nodes_from_edge_id(40), Err(Error::NotFound));
    assert_eq!(graph.nodes_from_edge_ids(&vec![5, 1]), Ok(vec![6, 5, 1, 2]));
    assert_eq!(graph.nodes_from_edge_ids(&vec![5, 10]), Err(Error::NotFound));
    let back: Vec<u32> = graph.get_objects(vec![1, 2, 3]).unwrap().iter().map(|o| o.id).collect();
    assert_eq!(back, vec![3, 2, 1]);
    assert!(graph.get_objects(vec![1, 20]).is_err());
    let more = vec![
        object(7, 2, 0, vec![0, 0, 0, 0]),
        object(8, 2, 1, vec![0, 0, 0]),
        object(9, 2, 2, vec![0, 0, 0, 0]),
    ];
    assert_eq!(graph.insert_objects(more), (1, Err(Error::InvalidInput)));
    assert_eq!(graph.all_objects().len(), 4);
    assert_eq!(graph.objects(2, 3).unwrap().len(), 1);
}

#[test]
fn a_data_set_fills_a_graph() {
    let mut graph = Graph::new(AppConfig::default());
    let nodes = vec![node(1, 0, 0), node(2, 3, 4), node(3, 3, 0)];
    let edges = vec![
        DataEdge::new(1, &nodes[0], &nodes[1]),
        DataEdge::new(2, &nodes[1], &nodes[2]),
    ];
    let objects = vec![object(1, 1, 500_000, vec![1, 2, 3, 4])];
    assert_eq!(graph.initial_network(nodes.clone(), edges.clone(), objects), Ok(()));
    assert_eq!(graph.edge_len(1, 2), Ok(5));
    assert_eq!(graph.edge_len(2, 3), Ok(4));
    assert_eq!(graph.all_objects().len(), 1);
    let mut other = Graph::new(AppConfig::default());
    let stray = vec![object(1, 7, 500_000, vec![1, 2, 3, 4])];
    assert_eq!(other.initial_network(nodes.clone(), edges.clone(), stray), Err(Error::NotFound));
    let mut third = Graph::new(AppConfig::default());
    let loose = vec![DataEdge { id: 1, ni: 1, nj: 9, len: 1 }];
    assert_eq!(third.initial_network(nodes, loose, Vec::new()), Err(Error::NotFound));
    let mut fourth = Graph::new(AppConfig::default());
    assert_eq!(
        fourth.initial_network(vec![node(200_000, 0, 0)], Vec::new(), Vec::new()),
        Err(Error::InvalidInput)
    );
}

#[test]
fn records_of_cut_edges() {
    let mut map = MapOldToNewEdges::new();
    map.insert(3, 200002);
    map.insert(1, 200001);
    map.insert(3, 300002);
    assert_eq!(map.content(), vec![(3, vec![200002, 300002]), (1, vec![200001])]);
    assert_eq!(Range::new(1, 2, 3), Range { start: 1, end: 2, centroid_id: 3 });
}
