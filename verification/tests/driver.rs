use network_voronoi::driver::{construct, construct_new_query, cover, deletion, insertion};
use network_voronoi::graph::Graph;
use network_voronoi::queries::Queries;
use network_voronoi::store::ResultVoronoi;
use network_voronoi::types::{Action, AppConfig, DataEdge, DataNode, DataObject, Query};

fn node(id: u32, lng: i32, lat: i32) -> DataNode {
    DataNode { id, lng, lat }
}

fn object(id: u32, edge_id: u32, dist: u64, attr: Vec<i64>) -> DataObject {
    DataObject { id, attr, dist, edge_id, action: Action::Insertion }
}

fn empty_graph() -> Graph {
    let mut graph = Graph::new(AppConfig::default());
    let nodes = [
        node(1, 0, 0),
        node(2, 10, 0),
        node(3, 20, 0),
        node(4, 30, 0),
        node(6, 40, 0),
        node(5, 50, 0),
    ];
    for n in nodes.iter() {
        graph.insert_node(*n).unwrap();
    }
    let pairs = [(1, 1, 2), (2, 2, 3), (3, 3, 4), (4, 4, 6), (5, 6, 5)];
    for (id, a, b) in pairs.iter() {
        let ni = graph.node(*a).unwrap();
        let nj = graph.node(*b).unwrap();
        graph.insert_edge(DataEdge::new(*id, &ni, &nj)).unwrap();
    }
    graph
}

fn objects() -> Vec<DataObject> {
    vec![
        object(1, 1, 500_000, vec![7, 5, 5, 5]),
        object(2, 3, 500_000, vec![5, 5, 5, 5]),
        object(3, 5, 500_000, vec![6, 5, 5, 5]),
    ]
}

fn sample_graph() -> Graph {
    let mut graph = empty_graph();
    for o in objects() {
        graph.insert_object(o).unwrap();
    }
    graph
}

fn queries() -> Queries {
    Queries::new(vec![
        Query { id: 1, k: 3, dimensions: vec![1, 2, 3, 4] },
        Query { id: 2, k: 4, dimensions: vec![1, 2, 3, 4] },
    ])
}

fn owners_along(result: &ResultVoronoi, edge: u32, k: u8) -> Vec<Vec<u32>> {
    (0..10).map(|x| result.owners(edge, k, x)).collect()
}

#[test]
fn main_test() {
    let mut graph = sample_graph();
    let (result, skipped) = construct(&mut graph, &queries());
    assert_eq!(skipped, 0);
    assert_eq!(graph.nodes().len(), 6);
    assert_eq!(graph.map_new_edge().len(), 0);
    // Object 1 is dominated by nobody: its edge is its own at both levels.
    assert_eq!(owners_along(&result, 1, 3), vec![vec![100001]; 10]);
    assert_eq!(owners_along(&result, 1, 4), vec![vec![100001]; 10]);
    assert!(result.owners(3, 3, 5).contains(&100002));
}

#[test]
fn main_test_california() {
    let mut graph = sample_graph();
    let (result, skipped) = construct_new_query(&mut graph);
    assert_eq!(skipped, 0);
    assert!(result.get(1, 3).is_some());
    assert!(result.get(1, 4).is_some());
    assert!(result.get(1, 2).is_none());
    assert_eq!(owners_along(&result, 1, 3), vec![vec![100001]; 10]);
}

#[test]
fn test_insertion() {
    let mut graph = empty_graph();
    let mut result = ResultVoronoi::from_edge_ids(graph.map_edges());
    let skipped = insertion(&mut graph, &queries(), &mut result, objects());
    assert_eq!(skipped, 0);
    assert_eq!(graph.all_objects().len(), 3);
    assert_eq!(graph.map_new_edge().len(), 0);
    assert_eq!(owners_along(&result, 1, 3), vec![vec![100001]; 10]);
    // An object that is there already is passed over.
    let twice = vec![object(1, 1, 0, vec![1, 1, 1, 1])];
    let again = insertion(&mut graph, &queries(), &mut result, twice);
    assert_eq!(again, 1);
}

#[test]
fn test_deletion() {
    let mut graph = sample_graph();
    let (mut result, _) = construct(&mut graph, &queries());
    let skipped = deletion(&mut graph, &queries(), &mut result, vec![1, 3]);
    assert_eq!(skipped, 0);
    assert_eq!(graph.all_objects().len(), 1);
    for e in 1..=5 {
        for k in [3u8, 4] {
            for x in 0..10 {
                let owners = result.owners(e, k, x);
                assert!(!owners.contains(&100001));
                assert!(!owners.contains(&100003));
            }
        }
    }
    // An object that is gone is passed over.
    assert_eq!(deletion(&mut graph, &queries(), &mut result, vec![1]), 1);
}

#[test]
fn cover_counts_what_it_passes_over() {
    let mut graph = sample_graph();
    let mut result = ResultVoronoi::from_edge_ids(graph.map_edges());
    assert_eq!(cover(&mut graph, &mut result, 1, &vec![], false), 0);
    // An object that is not there: every level is passed over.
    assert_eq!(cover(&mut graph, &mut result, 9, &vec![3, 4], false), 2);
    // A level that does not rise is passed over.
    assert_eq!(cover(&mut graph, &mut result, 1, &vec![3, 3, 4], false), 1);
    graph.clean();
    assert_eq!(cover(&mut graph, &mut result, 1, &vec![3, 4], true), 0);
    assert_eq!(owners_along(&result, 1, 3), vec![vec![100001]; 10]);
}

#[test]
fn every_group_is_worked_on() {
    // Two groups of queries: the conversions are taken back between them,
    // so the second is not passed over.
    let two = Queries::new(vec![
        Query { id: 1, k: 3, dimensions: vec![1, 2, 3, 4] },
        Query { id: 2, k: 4, dimensions: vec![1, 2] },
    ]);
    assert_eq!(two.length(), 2);
    let mut graph = sample_graph();
    let (result, skipped) = construct(&mut graph, &two);
    assert_eq!(skipped, 0);
    assert_eq!(graph.map_new_node().len(), 0);
    assert!(result.get(1, 3).is_some());
    assert!(result.get(1, 4).is_some());
    let mut graph = empty_graph();
    let mut result = ResultVoronoi::from_edge_ids(graph.map_edges());
    assert_eq!(insertion(&mut graph, &two, &mut result, objects()), 0);
}
