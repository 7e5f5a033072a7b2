use network_voronoi::multiqueries::{Multiqueries, Pair};
use network_voronoi::queries::{generate_k, Queries};
use network_voronoi::types::Query;

fn query(id: u32, k: u8, dimensions: Vec<u8>) -> Query {
    Query { id, k, dimensions }
}

#[test]
fn multiqueries() {
    let mut m = Multiqueries::new();
    m.insert(vec![1, 2, 3]);
    m.insert(vec![2, 3]);
    m.insert(vec![2, 3, 6]);

    let pairs = m.pairs();
    assert_eq!(pairs.len(), 6);

    let first = pairs.get(0).unwrap();
    assert_eq!(first.0, 1);
    assert_eq!(first.1, 2);
    assert_eq!(
        pairs,
        vec![Pair(1, 2), Pair(1, 3), Pair(1, 6), Pair(2, 3), Pair(2, 6), Pair(3, 6)]
    );
    assert_eq!(m.dimensions(), vec![1, 2, 3, 6]);
    assert_eq!(Multiqueries::new().pairs(), Vec::<Pair>::new());
}

#[test]
fn queries_new() {
    let queries = vec![query(1, 3, vec![1, 2, 3, 4]), query(2, 4, vec![1, 2, 3, 4])];

    let queries = Queries::new(queries);
    assert_eq!(queries.length(), 1);

    let mut is_exists = false;
    let mut walk = queries.iter();
    while let Some(q) = walk.next() {
        if q.dimensions() == vec![1, 2, 3, 4] {
            assert_eq!(q.len(), 2);
            is_exists = true;
        }
    }
    assert_eq!(is_exists, true);
}

#[test]
fn groups_are_in_order_of_level() {
    let queries = Queries::new(vec![
        query(1, 4, vec![1, 2]),
        query(2, 3, vec![1]),
        query(3, 2, vec![1, 2]),
        query(4, 4, vec![1, 2]),
        query(5, 3, vec![1, 2]),
    ]);
    assert_eq!(queries.length(), 2);
    let mut walk = queries.iter();
    let first = walk.next().unwrap();
    assert_eq!(first.dimensions(), vec![1, 2]);
    let mut ids = Vec::new();
    let mut inner = first.iter();
    while let Some(q) = inner.next() {
        ids.push((q.id, q.k));
    }
    assert_eq!(ids, vec![(3, 2), (5, 3), (1, 4), (4, 4)]);
    let second = walk.next().unwrap();
    assert_eq!(second.dimensions(), vec![1]);
    assert_eq!(second.len(), 1);
    assert!(walk.next().is_none());

    let mut g = first.copy();
    g.remove_less_k(3);
    assert_eq!(g.len(), 3);
    assert_eq!(g.pop_first().unwrap().id, 5);
    assert_eq!(g.pop_first().unwrap().id, 1);
    assert_eq!(g.pop_first().unwrap().id, 4);
    assert!(g.pop_first().is_none());
    assert_eq!(first.len(), 4);
}

#[test]
fn levels_for_a_number_of_dimensions() {
    assert_eq!(generate_k(4), vec![3, 4]);
    assert_eq!(generate_k(10), vec![6, 7, 8, 9, 10]);
    assert_eq!(generate_k(1), vec![1]);
    assert_eq!(generate_k(0), Vec::<u8>::new());
    assert_eq!(generate_k(255).len(), 128);
    assert_eq!(generate_k(255)[127], 255);
}
