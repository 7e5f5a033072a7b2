use network_voronoi::edge_result::EdgeResult;
use network_voronoi::store::ResultVoronoi;
use network_voronoi::types::{DataEdge, Error, Range};

fn range(start: u64, end: u64, centroid_id: u32) -> Range {
    Range { start, end, centroid_id }
}

fn keys(r: &EdgeResult) -> Vec<u64> {
    let mut out = Vec::new();
    let mut i = 0;
    while let Some(d) = r.breakpoint(i) {
        out.push(d);
        i += 1;
    }
    out
}

fn four_ranges() -> EdgeResult {
    let mut edge_result = EdgeResult::new(10);
    let ranges = vec![range(0, 4, 1), range(2, 4, 2), range(1, 7, 3), range(3, 9, 4)];
    for r in ranges {
        edge_result.insert(r);
    }
    edge_result
}

#[test]
fn result_edge_result() {
    let mut edge_result = four_ranges();
    // A breakpoint at each start and each end, and at the end of the edge.
    assert_eq!(keys(&edge_result), vec![0, 1, 2, 3, 4, 7, 9, 10]);
    assert_eq!(edge_result.len(), 8);

    edge_result.remove(3);
    assert_eq!(edge_result.range_count(), 3);
    assert_eq!(keys(&edge_result), vec![0, 2, 3, 4, 9, 10]);
    assert_eq!(edge_result.len(), 6);
}

#[test]
fn owners_follow_the_ranges() {
    let edge_result = four_ranges();
    assert_eq!(edge_result.owners(0), vec![1]);
    assert_eq!(edge_result.owners(1), vec![1, 3]);
    assert_eq!(edge_result.owners(2), vec![1, 2, 3]);
    assert_eq!(edge_result.owners(3), vec![1, 2, 3, 4]);
    assert_eq!(edge_result.owners(4), vec![3, 4]);
    assert_eq!(edge_result.owners(6), vec![3, 4]);
    assert_eq!(edge_result.owners(7), vec![4]);
    assert_eq!(edge_result.owners(8), vec![4]);
    assert_eq!(edge_result.owners(9), Vec::<u32>::new());
    assert_eq!(edge_result.owners(10), Vec::<u32>::new());
    assert_eq!(edge_result.owners(1000), Vec::<u32>::new());
}

#[test]
fn buckets_do_not_overlap_and_cover_the_edge() {
    let edge_result = four_ranges();
    let k = keys(&edge_result);
    for w in k.windows(2) {
        assert!(w[0] < w[1]);
    }
    assert!(*k.last().unwrap() >= 10);
    // Two neighbouring ranges of different owners share no point.
    let mut r = EdgeResult::new(10);
    r.insert(range(0, 5, 7));
    r.insert(range(5, 10, 8));
    for x in 0..5 {
        assert_eq!(r.owners(x), vec![7]);
    }
    for x in 5..10 {
        assert_eq!(r.owners(x), vec![8]);
    }
    assert_eq!(keys(&r), vec![0, 5, 10]);
}

#[test]
fn empty_range_changes_no_breakpoint() {
    let mut r = EdgeResult::new(10);
    r.insert(range(4, 4, 1));
    r.insert(range(6, 2, 1));
    assert_eq!(keys(&r), vec![10]);
    assert_eq!(r.range_count(), 2);
    assert_eq!(r.owners(4), Vec::<u32>::new());
}

#[test]
fn range_beyond_the_edge_adds_a_bucket() {
    let mut r = EdgeResult::new(10);
    r.insert(range(8, 12, 5));
    assert_eq!(keys(&r), vec![8, 10, 12]);
    assert_eq!(r.owners(9), vec![5]);
    assert_eq!(r.owners(11), vec![5]);
    assert_eq!(r.owners(12), Vec::<u32>::new());
}

#[test]
fn remove_is_idempotent() {
    let mut once = four_ranges();
    once.remove(3);
    let mut twice = four_ranges();
    twice.remove(3);
    twice.remove(3);
    assert_eq!(keys(&once), keys(&twice));
    assert_eq!(once.range_count(), twice.range_count());
    for x in 0..12 {
        assert_eq!(once.owners(x), twice.owners(x));
    }
}

#[test]
fn remove_sorts_the_owners_that_stay() {
    let mut r = EdgeResult::new(10);
    r.insert(range(0, 10, 9));
    r.insert(range(0, 10, 4));
    r.insert(range(0, 10, 6));
    assert_eq!(r.owners(5), vec![9, 4, 6]);
    r.remove(4);
    assert_eq!(r.owners(5), vec![6, 9]);
    assert_eq!(keys(&r), vec![0, 10]);
}

#[test]
fn remove_of_an_absent_owner_collapses_equal_neighbours() {
    let mut r = EdgeResult::new(10);
    r.insert(range(0, 3, 1));
    r.insert(range(3, 6, 1));
    assert_eq!(keys(&r), vec![0, 3, 6, 10]);
    r.remove(42);
    assert_eq!(keys(&r), vec![0, 6, 10]);
    assert_eq!(r.owners(2), vec![1]);
    assert_eq!(r.owners(4), vec![1]);
}

#[test]
fn default_record_is_empty() {
    let r = EdgeResult::default();
    assert_eq!(r.len(), 0);
    assert_eq!(r.range_count(), 0);
    assert_eq!(r.owners(0), Vec::<u32>::new());
}

fn store() -> ResultVoronoi {
    ResultVoronoi::from_edge_ids(vec![
        DataEdge { id: 1, ni: 1, nj: 2, len: 10 },
        DataEdge { id: 2, ni: 2, nj: 3, len: 20 },
    ])
}

#[test]
fn store_insert_and_read() {
    let mut s = store();
    assert!(s.get(1, 3).is_none());
    assert_eq!(s.insert(3, 1, vec![range(0, 5, 100001), range(5, 10, 100002)]), Ok(()));
    assert_eq!(s.insert(4, 1, vec![range(0, 10, 100001)]), Ok(()));
    assert_eq!(s.insert(3, 2, vec![range(0, 20, 100002)]), Ok(()));
    assert_eq!(s.owners(1, 3, 2), vec![100001]);
    assert_eq!(s.owners(1, 3, 7), vec![100002]);
    assert_eq!(s.owners(1, 4, 7), vec![100001]);
    assert_eq!(s.owners(2, 3, 19), vec![100002]);
    assert_eq!(s.owners(2, 4, 19), Vec::<u32>::new());
    assert_eq!(s.get(1, 3).unwrap().len(), 3);
    // A second insert extends the coverage of the pair.
    assert_eq!(s.insert(3, 1, vec![range(2, 4, 100003)]), Ok(()));
    assert_eq!(s.owners(1, 3, 3), vec![100001, 100003]);
    assert_eq!(s.get(1, 3).unwrap().range_count(), 3);
}

#[test]
fn store_refuses_an_unknown_edge() {
    let mut s = store();
    assert_eq!(s.insert(3, 9, vec![range(0, 5, 1)]), Err(Error::NotFound));
    assert!(s.get(9, 3).is_none());
    assert!(!s.knows(9));
    assert!(s.knows(2));
}

#[test]
fn store_remove_at_one_level() {
    let mut s = store();
    s.insert(3, 1, vec![range(0, 5, 7), range(5, 10, 8)]).unwrap();
    s.insert(4, 1, vec![range(0, 10, 7)]).unwrap();
    s.insert(3, 2, vec![range(0, 20, 7)]).unwrap();
    s.remove(7, 3);
    assert_eq!(s.owners(1, 3, 2), Vec::<u32>::new());
    assert_eq!(s.owners(1, 3, 7), vec![8]);
    assert_eq!(s.owners(2, 3, 7), Vec::<u32>::new());
    assert_eq!(s.owners(1, 4, 2), vec![7]);
    // Removing once more changes nothing.
    let before: Vec<Vec<u32>> = (0..10).map(|x| s.owners(1, 3, x)).collect();
    let len_before = s.get(1, 3).unwrap().len();
    s.remove(7, 3);
    let after: Vec<Vec<u32>> = (0..10).map(|x| s.owners(1, 3, x)).collect();
    assert_eq!(before, after);
    assert_eq!(len_before, s.get(1, 3).unwrap().len());
}

#[test]
fn store_remove_all_levels() {
    let mut s = store();
    s.insert(3, 1, vec![range(0, 5, 7), range(5, 10, 8)]).unwrap();
    s.insert(4, 1, vec![range(0, 10, 7)]).unwrap();
    s.remove_all(7);
    assert_eq!(s.owners(1, 3, 2), Vec::<u32>::new());
    assert_eq!(s.owners(1, 4, 2), Vec::<u32>::new());
    assert_eq!(s.owners(1, 3, 7), vec![8]);
}
