//! The result store: for every edge and every dominance level that something
//! was recorded for, the coverage of the edge at that level.

use crate::edge_result::{Coverage, EdgeResult};
use crate::types::{DataEdge, EdgeId, Error, Length, ObjectId, Range, K};
use std::collections::HashMap;
use vstd::prelude::*;

verus! {

broadcast use vstd::std_specs::hash::group_hash_axioms;

/// The edges of `list` by id. Where an id comes twice, the later edge stands.
pub open spec fn edge_table(list: Seq<DataEdge>) -> Map<EdgeId, DataEdge>
    decreases list.len(),
{
    if list.len() == 0 {
        Map::empty()
    } else {
        edge_table(list.drop_last()).insert(list.last().id, list.last())
    }
}

/// The table of a list holds an edge for the ids of the list and for no
/// other, and the edge for an id is an edge of the list with that id.
pub proof fn lemma_edge_table(list: Seq<DataEdge>, id: EdgeId)
    ensures
        edge_table(list).contains_key(id) <==> exists|i: int|
            0 <= i < list.len() && (#[trigger] list[i]).id == id,
        edge_table(list).contains_key(id) ==> exists|i: int|
            0 <= i < list.len() && #[trigger] list[i] == edge_table(list)[id] && list[i].id == id,
    decreases list.len(),
{
    if list.len() > 0 {
        let front = list.drop_last();
        lemma_edge_table(front, id);
        let last = list.len() - 1;
        if list.last().id == id {
            assert(list[last].id == id);
            assert(list[last] == edge_table(list)[id]);
        } else {
            if edge_table(front).contains_key(id) {
                let i = choose|i: int|
                    0 <= i < front.len() && #[trigger] front[i] == edge_table(front)[id]
                        && front[i].id == id;
                assert(list[i] == front[i]);
            }
            if exists|i: int| 0 <= i < list.len() && (#[trigger] list[i]).id == id {
                let i = choose|i: int| 0 <= i < list.len() && (#[trigger] list[i]).id == id;
                assert(front[i] == list[i]);
            }
        }
    }
}

/// The number under which the coverage of edge `edge_id` at level `k` is
/// filed.
pub open spec fn slot(edge_id: EdgeId, k: K) -> u64 {
    (edge_id as u64 * 256 + k as u64) as u64
}

/// `m` after the coverage of `id` was removed at level `k` of every edge.
pub open spec fn removed_at(m: Map<(EdgeId, K), Coverage>, id: ObjectId, k: K) -> Map<
    (EdgeId, K),
    Coverage,
> {
    Map::new(
        |key: (EdgeId, K)| m.contains_key(key),
        |key: (EdgeId, K)|
            if key.1 == k {
                m[key].without_owner(id)
            } else {
                m[key]
            },
    )
}

/// `m` after the coverage of `id` was removed at every level of every edge.
pub open spec fn removed_everywhere(m: Map<(EdgeId, K), Coverage>, id: ObjectId) -> Map<
    (EdgeId, K),
    Coverage,
> {
    Map::new(|key: (EdgeId, K)| m.contains_key(key), |key: (EdgeId, K)| m[key].without_owner(id))
}

/// Removing an object at one level a second time leaves the store as the
/// first removal left it.
pub proof fn lemma_remove_idempotent(m: Map<(EdgeId, K), Coverage>, id: ObjectId, k: K)
    ensures
        removed_at(removed_at(m, id, k), id, k) == removed_at(m, id, k),
{
    let once = removed_at(m, id, k);
    let twice = removed_at(once, id, k);
    assert forall|key: (EdgeId, K)| once.contains_key(key) implies twice[key] == once[key] by {
        m[key].lemma_remove_twice(id);
    }
    assert(twice =~= once);
}

/// Removing an object at every level a second time leaves the store as the
/// first removal left it.
pub proof fn lemma_remove_all_idempotent(m: Map<(EdgeId, K), Coverage>, id: ObjectId)
    ensures
        removed_everywhere(removed_everywhere(m, id), id) == removed_everywhere(m, id),
{
    let once = removed_everywhere(m, id);
    let twice = removed_everywhere(once, id);
    assert forall|key: (EdgeId, K)| once.contains_key(key) implies twice[key] == once[key] by {
        m[key].lemma_remove_twice(id);
    }
    assert(twice =~= once);
}

/// Two pairs that are filed under the same number are the same pair.
pub proof fn lemma_slot_injective(e1: EdgeId, k1: K, e2: EdgeId, k2: K)
    requires
        slot(e1, k1) == slot(e2, k2),
    ensures
        e1 == e2,
        k1 == k2,
{
}

/// The coverage of one edge at one level, with the pair it belongs to.
#[derive(Debug)]
pub struct Entry {
    edge_id: EdgeId,
    k: K,
    result: EdgeResult,
}

/// The result store.
#[derive(Debug)]
pub struct ResultVoronoi {
    edges: HashMap<EdgeId, DataEdge>,
    index: HashMap<u64, usize>,
    entries: Vec<Entry>,
}

impl View for ResultVoronoi {
    type V = Map<(EdgeId, K), Coverage>;

    /// The coverage recorded for each pair of an edge and a level.
    closed spec fn view(&self) -> Map<(EdgeId, K), Coverage> {
        Map::new(
            |key: (EdgeId, K)| self.index@.contains_key(slot(key.0, key.1)),
            |key: (EdgeId, K)| self.entries@[self.index@[slot(key.0, key.1)] as int].result@,
        )
    }
}

impl ResultVoronoi {
    /// The edges that the store knows, by id.
    pub closed spec fn edges(&self) -> Map<EdgeId, DataEdge> {
        self.edges@
    }

    /// Every coverage is well formed and belongs to a known edge, whose
    /// length it has.
    pub closed spec fn wf(&self) -> bool {
        &&& forall|i: int|
            0 <= i < self.entries@.len() ==> {
                let e = #[trigger] self.entries@[i];
                &&& self.index@.contains_key(slot(e.edge_id, e.k))
                &&& self.index@[slot(e.edge_id, e.k)] == i
                &&& e.result.wf()
                &&& self.edges@.contains_key(e.edge_id)
                &&& e.result@.edge_len == self.edges@[e.edge_id].len
            }
        &&& forall|p: u64| #[trigger]
            self.index@.contains_key(p) ==> self.index@[p] < self.entries@.len() && slot(
                self.entries@[self.index@[p] as int].edge_id,
                self.entries@[self.index@[p] as int].k,
            ) == p
    }

    /// The coverage of `edge_id` at level `k`, or that of an edge on which
    /// nothing is owned where none was recorded.
    pub open spec fn coverage_or_fresh(&self, edge_id: EdgeId, k: K) -> Coverage {
        if self@.contains_key((edge_id, k)) {
            self@[(edge_id, k)]
        } else {
            Coverage::fresh(self.edges()[edge_id].len)
        }
    }

    /// Every coverage of a well-formed store is well formed and has the
    /// length of its edge.
    pub proof fn lemma_coverages_wf(&self)
        requires
            self.wf(),
        ensures
            forall|key: (EdgeId, K)| #[trigger]
                self@.contains_key(key) ==> self@[key].wf() && self.edges().contains_key(key.0)
                    && self@[key].edge_len == self.edges()[key.0].len,
    {
        assert forall|key: (EdgeId, K)| #[trigger] self@.contains_key(key) implies self@[key].wf()
            && self.edges().contains_key(key.0) && self@[key].edge_len
                == self.edges()[key.0].len by {
            let p = slot(key.0, key.1);
            let e = self.entries@[self.index@[p] as int];
            lemma_slot_injective(e.edge_id, e.k, key.0, key.1);
        }
    }

    /// A store that knows the edges of `edges` and holds no coverage yet.
    pub fn from_edge_ids(edges: Vec<DataEdge>) -> (store: ResultVoronoi)
        ensures
            store.wf(),
            store@ == Map::<(EdgeId, K), Coverage>::empty(),
            store.edges() == edge_table(edges@),
    {
        let mut table: HashMap<EdgeId, DataEdge> = HashMap::new();
        let mut i: usize = 0;
        while i < edges.len()
            invariant
                i <= edges.len(),
                table@ == edge_table(edges@.take(i as int)),
            decreases edges.len() - i,
        {
            proof {
                assert(edges@.take(i + 1).drop_last() =~= edges@.take(i as int));
            }
            table.insert(edges[i].id, edges[i]);
            i += 1;
        }
        proof {
            assert(edges@.take(i as int) =~= edges@);
        }
        let store = ResultVoronoi { edges: table, index: HashMap::new(), entries: Vec::new() };
        proof {
            assert(store@ =~= Map::<(EdgeId, K), Coverage>::empty());
        }
        store
    }

    /// Records `ranges`, first to last, in the coverage of `edge_id` at
    /// level `k`, which starts as that of an edge on which nothing is owned.
    /// An edge that the store does not know is refused, and nothing changes.
    pub fn insert(&mut self, k: K, edge_id: EdgeId, ranges: Vec<Range>) -> (r: Result<(), Error>)
        requires
            old(self).wf(),
        ensures
            final(self).wf(),
            final(self).edges() == old(self).edges(),
            r == (if old(self).edges().contains_key(edge_id) {
                Ok::<(), Error>(())
            } else {
                Err::<(), Error>(Error::NotFound)
            }),
            r.is_err() ==> final(self)@ == old(self)@,
            r.is_ok() ==> final(self)@ == old(self)@.insert(
                (edge_id, k),
                old(self).coverage_or_fresh(edge_id, k).with_ranges(ranges@),
            ),
    {
        let len: Length = match self.edges.get(&edge_id) {
            Some(edge) => edge.len,
            None => {
                return Err(Error::NotFound);
            },
        };
        let p: u64 = edge_id as u64 * 256 + k as u64;
        let ghost start = old(self).coverage_or_fresh(edge_id, k);
        let known = self.index.get(&p);
        let at: usize = match known {
            Some(i) => *i,
            None => {
                let at = self.entries.len();
                self.entries.push(Entry { edge_id, k, result: EdgeResult::new(len) });
                self.index.insert(p, at);
                proof {
                    assert forall|q: u64| #[trigger] self.index@.contains_key(q)
                        implies self.index@[q]
                        < self.entries@.len() && slot(
                        self.entries@[self.index@[q] as int].edge_id,
                        self.entries@[self.index@[q] as int].k,
                    ) == q by {
                        if q != p {
                            assert(old(self).index@.contains_key(q));
                        }
                    }
                    assert forall|i: int| 0 <= i < self.entries@.len() implies {
                        let e = #[trigger] self.entries@[i];
                        &&& self.index@.contains_key(slot(e.edge_id, e.k))
                        &&& self.index@[slot(e.edge_id, e.k)] == i
                        &&& e.result.wf()
                        &&& self.edges@.contains_key(e.edge_id)
                        &&& e.result@.edge_len == self.edges@[e.edge_id].len
                    } by {
                        if i < at {
                            assert(self.entries@[i] == old(self).entries@[i]);
                        }
                    }
                }
                at
            },
        };
        proof {
            assert(self.entries@[at as int].edge_id == edge_id && self.entries@[at as int].k == k)
                by {
                lemma_slot_injective(
                    self.entries@[at as int].edge_id,
                    self.entries@[at as int].k,
                    edge_id,
                    k,
                );
            }
            assert(self.entries@[at as int].result@ == start);
        }
        let ghost filed = self.entries@;
        let ghost index = self.index@;
        let mut i: usize = 0;
        while i < ranges.len()
            invariant
                i <= ranges.len(),
                at < self.entries@.len(),
                self.entries@.len() == filed.len(),
                self.index@ == index,
                self.edges@ == old(self).edges@,
                forall|j: int|
                    0 <= j < filed.len() && j != at ==> #[trigger] self.entries@[j] == filed[j],
                self.entries@[at as int].edge_id == edge_id,
                self.entries@[at as int].k == k,
                self.entries@[at as int].result.wf(),
                self.entries@[at as int].result@ == start.with_ranges(ranges@.take(i as int)),
            decreases ranges.len() - i,
        {
            proof {
                assert(ranges@.take(i + 1).drop_last() =~= ranges@.take(i as int));
            }
            self.entries[at].result.insert(ranges[i]);
            i += 1;
        }
        proof {
            assert(ranges@.take(i as int) =~= ranges@);
            assert forall|j: int| 0 <= j < self.entries@.len() implies {
                let e = #[trigger] self.entries@[j];
                &&& self.index@.contains_key(slot(e.edge_id, e.k))
                &&& self.index@[slot(e.edge_id, e.k)] == j
                &&& e.result.wf()
                &&& self.edges@.contains_key(e.edge_id)
                &&& e.result@.edge_len == self.edges@[e.edge_id].len
            } by {
                if j != at {
                    assert(self.entries@[j] == filed[j]);
                } else {
                    lemma_with_ranges_len(start, ranges@);
                }
            }
            assert forall|q: u64| #[trigger] self.index@.contains_key(q) implies self.index@[q]
                < self.entries@.len() && slot(
                self.entries@[self.index@[q] as int].edge_id,
                self.entries@[self.index@[q] as int].k,
            ) == q by {
                let j = self.index@[q] as int;
                if j != at {
                    assert(self.entries@[j] == filed[j]);
                }
            }
            let target = old(self)@.insert((edge_id, k), start.with_ranges(ranges@));
            assert forall|key: (EdgeId, K)| #[trigger] target.contains_key(key) implies self@[key]
                == target[key] by {
                if key != (edge_id, k) {
                    let j = index[slot(key.0, key.1)] as int;
                    if j == at {
                        lemma_slot_injective(key.0, key.1, edge_id, k);
                    }
                    assert(self.entries@[j] == filed[j]);
                }
            }
            assert forall|key: (EdgeId, K)| self@.contains_key(key) <==> target.contains_key(
                key,
            ) by {
                if key != (edge_id, k) && self@.contains_key(key) {
                    if slot(key.0, key.1) == p {
                        lemma_slot_injective(key.0, key.1, edge_id, k);
                    }
                }
            }
            assert(self@ =~= target);
        }
        Ok(())
    }

    /// Removes the coverage of `object_id` at level `k` of every edge.
    pub fn remove(&mut self, object_id: ObjectId, k: K)
        requires
            old(self).wf(),
        ensures
            final(self).wf(),
            final(self).edges() == old(self).edges(),
            final(self)@ == removed_at(old(self)@, object_id, k),
    {
        let n = self.entries.len();
        let mut i: usize = 0;
        while i < n
            invariant
                i <= n,
                n == self.entries@.len(),
                n == old(self).entries@.len(),
                old(self).wf(),
                self.index@ == old(self).index@,
                self.edges@ == old(self).edges@,
                forall|j: int|
                    0 <= j < n
                        ==> (#[trigger] self.entries@[j]).edge_id
                            == old(self).entries@[j].edge_id && self.entries@[j].k
                                == old(self).entries@[j].k
                        && self.entries@[j].result.wf(),
                forall|j: int|
                    0 <= j < i
                        ==> (#[trigger] self.entries@[j]).result@
                            == (if old(self).entries@[j].k == k {
                        old(self).entries@[j].result@.without_owner(object_id)
                    } else {
                        old(self).entries@[j].result@
                    }),
                forall|j: int| i <= j < n ==> #[trigger] self.entries@[j] == old(self).entries@[j],
            decreases n - i,
        {
            let ghost before = self.entries@;
            if self.entries[i].k == k {
                self.entries[i].result.remove(object_id);
            }
            proof {
                assert forall|j: int| 0 <= j < n && j != i implies self.entries@[j]
                    == before[j] by {}
            }
            i += 1;
        }
        proof {
            let target = removed_at(old(self)@, object_id, k);
            assert forall|key: (EdgeId, K)| #[trigger] target.contains_key(key) implies self@[key]
                == target[key] by {
                let j = self.index@[slot(key.0, key.1)] as int;
                let e = old(self).entries@[j];
                lemma_slot_injective(e.edge_id, e.k, key.0, key.1);
                assert(self.entries@[j].k == e.k);
            }
            assert(self@ =~= target);
            assert forall|j: int| 0 <= j < self.entries@.len() implies {
                let e = #[trigger] self.entries@[j];
                &&& self.index@.contains_key(slot(e.edge_id, e.k))
                &&& self.index@[slot(e.edge_id, e.k)] == j
                &&& e.result.wf()
                &&& self.edges@.contains_key(e.edge_id)
                &&& e.result@.edge_len == self.edges@[e.edge_id].len
            } by {
                let e = old(self).entries@[j];
                assert(self.entries@[j].edge_id == e.edge_id);
            }
            assert forall|q: u64| #[trigger] self.index@.contains_key(q) implies self.index@[q]
                < self.entries@.len() && slot(
                self.entries@[self.index@[q] as int].edge_id,
                self.entries@[self.index@[q] as int].k,
            ) == q by {
                let j = self.index@[q] as int;
                assert(self.entries@[j].edge_id == old(self).entries@[j].edge_id);
            }
        }
    }

    /// Removes the coverage of `object_id` at every level of every edge.
    pub fn remove_all(&mut self, object_id: ObjectId)
        requires
            old(self).wf(),
        ensures
            final(self).wf(),
            final(self).edges() == old(self).edges(),
            final(self)@ == removed_everywhere(old(self)@, object_id),
    {
        let n = self.entries.len();
        let mut i: usize = 0;
        while i < n
            invariant
                i <= n,
                n == self.entries@.len(),
                n == old(self).entries@.len(),
                old(self).wf(),
                self.index@ == old(self).index@,
                self.edges@ == old(self).edges@,
                forall|j: int|
                    0 <= j < n
                        ==> (#[trigger] self.entries@[j]).edge_id
                            == old(self).entries@[j].edge_id && self.entries@[j].k
                                == old(self).entries@[j].k
                        && self.entries@[j].result.wf(),
                forall|j: int|
                    0 <= j < i
                        ==> (#[trigger] self.entries@[j]).result@
                            == old(self).entries@[j].result@.without_owner(object_id),
                forall|j: int| i <= j < n ==> #[trigger] self.entries@[j] == old(self).entries@[j],
            decreases n - i,
        {
            let ghost before = self.entries@;
            self.entries[i].result.remove(object_id);
            proof {
                assert forall|j: int| 0 <= j < n && j != i implies self.entries@[j]
                    == before[j] by {}
            }
            i += 1;
        }
        proof {
            let target = removed_everywhere(old(self)@, object_id);
            assert(self@ =~= target);
            assert forall|j: int| 0 <= j < self.entries@.len() implies {
                let e = #[trigger] self.entries@[j];
                &&& self.index@.contains_key(slot(e.edge_id, e.k))
                &&& self.index@[slot(e.edge_id, e.k)] == j
                &&& e.result.wf()
                &&& self.edges@.contains_key(e.edge_id)
                &&& e.result@.edge_len == self.edges@[e.edge_id].len
            } by {
                let e = old(self).entries@[j];
                assert(self.entries@[j].edge_id == e.edge_id);
            }
            assert forall|q: u64| #[trigger] self.index@.contains_key(q) implies self.index@[q]
                < self.entries@.len() && slot(
                self.entries@[self.index@[q] as int].edge_id,
                self.entries@[self.index@[q] as int].k,
            ) == q by {
                let j = self.index@[q] as int;
                assert(self.entries@[j].edge_id == old(self).entries@[j].edge_id);
            }
        }
    }

    /// Whether the store knows edge `edge_id`.
    pub fn knows(&self, edge_id: EdgeId) -> (yes: bool)
        ensures
            yes == self.edges().contains_key(edge_id),
    {
        self.edges.contains_key(&edge_id)
    }

    /// The coverage of `edge_id` at level `k`, if something was recorded for
    /// the pair.
    pub fn get(&self, edge_id: EdgeId, k: K) -> (found: Option<&EdgeResult>)
        requires
            self.wf(),
        ensures
            found.is_some() == self@.contains_key((edge_id, k)),
            found.is_some() ==> found.unwrap()@ == self@[(edge_id, k)] && found.unwrap().wf(),
    {
        let p: u64 = edge_id as u64 * 256 + k as u64;
        match self.index.get(&p) {
            Some(i) => Some(&self.entries[*i].result),
            None => None,
        }
    }

    /// The owners of the point at distance `x` of `edge_id` at level `k`, in
    /// the order in which the store holds them: none where nothing was
    /// recorded for the pair.
    pub fn owners(&self, edge_id: EdgeId, k: K, x: Length) -> (list: Vec<ObjectId>)
        requires
            self.wf(),
        ensures
            list@ == (if self@.contains_key((edge_id, k)) {
                self@[(edge_id, k)].owners_at(x as int)
            } else {
                Seq::empty()
            }),
    {
        match self.get(edge_id, k) {
            Some(result) => result.owners(x),
            None => Vec::new(),
        }
    }
}

/// Recording ranges leaves the length of the edge as it is and keeps a
/// coverage well formed.
pub proof fn lemma_with_ranges_len(c: Coverage, ranges: Seq<Range>)
    requires
        c.wf(),
    ensures
        c.with_ranges(ranges).edge_len == c.edge_len,
        c.with_ranges(ranges).wf(),
    decreases ranges.len(),
{
    if ranges.len() > 0 {
        lemma_with_ranges_len(c, ranges.drop_last());
        c.with_ranges(ranges.drop_last()).lemma_with_range_wf(ranges.last());
    }
}

} // verus!
