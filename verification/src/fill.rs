//! Filling a graph with a data set, record by record.

use crate::graph::{answer, node_refusal, Graph};
use crate::types::{object_views, DataEdge, DataNode, DataObject, Error, ObjectView};
use vstd::prelude::*;

verus! {

/// A record of a data set.
pub enum Record {
    /// A node.
    Node(DataNode),
    /// An edge.
    Edge(DataEdge),
    /// An object.
    Object(ObjectView),
}

/// The nodes `nodes` as records.
pub open spec fn node_records(nodes: Seq<DataNode>) -> Seq<Record> {
    Seq::new(nodes.len(), |i: int| Record::Node(nodes[i]))
}

/// The edges `edges` as records.
pub open spec fn edge_records(edges: Seq<DataEdge>) -> Seq<Record> {
    Seq::new(edges.len(), |i: int| Record::Edge(edges[i]))
}

/// The objects `objects` as records.
pub open spec fn object_records(objects: Seq<ObjectView>) -> Seq<Record> {
    Seq::new(objects.len(), |i: int| Record::Object(objects[i]))
}

/// The records of a data set in the order in which a graph is filled: the
/// nodes, then the edges, then the objects.
pub open spec fn records(
    nodes: Seq<DataNode>,
    edges: Seq<DataEdge>,
    objects: Seq<ObjectView>,
) -> Seq<Record> {
    node_records(nodes) + edge_records(edges) + object_records(objects)
}

/// Why the graph refuses the record, if it does.
pub open spec fn refusal(graph: &Graph, record: Record) -> Option<Error> {
    match record {
        Record::Node(node) => node_refusal(node),
        Record::Edge(edge) => graph.edge_refusal(edge),
        Record::Object(o) => graph.object_refusal(o),
    }
}

/// The graph `after` is the graph `before` with the record taken in.
pub open spec fn taken(before: &Graph, after: &Graph, record: Record) -> bool {
    match record {
        Record::Node(node) => after.with_node(before, node),
        Record::Edge(edge) => after.with_edge(before, edge),
        Record::Object(o) => after.with_object(before, o),
    }
}

/// The graph `b` is the graph `a` filled with the records of `list`, first
/// to last, none of which was refused.
pub open spec fn filled(a: &Graph, b: &Graph, list: Seq<Record>) -> bool
    decreases list.len(),
{
    if list.len() == 0 {
        b == a
    } else {
        exists|mid: Graph|
            filled(a, &mid, list.drop_last()) && refusal(&mid, list.last()).is_none()
                && #[trigger] taken(&mid, b, list.last())
    }
}

/// What filling the graph `before` with the records of `list` gives: the
/// graph `after` and the answer `r`, after `put` records were taken in.
///
/// Where no record is refused, all are taken in. Else the records before
/// the first that is refused are taken in, and the answer is the error of
/// that record.
pub open spec fn fill_outcome(
    before: &Graph,
    after: &Graph,
    list: Seq<Record>,
    put: int,
    r: Result<(), Error>,
) -> bool {
    &&& 0 <= put <= list.len()
    &&& exists|last: Graph| #[trigger]
        filled(before, &last, list.take(put)) && after.same_as(&last) && (if put == list.len() {
            r.is_ok()
        } else {
            r == answer(refusal(&last, list[put])) && r.is_err()
        })
}

/// Filling with one list and then with another is filling with the two
/// lists, one after the other.
pub proof fn lemma_filled_more(
    a: &Graph,
    b: &Graph,
    c: &Graph,
    front: Seq<Record>,
    back: Seq<Record>,
)
    requires
        filled(a, b, front),
        filled(b, c, back),
    ensures
        filled(a, c, front + back),
    decreases back.len(),
{
    if back.len() == 0 {
        assert(front + back =~= front);
    } else {
        let mid = choose|mid: Graph|
            filled(b, &mid, back.drop_last()) && refusal(&mid, back.last()).is_none()
                && #[trigger] taken(&mid, c, back.last());
        lemma_filled_more(a, b, &mid, front, back.drop_last());
        assert((front + back).drop_last() =~= front + back.drop_last());
        assert((front + back).last() == back.last());
    }
}

impl Graph {
    /// Puts the objects of `objects` on their edges, first to last, and
    /// stops at the first that is refused: see [`Graph::insert_object`].
    /// Gives the number of objects that were put on their edges.
    pub fn insert_objects(&mut self, objects: Vec<DataObject>) -> (r: (
        usize,
        Result<(), Error>,
    ))
        requires
            old(self).wf(),
        ensures
            final(self).wf(),
            fill_outcome(
                old(self),
                final(self),
                object_records(object_views(objects@)),
                r.0 as int,
                r.1,
            ),
    {
        let ghost list = object_records(object_views(objects@));
        let mut i: usize = 0;
        proof {
            assert(list.take(0) =~= Seq::<Record>::empty());
        }
        while i < objects.len()
            invariant
                i <= objects.len(),
                list == object_records(object_views(objects@)),
                self.wf(),
                filled(old(self), self, list.take(i as int)),
            decreases objects.len() - i,
        {
            let ghost before = *self;
            match self.insert_object(objects[i].copy()) {
                Ok(()) => {
                    proof {
                        let more = list.take(i + 1);
                        assert(more.drop_last() =~= list.take(i as int));
                        assert(more.last() == Record::Object(objects@[i as int]@));
                        assert(taken(&before, self, more.last()));
                    }
                },
                Err(e) => {
                    proof {
                        assert(list[i as int] == Record::Object(objects@[i as int]@));
                        assert(filled(old(self), &before, list.take(i as int)));
                    }
                    return (i, Err(e));
                },
            }
            i += 1;
        }
        (i, Ok(()))
    }

    /// Fills the graph with a data set: the nodes, then the edges, then the
    /// objects, each list first to last. The first record that is refused
    /// ends the filling with its error: see [`Graph::insert_node`],
    /// [`Graph::insert_edge`] and [`Graph::insert_object`].
    pub fn initial_network(
        &mut self,
        nodes: Vec<DataNode>,
        edges: Vec<DataEdge>,
        objects: Vec<DataObject>,
    ) -> (r: Result<(), Error>)
        requires
            old(self).wf(),
        ensures
            final(self).wf(),
            exists|put: int| #[trigger]
                fill_outcome(
                    old(self),
                    final(self),
                    records(nodes@, edges@, object_views(objects@)),
                    put,
                    r,
                ),
    {
        let ghost first = node_records(nodes@);
        let ghost second = edge_records(edges@);
        let ghost third = object_records(object_views(objects@));
        let ghost all = first + second + third;
        let mut i: usize = 0;
        proof {
            assert(first.take(0) =~= Seq::<Record>::empty());
        }
        while i < nodes.len()
            invariant
                i <= nodes.len(),
                first == node_records(nodes@),
                all == first + second + third,
                all == records(nodes@, edges@, object_views(objects@)),
                self.wf(),
                filled(old(self), self, first.take(i as int)),
            decreases nodes.len() - i,
        {
            let ghost before = *self;
            match self.insert_node(nodes[i]) {
                Ok(()) => {
                    proof {
                        let more = first.take(i + 1);
                        assert(more.drop_last() =~= first.take(i as int));
                        assert(more.last() == Record::Node(nodes@[i as int]));
                        assert(taken(&before, self, more.last()));
                    }
                },
                Err(e) => {
                    proof {
                        assert(all[i as int] == Record::Node(nodes@[i as int]));
                        assert(all.take(i as int) =~= first.take(i as int));
                        assert(filled(old(self), &before, all.take(i as int)));
                        assert(fill_outcome(old(self), self, all, i as int, Err(e)));
                    }
                    return Err(e);
                },
            }
            i += 1;
        }
        let ghost noded = *self;
        proof {
            assert(first.take(i as int) =~= first);
            assert(second.take(0) =~= Seq::<Record>::empty());
        }
        let mut j: usize = 0;
        while j < edges.len()
            invariant
                j <= edges.len(),
                second == edge_records(edges@),
                first.len() == nodes@.len(),
                all == first + second + third,
                all == records(nodes@, edges@, object_views(objects@)),
                self.wf(),
                filled(old(self), &noded, first),
                filled(&noded, self, second.take(j as int)),
            decreases edges.len() - j,
        {
            let ghost before = *self;
            match self.insert_edge(edges[j]) {
                Ok(()) => {
                    proof {
                        let more = second.take(j + 1);
                        assert(more.drop_last() =~= second.take(j as int));
                        assert(more.last() == Record::Edge(edges@[j as int]));
                        assert(taken(&before, self, more.last()));
                    }
                },
                Err(e) => {
                    proof {
                        let at = first.len() + j;
                        assert(all[at] == Record::Edge(edges@[j as int]));
                        assert(all.take(at) =~= first + second.take(j as int));
                        lemma_filled_more(old(self), &noded, &before, first, second.take(j as int));
                        assert(fill_outcome(old(self), self, all, at, Err(e)));
                    }
                    return Err(e);
                },
            }
            j += 1;
        }
        let ghost linked = *self;
        proof {
            assert(second.take(j as int) =~= second);
            lemma_filled_more(old(self), &noded, &linked, first, second);
        }
        let ghost views = object_views(objects@);
        let (put, r) = self.insert_objects(objects);
        proof {
            assert(all == records(nodes@, edges@, views));
            let at = first.len() + second.len() + put;
            let last = choose|last: Graph| #[trigger]
                filled(&linked, &last, third.take(put as int)) && self.same_as(&last) && (if put
                    == third.len() {
                    r.is_ok()
                } else {
                    r == answer(refusal(&last, third[put as int])) && r.is_err()
                });
            lemma_filled_more(old(self), &linked, &last, first + second, third.take(put as int));
            assert(all.take(at) =~= first + second + third.take(put as int));
            if put < third.len() {
                assert(all[at] == third[put as int]);
            }
            assert(fill_outcome(old(self), self, all, at, r));
        }
        r
    }
}

} // verus!
