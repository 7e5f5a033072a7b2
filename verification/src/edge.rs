//! An edge of the network with the objects that lie on it.

use crate::geometry::{relative_position, rescale};
use crate::types::{
    lemma_views_push, lemma_views_take, object_views, DataEdge, DataObject, EdgeId, Length,
    NodeId, ObjectView,
};
use vstd::prelude::*;

verus! {

/// An edge of the network with the objects that lie on it.
#[derive(Debug)]
pub struct Edge {
    pub id: EdgeId,
    pub len: Length,
    pub ni: NodeId,
    pub nj: NodeId,
    pub objects: Vec<DataObject>,
}

/// An [`Edge`] as mathematics.
pub struct EdgeView {
    pub id: EdgeId,
    pub len: Length,
    pub ni: NodeId,
    pub nj: NodeId,
    pub objects: Seq<ObjectView>,
}

impl View for Edge {
    type V = EdgeView;

    open spec fn view(&self) -> EdgeView {
        EdgeView {
            id: self.id,
            len: self.len,
            ni: self.ni,
            nj: self.nj,
            objects: object_views(self.objects@),
        }
    }
}

/// The test that an object passes whose position lies strictly between `a`
/// and `b`.
pub open spec fn lies_between(a: u64, b: u64) -> spec_fn(ObjectView) -> bool {
    |o: ObjectView| a < o.dist < b
}

/// An object with its position taken as a fraction of the stretch from `a`
/// to `b`.
pub open spec fn repositioned(a: u64, b: u64) -> spec_fn(ObjectView) -> ObjectView {
    |o: ObjectView|
        ObjectView {
            id: o.id,
            attr: o.attr,
            dist: relative_position(o.dist, a, b) as u64,
            edge_id: o.edge_id,
            action: o.action,
        }
}

/// The objects of `objects` that lie strictly between `a` and `b`, in their
/// order, each at its position within that stretch.
pub open spec fn between(objects: Seq<ObjectView>, a: u64, b: u64) -> Seq<ObjectView> {
    objects.filter(lies_between(a, b)).map_values(repositioned(a, b))
}

impl Edge {
    /// An edge on which no object lies.
    pub fn new(id: EdgeId, len: Length, ni: NodeId, nj: NodeId) -> (edge: Edge)
        ensures
            edge@ == (EdgeView { id, len, ni, nj, objects: Seq::empty() }),
    {
        let edge = Edge { id, len, ni, nj, objects: Vec::new() };
        proof {
            assert(edge@.objects =~= Seq::empty());
        }
        edge
    }

    /// Puts `object` on the edge, after the objects that are there.
    pub fn add_object(&mut self, object: DataObject)
        ensures
            final(self)@ == (EdgeView { objects: old(self)@.objects.push(object@), ..old(self)@ }),
    {
        proof {
            lemma_views_push(self.objects@, object);
        }
        self.objects.push(object);
    }

    /// Puts the objects of `objects` on the edge, in their order, after the
    /// objects that are there.
    pub fn add_objects(&mut self, objects: Vec<DataObject>)
        ensures
            final(self)@ == (EdgeView {
                objects: old(self)@.objects + object_views(objects@),
                ..old(self)@
            }),
    {
        let mut i: usize = 0;
        while i < objects.len()
            invariant
                i <= objects.len(),
                self@ == (EdgeView {
                    objects: old(self)@.objects + object_views(objects@.take(i as int)),
                    ..old(self)@
                }),
            decreases objects.len() - i,
        {
            let ghost before = self.objects@;
            let o = objects[i].copy();
            proof {
                lemma_views_push(before, o);
                lemma_views_take(objects@, i as int);
                assert((old(self)@.objects + object_views(objects@.take(i as int))).push(o@)
                    =~= old(self)@.objects + object_views(objects@.take(i as int)).push(o@));
            }
            self.objects.push(o);
            i += 1;
        }
        proof {
            assert(objects@.take(i as int) =~= objects@);
        }
    }

    /// The objects that lie strictly between the positions `dist_a` and
    /// `dist_b`, in their order on the edge, each at its position within
    /// that stretch.
    pub fn objects_in_between(&self, dist_a: u64, dist_b: u64) -> (inside: Vec<DataObject>)
        ensures
            object_views(inside@) == between(self@.objects, dist_a, dist_b),
    {
        let ghost all = self@.objects;
        let mut inside: Vec<DataObject> = Vec::new();
        let mut i: usize = 0;
        while i < self.objects.len()
            invariant
                i <= self.objects.len(),
                all == object_views(self.objects@),
                object_views(inside@) == between(all.take(i as int), dist_a, dist_b),
            decreases self.objects.len() - i,
        {
            let o = &self.objects[i];
            let ghost front = all.take(i as int).filter(lies_between(dist_a, dist_b));
            proof {
                reveal(Seq::filter);
                assert(all.take(i + 1).drop_last() =~= all.take(i as int));
                assert(all.take(i + 1).last() == o@);
            }
            if dist_a < o.dist && o.dist < dist_b {
                let moved = DataObject {
                    id: o.id,
                    attr: o.attr.clone(),
                    dist: rescale(o.dist, dist_a, dist_b),
                    edge_id: o.edge_id,
                    action: o.action,
                };
                proof {
                    lemma_views_push(inside@, moved);
                }
                inside.push(moved);
                proof {
                    assert(all.take(i + 1).filter(lies_between(dist_a, dist_b)) == front.push(o@));
                    assert(front.push(o@).map_values(repositioned(dist_a, dist_b))
                        =~= front.map_values(repositioned(dist_a, dist_b)).push(
                        repositioned(dist_a, dist_b)(o@),
                    ));
                    assert(object_views(inside@) =~= between(all.take(i + 1), dist_a, dist_b));
                }
            } else {
                proof {
                    assert(all.take(i + 1).filter(lies_between(dist_a, dist_b)) == front);
                }
            }
            i += 1;
        }
        proof {
            assert(all.take(i as int) =~= all);
        }
        inside
    }

    /// The edge without what lies on it.
    pub fn as_data_edge(&self) -> (data: DataEdge)
        ensures
            data == (DataEdge { id: self.id, ni: self.ni, nj: self.nj, len: self.len }),
    {
        DataEdge { id: self.id, ni: self.ni, nj: self.nj, len: self.len }
    }

    /// A second edge with the same content.
    pub fn copy(&self) -> (twin: Edge)
        ensures
            twin@ == self@,
    {
        Edge {
            id: self.id,
            len: self.len,
            ni: self.ni,
            nj: self.nj,
            objects: crate::types::copy_objects(&self.objects),
        }
    }
}

} // verus!
