//! The coverage of one edge at one dominance level: the ranges that were
//! recorded, and the breakpoint list they add up to.

use crate::buckets::{
    collapsed, first_above, id_leq, in_bucket, increasing, key_set, lemma_buckets_partition,
    lemma_first_above_is, lemma_id_leq_total, lemma_reaches_grown, lemma_split_at,
    lemma_with_range, lemma_without_owner, lemma_without_owner_reaches,
    lemma_without_owner_twice, lemma_filter_keeps_all, marked, minimal,
    other_than, owners_in, reaches, split_at, stripped, stripped_all, with_range, without_owner,
    Buckets,
};
use crate::types::{CentroidId, Length, ObjectId, Range};
use vstd::prelude::*;
use vstd::relations::sorted_by;
use vstd::seq_lib::lemma_sorted_unique;

verus! {

/// The end of a bucket, with the objects that own the bucket.
#[derive(Debug)]
pub struct Breakpoint {
    pub dist: Length,
    pub owners: Vec<ObjectId>,
}

/// A vector of breakpoints as a breakpoint list.
pub open spec fn buckets_of(v: Seq<Breakpoint>) -> Buckets {
    Seq::new(v.len(), |i: int| (v[i].dist, v[i].owners@))
}

/// The test that every range passes but those of centroid `id`.
pub open spec fn not_owned_by(id: CentroidId) -> spec_fn(Range) -> bool {
    |r: Range| r.centroid_id != id
}

/// What an [`EdgeResult`] holds, as mathematics.
pub struct Coverage {
    /// The breakpoint list.
    pub buckets: Buckets,
    /// The ranges recorded so far, in the order in which they came.
    pub ranges: Seq<Range>,
    /// The length of the edge.
    pub edge_len: Length,
}

impl Coverage {
    /// The breakpoints stand in strictly ascending order, so that the
    /// buckets do not overlap, and the last one is at or beyond the end of
    /// the edge, so that the buckets cover the edge.
    pub open spec fn wf(self) -> bool {
        increasing(self.buckets) && reaches(self.buckets, self.edge_len)
    }

    /// The coverage of an edge of length `edge_len` on which nothing is
    /// owned: one bucket, which ends at `edge_len`.
    pub open spec fn fresh(edge_len: Length) -> Coverage {
        Coverage {
            buckets: seq![(edge_len, Seq::<ObjectId>::empty())],
            ranges: Seq::empty(),
            edge_len,
        }
    }

    /// The owners of the point at distance `x`.
    pub open spec fn owners_at(self, x: int) -> Seq<ObjectId> {
        owners_in(self.buckets, x)
    }

    /// The coverage after `range` was recorded.
    pub open spec fn with_range(self, range: Range) -> Coverage {
        Coverage {
            buckets: with_range(self.buckets, range.start, range.end, range.centroid_id),
            ranges: self.ranges.push(range),
            edge_len: self.edge_len,
        }
    }

    /// The coverage after each of `ranges` was recorded, first to last.
    pub open spec fn with_ranges(self, ranges: Seq<Range>) -> Coverage
        decreases ranges.len(),
    {
        if ranges.len() == 0 {
            self
        } else {
            self.with_ranges(ranges.drop_last()).with_range(ranges.last())
        }
    }

    /// The coverage after the coverage of `id` was removed.
    pub open spec fn without_owner(self, id: CentroidId) -> Coverage {
        Coverage {
            buckets: without_owner(self.buckets, id),
            ranges: self.ranges.filter(not_owned_by(id)),
            edge_len: self.edge_len,
        }
    }

    /// Recording a range keeps a coverage well formed.
    pub proof fn lemma_with_range_wf(self, range: Range)
        requires
            self.wf(),
        ensures
            self.with_range(range).wf(),
    {
        lemma_with_range(self.buckets, range.start, range.end, range.centroid_id);
        lemma_reaches_grown(self.buckets, self.with_range(range).buckets, self.edge_len);
    }

    /// Removing an owner keeps a coverage well formed.
    pub proof fn lemma_without_owner_wf(self, id: CentroidId)
        requires
            self.wf(),
        ensures
            self.without_owner(id).wf(),
    {
        lemma_without_owner(self.buckets, id);
        lemma_without_owner_reaches(self.buckets, id, self.edge_len);
    }

    /// Removing an owner twice leaves what removing it once leaves.
    pub proof fn lemma_remove_twice(self, id: CentroidId)
        ensures
            self.without_owner(id).without_owner(id) == self.without_owner(id),
    {
        lemma_without_owner_twice(self.buckets, id);
        let kept = self.ranges.filter(not_owned_by(id));
        assert forall|i: int| 0 <= i < kept.len() implies not_owned_by(id)(kept[i]) by {
            self.ranges.lemma_filter_pred(not_owned_by(id), i);
        }
        lemma_filter_keeps_all(kept, not_owned_by(id));
    }
}

/// The coverage of one edge at one dominance level.
#[derive(Debug)]
pub struct EdgeResult {
    ranges: Vec<Range>,
    edge_len: Length,
    inner: Vec<Breakpoint>,
}

/// Adds `id` to the ascending list `sorted`, after the entries that are not
/// above it.
fn insert_ascending(sorted: &mut Vec<ObjectId>, id: ObjectId)
    requires
        sorted_by(old(sorted)@, id_leq()),
    ensures
        sorted_by(final(sorted)@, id_leq()),
        final(sorted)@.to_multiset() == old(sorted)@.to_multiset().insert(id),
{
    broadcast use vstd::seq_lib::group_to_multiset_ensures;

    let mut at: usize = 0;
    while at < sorted.len() && sorted[at] <= id
        invariant
            at <= sorted.len(),
            *sorted == *old(sorted),
            forall|i: int| 0 <= i < at ==> sorted@[i] <= id,
        decreases sorted.len() - at,
    {
        at += 1;
    }
    sorted.insert(at, id);
    proof {
        let before = old(sorted)@;
        let after = sorted@;
        assert forall|i: int, j: int| 0 <= i < j < after.len() implies id_leq()(
            after[i],
            after[j],
        ) by {
            if i < at && j > at {
                assert(id_leq()(before[i], before[j - 1]));
            } else if i > at {
                assert(id_leq()(before[i - 1], before[j - 1]));
            } else if j < at {
                assert(id_leq()(before[i], before[j]));
            } else if i == at {
                assert(after[j] == before[j - 1]);
                assert(j - 1 >= at);
                if at < before.len() {
                    assert(before[at as int] > id);
                    if j - 1 > at {
                        assert(id_leq()(before[at as int], before[j - 1]));
                    }
                }
            }
        }
    }
}

/// The owners in `owners` other than `id`, in ascending order.
fn strip(owners: &Vec<ObjectId>, id: ObjectId) -> (rest: Vec<ObjectId>)
    ensures
        rest@ == stripped(owners@, id),
{
    broadcast use vstd::seq_lib::group_to_multiset_ensures;

    let mut rest: Vec<ObjectId> = Vec::new();
    let mut i: usize = 0;
    while i < owners.len()
        invariant
            i <= owners.len(),
            sorted_by(rest@, id_leq()),
            rest@.to_multiset() == owners@.take(i as int).filter(other_than(id)).to_multiset(),
        decreases owners.len() - i,
    {
        let ghost front = owners@.take(i as int).filter(other_than(id));
        proof {
            reveal(Seq::filter);
            assert(owners@.take(i + 1).drop_last() =~= owners@.take(i as int));
            assert(owners@.take(i + 1).filter(other_than(id)) == (if owners@[i as int] != id {
                front.push(owners@[i as int])
            } else {
                front
            }));
            vstd::seq_lib::to_multiset_build(front, owners@[i as int]);
        }
        if owners[i] != id {
            insert_ascending(&mut rest, owners[i]);
        }
        i += 1;
    }
    proof {
        assert(owners@.take(i as int) =~= owners@);
        let kept = owners@.filter(other_than(id));
        lemma_id_leq_total();
        kept.lemma_sort_by_ensures(id_leq());
        lemma_sorted_unique(rest@, kept.sort_by(id_leq()), id_leq());
    }
    rest
}

/// Puts a breakpoint at `d`, unless there is one.
fn split(inner: &mut Vec<Breakpoint>, d: Length)
    requires
        increasing(buckets_of(old(inner)@)),
    ensures
        buckets_of(final(inner)@) == split_at(buckets_of(old(inner)@), d),
{
    let ghost b = buckets_of(inner@);
    let mut at: usize = 0;
    while at < inner.len() && inner[at].dist < d
        invariant
            at <= inner.len(),
            *inner == *old(inner),
            forall|i: int| 0 <= i < at ==> inner@[i].dist < d,
        decreases inner.len() - at,
    {
        at += 1;
    }
    if at < inner.len() && inner[at].dist == d {
        proof {
            assert(b[at as int].0 == d);
        }
        return ;
    }
    proof {
        assert(!key_set(b).contains(d as int)) by {
            if key_set(b).contains(d as int) {
                let j = choose|j: int| 0 <= j < b.len() && b[j].0 == d as int;
                if j < at {
                    assert(inner@[j].dist < d);
                } else if j > at {
                    assert(b[at as int].0 < b[j].0);
                }
            }
        }
        assert forall|j: int| 0 <= j < at implies b[j].0 <= d as int by {
            assert(inner@[j].dist < d);
        }
        lemma_first_above_is(b, d as int, at as int);
    }
    let owners = if at < inner.len() {
        inner[at].owners.clone()
    } else {
        Vec::new()
    };
    inner.insert(at, Breakpoint { dist: d, owners });
    proof {
        assert(buckets_of(inner@) =~= split_at(b, d));
    }
}

impl View for EdgeResult {
    type V = Coverage;

    closed spec fn view(&self) -> Coverage {
        Coverage { buckets: buckets_of(self.inner@), ranges: self.ranges@, edge_len: self.edge_len }
    }
}

impl EdgeResult {
    /// The breakpoint list.
    pub open spec fn buckets(&self) -> Buckets {
        self@.buckets
    }

    /// The ranges recorded so far, in the order in which they came.
    pub open spec fn ranges(&self) -> Seq<Range> {
        self@.ranges
    }

    /// The length of the edge.
    pub open spec fn edge_len(&self) -> Length {
        self@.edge_len
    }

    /// See [`Coverage::wf`].
    pub open spec fn wf(&self) -> bool {
        self@.wf()
    }

    /// The owners of the point at distance `x`.
    pub open spec fn owners_at(&self, x: int) -> Seq<ObjectId> {
        self@.owners_at(x)
    }

    /// The coverage of an edge of length `edge_len` on which nothing is
    /// owned: one bucket, which ends at `edge_len`.
    pub fn new(edge_len: Length) -> (r: EdgeResult)
        ensures
            r.wf(),
            r@ == Coverage::fresh(edge_len),
    {
        let mut inner: Vec<Breakpoint> = Vec::new();
        inner.push(Breakpoint { dist: edge_len, owners: Vec::new() });
        let r = EdgeResult { ranges: Vec::new(), edge_len, inner };
        proof {
            assert(r.buckets() =~= seq![(edge_len, Seq::<ObjectId>::empty())]);
        }
        r
    }

    /// Records `range`: breakpoints at its start and at its end, and its
    /// centroid added to the owners of every point from the start up to, but
    /// not including, the end. An empty range is recorded without a change
    /// to the breakpoints.
    pub fn insert(&mut self, range: Range)
        requires
            old(self).wf(),
        ensures
            final(self).wf(),
            final(self)@ == old(self)@.with_range(range),
            key_set(final(self).buckets()) =~= (if range.start < range.end {
                key_set(old(self).buckets()).insert(range.start as int).insert(range.end as int)
            } else {
                key_set(old(self).buckets())
            }),
            forall|x: int|
                final(self).owners_at(x) == (if range.start <= x < range.end {
                    old(self).owners_at(x).push(range.centroid_id)
                } else {
                    old(self).owners_at(x)
                }),
    {
        let ghost b = self.buckets();
        proof {
            lemma_with_range(b, range.start, range.end, range.centroid_id);
            lemma_reaches_grown(
                b,
                with_range(b, range.start, range.end, range.centroid_id),
                self.edge_len,
            );
        }
        self.ranges.push(range);
        if range.start < range.end {
            split(&mut self.inner, range.start);
            proof {
                lemma_split_at(b, range.start);
            }
            split(&mut self.inner, range.end);
            let ghost cut = buckets_of(self.inner@);
            let n = self.inner.len();
            let mut j: usize = 0;
            while j < n
                invariant
                    j <= n,
                    n == self.inner.len(),
                    n == cut.len(),
                    self.ranges@ == old(self).ranges@.push(range),
                    self.edge_len == old(self).edge_len,
                    forall|i: int|
                        0 <= i < j ==> #[trigger] buckets_of(self.inner@)[i] == marked(
                            cut,
                            range.start,
                            range.end,
                            range.centroid_id,
                        )[i],
                    forall|i: int| j <= i < n ==> #[trigger] buckets_of(self.inner@)[i] == cut[i],
                decreases n - j,
            {
                let ghost before = buckets_of(self.inner@);
                if range.start < self.inner[j].dist && self.inner[j].dist <= range.end {
                    self.inner[j].owners.push(range.centroid_id);
                }
                proof {
                    let after = buckets_of(self.inner@);
                    assert forall|i: int| 0 <= i < n && i != j implies after[i] == before[i] by {}
                    assert(before[j as int] == cut[j as int]);
                }
                j += 1;
            }
            proof {
                assert(buckets_of(self.inner@) =~= marked(
                    cut,
                    range.start,
                    range.end,
                    range.centroid_id,
                ));
            }
        }
    }

    /// Removes the coverage of `object_id`: its ranges are forgotten, it
    /// leaves the owners of every point, the owners of every bucket are put
    /// in ascending order, and neighbouring buckets that are left with the
    /// same owners become one.
    pub fn remove(&mut self, object_id: CentroidId)
        requires
            old(self).wf(),
        ensures
            final(self).wf(),
            final(self)@ == old(self)@.without_owner(object_id),
            minimal(final(self).buckets()),
            key_set(final(self).buckets()).subset_of(key_set(old(self).buckets())),
            forall|x: int| final(self).owners_at(x) == stripped(old(self).owners_at(x), object_id),
    {
        let ghost b = self.buckets();
        proof {
            lemma_without_owner(b, object_id);
            lemma_without_owner_reaches(b, object_id, self.edge_len);
        }
        let mut kept: Vec<Range> = Vec::new();
        let mut i: usize = 0;
        while i < self.ranges.len()
            invariant
                i <= self.ranges.len(),
                *self == *old(self),
                kept@ == self.ranges@.take(i as int).filter(not_owned_by(object_id)),
            decreases self.ranges.len() - i,
        {
            proof {
                reveal(Seq::filter);
                assert(self.ranges@.take(i + 1).drop_last() =~= self.ranges@.take(i as int));
            }
            if self.ranges[i].centroid_id != object_id {
                kept.push(self.ranges[i]);
            }
            i += 1;
        }
        proof {
            assert(self.ranges@.take(i as int) =~= self.ranges@);
        }
        let n = self.inner.len();
        let mut bare: Vec<Breakpoint> = Vec::new();
        let mut j: usize = 0;
        while j < n
            invariant
                j <= n,
                n == self.inner.len(),
                *self == *old(self),
                b == buckets_of(self.inner@),
                bare.len() == j,
                forall|i: int|
                    0 <= i < j ==> #[trigger] buckets_of(bare@)[i] == stripped_all(b, object_id)[i],
            decreases n - j,
        {
            let ghost before = buckets_of(bare@);
            let ghost bare_before = bare@;
            let owners = strip(&self.inner[j].owners, object_id);
            bare.push(Breakpoint { dist: self.inner[j].dist, owners });
            proof {
                let after = buckets_of(bare@);
                assert forall|i: int| 0 <= i < j + 1 implies #[trigger] after[i] == stripped_all(
                    b,
                    object_id,
                )[i] by {
                    if i < j {
                        assert(bare@[i] == bare_before[i]);
                        assert(after[i] == before[i]);
                    } else {
                        assert(b[i] == (self.inner@[i].dist, self.inner@[i].owners@));
                    }
                }
            }
            j += 1;
        }
        let ghost sb = stripped_all(b, object_id);
        proof {
            assert(buckets_of(bare@) =~= sb);
        }
        let mut merged: Vec<Breakpoint> = Vec::new();
        let mut j: usize = 0;
        proof {
            assert(sb.skip(0) =~= sb);
            assert(buckets_of(merged@) + collapsed(sb) =~= collapsed(sb));
        }
        while j < n
            invariant
                j <= n,
                n == bare.len(),
                buckets_of(bare@) == sb,
                buckets_of(merged@) + collapsed(sb.skip(j as int)) == collapsed(sb),
            decreases n - j,
        {
            let ghost rest = sb.skip(j as int);
            proof {
                assert(rest.drop_first() =~= sb.skip(j + 1));
                assert(rest[0] == sb[j as int]);
                if j + 1 < n {
                    assert(rest[1] == sb[j + 1]);
                }
                assert(sb[j as int] == (bare@[j as int].dist, bare@[j as int].owners@));
            }
            let keep = if j + 1 < n {
                proof {
                    assert(sb[j + 1] == (bare@[j + 1].dist, bare@[j + 1].owners@));
                }
                !same_owners(&bare[j].owners, &bare[j + 1].owners)
            } else {
                true
            };
            if keep {
                let ghost before = buckets_of(merged@);
                merged.push(Breakpoint { dist: bare[j].dist, owners: bare[j].owners.clone() });
                proof {
                    assert(buckets_of(merged@) =~= before + seq![sb[j as int]]);
                    if j + 1 < n {
                        assert(collapsed(rest) == seq![rest[0]] + collapsed(rest.drop_first()));
                    } else {
                        assert(rest.drop_first().len() == 0);
                        assert(collapsed(rest) =~= seq![rest[0]] + collapsed(rest.drop_first()));
                    }
                    assert((before + seq![sb[j as int]]) + collapsed(sb.skip(j + 1)) =~= before + (
                    seq![sb[j as int]] + collapsed(sb.skip(j + 1))));
                }
            }
            j += 1;
        }
        proof {
            assert(sb.skip(n as int).len() == 0);
            assert(buckets_of(merged@) =~= collapsed(sb));
        }
        self.ranges = kept;
        self.inner = merged;
    }

    /// The buckets of a record do not overlap, and every point of the edge
    /// lies in exactly one of them.
    pub proof fn lemma_partition(&self)
        requires
            self.wf(),
        ensures
            forall|i: int, j: int, x: int|
                in_bucket(self.buckets(), i, x) && in_bucket(self.buckets(), j, x) ==> i == j,
            forall|x: int|
                0 <= x < self.edge_len() ==> in_bucket(
                    self.buckets(),
                    #[trigger] first_above(self.buckets(), x),
                    x,
                ),
    {
        lemma_buckets_partition(self.buckets());
    }

    /// The number of breakpoints.
    pub fn len(&self) -> (n: usize)
        ensures
            n == self.buckets().len(),
    {
        self.inner.len()
    }

    /// The number of ranges recorded.
    pub fn range_count(&self) -> (n: usize)
        ensures
            n == self.ranges().len(),
    {
        self.ranges.len()
    }

    /// The owners of the point at distance `x`: those of the first bucket
    /// that ends beyond `x`, none where no bucket does.
    pub fn owners(&self, x: Length) -> (list: Vec<ObjectId>)
        ensures
            list@ == self.owners_at(x as int),
    {
        let mut at: usize = 0;
        while at < self.inner.len() && self.inner[at].dist <= x
            invariant
                at <= self.inner.len(),
                forall|i: int| 0 <= i < at ==> self.inner@[i].dist <= x,
            decreases self.inner.len() - at,
        {
            at += 1;
        }
        proof {
            let b = self.buckets();
            assert forall|j: int| 0 <= j < at implies b[j].0 <= x as int by {
                assert(self.inner@[j].dist <= x);
            }
            lemma_first_above_is(b, x as int, at as int);
        }
        if at < self.inner.len() {
            self.inner[at].owners.clone()
        } else {
            Vec::new()
        }
    }

    /// The distance of the breakpoint at `index`, counted from the start of
    /// the edge, if there are that many breakpoints.
    pub fn breakpoint(&self, index: usize) -> (d: Option<Length>)
        ensures
            d == (if index < self.buckets().len() {
                Some(self.buckets()[index as int].0)
            } else {
                None
            }),
    {
        if index < self.inner.len() {
            Some(self.inner[index].dist)
        } else {
            None
        }
    }
}

/// Whether two owner lists are the same list.
fn same_owners(a: &Vec<ObjectId>, b: &Vec<ObjectId>) -> (same: bool)
    ensures
        same == (a@ == b@),
{
    if a.len() != b.len() {
        return false;
    }
    let mut i: usize = 0;
    while i < a.len()
        invariant
            i <= a.len(),
            a.len() == b.len(),
            forall|j: int| 0 <= j < i ==> a@[j] == b@[j],
        decreases a.len() - i,
    {
        if a[i] != b[i] {
            return false;
        }
        i += 1;
    }
    proof {
        assert(a@ =~= b@);
    }
    true
}

impl Default for EdgeResult {
    /// A record without breakpoints, for an edge of length zero.
    fn default() -> (r: EdgeResult)
        ensures
            r.wf(),
            r.buckets() == Seq::<(Length, Seq<ObjectId>)>::empty(),
            r.ranges() == Seq::<Range>::empty(),
            r.edge_len() == 0,
    {
        let r = EdgeResult { ranges: Vec::new(), edge_len: 0, inner: Vec::new() };
        proof {
            assert(r.buckets() =~= Seq::<(Length, Seq<ObjectId>)>::empty());
        }
        r
    }
}

} // verus!
