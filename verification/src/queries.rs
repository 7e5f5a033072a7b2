//! Queries by the dimensions they ask for: the groups that a search works
//! through, level by level.

use crate::types::{query_views, DimensionIndex, Query, QueryView, K};
use vstd::prelude::*;

verus! {

/// A group as mathematics: the dimensions, and the queries that ask for
/// them.
pub struct GroupView {
    pub dimensions: Seq<DimensionIndex>,
    pub queries: Seq<QueryView>,
}

/// The place of a query of level `k` in a list that is in order of level:
/// the index of the first query above `k`, or the length of the list.
pub open spec fn rank_for(sorted: Seq<QueryView>, k: K) -> int
    decreases sorted.len(),
{
    if sorted.len() == 0 {
        0
    } else if sorted[0].k > k {
        0
    } else {
        1 + rank_for(sorted.drop_first(), k)
    }
}

/// The index of the first group for `dimensions`, or the number of groups.
pub open spec fn group_index(groups: Seq<GroupView>, dimensions: Seq<DimensionIndex>) -> int
    decreases groups.len(),
{
    if groups.len() == 0 {
        0
    } else if groups[0].dimensions == dimensions {
        0
    } else {
        1 + group_index(groups.drop_first(), dimensions)
    }
}

/// The groups after query `q` joined: it stands in the group of its
/// dimensions, after the queries of that group that are not above its
/// level, or alone in a new last group.
pub open spec fn joined(groups: Seq<GroupView>, q: QueryView) -> Seq<GroupView> {
    let at = group_index(groups, q.dimensions);
    if at < groups.len() {
        groups.update(
            at,
            GroupView {
                dimensions: groups[at].dimensions,
                queries: groups[at].queries.insert(rank_for(groups[at].queries, q.k), q),
            },
        )
    } else {
        groups.push(GroupView { dimensions: q.dimensions, queries: seq![q] })
    }
}

/// The groups of the queries of `list`: one group for each set of
/// dimensions, in the order in which the sets first come, each with its
/// queries in order of level; queries of the same level keep their order.
pub open spec fn grouped_by_dimensions(list: Seq<QueryView>) -> Seq<GroupView>
    decreases list.len(),
{
    if list.len() == 0 {
        Seq::empty()
    } else {
        joined(grouped_by_dimensions(list.drop_last()), list.last())
    }
}

/// The test that a query passes whose level is `k` or above.
pub open spec fn at_least(k: K) -> spec_fn(QueryView) -> bool {
    |q: QueryView| q.k >= k
}

/// The queries of every group ask for the dimensions of the group and
/// stand in order of level.
pub open spec fn in_order(groups: Seq<GroupView>) -> bool {
    forall|g: int|
        0 <= g < groups.len() ==> {
            &&& forall|i: int|
                0 <= i < (#[trigger] groups[g]).queries.len() ==> groups[g].queries[i].dimensions
                    == groups[g].dimensions
            &&& forall|i: int, j: int|
                0 <= i < j < groups[g].queries.len() ==> groups[g].queries[i].k
                    <= groups[g].queries[j].k
        }
}

/// The rank for a level is within the list; no query before it is above
/// the level, and the query at it is.
pub proof fn lemma_rank_for(sorted: Seq<QueryView>, k: K)
    ensures
        0 <= rank_for(sorted, k) <= sorted.len(),
        forall|j: int| 0 <= j < rank_for(sorted, k) ==> sorted[j].k <= k,
        rank_for(sorted, k) < sorted.len() ==> sorted[rank_for(sorted, k)].k > k,
    decreases sorted.len(),
{
    if sorted.len() > 0 && sorted[0].k <= k {
        let rest = sorted.drop_first();
        lemma_rank_for(rest, k);
        assert forall|j: int| 0 <= j < rank_for(sorted, k) implies sorted[j].k <= k by {
            if j > 0 {
                assert(sorted[j] == rest[j - 1]);
            }
        }
        if rank_for(sorted, k) < sorted.len() {
            assert(sorted[rank_for(sorted, k)] == rest[rank_for(rest, k)]);
        }
    }
}

/// An index before which no query is above `k`, and at which one is or the
/// list ends, is the rank for `k`.
pub proof fn lemma_rank_for_is(sorted: Seq<QueryView>, k: K, i: int)
    requires
        0 <= i <= sorted.len(),
        forall|j: int| 0 <= j < i ==> sorted[j].k <= k,
        i < sorted.len() ==> sorted[i].k > k,
    ensures
        rank_for(sorted, k) == i,
    decreases sorted.len(),
{
    if sorted.len() > 0 && sorted[0].k <= k {
        let rest = sorted.drop_first();
        if i == 0 {
            assert(sorted[0].k > k);
        }
        assert forall|j: int| 0 <= j < i - 1 implies rest[j].k <= k by {
            assert(rest[j] == sorted[j + 1]);
        }
        if i < sorted.len() {
            assert(rest[i - 1] == sorted[i]);
        }
        lemma_rank_for_is(rest, k, i - 1);
    } else if sorted.len() > 0 {
        if i > 0 {
            assert(sorted[0].k <= k);
        }
    }
}

/// The index of a group is within the list or its length; no group before
/// it has the dimensions, and the group at it has.
pub proof fn lemma_group_index(groups: Seq<GroupView>, dimensions: Seq<DimensionIndex>)
    ensures
        0 <= group_index(groups, dimensions) <= groups.len(),
        forall|j: int| 0 <= j < group_index(groups, dimensions)
            ==> groups[j].dimensions != dimensions,
        group_index(groups, dimensions) < groups.len() ==> groups[group_index(
            groups,
            dimensions,
        )].dimensions == dimensions,
    decreases groups.len(),
{
    if groups.len() > 0 && groups[0].dimensions != dimensions {
        let rest = groups.drop_first();
        lemma_group_index(rest, dimensions);
        assert forall|j: int| 0 <= j < group_index(groups, dimensions) implies groups[j].dimensions
            != dimensions by {
            if j > 0 {
                assert(groups[j] == rest[j - 1]);
            }
        }
        if group_index(groups, dimensions) < groups.len() {
            assert(groups[group_index(groups, dimensions)] == rest[group_index(rest, dimensions)]);
        }
    }
}

/// An index before which no group has the dimensions, and at which one has
/// or the list ends, is the index of the group.
pub proof fn lemma_group_index_is(groups: Seq<GroupView>, dimensions: Seq<DimensionIndex>, i: int)
    requires
        0 <= i <= groups.len(),
        forall|j: int| 0 <= j < i ==> groups[j].dimensions != dimensions,
        i < groups.len() ==> groups[i].dimensions == dimensions,
    ensures
        group_index(groups, dimensions) == i,
    decreases groups.len(),
{
    if groups.len() > 0 && groups[0].dimensions != dimensions {
        let rest = groups.drop_first();
        assert forall|j: int| 0 <= j < i - 1 implies rest[j].dimensions != dimensions by {
            assert(rest[j] == groups[j + 1]);
        }
        if i < groups.len() {
            assert(rest[i - 1] == groups[i]);
        }
        lemma_group_index_is(rest, dimensions, i - 1);
    } else if groups.len() > 0 {
        if i > 0 {
            assert(groups[0].dimensions != dimensions);
        }
    }
}

/// Grouping puts every query with the queries of its dimensions and leaves
/// every group in order of level.
pub proof fn lemma_grouped_in_order(list: Seq<QueryView>)
    ensures
        in_order(grouped_by_dimensions(list)),
    decreases list.len(),
{
    if list.len() > 0 {
        let before = grouped_by_dimensions(list.drop_last());
        let q = list.last();
        lemma_grouped_in_order(list.drop_last());
        lemma_group_index(before, q.dimensions);
        let at = group_index(before, q.dimensions);
        let after = joined(before, q);
        assert forall|g: int| 0 <= g < after.len() implies {
            &&& forall|i: int|
                0 <= i < (#[trigger] after[g]).queries.len() ==> after[g].queries[i].dimensions
                    == after[g].dimensions
            &&& forall|i: int, j: int|
                0 <= i < j < after[g].queries.len() ==> after[g].queries[i].k
                    <= after[g].queries[j].k
        } by {
            if at < before.len() && g == at {
                let old_q = before[at].queries;
                let r = rank_for(old_q, q.k);
                lemma_rank_for(old_q, q.k);
                let new_q = after[g].queries;
                assert(new_q == old_q.insert(r, q));
                assert forall|i: int| 0 <= i < new_q.len() implies new_q[i].dimensions
                    == after[g].dimensions by {
                    if i < r {
                        assert(new_q[i] == old_q[i]);
                    } else if i > r {
                        assert(new_q[i] == old_q[i - 1]);
                    }
                }
                assert forall|i: int, j: int| 0 <= i < j < new_q.len() implies new_q[i].k
                    <= new_q[j].k by {
                    if i == r {
                        assert(new_q[j] == old_q[j - 1]);
                        if j - 1 > r {
                            assert(old_q[r].k <= old_q[j - 1].k);
                        }
                    } else if j == r {
                        assert(new_q[i] == old_q[i]);
                    } else {
                        let fi = if i < r {
                            i
                        } else {
                            i - 1
                        };
                        let fj = if j < r {
                            j
                        } else {
                            j - 1
                        };
                        assert(new_q[i] == old_q[fi] && new_q[j] == old_q[fj]);
                    }
                }
            } else if g < before.len() {
                assert(after[g] == before[g]);
            }
        }
    }
}

/// The queries that ask for the same dimensions, in order of level.
#[derive(Debug)]
pub struct Group {
    dimensions: Vec<DimensionIndex>,
    queries: Vec<Query>,
}

impl View for Group {
    type V = GroupView;

    closed spec fn view(&self) -> GroupView {
        GroupView { dimensions: self.dimensions@, queries: query_views(self.queries@) }
    }
}

/// The groups of a list as mathematics.
pub open spec fn group_views(list: Seq<Group>) -> Seq<GroupView> {
    list.map_values(|g: Group| g@)
}

/// Whether two lists of dimensions are the same list.
fn same_dimensions(a: &Vec<DimensionIndex>, b: &Vec<DimensionIndex>) -> (same: bool)
    ensures
        same == (a@ == b@),
{
    if a.len() != b.len() {
        return false;
    }
    let mut i: usize = 0;
    while i < a.len()
        invariant
            i <= a.len(),
            a.len() == b.len(),
            forall|j: int| 0 <= j < i ==> a@[j] == b@[j],
        decreases a.len() - i,
    {
        if a[i] != b[i] {
            return false;
        }
        i += 1;
    }
    proof {
        assert(a@ =~= b@);
    }
    true
}

impl Group {
    /// A group with the same content.
    pub fn copy(&self) -> (twin: Group)
        ensures
            twin@ == self@,
    {
        let mut queries: Vec<Query> = Vec::new();
        let mut i: usize = 0;
        while i < self.queries.len()
            invariant
                i <= self.queries.len(),
                query_views(queries@) == query_views(self.queries@.take(i as int)),
            decreases self.queries.len() - i,
        {
            let q = self.queries[i].copy();
            let ghost before = queries@;
            queries.push(q);
            proof {
                assert(query_views(queries@) =~= query_views(before).push(q@));
                assert(query_views(self.queries@.take(i + 1)) =~= query_views(
                    self.queries@.take(i as int),
                ).push(self.queries@[i as int]@));
            }
            i += 1;
        }
        proof {
            assert(self.queries@.take(i as int) =~= self.queries@);
        }
        Group { dimensions: self.dimensions.clone(), queries }
    }

    /// The dimensions that the queries of the group ask for.
    pub fn dimensions(&self) -> (list: Vec<DimensionIndex>)
        ensures
            list@ == self@.dimensions,
    {
        self.dimensions.clone()
    }

    /// The number of queries in the group.
    pub fn len(&self) -> (n: usize)
        ensures
            n == self@.queries.len(),
    {
        self.queries.len()
    }

    /// A walk through the queries of the group, first to last.
    pub fn iter(&self) -> (walk: GroupIterator<'_>)
        ensures
            walk.wf(),
            walk.remaining() == self@.queries,
    {
        let walk = GroupIterator::new(&self.queries);
        walk
    }

    /// Takes the first query out of the group, if there is one.
    pub fn pop_first(&mut self) -> (first: Option<Query>)
        ensures
            final(self)@.dimensions == old(self)@.dimensions,
            old(self)@.queries.len() == 0 ==> first.is_none() && final(self)@ == old(self)@,
            old(self)@.queries.len() > 0
                ==> first.is_some() && first.unwrap()@ == old(self)@.queries[0]
                    && final(self)@.queries == old(self)@.queries.drop_first(),
    {
        if self.queries.len() != 0 {
            let first = self.queries.remove(0);
            proof {
                assert(query_views(self.queries@) =~= query_views(old(self).queries@).drop_first());
            }
            Some(first)
        } else {
            None
        }
    }

    /// Takes the queries below level `k` out of the group.
    pub fn remove_less_k(&mut self, k: K)
        ensures
            final(self)@.dimensions == old(self)@.dimensions,
            final(self)@.queries == old(self)@.queries.filter(at_least(k)),
    {
        let mut kept: Vec<Query> = Vec::new();
        let ghost all = query_views(self.queries@);
        let mut i: usize = 0;
        while i < self.queries.len()
            invariant
                i <= self.queries.len(),
                *self == *old(self),
                all == query_views(self.queries@),
                query_views(kept@) == all.take(i as int).filter(at_least(k)),
            decreases self.queries.len() - i,
        {
            proof {
                reveal(Seq::filter);
                assert(all.take(i + 1).drop_last() =~= all.take(i as int));
                assert(all.take(i + 1).last() == self.queries@[i as int]@);
            }
            if self.queries[i].k >= k {
                let q = self.queries[i].copy();
                let ghost before = kept@;
                kept.push(q);
                proof {
                    assert(query_views(kept@) =~= query_views(before).push(q@));
                }
            }
            i += 1;
        }
        proof {
            assert(all.take(i as int) =~= all);
        }
        self.queries = kept;
    }
}

/// A walk through the queries of a group.
pub struct GroupIterator<'a> {
    queries: &'a Vec<Query>,
    index: usize,
}

impl<'a> GroupIterator<'a> {
    /// The queries that the walk has not handed out yet.
    pub closed spec fn remaining(&self) -> Seq<QueryView> {
        query_views(self.queries@).skip(self.index as int)
    }

    /// The walk is within its list.
    pub closed spec fn wf(&self) -> bool {
        self.index <= self.queries@.len()
    }

    /// A walk through `queries` that starts at the first query.
    pub fn new(queries: &'a Vec<Query>) -> (walk: GroupIterator<'a>)
        ensures
            walk.wf(),
            walk.remaining() == query_views(queries@),
    {
        let walk = GroupIterator { queries, index: 0 };
        proof {
            assert(query_views(queries@).skip(0) =~= query_views(queries@));
        }
        walk
    }

    /// Hands out the next query, if one is left.
    pub fn next(&mut self) -> (q: Option<&'a Query>)
        requires
            old(self).wf(),
        ensures
            final(self).wf(),
            old(self).remaining().len() == 0
                ==> q.is_none() && final(self).remaining() == old(self).remaining(),
            old(self).remaining().len() > 0
                ==> q.is_some() && q.unwrap()@ == old(self).remaining()[0]
                    && final(self).remaining() == old(self).remaining().drop_first(),
    {
        if self.index < self.queries.len() {
            let q = &self.queries[self.index];
            proof {
                let all = query_views(self.queries@);
                assert(all.skip(self.index as int)[0] == q@);
                assert(all.skip(self.index + 1) =~= all.skip(self.index as int).drop_first());
            }
            self.index += 1;
            Some(q)
        } else {
            None
        }
    }
}

/// The queries of a search, in groups.
pub struct Queries {
    inner: Vec<Group>,
}

impl View for Queries {
    type V = Seq<GroupView>;

    closed spec fn view(&self) -> Seq<GroupView> {
        group_views(self.inner@)
    }
}

impl Queries {
    /// The groups of `queries`: one group for each set of dimensions, in the
    /// order in which the sets first come, each with its queries in order
    /// of level; queries of the same level keep their order.
    pub fn new(queries: Vec<Query>) -> (all: Queries)
        ensures
            all@ == grouped_by_dimensions(query_views(queries@)),
            in_order(all@),
    {
        let mut inner: Vec<Group> = Vec::new();
        let mut i: usize = 0;
        proof {
            assert(group_views(inner@) =~= grouped_by_dimensions(query_views(queries@.take(0))));
        }
        while i < queries.len()
            invariant
                i <= queries.len(),
                group_views(inner@) == grouped_by_dimensions(query_views(queries@.take(i as int))),
            decreases queries.len() - i,
        {
            let q = queries[i].copy();
            let ghost groups = group_views(inner@);
            proof {
                let views = query_views(queries@.take(i + 1));
                assert(views.drop_last() =~= query_views(queries@.take(i as int)));
                assert(views.last() == q@);
            }
            let mut at: usize = 0;
            while at < inner.len() && !same_dimensions(&inner[at].dimensions, &q.dimensions)
                invariant
                    at <= inner.len(),
                    groups == group_views(inner@),
                    forall|j: int| 0 <= j < at ==> groups[j].dimensions != q@.dimensions,
                decreases inner.len() - at,
            {
                proof {
                    assert(groups[at as int] == inner@[at as int]@);
                }
                at += 1;
            }
            proof {
                if at < inner.len() {
                    assert(groups[at as int] == inner@[at as int]@);
                }
                lemma_group_index_is(groups, q@.dimensions, at as int);
            }
            if at < inner.len() {
                let ghost members = query_views(inner@[at as int].queries@);
                let mut r: usize = 0;
                while r < inner[at].queries.len() && inner[at].queries[r].k <= q.k
                    invariant
                        at < inner.len(),
                        groups == group_views(inner@),
                        members == query_views(inner@[at as int].queries@),
                        r <= inner@[at as int].queries@.len(),
                        forall|j: int| 0 <= j < r ==> members[j].k <= q.k,
                    decreases inner@[at as int].queries@.len() - r,
                {
                    proof {
                        assert(members[r as int] == inner@[at as int].queries@[r as int]@);
                    }
                    r += 1;
                }
                proof {
                    if r < members.len() {
                        assert(members[r as int] == inner@[at as int].queries@[r as int]@);
                    }
                    lemma_rank_for_is(members, q.k, r as int);
                    assert(groups[at as int].queries == members);
                }
                let ghost view = q@;
                inner[at].queries.insert(r, q);
                proof {
                    assert(query_views(inner@[at as int].queries@) =~= members.insert(
                        r as int,
                        view,
                    ));
                    assert(group_views(inner@) =~= joined(groups, view));
                }
            } else {
                let ghost view = q@;
                let dimensions = q.dimensions.clone();
                let mut members: Vec<Query> = Vec::new();
                members.push(q);
                proof {
                    assert(query_views(members@) =~= seq![view]);
                }
                inner.push(Group { dimensions, queries: members });
                proof {
                    assert(group_views(inner@) =~= joined(groups, view));
                }
            }
            i += 1;
        }
        proof {
            assert(queries@.take(i as int) =~= queries@);
            lemma_grouped_in_order(query_views(queries@));
        }
        Queries { inner }
    }

    /// The number of groups.
    pub fn length(&self) -> (n: usize)
        ensures
            n == self@.len(),
    {
        self.inner.len()
    }

    /// A walk through the groups, first to last.
    pub fn iter(&self) -> (walk: QueryIterator<'_>)
        ensures
            walk.wf(),
            walk.remaining() == self@,
    {
        let walk = QueryIterator::new(&self.inner);
        walk
    }
}

/// A walk through the groups of a search.
pub struct QueryIterator<'a> {
    queries: &'a Vec<Group>,
    index: usize,
}

impl<'a> QueryIterator<'a> {
    /// The groups that the walk has not handed out yet.
    pub closed spec fn remaining(&self) -> Seq<GroupView> {
        group_views(self.queries@).skip(self.index as int)
    }

    /// The walk is within its list.
    pub closed spec fn wf(&self) -> bool {
        self.index <= self.queries@.len()
    }

    /// A walk through `queries` that starts at the first group.
    pub fn new(queries: &'a Vec<Group>) -> (walk: QueryIterator<'a>)
        ensures
            walk.wf(),
            walk.remaining() == group_views(queries@),
    {
        let walk = QueryIterator { queries, index: 0 };
        proof {
            assert(group_views(queries@).skip(0) =~= group_views(queries@));
        }
        walk
    }

    /// Hands out the next group, if one is left.
    pub fn next(&mut self) -> (g: Option<&'a Group>)
        requires
            old(self).wf(),
        ensures
            final(self).wf(),
            old(self).remaining().len() == 0
                ==> g.is_none() && final(self).remaining() == old(self).remaining(),
            old(self).remaining().len() > 0
                ==> g.is_some() && g.unwrap()@ == old(self).remaining()[0]
                    && final(self).remaining() == old(self).remaining().drop_first(),
    {
        if self.index < self.queries.len() {
            let g = &self.queries[self.index];
            proof {
                let all = group_views(self.queries@);
                assert(all.skip(self.index as int)[0] == g@);
                assert(all.skip(self.index + 1) =~= all.skip(self.index as int).drop_first());
            }
            self.index += 1;
            Some(g)
        } else {
            None
        }
    }
}

/// The levels that a search works through for objects of `k_max`
/// dimensions: from one above half of `k_max` up to `k_max`.
pub open spec fn levels_up_to(k_max: K) -> Seq<K> {
    Seq::new(
        if k_max / 2 + 1 <= k_max {
            (k_max - k_max / 2) as nat
        } else {
            0
        },
        |i: int| (k_max / 2 + 1 + i) as K,
    )
}

/// The levels that a search works through for objects of `k_max`
/// dimensions.
pub fn generate_k(k_max: K) -> (ks: Vec<K>)
    ensures
        ks@ == levels_up_to(k_max),
{
    let mut ks: Vec<K> = Vec::new();
    let lower: u16 = (k_max / 2) as u16 + 1;
    let mut i: u16 = lower;
    while i <= k_max as u16
        invariant
            lower == k_max / 2 + 1,
            lower <= i <= k_max + 1,
            ks@.len() == i - lower,
            forall|j: int| 0 <= j < ks@.len() ==> ks@[j] == lower + j,
        decreases k_max + 1 - i,
    {
        ks.push(i as K);
        i += 1;
    }
    proof {
        assert(ks@ =~= levels_up_to(k_max));
    }
    ks
}

} // verus!
