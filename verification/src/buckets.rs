//! The mathematics of a breakpoint list: an edge cut into buckets, each with
//! the objects that own it.
//!
//! A breakpoint `(d, owners)` closes a bucket: `owners` hold every point from
//! the breakpoint before it (or from the start of the line) up to, but not
//! including, `d`. Beyond the last breakpoint nobody owns anything.

use crate::types::{Length, ObjectId};
use vstd::prelude::*;
use vstd::relations::{sorted_by, total_ordering};
use vstd::seq_lib::lemma_sorted_unique;

verus! {

/// A breakpoint list as a sequence of pairs: where the bucket ends, and who
/// owns it.
pub type Buckets = Seq<(Length, Seq<ObjectId>)>;

/// The breakpoints stand in strictly ascending order.
pub open spec fn increasing(b: Buckets) -> bool {
    forall|i: int, j: int| 0 <= i < j < b.len() ==> b[i].0 < b[j].0
}

/// The distances at which `b` has a breakpoint.
pub open spec fn key_set(b: Buckets) -> Set<int> {
    Set::new(|d: int| exists|i: int| 0 <= i < b.len() && b[i].0 == d)
}

/// The index of the first breakpoint beyond `x`: the bucket that `x` lies in.
/// It is `b.len()` where no breakpoint lies beyond `x`.
pub open spec fn first_above(b: Buckets, x: int) -> int
    decreases b.len(),
{
    if b.len() == 0 {
        0
    } else if x < b[0].0 {
        0
    } else {
        1 + first_above(b.drop_first(), x)
    }
}

/// The owners of the point `x`, in the order in which they were recorded.
pub open spec fn owners_in(b: Buckets, x: int) -> Seq<ObjectId> {
    let i = first_above(b, x);
    if i < b.len() {
        b[i].1
    } else {
        Seq::empty()
    }
}

/// No two neighbouring buckets have the same owners.
pub open spec fn minimal(b: Buckets) -> bool {
    forall|i: int| 0 <= i && i + 1 < b.len() ==> b[i].1 != #[trigger] b[i + 1].1
}

/// `b` with a breakpoint at `d`: the bucket that `d` falls into is cut in
/// two, both halves with its owners. A list that has the breakpoint stays as
/// it is.
pub open spec fn split_at(b: Buckets, d: Length) -> Buckets {
    if key_set(b).contains(d as int) {
        b
    } else {
        b.insert(first_above(b, d as int), (d, owners_in(b, d as int)))
    }
}

/// `b` with `owner` appended to every bucket that ends after `start` and not
/// after `end`.
pub open spec fn marked(b: Buckets, start: Length, end: Length, owner: ObjectId) -> Buckets {
    Seq::new(
        b.len(),
        |i: int|
            if start < b[i].0 <= end {
                (b[i].0, b[i].1.push(owner))
            } else {
                b[i]
            },
    )
}

/// `b` after the range `[start, end)` was recorded for `owner`: breakpoints at
/// `start` and at `end`, and `owner` appended to every bucket between them.
/// An empty range changes nothing.
pub open spec fn with_range(b: Buckets, start: Length, end: Length, owner: ObjectId) -> Buckets {
    if start < end {
        marked(split_at(split_at(b, start), end), start, end, owner)
    } else {
        b
    }
}

/// `first_above` is within the list, every breakpoint before it is at or
/// before `x`, and the one it names is beyond `x`.
pub proof fn lemma_first_above(b: Buckets, x: int)
    ensures
        0 <= first_above(b, x) <= b.len(),
        forall|i: int| 0 <= i < first_above(b, x) ==> b[i].0 <= x,
        first_above(b, x) < b.len() ==> x < b[first_above(b, x)].0,
    decreases b.len(),
{
    if b.len() > 0 && x >= b[0].0 {
        let rest = b.drop_first();
        lemma_first_above(rest, x);
        assert forall|i: int| 0 <= i < first_above(b, x) implies b[i].0 <= x by {
            if i > 0 {
                assert(b[i] == rest[i - 1]);
            }
        }
        if first_above(b, x) < b.len() {
            assert(b[first_above(b, x)] == rest[first_above(rest, x)]);
        }
    }
}

/// An index with the two properties of `first_above` is `first_above`.
pub proof fn lemma_first_above_is(b: Buckets, x: int, i: int)
    requires
        0 <= i <= b.len(),
        forall|j: int| 0 <= j < i ==> b[j].0 <= x,
        i < b.len() ==> x < b[i].0,
    ensures
        first_above(b, x) == i,
    decreases b.len(),
{
    if b.len() == 0 {
    } else if x < b[0].0 {
        if i > 0 {
            assert(b[0].0 <= x);
        }
    } else {
        let rest = b.drop_first();
        assert(i > 0);
        assert forall|j: int| 0 <= j < i - 1 implies rest[j].0 <= x by {
            assert(rest[j] == b[j + 1]);
        }
        if i < b.len() {
            assert(rest[i - 1] == b[i]);
        }
        lemma_first_above_is(rest, x, i - 1);
    }
}

/// Cutting a bucket keeps the order, adds the one breakpoint and leaves the
/// owners of every point as they were.
pub proof fn lemma_split_at(b: Buckets, d: Length)
    requires
        increasing(b),
    ensures
        increasing(split_at(b, d)),
        key_set(split_at(b, d)) =~= key_set(b).insert(d as int),
        forall|x: int| owners_in(split_at(b, d), x) == owners_in(b, x),
{
    let c = split_at(b, d);
    if key_set(b).contains(d as int) {
    } else {
        let i = first_above(b, d as int);
        lemma_first_above(b, d as int);
        assert forall|j: int, k: int| 0 <= j < k < c.len() implies c[j].0 < c[k].0 by {
            if j < i {
                assert(c[j] == b[j]);
                assert(b[j].0 != d);
            }
        }
        assert forall|x: int| owners_in(c, x) == owners_in(b, x) by {
            let r = first_above(b, x);
            lemma_first_above(b, x);
            if r < i {
                lemma_first_above_is(c, x, r);
            } else if x < d {
                assert(r == i) by {
                    if i < b.len() && r > i {
                        assert(b[i].0 <= x);
                    }
                }
                lemma_first_above_is(c, x, i);
            } else {
                assert forall|j: int| 0 <= j < r + 1 implies c[j].0 <= x by {
                    if j < i {
                        assert(c[j] == b[j]);
                    } else if j > i {
                        assert(c[j] == b[j - 1]);
                    }
                }
                lemma_first_above_is(c, x, r + 1);
            }
        }
        assert forall|k: int| key_set(c).contains(k) <==> key_set(b).insert(d as int).contains(
            k,
        ) by {
            if key_set(c).contains(k) {
                let j = choose|j: int| 0 <= j < c.len() && c[j].0 == k;
                if j < i {
                    assert(b[j].0 == k);
                } else if j > i {
                    assert(b[j - 1].0 == k);
                }
            }
            if key_set(b).contains(k) {
                let j = choose|j: int| 0 <= j < b.len() && b[j].0 == k;
                if j < i {
                    assert(c[j].0 == k);
                } else {
                    assert(c[j + 1].0 == k);
                }
            }
            if k == d {
                assert(c[i].0 == k);
            }
        }
    }
}

/// Marking keeps the breakpoints where they are. Where both ends of the
/// range are breakpoints, it adds the owner to exactly the points of the
/// range.
pub proof fn lemma_marked(b: Buckets, start: Length, end: Length, owner: ObjectId)
    requires
        increasing(b),
        start < end,
        key_set(b).contains(start as int),
        key_set(b).contains(end as int),
    ensures
        increasing(marked(b, start, end, owner)),
        key_set(marked(b, start, end, owner)) =~= key_set(b),
        forall|x: int|
            owners_in(marked(b, start, end, owner), x) == (if start <= x < end {
                owners_in(b, x).push(owner)
            } else {
                owners_in(b, x)
            }),
{
    let c = marked(b, start, end, owner);
    assert forall|k: int| key_set(c).contains(k) <==> key_set(b).contains(k) by {
        if key_set(c).contains(k) {
            let j = choose|j: int| 0 <= j < c.len() && c[j].0 == k;
            assert(b[j].0 == k);
        }
        if key_set(b).contains(k) {
            let j = choose|j: int| 0 <= j < b.len() && b[j].0 == k;
            assert(c[j].0 == k);
        }
    }
    let s = choose|s: int| 0 <= s < b.len() && b[s].0 == start as int;
    let e = choose|e: int| 0 <= e < b.len() && b[e].0 == end as int;
    assert forall|x: int|
        owners_in(c, x) == (if start <= x < end {
            owners_in(b, x).push(owner)
        } else {
            owners_in(b, x)
        }) by {
        let r = first_above(b, x);
        lemma_first_above(b, x);
        assert forall|j: int| 0 <= j < r implies c[j].0 <= x by {
            assert(c[j].0 == b[j].0);
        }
        lemma_first_above_is(c, x, r);
        if r < b.len() {
            if start <= x < end {
                assert(r <= e) by {
                    if e < r {
                        assert(b[e].0 <= x);
                    }
                }
            } else if x < start {
                assert(r <= s) by {
                    if s < r {
                        assert(b[s].0 <= x);
                    }
                }
            } else {
                assert(e < r) by {
                    if r <= e {
                        assert(b[r].0 <= b[e].0);
                    }
                }
            }
        } else {
            assert(b[e].0 <= x);
        }
    }
}

/// What recording a range means: the list stays in order, gains breakpoints
/// at both ends of the range (unless the range is empty), and the owner is
/// added to the points of the range and to no other.
pub proof fn lemma_with_range(b: Buckets, start: Length, end: Length, owner: ObjectId)
    requires
        increasing(b),
    ensures
        increasing(with_range(b, start, end, owner)),
        key_set(with_range(b, start, end, owner)) =~= (if start < end {
            key_set(b).insert(start as int).insert(end as int)
        } else {
            key_set(b)
        }),
        forall|x: int|
            owners_in(with_range(b, start, end, owner), x) == (if start <= x < end {
                owners_in(b, x).push(owner)
            } else {
                owners_in(b, x)
            }),
{
    if start < end {
        let b1 = split_at(b, start);
        lemma_split_at(b, start);
        let b2 = split_at(b1, end);
        lemma_split_at(b1, end);
        assert(key_set(b2).contains(start as int));
        assert(key_set(b2).contains(end as int));
        lemma_marked(b2, start, end, owner);
    }
}

/// The order in which the owners of a bucket stand after a removal.
pub open spec fn id_leq() -> spec_fn(ObjectId, ObjectId) -> bool {
    |a: ObjectId, b: ObjectId| a <= b
}

/// The test that every owner but `id` passes.
pub open spec fn other_than(id: ObjectId) -> spec_fn(ObjectId) -> bool {
    |o: ObjectId| o != id
}

/// `owners` without `id`, in ascending order.
pub open spec fn stripped(owners: Seq<ObjectId>, id: ObjectId) -> Seq<ObjectId> {
    owners.filter(other_than(id)).sort_by(id_leq())
}

/// `b` with `id` taken out of every bucket and the owners of every bucket
/// put in ascending order.
pub open spec fn stripped_all(b: Buckets, id: ObjectId) -> Buckets {
    Seq::new(b.len(), |i: int| (b[i].0, stripped(b[i].1, id)))
}

/// `b` without each breakpoint whose bucket has the same owners as the
/// bucket after it: neighbouring buckets with the same owners become one.
pub open spec fn collapsed(b: Buckets) -> Buckets
    decreases b.len(),
{
    if b.len() <= 1 {
        b
    } else if b[0].1 == b[1].1 {
        collapsed(b.drop_first())
    } else {
        seq![b[0]] + collapsed(b.drop_first())
    }
}

/// `b` after the coverage of `id` was removed.
pub open spec fn without_owner(b: Buckets, id: ObjectId) -> Buckets {
    collapsed(stripped_all(b, id))
}

pub proof fn lemma_id_leq_total()
    ensures
        total_ordering(id_leq()),
{
    let leq = id_leq();
    assert(vstd::relations::reflexive(leq));
    assert(vstd::relations::antisymmetric(leq));
    assert(vstd::relations::transitive(leq));
    assert(vstd::relations::strongly_connected(leq));
}

/// A sequence whose members all pass a test is left whole by a filter on
/// that test.
pub proof fn lemma_filter_keeps_all<A>(s: Seq<A>, pred: spec_fn(A) -> bool)
    requires
        forall|i: int| 0 <= i < s.len() ==> pred(s[i]),
    ensures
        s.filter(pred) == s,
    decreases s.len(),
{
    reveal(Seq::filter);
    if s.len() > 0 {
        lemma_filter_keeps_all(s.drop_last(), pred);
        assert(s.drop_last().push(s.last()) =~= s);
    }
}

/// What is left after stripping: no `id`, ascending order, and every other
/// owner as often as before.
pub proof fn lemma_stripped(owners: Seq<ObjectId>, id: ObjectId)
    ensures
        !stripped(owners, id).contains(id),
        sorted_by(stripped(owners, id), id_leq()),
        forall|o: ObjectId|
            o != id ==> stripped(owners, id).to_multiset().count(o) == owners.to_multiset().count(
                o,
            ),
        stripped(owners, id).len() <= owners.len(),
{
    broadcast use vstd::seq_lib::group_to_multiset_ensures;

    let pred = other_than(id);
    let kept = owners.filter(pred);
    lemma_id_leq_total();
    kept.lemma_sort_by_ensures(id_leq());
    owners.lemma_filter_len(pred);
    assert(!kept.contains(id)) by {
        if kept.contains(id) {
            let i = choose|i: int| 0 <= i < kept.len() && kept[i] == id;
            owners.lemma_filter_pred(pred, i);
        }
    }
    assert(stripped(owners, id).len() == kept.len()) by {
        kept.to_multiset_ensures();
        stripped(owners, id).to_multiset_ensures();
    }
    assert forall|o: ObjectId| o != id implies kept.to_multiset().count(o)
        == owners.to_multiset().count(o) by {
        lemma_filter_count(owners, id, o);
    }
}

/// A filter that drops `id` keeps the count of every other owner.
pub proof fn lemma_filter_count(owners: Seq<ObjectId>, id: ObjectId, o: ObjectId)
    requires
        o != id,
    ensures
        owners.filter(other_than(id)).to_multiset().count(o) == owners.to_multiset().count(
            o,
        ),
    decreases owners.len(),
{
    broadcast use vstd::seq_lib::group_to_multiset_ensures;

    reveal(Seq::filter);
    if owners.len() > 0 {
        let front = owners.drop_last();
        lemma_filter_count(front, id, o);
        assert(front.push(owners.last()) =~= owners);
    }
}

/// Stripping what was stripped changes nothing.
pub proof fn lemma_stripped_twice(owners: Seq<ObjectId>, id: ObjectId)
    ensures
        stripped(stripped(owners, id), id) == stripped(owners, id),
{
    let t = stripped(owners, id);
    let pred = other_than(id);
    lemma_stripped(owners, id);
    assert forall|i: int| 0 <= i < t.len() implies pred(t[i]) by {
        assert(t.contains(t[i]));
    }
    lemma_filter_keeps_all(t, pred);
    lemma_id_leq_total();
    t.lemma_sort_by_ensures(id_leq());
    lemma_sorted_unique(t.sort_by(id_leq()), t, id_leq());
}

/// Collapsing keeps the first bucket's owners and the last breakpoint,
/// leaves no two neighbours with the same owners, and drops breakpoints only.
pub proof fn lemma_collapsed(b: Buckets)
    ensures
        collapsed(b).len() <= b.len(),
        b.len() > 0 ==> collapsed(b).len() > 0 && collapsed(b)[0].1 == b[0].1 && collapsed(
            b,
        ).last() == b.last(),
        minimal(collapsed(b)),
        forall|i: int|
            0 <= i < collapsed(b).len() ==> exists|j: int|
                0 <= j < b.len() && b[j] == #[trigger] collapsed(b)[i],
    decreases b.len(),
{
    let c = collapsed(b);
    if b.len() > 1 {
        let tail = b.drop_first();
        let rest = collapsed(tail);
        lemma_collapsed(tail);
        assert(tail[0] == b[1]);
        assert(tail.last() == b.last());
        assert forall|i: int| 0 <= i < c.len() implies exists|j: int|
            0 <= j < b.len() && b[j] == #[trigger] c[i] by {
            if b[0].1 == b[1].1 {
                let j = choose|j: int| 0 <= j < tail.len() && tail[j] == rest[i];
                assert(b[j + 1] == c[i]);
            } else if i == 0 {
                assert(b[0] == c[0]);
            } else {
                assert(c[i] == rest[i - 1]);
                let j = choose|j: int| 0 <= j < tail.len() && tail[j] == rest[i - 1];
                assert(b[j + 1] == c[i]);
            }
        }
        if b[0].1 != b[1].1 {
            assert forall|i: int| 0 <= i && i + 1 < c.len() implies c[i].1 != #[trigger] c[i
                + 1].1 by {
                if i > 0 {
                    assert(c[i] == rest[i - 1]);
                    assert(c[i + 1] == rest[i - 1 + 1]);
                } else {
                    assert(c[1] == rest[0]);
                }
            }
        }
    } else if b.len() == 1 {
        assert(b[0] == c[0]);
    }
}

/// The owners of a point, read off the first breakpoint or off the rest of
/// the list.
pub proof fn lemma_owners_step(b: Buckets, x: int)
    requires
        b.len() > 0,
    ensures
        owners_in(b, x) == (if x < b[0].0 {
            b[0].1
        } else {
            owners_in(b.drop_first(), x)
        }),
{
    let tail = b.drop_first();
    if x >= b[0].0 {
        lemma_first_above(tail, x);
        if first_above(tail, x) < tail.len() {
            assert(b[1 + first_above(tail, x)] == tail[first_above(tail, x)]);
        }
    }
}

/// What follows the first breakpoint of a list in ascending order is in
/// ascending order and lies beyond it.
pub proof fn lemma_increasing_tail(b: Buckets)
    requires
        increasing(b),
        b.len() > 0,
    ensures
        increasing(b.drop_first()),
        forall|i: int| 0 <= i < b.drop_first().len() ==> b[0].0 < #[trigger] b.drop_first()[i].0,
{
    let tail = b.drop_first();
    assert forall|i: int, j: int| 0 <= i < j < tail.len() implies tail[i].0 < tail[j].0 by {
        assert(tail[i] == b[i + 1] && tail[j] == b[j + 1]);
    }
    assert forall|i: int| 0 <= i < tail.len() implies b[0].0 < #[trigger] tail[i].0 by {
        assert(tail[i] == b[i + 1]);
    }
}

/// Collapsing a list in ascending order leaves it in ascending order.
pub proof fn lemma_collapsed_increasing(b: Buckets)
    requires
        increasing(b),
    ensures
        increasing(collapsed(b)),
        key_set(collapsed(b)).subset_of(key_set(b)),
        forall|i: int|
            0 <= i < collapsed(b).len() ==> b[0].0 <= (#[trigger] collapsed(b)[i]).0,
    decreases b.len(),
{
    let c = collapsed(b);
    lemma_collapsed(b);
    assert forall|k: int| key_set(c).contains(k) implies key_set(b).contains(k) by {
        let i = choose|i: int| 0 <= i < c.len() && c[i].0 == k;
        let j = choose|j: int| 0 <= j < b.len() && b[j] == c[i];
        assert(b[j].0 == k);
    }
    assert forall|i: int| 0 <= i < c.len() implies b[0].0 <= (#[trigger] c[i]).0 by {
        let j = choose|j: int| 0 <= j < b.len() && b[j] == c[i];
        if j > 0 {
            assert(b[0].0 < b[j].0);
        }
    }
    if b.len() > 1 {
        let tail = b.drop_first();
        let rest = collapsed(tail);
        lemma_increasing_tail(b);
        lemma_collapsed_increasing(tail);
        if b[0].1 != b[1].1 {
            assert forall|i: int, j: int| 0 <= i < j < c.len() implies c[i].0 < c[j].0 by {
                assert(c[j] == rest[j - 1]);
                if i > 0 {
                    assert(c[i] == rest[i - 1]);
                } else {
                    assert(tail[0] == b[1]);
                    assert(tail[0].0 <= rest[j - 1].0);
                    assert(b[0].0 < b[1].0);
                }
            }
        }
    }
}

/// Collapsing a list in ascending order leaves the owners of every point as
/// they were.
pub proof fn lemma_collapsed_owners(b: Buckets, x: int)
    requires
        increasing(b),
    ensures
        owners_in(collapsed(b), x) == owners_in(b, x),
    decreases b.len(),
{
    let c = collapsed(b);
    if b.len() > 1 {
        let tail = b.drop_first();
        let rest = collapsed(tail);
        lemma_increasing_tail(b);
        lemma_collapsed_owners(tail, x);
        lemma_collapsed(tail);
        lemma_owners_step(b, x);
        assert(tail[0] == b[1]);
        if b[0].1 == b[1].1 {
            if x < b[0].0 {
                lemma_owners_step(tail, x);
            }
        } else {
            assert(c.drop_first() =~= rest);
            assert(c[0] == b[0]);
            lemma_owners_step(c, x);
        }
    }
}

/// A list without equal neighbours has nothing to collapse.
pub proof fn lemma_collapsed_fixed(b: Buckets)
    requires
        minimal(b),
    ensures
        collapsed(b) == b,
    decreases b.len(),
{
    if b.len() > 1 {
        let tail = b.drop_first();
        assert(b[0].1 != b[0int + 1].1);
        assert forall|i: int| 0 <= i && i + 1 < tail.len() implies tail[i].1 != #[trigger] tail[i
            + 1].1 by {
            assert(tail[i] == b[i + 1]);
            assert(tail[i + 1] == b[i + 1 + 1]);
        }
        lemma_collapsed_fixed(tail);
        assert(seq![b[0]] + tail =~= b);
    }
}

/// What removing an owner means: the list stays in ascending order, every
/// point keeps its other owners (now in ascending order), no breakpoint is
/// added, and no two neighbouring buckets are left with the same owners.
pub proof fn lemma_without_owner(b: Buckets, id: ObjectId)
    requires
        increasing(b),
    ensures
        increasing(without_owner(b, id)),
        minimal(without_owner(b, id)),
        key_set(without_owner(b, id)).subset_of(key_set(b)),
        forall|x: int| owners_in(without_owner(b, id), x) == stripped(owners_in(b, x), id),
{
    let s = stripped_all(b, id);
    assert(increasing(s));
    lemma_collapsed(s);
    lemma_collapsed_increasing(s);
    assert forall|k: int| key_set(s).contains(k) implies key_set(b).contains(k) by {
        let i = choose|i: int| 0 <= i < s.len() && s[i].0 == k;
        assert(b[i].0 == k);
    }
    assert forall|x: int| owners_in(without_owner(b, id), x) == stripped(owners_in(b, x), id) by {
        lemma_collapsed_owners(s, x);
        let r = first_above(b, x);
        lemma_first_above(b, x);
        assert forall|j: int| 0 <= j < r implies s[j].0 <= x by {
            assert(s[j].0 == b[j].0);
        }
        lemma_first_above_is(s, x, r);
        if r >= b.len() {
            lemma_stripped(Seq::<ObjectId>::empty(), id);
            assert(stripped(Seq::<ObjectId>::empty(), id) =~= Seq::<ObjectId>::empty());
        }
    }
}

/// Removing an owner a second time changes nothing.
pub proof fn lemma_without_owner_twice(b: Buckets, id: ObjectId)
    ensures
        without_owner(without_owner(b, id), id) == without_owner(b, id),
{
    let s = stripped_all(b, id);
    let c = collapsed(s);
    lemma_collapsed(s);
    assert(stripped_all(c, id) =~= c) by {
        assert forall|i: int| 0 <= i < c.len() implies (c[i].0, stripped(c[i].1, id)) == c[i] by {
            let j = choose|j: int| 0 <= j < s.len() && s[j] == c[i];
            lemma_stripped_twice(b[j].1, id);
        }
    }
    lemma_collapsed_fixed(c);
}

/// The point `x` lies in bucket `i`: at or after the breakpoint before it,
/// and before its own.
pub open spec fn in_bucket(b: Buckets, i: int, x: int) -> bool {
    0 <= i < b.len() && (i == 0 || b[i - 1].0 <= x) && x < b[i].0
}

/// The list reaches the end of an edge of length `len`: its last breakpoint
/// is at or beyond it.
pub open spec fn reaches(b: Buckets, len: Length) -> bool {
    len == 0 || (b.len() > 0 && b.last().0 >= len)
}

/// The buckets of a list in ascending order do not overlap, every point
/// before the last breakpoint lies in one of them, and the owners of a point
/// are those of its bucket.
pub proof fn lemma_buckets_partition(b: Buckets)
    requires
        increasing(b),
    ensures
        forall|i: int, j: int, x: int| in_bucket(b, i, x) && in_bucket(b, j, x) ==> i == j,
        forall|x: int| b.len() > 0 && x < b.last().0 ==> in_bucket(b, first_above(b, x), x),
        forall|i: int, x: int| in_bucket(b, i, x) ==> owners_in(b, x) == b[i].1,
{
    assert forall|i: int, j: int, x: int| in_bucket(b, i, x) && in_bucket(b, j, x) implies i
        == j by {
        if i < j {
            assert(b[i].0 <= b[j - 1].0);
        } else if j < i {
            assert(b[j].0 <= b[i - 1].0);
        }
    }
    assert forall|x: int| b.len() > 0 && x < b.last().0 implies in_bucket(
        b,
        first_above(b, x),
        x,
    ) by {
        lemma_first_above(b, x);
        if first_above(b, x) >= b.len() {
            assert(b[b.len() - 1].0 <= x);
        }
    }
    assert forall|i: int, x: int| in_bucket(b, i, x) implies owners_in(b, x) == b[i].1 by {
        assert forall|j: int| 0 <= j < i implies b[j].0 <= x by {
            if j < i - 1 {
                assert(b[j].0 < b[i - 1].0);
            }
        }
        lemma_first_above_is(b, x, i);
    }
}

/// A list in ascending order that gains breakpoints and loses none still
/// reaches the end of the edge.
pub proof fn lemma_reaches_grown(b: Buckets, c: Buckets, len: Length)
    requires
        increasing(c),
        reaches(b, len),
        key_set(b).subset_of(key_set(c)),
    ensures
        reaches(c, len),
{
    if len != 0 {
        assert(key_set(b).contains(b[b.len() - 1].0 as int));
        let j = choose|j: int| 0 <= j < c.len() && c[j].0 == b.last().0 as int;
        if j < c.len() - 1 {
            assert(c[j].0 < c[c.len() - 1].0);
        }
    }
}

/// Removing an owner leaves the last breakpoint where it is.
pub proof fn lemma_without_owner_reaches(b: Buckets, id: ObjectId, len: Length)
    requires
        reaches(b, len),
    ensures
        reaches(without_owner(b, id), len),
{
    let s = stripped_all(b, id);
    lemma_collapsed(s);
}

} // verus!
