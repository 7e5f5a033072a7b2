//! From traversal states to ranges: the part of a crossed edge that belongs
//! to a centroid, and the ranges of a chain of mini-edges put together in
//! the coordinates of the edge that was cut.

use crate::geometry::{add_cost, cost_sum};
use crate::types::{CentroidId, Length, Range, NO_CENTROID};
use crate::voronoi_heap::TraverseState;
use vstd::prelude::*;

verus! {

/// The distance from the start of an edge at which the fronts of two
/// centroids meet: the front that crosses the edge has come `to_start`
/// to the start of the edge, the other has come `at_end` to its end. It is
/// half of what the two costs and the length of the edge add up to, less
/// what the first front has come, and not outside the edge.
pub open spec fn bisector(to_start: Length, at_end: Length, len: Length) -> Length {
    let center = (to_start + at_end + len) / 2 - to_start;
    if center < 0 {
        0
    } else if center > len {
        len
    } else {
        center as Length
    }
}

/// How far into an edge of length `len` a front reaches that has come
/// `to_start` to the start of the edge and ends at `max_distance`.
pub open spec fn reach(max_distance: Length, to_start: Length, len: Length) -> Length {
    if to_start >= max_distance {
        0
    } else if max_distance - to_start > len {
        len
    } else {
        (max_distance - to_start) as Length
    }
}

/// The range from `start` to `end` for `centroid`, unless it is empty.
pub open spec fn stretch(start: Length, end: Length, centroid: CentroidId) -> Option<Range> {
    if start < end {
        Some(Range { start, end, centroid_id: centroid })
    } else {
        None
    }
}

/// The part of the edge crossed by state `s` that belongs to `centroid`, in
/// the coordinates of the edge, if a part does.
///
/// Where one centroid only is involved, the whole edge belongs to it if the
/// end of the segment is within `max_distance`, else the part from the near
/// end up to `max_distance`. Where two centroids meet, the edge is cut at
/// the bisector: the side of the start of the segment belongs to the
/// centroid of the state, the other side to the centroid that was recorded
/// at the end. The near end of the segment is the start of the edge where
/// the segment starts at the first end node of the edge.
pub open spec fn owned_range(s: TraverseState, centroid: CentroidId, max_distance: Length) ->
    Option<
    Range,
> {
    match s.edge {
        None => None,
        Some(edge) => {
            let forward = edge.ni == s.start_node_id;
            if s.centroid_pt_in_ne == NO_CENTROID || s.centroid_ct_in_ns == s.centroid_pt_in_ne {
                if s.centroid_ct_in_ns != centroid {
                    None
                } else if s.cost_ct_to_ne > max_distance {
                    let r = reach(max_distance, s.cost_ct_to_ns, edge.len);
                    if forward {
                        stretch(0, r, centroid)
                    } else {
                        stretch((edge.len - r) as Length, edge.len, centroid)
                    }
                } else {
                    stretch(0, edge.len, centroid)
                }
            } else {
                let center = bisector(s.cost_ct_to_ns, s.cost_pt_to_ne, edge.len);
                let near = if forward {
                    stretch(0, center, centroid)
                } else {
                    stretch((edge.len - center) as Length, edge.len, centroid)
                };
                let far = if forward {
                    stretch(center, edge.len, centroid)
                } else {
                    stretch(0, (edge.len - center) as Length, centroid)
                };
                if s.centroid_ct_in_ns == centroid {
                    near
                } else if s.centroid_pt_in_ne == centroid {
                    far
                } else {
                    None
                }
            }
        },
    }
}

/// A range that a state gives lies within the edge of the state, is not
/// empty and belongs to the centroid asked for.
pub proof fn lemma_owned_range(s: TraverseState, centroid: CentroidId, max_distance: Length)
    ensures
        owned_range(s, centroid, max_distance) matches Some(r) ==> r.start < r.end && r.end
            <= s.edge.unwrap().len && r.centroid_id == centroid,
{
}

/// Where the fronts of two centroids meet on an edge, the two parts do not
/// overlap and make up the edge.
pub proof fn lemma_bisector_splits(s: TraverseState, max_distance: Length)
    requires
        s.edge.is_some(),
        s.centroid_pt_in_ne != NO_CENTROID,
        s.centroid_ct_in_ns != s.centroid_pt_in_ne,
    ensures
        ({
            let near = owned_range(s, s.centroid_ct_in_ns, max_distance);
            let far = owned_range(s, s.centroid_pt_in_ne, max_distance);
            let len = s.edge.unwrap().len;
            &&& near.is_some() && far.is_some() ==> (near.unwrap().end == far.unwrap().start
                || far.unwrap().end == near.unwrap().start)
            &&& range_length(near) + range_length(far) == len
        }),
{
}

/// The length of a range, zero for none.
pub open spec fn range_length(r: Option<Range>) -> int {
    match r {
        Some(r) => r.end - r.start,
        None => 0,
    }
}

/// The distance from the start of an edge at which the fronts of two
/// centroids meet.
pub fn bisect(to_start: Length, at_end: Length, len: Length) -> (center: Length)
    ensures
        center == bisector(to_start, at_end, len),
{
    let half: u128 = (to_start as u128 + at_end as u128 + len as u128) / 2;
    if half <= to_start as u128 {
        0
    } else {
        let center: u128 = half - to_start as u128;
        if center > len as u128 {
            len
        } else {
            center as Length
        }
    }
}

/// The range from `start` to `end` for `centroid`, unless it is empty.
fn stretch_of(start: Length, end: Length, centroid: CentroidId) -> (r: Option<Range>)
    ensures
        r == stretch(start, end, centroid),
{
    if start < end {
        Some(Range { start, end, centroid_id: centroid })
    } else {
        None
    }
}

/// The part of the edge crossed by `state` that belongs to `centroid`, if
/// a part does.
pub fn scope_of(state: &TraverseState, centroid: CentroidId, max_distance: Length) -> (r: Option<
    Range,
>)
    ensures
        r == owned_range(*state, centroid, max_distance),
{
    let edge = match state.edge {
        Some(e) => e,
        None => {
            return None;
        },
    };
    let forward = edge.ni == state.start_node_id;
    if state.centroid_pt_in_ne == NO_CENTROID || state.centroid_ct_in_ns
        == state.centroid_pt_in_ne {
        if state.centroid_ct_in_ns != centroid {
            None
        } else if state.cost_ct_to_ne > max_distance {
            let r: Length = if state.cost_ct_to_ns >= max_distance {
                0
            } else if max_distance - state.cost_ct_to_ns > edge.len {
                edge.len
            } else {
                max_distance - state.cost_ct_to_ns
            };
            if forward {
                stretch_of(0, r, centroid)
            } else {
                stretch_of(edge.len - r, edge.len, centroid)
            }
        } else {
            stretch_of(0, edge.len, centroid)
        }
    } else {
        let center = bisect(state.cost_ct_to_ns, state.cost_pt_to_ne, edge.len);
        if state.centroid_ct_in_ns == centroid {
            if forward {
                stretch_of(0, center, centroid)
            } else {
                stretch_of(edge.len - center, edge.len, centroid)
            }
        } else if state.centroid_pt_in_ne == centroid {
            if forward {
                stretch_of(center, edge.len, centroid)
            } else {
                stretch_of(0, edge.len - center, centroid)
            }
        } else {
            None
        }
    }
}

/// The point `x` lies in the range `r`.
pub open spec fn within(r: Range, x: int) -> bool {
    r.start <= x < r.end
}

/// Centroid `c` holds the point `x` in one of the ranges of `list`.
pub open spec fn holds(list: Seq<Range>, c: CentroidId, x: int) -> bool {
    exists|i: int| 0 <= i < list.len() && list[i].centroid_id == c && within(#[trigger] list[i], x)
}

/// Every range of `list` starts at or before its end.
pub open spec fn upright(list: Seq<Range>) -> bool {
    forall|i: int| 0 <= i < list.len() ==> (#[trigger] list[i]).start <= list[i].end
}

/// No two ranges of `list` for the same centroid share a point.
pub open spec fn apart(list: Seq<Range>) -> bool {
    forall|i: int, j: int, x: int|
        #![trigger within(list[i], x), within(list[j], x)]
        0 <= i < list.len() && 0 <= j < list.len() && i != j && list[i].centroid_id
            == list[j].centroid_id && within(list[i], x) ==> !within(list[j], x)
}

/// The two ranges are of one centroid and overlap or meet end to end.
pub open spec fn touching(a: Range, b: Range) -> bool {
    a.centroid_id == b.centroid_id && a.start <= b.end && b.start <= a.end
}

/// The range from the first start to the last end of two ranges.
pub open spec fn hull(a: Range, b: Range) -> Range {
    Range {
        start: if a.start <= b.start {
            a.start
        } else {
            b.start
        },
        end: if a.end >= b.end {
            a.end
        } else {
            b.end
        },
        centroid_id: a.centroid_id,
    }
}

/// What the first `n` ranges of `have` and the range `r` come to: the
/// ranges that are kept as they are, and the range that `r` has grown to.
/// The ranges are looked at in their order; one that touches what `r` has
/// grown to is taken up into it.
pub open spec fn absorbed(have: Seq<Range>, r: Range, n: int) -> (Seq<Range>, Range)
    decreases n,
{
    if n <= 0 {
        (Seq::empty(), r)
    } else {
        let before = absorbed(have, r, n - 1);
        if touching(have[n - 1], before.1) {
            (before.0, hull(before.1, have[n - 1]))
        } else {
            (before.0.push(have[n - 1]), before.1)
        }
    }
}

/// `have` extended by the range `r`: the ranges of the same centroid that
/// `r` overlaps or meets become one range with it, which stands last; the
/// other ranges stay. An empty range changes nothing.
pub open spec fn joined(have: Seq<Range>, r: Range) -> Seq<Range> {
    if r.start >= r.end {
        have
    } else {
        absorbed(have, r, have.len() as int).0.push(absorbed(have, r, have.len() as int).1)
    }
}

/// `have` extended by each range of `more`, first to last.
pub open spec fn joined_all(have: Seq<Range>, more: Seq<Range>) -> Seq<Range>
    decreases more.len(),
{
    if more.len() == 0 {
        have
    } else {
        joined(joined_all(have, more.drop_last()), more.last())
    }
}

/// What taking up ranges keeps true: the range that grows is upright and
/// of the centroid of `r`; it holds the points of `r` and of the ranges
/// taken up, and no other; every range kept is one of `have` that has no
/// point in common with it.
pub proof fn lemma_absorbed(have: Seq<Range>, r: Range, n: int)
    requires
        0 <= n <= have.len(),
        upright(have),
        r.start < r.end,
    ensures
        ({
            let (kept, acc) = absorbed(have, r, n);
            &&& acc.centroid_id == r.centroid_id
            &&& acc.start <= r.start
            &&& r.end <= acc.end
            &&& kept.len() <= n
            &&& forall|x: int|
                holds(kept, r.centroid_id, x) || within(acc, x) <==> holds(
                    have.take(n),
                    r.centroid_id,
                    x,
                ) || within(r, x)
            &&& forall|c: CentroidId, x: int|
                c != r.centroid_id ==> (holds(kept, c, x) <==> holds(have.take(n), c, x))
            &&& forall|j: int|
                0 <= j < kept.len() ==> !touching(#[trigger] kept[j], r) && exists|q: int|
                    0 <= q < n && have[q] == kept[j]
        }),
    decreases n,
{
    let (kept, acc) = absorbed(have, r, n);
    let c0 = r.centroid_id;
    if n > 0 {
        lemma_absorbed(have, r, n - 1);
        let (kept0, acc0) = absorbed(have, r, n - 1);
        let a = have[n - 1];
        let front = have.take(n - 1);
        let now = have.take(n);
        assert(now.drop_last() =~= front);
        assert(now[n - 1] == a);
        assert(a.start <= a.end);
        assert forall|c: CentroidId, x: int| holds(now, c, x) <==> (holds(front, c, x) || (
        a.centroid_id == c && within(a, x))) by {
            if holds(now, c, x) {
                let i = choose|i: int|
                    0 <= i < now.len() && now[i].centroid_id == c && within(now[i], x);
                if i < n - 1 {
                    assert(front[i] == now[i]);
                }
            }
            if holds(front, c, x) {
                let i = choose|i: int|
                    0 <= i < front.len() && front[i].centroid_id == c && within(front[i], x);
                assert(now[i] == front[i]);
            }
        }
        if touching(a, acc0) {
            assert forall|x: int|
                holds(kept, c0, x) || within(acc, x) <==> holds(now, c0, x) || within(r, x) by {
                assert(within(acc, x) <==> within(acc0, x) || within(a, x));
            }
        } else {
            assert forall|c: CentroidId, x: int| holds(kept, c, x) <==> (holds(kept0, c, x) || (
            a.centroid_id == c && within(a, x))) by {
                if holds(kept, c, x) {
                    let i = choose|i: int|
                        0 <= i < kept.len() && kept[i].centroid_id == c && within(kept[i], x);
                    if i < kept0.len() {
                        assert(kept0[i] == kept[i]);
                    }
                }
                if holds(kept0, c, x) {
                    let i = choose|i: int|
                        0 <= i < kept0.len() && kept0[i].centroid_id == c && within(kept0[i], x);
                    assert(kept[i] == kept0[i]);
                }
                if a.centroid_id == c && within(a, x) {
                    assert(kept[kept0.len() as int] == a);
                }
            }
            assert forall|j: int| 0 <= j < kept.len() implies !touching(#[trigger] kept[j], r)
                && exists|q: int| 0 <= q < n && have[q] == kept[j] by {
                if j < kept0.len() {
                    assert(kept[j] == kept0[j]);
                    let q = choose|q: int| 0 <= q < n - 1 && have[q] == kept0[j];
                    assert(have[q] == kept[j]);
                } else {
                    assert(have[n - 1] == kept[j]);
                }
            }
        }
        if touching(a, acc0) {
            assert forall|j: int| 0 <= j < kept.len() implies !touching(#[trigger] kept[j], r)
                && exists|q: int| 0 <= q < n && have[q] == kept[j] by {
                let q = choose|q: int| 0 <= q < n - 1 && have[q] == kept0[j];
                assert(have[q] == kept[j]);
            }
        }
    } else {
        assert(have.take(0) =~= Seq::<Range>::empty());
    }
}

/// What joining a range means for the points: a centroid holds a point
/// after the range was joined exactly if it held the point before or the
/// range is its own and holds the point.
pub proof fn lemma_joined_holds(have: Seq<Range>, r: Range, c: CentroidId, x: int)
    requires
        upright(have),
    ensures
        holds(joined(have, r), c, x) <==> (holds(have, c, x) || (c == r.centroid_id && within(
            r,
            x,
        ))),
        upright(joined(have, r)),
{
    if r.start < r.end {
        let n = have.len() as int;
        lemma_absorbed(have, r, n);
        let (kept, acc) = absorbed(have, r, n);
        let out = kept.push(acc);
        assert(have.take(n) =~= have);
        assert forall|d: CentroidId, y: int| holds(out, d, y) <==> (holds(kept, d, y) || (d
            == acc.centroid_id && within(acc, y))) by {
            if holds(out, d, y) {
                let i = choose|i: int|
                    0 <= i < out.len() && out[i].centroid_id == d && within(out[i], y);
                if i < kept.len() {
                    assert(kept[i] == out[i]);
                }
            }
            if holds(kept, d, y) {
                let i = choose|i: int|
                    0 <= i < kept.len() && kept[i].centroid_id == d && within(kept[i], y);
                assert(out[i] == kept[i]);
            }
            if d == acc.centroid_id && within(acc, y) {
                assert(out[kept.len() as int] == acc);
            }
        }
        assert forall|i: int| 0 <= i < out.len() implies (#[trigger] out[i]).start
            <= out[i].end by {
            if i < kept.len() {
                let q = choose|q: int| 0 <= q < n && have[q] == kept[i];
            }
        }
    }
}

/// Joining a range to ranges that are apart leaves them apart.
pub proof fn lemma_joined_apart(have: Seq<Range>, r: Range)
    requires
        upright(have),
        apart(have),
    ensures
        apart(joined(have, r)),
{
    if r.start < r.end {
        let n = have.len() as int;
        lemma_absorbed(have, r, n);
        lemma_kept_in_order(have, r, n);
        let (kept, acc) = absorbed(have, r, n);
        let out = kept.push(acc);
        assert(have.take(n) =~= have);
        assert forall|i: int, j: int, x: int|
            #![trigger within(out[i], x), within(out[j], x)]
            0 <= i < out.len() && 0 <= j < out.len() && i != j && out[i].centroid_id
                == out[j].centroid_id && within(out[i], x) implies !within(out[j], x) by {
            if within(out[j], x) {
                if i < kept.len() && j < kept.len() {
                    let p = kept_index(have, r, n, i);
                    let q = kept_index(have, r, n, j);
                    assert(have[p] == kept[i] && have[q] == kept[j] && p != q);
                } else {
                    let k = if i < kept.len() {
                        i
                    } else {
                        j
                    };
                    assert(out[k] == kept[k]);
                    assert(within(kept[k], x) && within(acc, x));
                    lemma_kept_misses(have, r, n, k, x);
                }
            }
        }
    }
}

/// The index in `have` of the range that stands at place `j` among the
/// ranges kept of the first `n`.
pub open spec fn kept_index(have: Seq<Range>, r: Range, n: int, j: int) -> int
    decreases n,
{
    if n <= 0 {
        0
    } else {
        let before = absorbed(have, r, n - 1);
        if touching(have[n - 1], before.1) {
            kept_index(have, r, n - 1, j)
        } else if j == before.0.len() {
            n - 1
        } else {
            kept_index(have, r, n - 1, j)
        }
    }
}

/// The ranges kept stand in the order in which they stand in `have`.
pub proof fn lemma_kept_in_order(have: Seq<Range>, r: Range, n: int)
    requires
        0 <= n <= have.len(),
    ensures
        forall|j: int|
            0 <= j < absorbed(have, r, n).0.len() ==> 0 <= #[trigger] kept_index(have, r, n, j)
                < n && have[kept_index(have, r, n, j)] == absorbed(have, r, n).0[j],
        forall|i: int, j: int|
            0 <= i < j < absorbed(have, r, n).0.len() ==> kept_index(have, r, n, i) < kept_index(
                have,
                r,
                n,
                j,
            ),
    decreases n,
{
    if n > 0 {
        lemma_kept_in_order(have, r, n - 1);
        let before = absorbed(have, r, n - 1);
        let kept = absorbed(have, r, n).0;
        assert forall|j: int| 0 <= j < kept.len() implies 0 <= #[trigger] kept_index(
            have,
            r,
            n,
            j,
        ) < n && have[kept_index(have, r, n, j)] == kept[j] by {
            if touching(have[n - 1], before.1) {
                assert(kept == before.0);
                assert(kept_index(have, r, n, j) == kept_index(have, r, n - 1, j));
            } else if j < before.0.len() {
                assert(kept[j] == before.0[j]);
                assert(kept_index(have, r, n, j) == kept_index(have, r, n - 1, j));
            } else {
                assert(kept_index(have, r, n, j) == n - 1);
            }
        }
        assert forall|i: int, j: int| 0 <= i < j < kept.len() implies kept_index(have, r, n, i)
            < kept_index(have, r, n, j) by {
            if touching(have[n - 1], before.1) {
                assert(kept == before.0);
                assert(kept_index(have, r, n, i) == kept_index(have, r, n - 1, i));
                assert(kept_index(have, r, n, j) == kept_index(have, r, n - 1, j));
            } else {
                assert(kept_index(have, r, n, i) == kept_index(have, r, n - 1, i));
                if j < before.0.len() {
                    assert(kept_index(have, r, n, j) == kept_index(have, r, n - 1, j));
                } else {
                    assert(kept_index(have, r, n, j) == n - 1);
                }
            }
        }
    }
}

/// A range that is kept has no point in common with the range that has
/// grown.
pub proof fn lemma_kept_misses(have: Seq<Range>, r: Range, n: int, k: int, x: int)
    requires
        0 <= n <= have.len(),
        upright(have),
        apart(have),
        r.start < r.end,
        0 <= k < absorbed(have, r, n).0.len(),
        within(absorbed(have, r, n).0[k], x),
        absorbed(have, r, n).0[k].centroid_id == r.centroid_id,
    ensures
        !within(absorbed(have, r, n).1, x),
    decreases n,
{
    lemma_absorbed(have, r, n);
    lemma_kept_in_order(have, r, n);
    let (kept, acc) = absorbed(have, r, n);
    let before = absorbed(have, r, n - 1);
    assert(n > 0);
    lemma_absorbed(have, r, n - 1);
    lemma_kept_in_order(have, r, n - 1);
    let a = have[n - 1];
    if touching(a, before.1) {
        assert(kept == before.0);
        lemma_kept_misses(have, r, n - 1, k, x);
        let p = kept_index(have, r, n - 1, k);
        assert(have[p] == kept[k] && p != n - 1);
        if within(a, x) {
            assert(a.centroid_id == kept[k].centroid_id);
        }
    } else if k < before.0.len() {
        assert(kept[k] == before.0[k]);
        lemma_kept_misses(have, r, n - 1, k, x);
    } else {
        assert(kept[k] == a);
        if within(before.1, x) {
            assert(a.start <= before.1.end && before.1.start <= a.end);
        }
    }
}

/// Joining ranges never takes a point from a centroid.
pub proof fn lemma_joined_keeps(have: Seq<Range>, r: Range, c: CentroidId, x: int)
    requires
        holds(have, c, x),
    ensures
        holds(joined(have, r), c, x),
{
    if r.start < r.end {
        assert(have.take(have.len() as int) =~= have);
        lemma_absorbed_keeps(have, r, have.len() as int, c, x);
        let (kept, acc) = absorbed(have, r, have.len() as int);
        let out = kept.push(acc);
        if holds(kept, c, x) {
            let i = choose|i: int|
                0 <= i < kept.len() && kept[i].centroid_id == c && within(kept[i], x);
            assert(out[i] == kept[i]);
        } else {
            assert(out[kept.len() as int] == acc);
        }
    }
}

/// Taking up ranges never takes a point from a centroid.
pub proof fn lemma_absorbed_keeps(have: Seq<Range>, r: Range, n: int, c: CentroidId, x: int)
    requires
        0 <= n <= have.len(),
        holds(have.take(n), c, x),
    ensures
        holds(absorbed(have, r, n).0, c, x) || (absorbed(have, r, n).1.centroid_id == c && within(
            absorbed(have, r, n).1,
            x,
        )),
        n > 0 ==> (absorbed(have, r, n - 1).1.centroid_id == c && within(
            absorbed(have, r, n - 1).1,
            x,
        ) ==> absorbed(have, r, n).1.centroid_id == c && within(absorbed(have, r, n).1, x)),
    decreases n,
{
    let now = have.take(n);
    let i = choose|i: int| 0 <= i < now.len() && now[i].centroid_id == c && within(now[i], x);
    assert(n > 0);
    let before = absorbed(have, r, n - 1);
    let (kept, acc) = absorbed(have, r, n);
    let a = have[n - 1];
    let front = have.take(n - 1);
    if i < n - 1 {
        assert(front[i] == now[i]);
        lemma_absorbed_keeps(have, r, n - 1, c, x);
        if holds(before.0, c, x) {
            let j = choose|j: int|
                0 <= j < before.0.len() && before.0[j].centroid_id == c && within(before.0[j], x);
            if !touching(a, before.1) {
                assert(kept[j] == before.0[j]);
            }
        }
    } else {
        assert(now[i] == a);
        if !touching(a, before.1) {
            assert(kept[before.0.len() as int] == a);
        }
    }
}

/// Joining more ranges never takes a point from a centroid.
pub proof fn lemma_joined_all_keeps(have: Seq<Range>, more: Seq<Range>, c: CentroidId, x: int)
    requires
        holds(have, c, x),
    ensures
        holds(joined_all(have, more), c, x),
    decreases more.len(),
{
    if more.len() > 0 {
        lemma_joined_all_keeps(have, more.drop_last(), c, x);
        lemma_joined_keeps(joined_all(have, more.drop_last()), more.last(), c, x);
    }
}

/// Every range of `list` starts at or before its end and ends within an
/// edge of length `len`.
pub open spec fn inside(list: Seq<Range>, len: Length) -> bool {
    forall|i: int|
        0 <= i < list.len() ==> (#[trigger] list[i]).start <= list[i].end && list[i].end <= len
}

/// Taking up ranges that lie within an edge leaves a range within the
/// edge.
pub proof fn lemma_absorbed_inside(have: Seq<Range>, r: Range, n: int, len: Length)
    requires
        0 <= n <= have.len(),
        inside(have, len),
        r.start <= r.end <= len,
    ensures
        absorbed(have, r, n).1.start <= absorbed(have, r, n).1.end <= len,
        inside(absorbed(have, r, n).0, len),
    decreases n,
{
    if n > 0 {
        lemma_absorbed_inside(have, r, n - 1, len);
        let before = absorbed(have, r, n - 1);
        let kept = absorbed(have, r, n).0;
        assert(have[n - 1].start <= have[n - 1].end <= len);
        assert forall|i: int| 0 <= i < kept.len() implies (#[trigger] kept[i]).start
            <= kept[i].end && kept[i].end <= len by {
            if i < before.0.len() {
                assert(kept[i] == before.0[i]);
            }
        }
    }
}

/// Joining a range that lies within an edge to ranges that lie within the
/// edge leaves ranges within the edge.
pub proof fn lemma_joined_inside(have: Seq<Range>, r: Range, len: Length)
    requires
        inside(have, len),
        r.start <= r.end <= len,
    ensures
        inside(joined(have, r), len),
{
    if r.start < r.end {
        lemma_absorbed_inside(have, r, have.len() as int, len);
        let (kept, acc) = absorbed(have, r, have.len() as int);
        let out = kept.push(acc);
        assert forall|i: int| 0 <= i < out.len() implies (#[trigger] out[i]).start <= out[i].end
            && out[i].end <= len by {
            if i < kept.len() {
                assert(out[i] == kept[i]);
            }
        }
    }
}

/// Joining ranges that lie within an edge, to ranges that lie within the
/// edge and are apart, leaves ranges that lie within the edge and are
/// apart.
pub proof fn lemma_joined_all_inside(have: Seq<Range>, more: Seq<Range>, len: Length)
    requires
        inside(have, len),
        apart(have),
        inside(more, len),
    ensures
        inside(joined_all(have, more), len),
        apart(joined_all(have, more)),
    decreases more.len(),
{
    if more.len() > 0 {
        let front = more.drop_last();
        assert forall|i: int| 0 <= i < front.len() implies (#[trigger] front[i]).start
            <= front[i].end && front[i].end <= len by {
            assert(front[i] == more[i]);
        }
        lemma_joined_all_inside(have, front, len);
        let before = joined_all(have, front);
        assert(more[more.len() - 1].start <= more.last().end <= len);
        lemma_joined_inside(before, more.last(), len);
        lemma_joined_apart(before, more.last());
    }
}

/// Extends `have` by the range `r`: the ranges of the same centroid that
/// `r` overlaps or meets become one range with it.
pub fn join_range(have: &mut Vec<Range>, r: Range)
    ensures
        final(have)@ == joined(old(have)@, r),
{
    if r.start >= r.end {
        return ;
    }
    let mut kept: Vec<Range> = Vec::new();
    let mut acc = r;
    let mut i: usize = 0;
    while i < have.len()
        invariant
            i <= have.len(),
            *have == *old(have),
            (kept@, acc) == absorbed(have@, r, i as int),
        decreases have.len() - i,
    {
        let a = have[i];
        if a.centroid_id == acc.centroid_id && a.start <= acc.end && acc.start <= a.end {
            acc = Range {
                start: if acc.start <= a.start {
                    acc.start
                } else {
                    a.start
                },
                end: if acc.end >= a.end {
                    acc.end
                } else {
                    a.end
                },
                centroid_id: acc.centroid_id,
            };
        } else {
            kept.push(a);
        }
        i += 1;
    }
    kept.push(acc);
    *have = kept;
}

/// The place of a range that starts at `start` in a list that is in order
/// of start: the index of the first range that starts beyond `start`, or
/// the length of the list.
pub open spec fn place_for(sorted: Seq<Range>, start: Length) -> int
    decreases sorted.len(),
{
    if sorted.len() == 0 {
        0
    } else if sorted[0].start > start {
        0
    } else {
        1 + place_for(sorted.drop_first(), start)
    }
}

/// The ranges of `list` in order of start; ranges with the same start keep
/// their order.
pub open spec fn by_start(list: Seq<Range>) -> Seq<Range>
    decreases list.len(),
{
    if list.len() == 0 {
        list
    } else {
        let front = by_start(list.drop_last());
        front.insert(place_for(front, list.last().start), list.last())
    }
}

/// The lengths of the ranges of `list`, added up.
pub open spec fn total_length(list: Seq<Range>) -> int
    decreases list.len(),
{
    if list.len() == 0 {
        0
    } else {
        total_length(list.drop_last()) + (list.last().end - list.last().start)
    }
}

/// `r` moved by `offset` along the edge.
pub open spec fn shifted(r: Range, offset: Length) -> Range {
    Range {
        start: cost_sum(r.start, offset),
        end: cost_sum(r.end, offset),
        centroid_id: r.centroid_id,
    }
}

/// `out` with the range `r`: where the last range of `out` belongs to the
/// same centroid and ends where `r` starts, the two become one range;
/// otherwise `r` is added at the end.
pub open spec fn appended(out: Seq<Range>, r: Range) -> Seq<Range> {
    if out.len() > 0 && out.last().centroid_id == r.centroid_id && out.last().end == r.start {
        out.drop_last().push(
            Range { start: out.last().start, end: r.end, centroid_id: r.centroid_id },
        )
    } else {
        out.push(r)
    }
}

/// `out` with each of `ranges`, moved by `offset`, first to last.
pub open spec fn appended_all(out: Seq<Range>, ranges: Seq<Range>, offset: Length) -> Seq<Range>
    decreases ranges.len(),
{
    if ranges.len() == 0 {
        out
    } else {
        appended(
            appended_all(out, ranges.drop_last(), offset),
            shifted(ranges.last(), offset),
        )
    }
}

/// The distance from the start of the edge at which mini-edge `n` of a
/// chain starts: what the mini-edges before it are long together.
pub open spec fn chain_offset(chain: Seq<(Length, Seq<Range>)>, n: int) -> Length
    decreases n,
{
    if n <= 0 {
        0
    } else {
        cost_sum(chain_offset(chain, n - 1), chain[n - 1].0)
    }
}

/// The ranges of the first `n` mini-edges of a chain in the coordinates of
/// the edge that was cut. Each entry of the chain is the length of a
/// mini-edge with the ranges on it. The mini-edges are walked in order;
/// the ranges of each are taken in order of start and moved by what the
/// mini-edges before are long together; a range that continues the last
/// one for the same centroid becomes one range with it.
pub open spec fn merged(chain: Seq<(Length, Seq<Range>)>, n: int) -> Seq<Range>
    decreases n,
{
    if n <= 0 {
        Seq::empty()
    } else {
        appended_all(merged(chain, n - 1), by_start(chain[n - 1].1), chain_offset(chain, n - 1))
    }
}

/// The lengths of the ranges of the first `n` mini-edges of a chain, added
/// up.
pub open spec fn covered(chain: Seq<(Length, Seq<Range>)>, n: int) -> int
    decreases n,
{
    if n <= 0 {
        0
    } else {
        covered(chain, n - 1) + total_length(chain[n - 1].1)
    }
}

/// The lengths of the first `n` mini-edges of a chain, added up.
pub open spec fn chain_length(chain: Seq<(Length, Seq<Range>)>, n: int) -> int
    decreases n,
{
    if n <= 0 {
        0
    } else {
        chain_length(chain, n - 1) + chain[n - 1].0
    }
}

/// Every range of every mini-edge of the chain starts before it ends and
/// lies within its mini-edge, and the chain is not longer than the largest
/// length.
pub open spec fn chain_fits(chain: Seq<(Length, Seq<Range>)>) -> bool {
    &&& chain_length(chain, chain.len() as int) <= Length::MAX
    &&& forall|i: int, j: int|
        0 <= i < chain.len() && 0 <= j < chain[i].1.len() ==> (#[trigger] chain[i].1[j]).start
            <= chain[i].1[j].end && chain[i].1[j].end <= chain[i].0
}

/// The index for a start is within the list, no range before it starts
/// beyond the start, and the range at it does.
pub proof fn lemma_place_for(sorted: Seq<Range>, start: Length)
    ensures
        0 <= place_for(sorted, start) <= sorted.len(),
    decreases sorted.len(),
{
    if sorted.len() > 0 && sorted[0].start <= start {
        lemma_place_for(sorted.drop_first(), start);
    }
}

/// An index before which no range starts beyond `start`, and at which one
/// does or the list ends, is the place for `start`.
pub proof fn lemma_place_for_is(sorted: Seq<Range>, start: Length, i: int)
    requires
        0 <= i <= sorted.len(),
        forall|j: int| 0 <= j < i ==> sorted[j].start <= start,
        i < sorted.len() ==> sorted[i].start > start,
    ensures
        place_for(sorted, start) == i,
    decreases sorted.len(),
{
    if sorted.len() > 0 && sorted[0].start <= start {
        let rest = sorted.drop_first();
        if i == 0 {
            assert(sorted[0].start > start);
        }
        assert forall|j: int| 0 <= j < i - 1 implies rest[j].start <= start by {
            assert(rest[j] == sorted[j + 1]);
        }
        if i < sorted.len() {
            assert(rest[i - 1] == sorted[i]);
        }
        lemma_place_for_is(rest, start, i - 1);
    } else if sorted.len() > 0 {
        if i > 0 {
            assert(sorted[0].start <= start);
        }
    }
}

/// Adding a range to a list at any place adds its length to the total.
pub proof fn lemma_total_insert(list: Seq<Range>, at: int, r: Range)
    requires
        0 <= at <= list.len(),
    ensures
        total_length(list.insert(at, r)) == total_length(list) + (r.end - r.start),
    decreases list.len() - at,
{
    let out = list.insert(at, r);
    if at == list.len() {
        assert(out.drop_last() =~= list);
    } else {
        assert(out.drop_last() =~= list.drop_last().insert(at, r));
        lemma_total_insert(list.drop_last(), at, r);
    }
}

/// Putting ranges in order of start keeps their number, their members and
/// the total of their lengths.
pub proof fn lemma_by_start(list: Seq<Range>)
    ensures
        by_start(list).len() == list.len(),
        total_length(by_start(list)) == total_length(list),
        forall|i: int|
            0 <= i < list.len() ==> exists|j: int|
                0 <= j < list.len() && list[j] == #[trigger] by_start(list)[i],
    decreases list.len(),
{
    if list.len() > 0 {
        let head = list.drop_last();
        let front = by_start(head);
        lemma_by_start(head);
        let at = place_for(front, list.last().start);
        lemma_place_for(front, list.last().start);
        lemma_total_insert(front, at, list.last());
        let out = front.insert(at, list.last());
        assert forall|i: int| 0 <= i < list.len() implies exists|j: int|
            0 <= j < list.len() && list[j] == #[trigger] out[i] by {
            if i == at {
                assert(list[list.len() - 1] == out[i]);
            } else {
                let fi = if i < at {
                    i
                } else {
                    i - 1
                };
                assert(out[i] == front[fi]);
                let j = choose|j: int| 0 <= j < head.len() && head[j] == front[fi];
                assert(list[j] == out[i]);
            }
        }
    }
}

/// Adding a range to a list, as one range with the last or at the end,
/// adds its length to the total.
pub proof fn lemma_appended_total(out: Seq<Range>, r: Range)
    ensures
        total_length(appended(out, r)) == total_length(out) + (r.end - r.start),
{
    if out.len() > 0 && out.last().centroid_id == r.centroid_id && out.last().end == r.start {
        let joined = Range { start: out.last().start, end: r.end, centroid_id: r.centroid_id };
        assert(out.drop_last().push(joined).drop_last() =~= out.drop_last());
    } else {
        assert(out.push(r).drop_last() =~= out);
    }
}

/// Adding ranges that stay below the largest length when moved adds their
/// lengths to the total.
pub proof fn lemma_appended_all_total(out: Seq<Range>, ranges: Seq<Range>, offset: Length)
    requires
        forall|j: int|
            0 <= j < ranges.len() ==> (#[trigger] ranges[j]).start <= ranges[j].end
                && ranges[j].end + offset <= Length::MAX,
    ensures
        total_length(appended_all(out, ranges, offset)) == total_length(out) + total_length(
            ranges,
        ),
    decreases ranges.len(),
{
    if ranges.len() > 0 {
        let front = ranges.drop_last();
        assert forall|j: int| 0 <= j < front.len() implies (#[trigger] front[j]).start
            <= front[j].end && front[j].end + offset <= Length::MAX by {
            assert(front[j] == ranges[j]);
        }
        lemma_appended_all_total(out, front, offset);
        assert(ranges[ranges.len() - 1].start <= ranges.last().end);
        lemma_appended_total(appended_all(out, front, offset), shifted(ranges.last(), offset));
    }
}

/// The offsets of a chain that fits are the sums of the lengths before.
pub proof fn lemma_chain_offset(chain: Seq<(Length, Seq<Range>)>, n: int)
    requires
        0 <= n <= chain.len(),
        chain_length(chain, chain.len() as int) <= Length::MAX,
    ensures
        chain_offset(chain, n) == chain_length(chain, n),
        chain_length(chain, n) <= chain_length(chain, chain.len() as int),
    decreases chain.len() - n,
{
    if n < chain.len() {
        lemma_chain_offset(chain, n + 1);
    }
    lemma_chain_prefix(chain, n);
}

/// The first `n` mini-edges of a chain are together as long as their
/// lengths add up to, step by step.
pub proof fn lemma_chain_prefix(chain: Seq<(Length, Seq<Range>)>, n: int)
    requires
        0 <= n <= chain.len(),
        chain_length(chain, n) <= Length::MAX,
    ensures
        chain_offset(chain, n) == chain_length(chain, n),
    decreases n,
{
    if n > 0 {
        lemma_chain_prefix(chain, n - 1);
    }
}

/// Putting the ranges of a chain together keeps the total of their
/// lengths: the merged ranges cover as much as the ranges of the
/// mini-edges cover together.
pub proof fn lemma_merged_total(chain: Seq<(Length, Seq<Range>)>, n: int)
    requires
        0 <= n <= chain.len(),
        chain_fits(chain),
    ensures
        total_length(merged(chain, n)) == covered(chain, n),
    decreases n,
{
    if n > 0 {
        lemma_merged_total(chain, n - 1);
        let ranges = chain[n - 1].1;
        let sorted = by_start(ranges);
        let offset = chain_offset(chain, n - 1);
        lemma_by_start(ranges);
        lemma_chain_offset(chain, n - 1);
        lemma_chain_offset(chain, n);
        assert forall|j: int| 0 <= j < sorted.len() implies (#[trigger] sorted[j]).start
            <= sorted[j].end && sorted[j].end + offset <= Length::MAX by {
            let k = choose|k: int| 0 <= k < ranges.len() && ranges[k] == sorted[j];
            assert(chain[n - 1].1[k].end <= chain[n - 1].0);
        }
        lemma_appended_all_total(merged(chain, n - 1), sorted, offset);
    }
}

/// Where the ranges of every mini-edge of a chain cover the mini-edge, the
/// merged ranges cover as much as the mini-edges are long together.
pub proof fn lemma_merged_covers(chain: Seq<(Length, Seq<Range>)>)
    requires
        chain_fits(chain),
        forall|i: int| 0 <= i < chain.len() ==> total_length(#[trigger] chain[i].1) == chain[i].0,
    ensures
        total_length(merged(chain, chain.len() as int)) == chain_length(
            chain,
            chain.len() as int,
        ),
{
    lemma_merged_total(chain, chain.len() as int);
    lemma_covered_full(chain, chain.len() as int);
}

/// Where the ranges of every mini-edge cover the mini-edge, the ranges of
/// the first `n` mini-edges cover as much as these are long together.
pub proof fn lemma_covered_full(chain: Seq<(Length, Seq<Range>)>, n: int)
    requires
        0 <= n <= chain.len(),
        forall|i: int| 0 <= i < chain.len() ==> total_length(#[trigger] chain[i].1) == chain[i].0,
    ensures
        covered(chain, n) == chain_length(chain, n),
    decreases n,
{
    if n > 0 {
        lemma_covered_full(chain, n - 1);
        assert(total_length(chain[n - 1].1) == chain[n - 1].0);
    }
}

/// A list that is apart stays apart when a range is put into it that
/// shares no point with a range of its centroid.
pub proof fn lemma_insert_apart(list: Seq<Range>, at: int, r: Range)
    requires
        0 <= at <= list.len(),
        apart(list),
        forall|i: int, x: int|
            0 <= i < list.len() && list[i].centroid_id == r.centroid_id && #[trigger] within(
                list[i],
                x,
            ) ==> !within(r, x),
    ensures
        apart(list.insert(at, r)),
{
    let out = list.insert(at, r);
    assert forall|i: int, j: int, x: int|
        #![trigger within(out[i], x), within(out[j], x)]
        0 <= i < out.len() && 0 <= j < out.len() && i != j && out[i].centroid_id
            == out[j].centroid_id && within(out[i], x) implies !within(out[j], x) by {
        let fi = if i < at {
            i
        } else {
            i - 1
        };
        let fj = if j < at {
            j
        } else {
            j - 1
        };
        if i == at {
            assert(out[j] == list[fj]);
            if within(out[j], x) {
                assert(within(list[fj], x));
            }
        } else if j == at {
            assert(out[i] == list[fi]);
            assert(within(list[fi], x));
        } else {
            assert(out[i] == list[fi] && out[j] == list[fj]);
            if within(out[j], x) {
                assert(within(list[fi], x) && within(list[fj], x));
            }
        }
    }
}

/// Putting ranges in order of start keeps them apart and upright, and
/// keeps what every centroid holds.
pub proof fn lemma_by_start_apart(list: Seq<Range>)
    requires
        apart(list),
        upright(list),
    ensures
        apart(by_start(list)),
        upright(by_start(list)),
        forall|c: CentroidId, x: int| holds(by_start(list), c, x) <==> holds(list, c, x),
    decreases list.len(),
{
    if list.len() > 0 {
        let head = list.drop_last();
        let last = list.last();
        assert(apart(head)) by {
            assert forall|i: int, j: int, x: int|
                #![trigger within(head[i], x), within(head[j], x)]
                0 <= i < head.len() && 0 <= j < head.len() && i != j && head[i].centroid_id
                    == head[j].centroid_id && within(head[i], x) implies !within(head[j], x) by {
                assert(head[i] == list[i] && head[j] == list[j]);
                if within(head[j], x) {
                    assert(within(list[i], x) && within(list[j], x));
                }
            }
        }
        assert(upright(head)) by {
            assert forall|i: int| 0 <= i < head.len() implies (#[trigger] head[i]).start
                <= head[i].end by {
                assert(head[i] == list[i]);
            }
        }
        lemma_by_start_apart(head);
        lemma_by_start(head);
        let front = by_start(head);
        let at = place_for(front, last.start);
        lemma_place_for(front, last.start);
        let out = front.insert(at, last);
        assert forall|i: int, x: int|
            0 <= i < front.len() && front[i].centroid_id == last.centroid_id && #[trigger] within(
                front[i],
                x,
            ) implies !within(last, x) by {
            let j = choose|j: int| 0 <= j < head.len() && head[j] == front[i];
            assert(list[j] == front[i]);
            if within(last, x) {
                assert(within(list[j], x) && within(list[list.len() - 1], x));
            }
        }
        lemma_insert_apart(front, at, last);
        assert forall|i: int| 0 <= i < out.len() implies (#[trigger] out[i]).start
            <= out[i].end by {
            if i < at {
                assert(out[i] == front[i]);
            } else if i > at {
                assert(out[i] == front[i - 1]);
            } else {
                assert(out[i] == list[list.len() - 1]);
            }
        }
        assert forall|c: CentroidId, x: int| holds(out, c, x) <==> holds(list, c, x) by {
            if holds(out, c, x) {
                let i = choose|i: int|
                    0 <= i < out.len() && out[i].centroid_id == c && within(out[i], x);
                if i == at {
                    assert(list[list.len() - 1] == out[i]);
                } else {
                    let fi = if i < at {
                        i
                    } else {
                        i - 1
                    };
                    assert(out[i] == front[fi]);
                    assert(holds(front, c, x));
                    assert(holds(head, c, x));
                    let j = choose|j: int|
                        0 <= j < head.len() && head[j].centroid_id == c && within(head[j], x);
                    assert(list[j] == head[j]);
                }
            }
            if holds(list, c, x) {
                let j = choose|j: int|
                    0 <= j < list.len() && list[j].centroid_id == c && within(list[j], x);
                if j == list.len() - 1 {
                    assert(out[at] == list[j]);
                } else {
                    assert(head[j] == list[j]);
                    assert(holds(head, c, x));
                    assert(holds(front, c, x));
                    let i = choose|i: int|
                        0 <= i < front.len() && front[i].centroid_id == c && within(front[i], x);
                    if i < at {
                        assert(out[i] == front[i]);
                    } else {
                        assert(out[i + 1] == front[i]);
                    }
                }
            }
        }
    }
}

/// Adding a range that shares no point with the ranges of its centroid
/// keeps a list apart and upright, and gives the centroid the points of the
/// range.
pub proof fn lemma_appended_apart(out: Seq<Range>, r: Range)
    requires
        apart(out),
        upright(out),
        r.start <= r.end,
        forall|x: int| within(r, x) ==> !holds(out, r.centroid_id, x),
    ensures
        apart(appended(out, r)),
        upright(appended(out, r)),
        forall|c: CentroidId, x: int|
            #![trigger holds(appended(out, r), c, x)]
            holds(appended(out, r), c, x) <==> (holds(out, c, x) || (c == r.centroid_id && within(
                r,
                x,
            ))),
{
    let next = appended(out, r);
    if out.len() > 0 && out.last().centroid_id == r.centroid_id && out.last().end == r.start {
        let last = out.last();
        let n = out.len() - 1;
        assert(out[n] == last);
        assert(last.start <= last.end);
        assert forall|i: int| 0 <= i < next.len() implies (#[trigger] next[i]).start
            <= next[i].end by {
            if i < n {
                assert(next[i] == out[i]);
            }
        }
        assert forall|c: CentroidId, x: int|
            holds(next, c, x) <==> (holds(out, c, x) || (c == r.centroid_id && within(r, x))) by {
            if holds(next, c, x) {
                let i = choose|i: int|
                    0 <= i < next.len() && next[i].centroid_id == c && within(next[i], x);
                if i < n {
                    assert(out[i] == next[i]);
                } else {
                    if !within(r, x) {
                        assert(within(out[n], x));
                    }
                }
            }
            if holds(out, c, x) {
                let i = choose|i: int|
                    0 <= i < out.len() && out[i].centroid_id == c && within(out[i], x);
                if i < n {
                    assert(next[i] == out[i]);
                } else {
                    assert(within(next[n], x));
                }
            }
            if c == r.centroid_id && within(r, x) {
                assert(within(next[n], x));
            }
        }
        assert forall|i: int, j: int, x: int|
            #![trigger within(next[i], x), within(next[j], x)]
            0 <= i < next.len() && 0 <= j < next.len() && i != j && next[i].centroid_id
                == next[j].centroid_id && within(next[i], x) implies !within(next[j], x) by {
            if within(next[j], x) {
                let k = if i < n {
                    i
                } else {
                    j
                };
                assert(next[k] == out[k]);
                assert(within(out[k], x));
                assert(holds(out, r.centroid_id, x));
                if within(r, x) {
                } else {
                    assert(within(out[n], x));
                }
            }
        }
    } else {
        let n = out.len() as int;
        assert forall|i: int| 0 <= i < next.len() implies (#[trigger] next[i]).start
            <= next[i].end by {
            if i < n {
                assert(next[i] == out[i]);
            }
        }
        assert forall|c: CentroidId, x: int|
            holds(next, c, x) <==> (holds(out, c, x) || (c == r.centroid_id && within(r, x))) by {
            if holds(next, c, x) {
                let i = choose|i: int|
                    0 <= i < next.len() && next[i].centroid_id == c && within(next[i], x);
                if i < n {
                    assert(out[i] == next[i]);
                }
            }
            if holds(out, c, x) {
                let i = choose|i: int|
                    0 <= i < out.len() && out[i].centroid_id == c && within(out[i], x);
                assert(next[i] == out[i]);
            }
            if c == r.centroid_id && within(r, x) {
                assert(next[n] == r);
            }
        }
        assert forall|i: int, j: int, x: int|
            #![trigger within(next[i], x), within(next[j], x)]
            0 <= i < next.len() && 0 <= j < next.len() && i != j && next[i].centroid_id
                == next[j].centroid_id && within(next[i], x) implies !within(next[j], x) by {
            if within(next[j], x) {
                if i < n && j < n {
                    assert(next[i] == out[i] && next[j] == out[j]);
                    assert(within(out[i], x) && within(out[j], x));
                } else {
                    let k = if i < n {
                        i
                    } else {
                        j
                    };
                    assert(next[k] == out[k]);
                    assert(within(out[k], x));
                    assert(holds(out, r.centroid_id, x));
                }
            }
        }
    }
}

/// Adding the ranges of a mini-edge, which are apart and lie beyond what
/// the list holds, keeps the list apart and upright; what the list holds
/// then is what it held and what the moved ranges hold.
pub proof fn lemma_appended_all_apart(out: Seq<Range>, ranges: Seq<Range>, offset: Length)
    requires
        apart(out),
        upright(out),
        apart(ranges),
        upright(ranges),
        forall|j: int| 0 <= j < ranges.len() ==> (#[trigger] ranges[j]).end + offset <= Length::MAX,
        forall|c: CentroidId, x: int| holds(out, c, x) ==> x < offset,
    ensures
        apart(appended_all(out, ranges, offset)),
        upright(appended_all(out, ranges, offset)),
        forall|c: CentroidId, x: int|
            #![trigger holds(appended_all(out, ranges, offset), c, x)]
            holds(appended_all(out, ranges, offset), c, x) <==> (holds(out, c, x) || holds(
                ranges,
                c,
                x - offset,
            )),
    decreases ranges.len(),
{
    if ranges.len() > 0 {
        let front = ranges.drop_last();
        let last = ranges.last();
        let n = ranges.len() - 1;
        assert(ranges[n] == last);
        assert(apart(front)) by {
            assert forall|i: int, j: int, x: int|
                #![trigger within(front[i], x), within(front[j], x)]
                0 <= i < front.len() && 0 <= j < front.len() && i != j && front[i].centroid_id
                    == front[j].centroid_id && within(front[i], x) implies !within(
                front[j],
                x,
            ) by {
                assert(front[i] == ranges[i] && front[j] == ranges[j]);
                if within(front[j], x) {
                    assert(within(ranges[i], x) && within(ranges[j], x));
                }
            }
        }
        assert forall|j: int| 0 <= j < front.len() implies (#[trigger] front[j]).start
            <= front[j].end && front[j].end + offset <= Length::MAX by {
            assert(front[j] == ranges[j]);
        }
        lemma_appended_all_apart(out, front, offset);
        let before = appended_all(out, front, offset);
        let moved = shifted(last, offset);
        assert(last.start <= last.end && last.end + offset <= Length::MAX);
        assert(moved.start == last.start + offset && moved.end == last.end + offset);
        assert forall|x: int| within(moved, x) <==> within(last, x - offset) by {}
        assert forall|x: int| within(moved, x) implies !holds(before, moved.centroid_id, x) by {
            if holds(before, moved.centroid_id, x) {
                assert(holds(out, moved.centroid_id, x) || holds(
                    front,
                    moved.centroid_id,
                    x - offset,
                ));
                if holds(front, moved.centroid_id, x - offset) {
                    let i = choose|i: int|
                        0 <= i < front.len() && front[i].centroid_id == moved.centroid_id
                            && within(front[i], x - offset);
                    assert(front[i] == ranges[i]);
                    assert(within(ranges[i], x - offset) && within(ranges[n], x - offset));
                } else {
                    assert(x < offset);
                }
            }
        }
        lemma_appended_apart(before, moved);
        assert(appended_all(out, ranges, offset) == appended(before, moved));
        assert forall|c: CentroidId, x: int|
            #![trigger holds(appended_all(out, ranges, offset), c, x)]
            holds(appended_all(out, ranges, offset), c, x) <==> (holds(out, c, x) || holds(
                ranges,
                c,
                x - offset,
            )) by {
            assert(holds(appended(before, moved), c, x) <==> (holds(before, c, x) || (c
                == moved.centroid_id && within(moved, x))));
            assert(holds(before, c, x) <==> (holds(out, c, x) || holds(front, c, x - offset)));
            if c == moved.centroid_id && within(moved, x) {
                assert(within(ranges[n], x - offset));
            }
            if holds(front, c, x - offset) {
                let i = choose|i: int|
                    0 <= i < front.len() && front[i].centroid_id == c && within(
                        front[i],
                        x - offset,
                    );
                assert(ranges[i] == front[i]);
            }
            if holds(ranges, c, x - offset) {
                let i = choose|i: int|
                    0 <= i < ranges.len() && ranges[i].centroid_id == c && within(
                        ranges[i],
                        x - offset,
                    );
                if i < n {
                    assert(front[i] == ranges[i]);
                }
            }
        }
    }
}

/// Where the ranges of every mini-edge of a chain are apart, the ranges of
/// the chain put together are apart: no point of the edge that was cut is
/// held twice by a centroid. They are upright, and they lie within what
/// the mini-edges are long together.
pub proof fn lemma_merged_apart(chain: Seq<(Length, Seq<Range>)>, n: int)
    requires
        0 <= n <= chain.len(),
        chain_fits(chain),
        forall|i: int| 0 <= i < chain.len() ==> apart(#[trigger] chain[i].1),
    ensures
        apart(merged(chain, n)),
        upright(merged(chain, n)),
        forall|c: CentroidId, x: int| holds(merged(chain, n), c, x) ==> x < chain_offset(chain, n),
    decreases n,
{
    if n > 0 {
        lemma_merged_apart(chain, n - 1);
        let ranges = chain[n - 1].1;
        let sorted = by_start(ranges);
        let offset = chain_offset(chain, n - 1);
        lemma_chain_offset(chain, n - 1);
        lemma_chain_offset(chain, n);
        assert(upright(ranges)) by {
            assert forall|j: int| 0 <= j < ranges.len() implies (#[trigger] ranges[j]).start
                <= ranges[j].end by {
                assert(chain[n - 1].1[j].start <= chain[n - 1].1[j].end);
            }
        }
        lemma_by_start_apart(ranges);
        lemma_by_start(ranges);
        assert forall|j: int| 0 <= j < sorted.len() implies (#[trigger] sorted[j]).end + offset
            <= Length::MAX && sorted[j].end <= chain[n - 1].0 by {
            let k = choose|k: int| 0 <= k < ranges.len() && ranges[k] == sorted[j];
            assert(chain[n - 1].1[k].end <= chain[n - 1].0);
        }
        lemma_appended_all_apart(merged(chain, n - 1), sorted, offset);
        assert(chain_offset(chain, n) == offset + chain[n - 1].0);
        assert forall|c: CentroidId, x: int| holds(merged(chain, n), c, x) implies x
            < chain_offset(chain, n) by {
            assert(holds(merged(chain, n - 1), c, x) || holds(sorted, c, x - offset));
            if holds(sorted, c, x - offset) {
                let i = choose|i: int|
                    0 <= i < sorted.len() && sorted[i].centroid_id == c && within(
                        sorted[i],
                        x - offset,
                    );
                assert(sorted[i].end <= chain[n - 1].0);
            }
        }
    }
}

/// Centroid `c` holds the point `x` of the edge that was cut on one of the
/// first `n` mini-edges of the chain: on the mini-edge, at the distance of
/// `x` from the start of the mini-edge.
pub open spec fn holds_on_chain(
    chain: Seq<(Length, Seq<Range>)>,
    n: int,
    c: CentroidId,
    x: int,
) -> bool {
    exists|i: int|
        0 <= i < n && holds((#[trigger] chain[i]).1, c, x - chain_offset(chain, i))
}

/// What putting a chain together means for the points: a centroid holds a
/// point of the edge that was cut exactly if it holds the point on one of
/// the mini-edges.
pub proof fn lemma_merged_holds(chain: Seq<(Length, Seq<Range>)>, n: int, c: CentroidId, x: int)
    requires
        0 <= n <= chain.len(),
        chain_fits(chain),
        forall|i: int| 0 <= i < chain.len() ==> apart(#[trigger] chain[i].1),
    ensures
        holds(merged(chain, n), c, x) <==> holds_on_chain(chain, n, c, x),
    decreases n,
{
    if n > 0 {
        lemma_merged_holds(chain, n - 1, c, x);
        lemma_merged_apart(chain, n - 1);
        let ranges = chain[n - 1].1;
        let sorted = by_start(ranges);
        let offset = chain_offset(chain, n - 1);
        lemma_chain_offset(chain, n - 1);
        lemma_chain_offset(chain, n);
        assert(upright(ranges)) by {
            assert forall|j: int| 0 <= j < ranges.len() implies (#[trigger] ranges[j]).start
                <= ranges[j].end by {
                assert(chain[n - 1].1[j].start <= chain[n - 1].1[j].end);
            }
        }
        lemma_by_start_apart(ranges);
        lemma_by_start(ranges);
        assert forall|j: int| 0 <= j < sorted.len() implies (#[trigger] sorted[j]).end + offset
            <= Length::MAX by {
            let k = choose|k: int| 0 <= k < ranges.len() && ranges[k] == sorted[j];
            assert(chain[n - 1].1[k].end <= chain[n - 1].0);
        }
        lemma_appended_all_apart(merged(chain, n - 1), sorted, offset);
        assert(holds(merged(chain, n), c, x) <==> (holds(merged(chain, n - 1), c, x) || holds(
            sorted,
            c,
            x - offset,
        )));
        assert(holds(sorted, c, x - offset) <==> holds(ranges, c, x - offset));
        if holds_on_chain(chain, n, c, x) {
            let i = choose|i: int|
                0 <= i < n && holds((#[trigger] chain[i]).1, c, x - chain_offset(chain, i));
            if i < n - 1 {
                assert(holds_on_chain(chain, n - 1, c, x));
            }
        }
        if holds_on_chain(chain, n - 1, c, x) {
            let i = choose|i: int|
                0 <= i < n - 1 && holds((#[trigger] chain[i]).1, c, x - chain_offset(chain, i));
            assert(0 <= i < n);
        }
        if holds(ranges, c, x - offset) {
            assert(holds(chain[n - 1].1, c, x - chain_offset(chain, n - 1)));
        }
    } else {
        assert(!holds(merged(chain, 0), c, x));
    }
}

/// A chain whose mini-edges hold more, holds more when it is put
/// together: where two chains have the same mini-edges, and a centroid
/// holds on each mini-edge of the second every point that it holds on the
/// first, it holds on the second edge that was cut every point that it
/// holds on the first.
pub proof fn lemma_merged_grows(
    less: Seq<(Length, Seq<Range>)>,
    more: Seq<(Length, Seq<Range>)>,
    c: CentroidId,
    x: int,
)
    requires
        less.len() == more.len(),
        chain_fits(less),
        chain_fits(more),
        forall|i: int| 0 <= i < less.len() ==> apart(#[trigger] less[i].1),
        forall|i: int| 0 <= i < more.len() ==> apart(#[trigger] more[i].1),
        forall|i: int| 0 <= i < less.len() ==> (#[trigger] less[i]).0 == more[i].0,
        forall|i: int, y: int|
            0 <= i < less.len() && #[trigger] holds(less[i].1, c, y) ==> holds(more[i].1, c, y),
        holds(merged(less, less.len() as int), c, x),
    ensures
        holds(merged(more, more.len() as int), c, x),
{
    let n = less.len() as int;
    lemma_merged_holds(less, n, c, x);
    lemma_merged_holds(more, n, c, x);
    let i = choose|i: int|
        0 <= i < n && holds((#[trigger] less[i]).1, c, x - chain_offset(less, i));
    lemma_same_offsets(less, more, i);
    assert(holds(more[i].1, c, x - chain_offset(more, i)));
}

/// Chains with the same mini-edges have the same offsets.
pub proof fn lemma_same_offsets(a: Seq<(Length, Seq<Range>)>, b: Seq<(Length, Seq<Range>)>, n: int)
    requires
        a.len() == b.len(),
        0 <= n <= a.len(),
        forall|i: int| 0 <= i < a.len() ==> (#[trigger] a[i]).0 == b[i].0,
    ensures
        chain_offset(a, n) == chain_offset(b, n),
    decreases n,
{
    if n > 0 {
        lemma_same_offsets(a, b, n - 1);
        assert(a[n - 1].0 == b[n - 1].0);
    }
}

/// The ranges of `list` in order of start; ranges with the same start keep
/// their order.
pub fn sort_by_start(list: &Vec<Range>) -> (sorted: Vec<Range>)
    ensures
        sorted@ == by_start(list@),
{
    let mut sorted: Vec<Range> = Vec::new();
    let mut i: usize = 0;
    while i < list.len()
        invariant
            i <= list.len(),
            sorted@ == by_start(list@.take(i as int)),
        decreases list.len() - i,
    {
        let r = list[i];
        let mut at: usize = 0;
        while at < sorted.len() && sorted[at].start <= r.start
            invariant
                at <= sorted.len(),
                forall|j: int| 0 <= j < at ==> sorted@[j].start <= r.start,
            decreases sorted.len() - at,
        {
            at += 1;
        }
        proof {
            lemma_place_for_is(sorted@, r.start, at as int);
            assert(list@.take(i + 1).drop_last() =~= list@.take(i as int));
        }
        sorted.insert(at, r);
        i += 1;
    }
    proof {
        assert(list@.take(i as int) =~= list@);
    }
    sorted
}

/// Adds `r` to `out`: as one range with the last range where that one
/// belongs to the same centroid and ends where `r` starts, else at the end.
pub fn append_range(out: &mut Vec<Range>, r: Range)
    ensures
        final(out)@ == appended(old(out)@, r),
{
    let n = out.len();
    if n > 0 && out[n - 1].centroid_id == r.centroid_id && out[n - 1].end == r.start {
        let start = out[n - 1].start;
        out[n - 1] = Range { start, end: r.end, centroid_id: r.centroid_id };
        proof {
            assert(out@ =~= appended(old(out)@, r));
        }
    } else {
        out.push(r);
    }
}

/// Adds the ranges of one mini-edge to `out`, in order of start and moved
/// by `offset`.
pub fn append_ranges(out: &mut Vec<Range>, ranges: &Vec<Range>, offset: Length)
    ensures
        final(out)@ == appended_all(old(out)@, by_start(ranges@), offset),
{
    let sorted = sort_by_start(ranges);
    let mut i: usize = 0;
    while i < sorted.len()
        invariant
            i <= sorted.len(),
            sorted@ == by_start(ranges@),
            out@ == appended_all(old(out)@, sorted@.take(i as int), offset),
        decreases sorted.len() - i,
    {
        let r = sorted[i];
        proof {
            assert(sorted@.take(i + 1).drop_last() =~= sorted@.take(i as int));
            assert(sorted@.take(i + 1).last() == r);
        }
        append_range(
            out,
            Range {
                start: add_cost(r.start, offset),
                end: add_cost(r.end, offset),
                centroid_id: r.centroid_id,
            },
        );
        i += 1;
    }
    proof {
        assert(sorted@.take(i as int) =~= sorted@);
    }
}

} // verus!
