//! The dimensions that a set of queries asks for, and the pairs of them.

use vstd::prelude::*;

verus! {

/// Two dimensions, the smaller first.
#[derive(Clone, Copy, Debug, PartialEq, Eq, Structural)]
pub struct Pair(pub usize, pub usize);

/// The place of `d` in an ascending list: the index of the first entry
/// that is not below `d`, or the length of the list.
pub open spec fn seat_for(dims: Seq<usize>, d: usize) -> int
    decreases dims.len(),
{
    if dims.len() == 0 {
        0
    } else if dims[0] >= d {
        0
    } else {
        1 + seat_for(dims.drop_first(), d)
    }
}

/// `dims` with `d` at its place, unless `d` stands there already.
pub open spec fn with_dimension(dims: Seq<usize>, d: usize) -> Seq<usize> {
    let at = seat_for(dims, d);
    if at < dims.len() && dims[at] == d {
        dims
    } else {
        dims.insert(at, d)
    }
}

/// `dims` with each of `more` at its place, each once.
pub open spec fn with_dimensions(dims: Seq<usize>, more: Seq<usize>) -> Seq<usize>
    decreases more.len(),
{
    if more.len() == 0 {
        dims
    } else {
        with_dimension(with_dimensions(dims, more.drop_last()), more.last())
    }
}

/// The dimensions that the first `n` queries ask for, each once, in
/// ascending order.
pub open spec fn dimensions_of(queries: Seq<Seq<usize>>, n: int) -> Seq<usize>
    decreases n,
{
    if n <= 0 {
        Seq::empty()
    } else {
        with_dimensions(dimensions_of(queries, n - 1), queries[n - 1])
    }
}

/// The pairs of `first` with each of `dims` from index `from` on.
pub open spec fn pairs_with(first: usize, dims: Seq<usize>, from: int) -> Seq<Pair>
    decreases dims.len() - from,
{
    if from >= dims.len() || from < 0 {
        Seq::empty()
    } else {
        seq![Pair(first, dims[from])] + pairs_with(first, dims, from + 1)
    }
}

/// The pairs of the dimensions of `dims` from index `from` on: each
/// dimension with each dimension after it, by the first and then by the
/// second.
pub open spec fn pairs_of(dims: Seq<usize>, from: int) -> Seq<Pair>
    decreases dims.len() - from,
{
    if from >= dims.len() || from < 0 {
        Seq::empty()
    } else {
        pairs_with(dims[from], dims, from + 1) + pairs_of(dims, from + 1)
    }
}

/// The entries of `dims` stand in strictly ascending order.
pub open spec fn ascending(dims: Seq<usize>) -> bool {
    forall|i: int, j: int| 0 <= i < j < dims.len() ==> dims[i] < dims[j]
}

/// The seat for a dimension is within the list; every entry before it is
/// below the dimension, and the entry at it is not.
pub proof fn lemma_seat_for(dims: Seq<usize>, d: usize)
    ensures
        0 <= seat_for(dims, d) <= dims.len(),
        forall|j: int| 0 <= j < seat_for(dims, d) ==> dims[j] < d,
        seat_for(dims, d) < dims.len() ==> dims[seat_for(dims, d)] >= d,
    decreases dims.len(),
{
    if dims.len() > 0 && dims[0] < d {
        let rest = dims.drop_first();
        lemma_seat_for(rest, d);
        assert forall|j: int| 0 <= j < seat_for(dims, d) implies dims[j] < d by {
            if j > 0 {
                assert(dims[j] == rest[j - 1]);
            }
        }
        if seat_for(dims, d) < dims.len() {
            assert(dims[seat_for(dims, d)] == rest[seat_for(rest, d)]);
        }
    }
}

/// An index before which every entry is below `d`, and at which the entry
/// is not or the list ends, is the seat for `d`.
pub proof fn lemma_seat_for_is(dims: Seq<usize>, d: usize, i: int)
    requires
        0 <= i <= dims.len(),
        forall|j: int| 0 <= j < i ==> dims[j] < d,
        i < dims.len() ==> dims[i] >= d,
    ensures
        seat_for(dims, d) == i,
    decreases dims.len(),
{
    if dims.len() > 0 && dims[0] < d {
        let rest = dims.drop_first();
        if i == 0 {
            assert(dims[0] >= d);
        }
        assert forall|j: int| 0 <= j < i - 1 implies rest[j] < d by {
            assert(rest[j] == dims[j + 1]);
        }
        if i < dims.len() {
            assert(rest[i - 1] == dims[i]);
        }
        lemma_seat_for_is(rest, d, i - 1);
    } else if dims.len() > 0 {
        if i > 0 {
            assert(dims[0] < d);
        }
    }
}

/// An ascending list with a dimension at its place is ascending and holds
/// the dimension and what it held.
pub proof fn lemma_with_dimension(dims: Seq<usize>, d: usize)
    requires
        ascending(dims),
    ensures
        ascending(with_dimension(dims, d)),
        forall|x: usize| with_dimension(dims, d).contains(x) <==> (dims.contains(x) || x == d),
{
    lemma_seat_for(dims, d);
    let at = seat_for(dims, d);
    let out = with_dimension(dims, d);
    if at < dims.len() && dims[at] == d {
        assert forall|x: usize| out.contains(x) <==> (dims.contains(x) || x == d) by {
            if x == d {
                assert(dims[at] == x);
            }
        }
    } else {
        assert forall|i: int, j: int| 0 <= i < j < out.len() implies out[i] < out[j] by {
            if i == at {
                assert(out[j] == dims[j - 1]);
                if j - 1 > at {
                    assert(dims[at] < dims[j - 1]);
                }
            } else if j == at {
                assert(out[i] == dims[i]);
            } else {
                let fi = if i < at {
                    i
                } else {
                    i - 1
                };
                let fj = if j < at {
                    j
                } else {
                    j - 1
                };
                assert(out[i] == dims[fi] && out[j] == dims[fj]);
            }
        }
        assert forall|x: usize| out.contains(x) <==> (dims.contains(x) || x == d) by {
            if out.contains(x) {
                let i = choose|i: int| 0 <= i < out.len() && out[i] == x;
                if i < at {
                    assert(dims[i] == x);
                } else if i > at {
                    assert(dims[i - 1] == x);
                }
            }
            if dims.contains(x) {
                let i = choose|i: int| 0 <= i < dims.len() && dims[i] == x;
                if i < at {
                    assert(out[i] == x);
                } else {
                    assert(out[i + 1] == x);
                }
            }
            if x == d {
                assert(out[at] == x);
            }
        }
    }
}

/// The queries of a search, each a list of dimensions.
pub struct Multiqueries(Vec<Vec<usize>>);

/// The lists of a vector as sequences.
pub open spec fn lists_of(v: Seq<Vec<usize>>) -> Seq<Seq<usize>> {
    Seq::new(v.len(), |i: int| v[i]@)
}

impl View for Multiqueries {
    type V = Seq<Seq<usize>>;

    closed spec fn view(&self) -> Seq<Seq<usize>> {
        lists_of(self.0@)
    }
}

impl Multiqueries {
    /// No queries.
    pub fn new() -> (m: Multiqueries)
        ensures
            m@ == Seq::<Seq<usize>>::empty(),
    {
        let m = Multiqueries(Vec::new());
        proof {
            assert(m@ =~= Seq::<Seq<usize>>::empty());
        }
        m
    }

    /// Adds a query, after the queries that are there.
    pub fn insert(&mut self, query: Vec<usize>)
        ensures
            final(self)@ == old(self)@.push(query@),
    {
        self.0.push(query);
        proof {
            assert(self@ =~= old(self)@.push(query@));
        }
    }

    /// The dimensions that the queries ask for, each once, in ascending
    /// order.
    pub fn dimensions(&self) -> (dims: Vec<usize>)
        ensures
            dims@ == dimensions_of(self@, self@.len() as int),
            ascending(dims@),
    {
        let mut dims: Vec<usize> = Vec::new();
        let mut q: usize = 0;
        while q < self.0.len()
            invariant
                q <= self.0.len(),
                dims@ == dimensions_of(self@, q as int),
                ascending(dims@),
            decreases self.0.len() - q,
        {
            let query = &self.0[q];
            let ghost base = dims@;
            let mut i: usize = 0;
            while i < query.len()
                invariant
                    i <= query.len(),
                    dims@ == with_dimensions(base, query@.take(i as int)),
                    ascending(dims@),
                decreases query.len() - i,
            {
                let d = query[i];
                let mut at: usize = 0;
                while at < dims.len() && dims[at] < d
                    invariant
                        at <= dims.len(),
                        forall|j: int| 0 <= j < at ==> dims@[j] < d,
                    decreases dims.len() - at,
                {
                    at += 1;
                }
                proof {
                    lemma_seat_for_is(dims@, d, at as int);
                    lemma_with_dimension(dims@, d);
                    assert(query@.take(i + 1).drop_last() =~= query@.take(i as int));
                }
                if !(at < dims.len() && dims[at] == d) {
                    dims.insert(at, d);
                }
                i += 1;
            }
            proof {
                assert(query@.take(i as int) =~= query@);
                assert(self@[q as int] == query@);
            }
            q += 1;
        }
        dims
    }

    /// The pairs of the dimensions that the queries ask for: each dimension
    /// with each larger one, by the first and then by the second.
    pub fn pairs(&self) -> (pairs: Vec<Pair>)
        ensures
            pairs@ == pairs_of(dimensions_of(self@, self@.len() as int), 0),
    {
        let dims = self.dimensions();
        let mut pairs: Vec<Pair> = Vec::new();
        let n = dims.len();
        let mut i: usize = 0;
        proof {
            assert(pairs@ + pairs_of(dims@, 0) =~= pairs_of(dims@, 0));
        }
        while i < n
            invariant
                i <= n,
                n == dims@.len(),
                pairs@ + pairs_of(dims@, i as int) == pairs_of(dims@, 0),
            decreases n - i,
        {
            let ghost before = pairs@;
            let mut j: usize = i + 1;
            proof {
                assert(before + pairs_with(dims@[i as int], dims@, i + 1) =~= pairs@
                    + pairs_with(dims@[i as int], dims@, j as int));
            }
            while j < n
                invariant
                    i < j <= n,
                    n == dims@.len(),
                    pairs@ + pairs_with(dims@[i as int], dims@, j as int) == before + pairs_with(
                        dims@[i as int],
                        dims@,
                        i + 1,
                    ),
                decreases n - j,
            {
                let ghost so_far = pairs@;
                pairs.push(Pair(dims[i], dims[j]));
                proof {
                    let rest = pairs_with(dims@[i as int], dims@, j + 1);
                    assert(pairs@ + rest =~= so_far + (seq![Pair(dims@[i as int], dims@[j as int])]
                        + rest));
                }
                j += 1;
            }
            proof {
                assert(pairs_with(dims@[i as int], dims@, n as int) =~= Seq::<Pair>::empty());
                assert(pairs@ =~= before + pairs_with(dims@[i as int], dims@, i + 1));
                assert(pairs@ + pairs_of(dims@, i + 1) =~= before + (pairs_with(
                    dims@[i as int],
                    dims@,
                    i + 1,
                ) + pairs_of(dims@, i + 1)));
            }
            i += 1;
        }
        proof {
            assert(pairs_of(dims@, n as int) =~= Seq::<Pair>::empty());
            assert(pairs@ =~= pairs@ + pairs_of(dims@, n as int));
        }
        pairs
    }
}

} // verus!
