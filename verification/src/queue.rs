//! A priority queue that hands out the entry with the smallest price, and of
//! several such the one that came first.

use crate::types::Length;
use vstd::prelude::*;

verus! {

/// Something with a price, by which a queue orders it.
pub trait Priced {
    /// The price.
    spec fn price(&self) -> Length;

    /// The price.
    fn priced(&self) -> (p: Length)
        ensures
            p == self.price(),
    ;
}

/// The index of the entry that leaves the queue next: the first entry with
/// the smallest price. It is 0 for an empty queue.
pub open spec fn min_index<T: Priced>(queue: Seq<T>) -> int
    decreases queue.len(),
{
    if queue.len() <= 1 {
        0
    } else {
        let m = min_index(queue.drop_last());
        if queue.last().price() < queue[m].price() {
            queue.len() - 1
        } else {
            m
        }
    }
}

/// The entry at `min_index` costs no more than any entry, and less than any
/// entry before it.
pub proof fn lemma_min_index<T: Priced>(queue: Seq<T>)
    requires
        queue.len() > 0,
    ensures
        0 <= min_index(queue) < queue.len(),
        forall|i: int|
            0 <= i < queue.len()
                ==> queue[min_index(queue)].price() <= (#[trigger] queue[i]).price(),
        forall|i: int|
            0 <= i < min_index(queue) ==> queue[min_index(queue)].price() < (
            #[trigger] queue[i]).price(),
    decreases queue.len(),
{
    if queue.len() > 1 {
        let front = queue.drop_last();
        lemma_min_index(front);
        let m = min_index(front);
        assert(front[m] == queue[m]);
        assert forall|i: int| 0 <= i < queue.len() implies queue[min_index(queue)].price() <= (
        #[trigger] queue[i]).price() by {
            if i < front.len() {
                assert(front[i] == queue[i]);
            }
        }
        assert forall|i: int| 0 <= i < min_index(queue) implies queue[min_index(queue)].price() < (
        #[trigger] queue[i]).price() by {
            assert(front[i] == queue[i]);
        }
    }
}

/// Takes the entry with the smallest price out of the queue, the first of
/// them where several have it. The other entries keep their order.
pub fn pop_min<T: Priced>(queue: &mut Vec<T>) -> (taken: Option<T>)
    ensures
        old(queue)@.len() == 0 ==> taken.is_none() && final(queue)@ == old(queue)@,
        old(queue)@.len() > 0 ==> taken == Some(old(queue)@[min_index(old(queue)@)]),
        old(queue)@.len() > 0 ==> final(queue)@ == old(queue)@.remove(min_index(old(queue)@)),
{
    if queue.len() == 0 {
        return None;
    }
    let mut best: usize = 0;
    let mut i: usize = 1;
    while i < queue.len()
        invariant
            1 <= i <= queue.len(),
            *queue == *old(queue),
            best == min_index(queue@.take(i as int)),
            best < i,
        decreases queue.len() - i,
    {
        proof {
            assert(queue@.take(i + 1).drop_last() =~= queue@.take(i as int));
            assert(queue@.take(i + 1).last() == queue@[i as int]);
            assert(queue@.take(i + 1)[best as int] == queue@[best as int]);
        }
        if queue[i].priced() < queue[best].priced() {
            best = i;
        }
        i += 1;
    }
    proof {
        assert(queue@.take(i as int) =~= queue@);
    }
    Some(queue.remove(best))
}

} // verus!
