//! Lists kept for edges: pairs of an edge id and a list, in the order in
//! which the edges were first recorded.

use crate::types::EdgeId;
use vstd::prelude::*;

verus! {

/// The lists of a sequence of pairs as sequences.
pub open spec fn recorded<T>(list: Seq<(EdgeId, Vec<T>)>) -> Seq<(EdgeId, Seq<T>)> {
    list.map_values(|p: (EdgeId, Vec<T>)| (p.0, p.1@))
}

/// The index of the first pair of `list` whose key is `key`: the length of
/// the list where there is none.
pub open spec fn record_index<T>(list: Seq<(EdgeId, Seq<T>)>, key: EdgeId) -> int
    decreases list.len(),
{
    if list.len() == 0 {
        0
    } else if list[0].0 == key {
        0
    } else {
        1 + record_index(list.drop_first(), key)
    }
}

/// The list that is recorded for `key`, if one is.
pub open spec fn record_of<T>(list: Seq<(EdgeId, Seq<T>)>, key: EdgeId) -> Option<Seq<T>> {
    if record_index(list, key) < list.len() {
        Some(list[record_index(list, key)].1)
    } else {
        None
    }
}

/// `list` with `ids` recorded for `key`: in place of the first list that
/// was recorded for the key, or at the end.
pub open spec fn with_record<T>(list: Seq<(EdgeId, Seq<T>)>, key: EdgeId, ids: Seq<T>) -> Seq<
    (EdgeId, Seq<T>),
> {
    if record_index(list, key) < list.len() {
        list.update(record_index(list, key), (key, ids))
    } else {
        list.push((key, ids))
    }
}

/// `list` with `item` added to the list that is recorded for `key`, or
/// recorded alone for a key that has no list.
pub open spec fn with_item<T>(list: Seq<(EdgeId, Seq<T>)>, key: EdgeId, item: T) -> Seq<
    (EdgeId, Seq<T>),
> {
    match record_of(list, key) {
        Some(items) => with_record(list, key, items.push(item)),
        None => with_record(list, key, seq![item]),
    }
}

/// The index of a key is within the list or its length; no pair before it
/// has the key, and the pair at it has.
pub proof fn lemma_record_index<T>(list: Seq<(EdgeId, Seq<T>)>, key: EdgeId)
    ensures
        0 <= record_index(list, key) <= list.len(),
        forall|j: int| 0 <= j < record_index(list, key) ==> list[j].0 != key,
        record_index(list, key) < list.len() ==> list[record_index(list, key)].0 == key,
    decreases list.len(),
{
    if list.len() > 0 && list[0].0 != key {
        let rest = list.drop_first();
        lemma_record_index(rest, key);
        assert forall|j: int| 0 <= j < record_index(list, key) implies list[j].0 != key by {
            if j > 0 {
                assert(list[j] == rest[j - 1]);
            }
        }
        if record_index(list, key) < list.len() {
            assert(list[record_index(list, key)] == rest[record_index(rest, key)]);
        }
    }
}

/// An index before which no pair has the key, and at which the key stands
/// or the list ends, is the index of the key.
pub proof fn lemma_record_index_is<T>(list: Seq<(EdgeId, Seq<T>)>, key: EdgeId, i: int)
    requires
        0 <= i <= list.len(),
        forall|j: int| 0 <= j < i ==> list[j].0 != key,
        i < list.len() ==> list[i].0 == key,
    ensures
        record_index(list, key) == i,
    decreases list.len(),
{
    if list.len() > 0 && list[0].0 != key {
        let rest = list.drop_first();
        assert forall|j: int| 0 <= j < i - 1 implies rest[j].0 != key by {
            assert(rest[j] == list[j + 1]);
        }
        if i < list.len() {
            assert(rest[i - 1] == list[i]);
        }
        lemma_record_index_is(rest, key, i - 1);
    } else if list.len() > 0 {
        if i > 0 {
            assert(list[0].0 != key);
        }
    }
}

/// A list that was recorded for a key is the list of the key.
pub proof fn lemma_with_record_same<T>(list: Seq<(EdgeId, Seq<T>)>, key: EdgeId, ids: Seq<T>)
    ensures
        record_of(with_record(list, key, ids), key) == Some(ids),
{
    lemma_record_index(list, key);
    let at = record_index(list, key);
    let out = with_record(list, key, ids);
    assert forall|j: int| 0 <= j < at implies out[j].0 != key by {
        assert(out[j] == list[j]);
    }
    lemma_record_index_is(out, key, at);
}

/// Recording a list for a key leaves the lists of the other keys as they
/// are.
pub proof fn lemma_with_record_other<T>(
    list: Seq<(EdgeId, Seq<T>)>,
    key: EdgeId,
    ids: Seq<T>,
    other: EdgeId,
)
    requires
        other != key,
    ensures
        record_of(with_record(list, key, ids), other) == record_of(list, other),
{
    lemma_record_index(list, key);
    lemma_record_index(list, other);
    let at = record_index(list, other);
    let out = with_record(list, key, ids);
    assert forall|j: int| 0 <= j < at implies out[j].0 != other by {
        if j != record_index(list, key) {
            assert(out[j] == list[j]);
        }
    }
    if at < list.len() {
        assert(out[at] == list[at]);
        lemma_record_index_is(out, other, at);
    } else {
        assert forall|j: int| 0 <= j < out.len() implies out[j].0 != other by {
            if j < list.len() && j != record_index(list, key) {
                assert(out[j] == list[j]);
            }
        }
        lemma_record_index_is(out, other, out.len() as int);
    }
}

/// What adding an item does to the list of its key.
pub proof fn lemma_with_item_same<T>(list: Seq<(EdgeId, Seq<T>)>, key: EdgeId, item: T)
    ensures
        record_of(with_item(list, key, item), key) == Some(
            match record_of(list, key) {
                Some(items) => items.push(item),
                None => seq![item],
            },
        ),
{
    match record_of(list, key) {
        Some(items) => lemma_with_record_same(list, key, items.push(item)),
        None => lemma_with_record_same(list, key, seq![item]),
    }
}

/// Adding an item for a key leaves the lists of the other keys as they
/// are.
pub proof fn lemma_with_item_other<T>(
    list: Seq<(EdgeId, Seq<T>)>,
    key: EdgeId,
    item: T,
    other: EdgeId,
)
    requires
        other != key,
    ensures
        record_of(with_item(list, key, item), other) == record_of(list, other),
{
    match record_of(list, key) {
        Some(items) => lemma_with_record_other(list, key, items.push(item), other),
        None => lemma_with_record_other(list, key, seq![item], other),
    }
}

/// No two pairs of `list` have the same key.
pub open spec fn distinct_keys<T>(list: Seq<(EdgeId, Seq<T>)>) -> bool {
    forall|i: int, j: int| 0 <= i < j < list.len() ==> list[i].0 != list[j].0
}

/// Where no key stands twice, the list of a key is the list of any pair
/// with the key.
pub proof fn lemma_record_at<T>(list: Seq<(EdgeId, Seq<T>)>, i: int)
    requires
        distinct_keys(list),
        0 <= i < list.len(),
    ensures
        record_index(list, list[i].0) == i,
        record_of(list, list[i].0) == Some(list[i].1),
{
    lemma_record_index(list, list[i].0);
    let at = record_index(list, list[i].0);
    if at < i {
        assert(list[at].0 != list[i].0);
    }
}

/// Recording a list for a key keeps the keys distinct.
pub proof fn lemma_with_record_keys<T>(list: Seq<(EdgeId, Seq<T>)>, key: EdgeId, ids: Seq<T>)
    requires
        distinct_keys(list),
    ensures
        distinct_keys(with_record(list, key, ids)),
{
    lemma_record_index(list, key);
    let out = with_record(list, key, ids);
    let at = record_index(list, key);
    assert forall|i: int, j: int| 0 <= i < j < out.len() implies out[i].0 != out[j].0 by {
        if at < list.len() {
            assert(out[i].0 == list[i].0 && out[j].0 == list[j].0);
        } else {
            if j < list.len() {
                assert(out[i] == list[i] && out[j] == list[j]);
            } else {
                assert(out[i] == list[i]);
            }
        }
    }
}

/// Recording an item keeps the keys of a list distinct.
pub proof fn lemma_with_item_keys<T>(list: Seq<(EdgeId, Seq<T>)>, key: EdgeId, item: T)
    requires
        distinct_keys(list),
    ensures
        distinct_keys(with_item(list, key, item)),
{
    match record_of(list, key) {
        Some(items) => lemma_with_record_keys(list, key, items.push(item)),
        None => lemma_with_record_keys(list, key, seq![item]),
    }
}

/// The index of the first pair of `list` whose key is `key`: the length of
/// the list where there is none.
pub fn find_record<T>(list: &Vec<(EdgeId, Vec<T>)>, key: EdgeId) -> (at: usize)
    ensures
        at == record_index(recorded(list@), key),
        at <= list@.len(),
        at < list@.len() ==> list@[at as int].0 == key,
{
    let mut at: usize = 0;
    while at < list.len() && list[at].0 != key
        invariant
            at <= list.len(),
            forall|j: int| 0 <= j < at ==> list@[j].0 != key,
        decreases list.len() - at,
    {
        at += 1;
    }
    proof {
        assert forall|j: int| 0 <= j < at implies recorded(list@)[j].0 != key by {}
        lemma_record_index_is(recorded(list@), key, at as int);
    }
    at
}

/// Records `ids` for `key`: in place of the first list that was recorded
/// for the key, or at the end.
pub fn put_record<T>(list: &mut Vec<(EdgeId, Vec<T>)>, key: EdgeId, ids: Vec<T>)
    ensures
        recorded(final(list)@) == with_record(recorded(old(list)@), key, ids@),
{
    let at = find_record(list, key);
    if at < list.len() {
        list[at] = (key, ids);
        proof {
            assert(recorded(list@) =~= with_record(recorded(old(list)@), key, ids@));
        }
    } else {
        list.push((key, ids));
        proof {
            assert(recorded(list@) =~= with_record(recorded(old(list)@), key, ids@));
        }
    }
}

/// Adds `item` to the list that is recorded for `key`, or records it
/// alone for a key that has no list.
pub fn add_item<T>(list: &mut Vec<(EdgeId, Vec<T>)>, key: EdgeId, item: T)
    ensures
        recorded(final(list)@) == with_item(recorded(old(list)@), key, item),
{
    let at = find_record(list, key);
    if at < list.len() {
        list[at].1.push(item);
        proof {
            assert(recorded(list@) =~= with_item(recorded(old(list)@), key, item));
        }
    } else {
        let mut items: Vec<T> = Vec::new();
        items.push(item);
        list.push((key, items));
        proof {
            assert(items@ =~= seq![item]);
            assert(recorded(list@) =~= with_item(recorded(old(list)@), key, item));
        }
    }
}

/// A second list with the same items.
pub fn copy_items<T: Copy>(items: &Vec<T>) -> (twin: Vec<T>)
    ensures
        twin@ == items@,
{
    let mut twin: Vec<T> = Vec::new();
    let mut i: usize = 0;
    while i < items.len()
        invariant
            i <= items.len(),
            twin@ == items@.take(i as int),
        decreases items.len() - i,
    {
        twin.push(items[i]);
        proof {
            assert(items@.take(i + 1) =~= items@.take(i as int).push(items@[i as int]));
        }
        i += 1;
    }
    proof {
        assert(items@.take(i as int) =~= items@);
    }
    twin
}

/// A second list with the same pairs.
pub fn copy_record<T: Copy>(list: &Vec<(EdgeId, Vec<T>)>) -> (twin: Vec<(EdgeId, Vec<T>)>)
    ensures
        recorded(twin@) == recorded(list@),
{
    let mut twin: Vec<(EdgeId, Vec<T>)> = Vec::new();
    let mut i: usize = 0;
    while i < list.len()
        invariant
            i <= list.len(),
            recorded(twin@) == recorded(list@.take(i as int)),
        decreases list.len() - i,
    {
        let ghost before = twin@;
        let pair = (list[i].0, copy_items(&list[i].1));
        twin.push(pair);
        proof {
            assert(recorded(twin@) =~= recorded(before).push((pair.0, pair.1@)));
            assert(recorded(list@.take(i + 1)) =~= recorded(list@.take(i as int)).push(
                (list@[i as int].0, list@[i as int].1@),
            ));
        }
        i += 1;
    }
    proof {
        assert(list@.take(i as int) =~= list@);
    }
    twin
}

/// For each edge that was cut, the edges that it was cut into.
#[derive(Debug)]
pub struct MapOldToNewEdges(Vec<(EdgeId, Vec<EdgeId>)>);

impl View for MapOldToNewEdges {
    type V = Seq<(EdgeId, Seq<EdgeId>)>;

    closed spec fn view(&self) -> Seq<(EdgeId, Seq<EdgeId>)> {
        recorded(self.0@)
    }
}

impl MapOldToNewEdges {
    /// A map without edges.
    pub fn new() -> (m: MapOldToNewEdges)
        ensures
            m@ == Seq::<(EdgeId, Seq<EdgeId>)>::empty(),
    {
        let m = MapOldToNewEdges(Vec::new());
        proof {
            assert(m@ =~= Seq::<(EdgeId, Seq<EdgeId>)>::empty());
        }
        m
    }

    /// Records that edge `cut` was cut into one more edge, `piece`.
    pub fn insert(&mut self, cut: EdgeId, piece: EdgeId)
        ensures
            final(self)@ == with_item(old(self)@, cut, piece),
    {
        add_item(&mut self.0, cut, piece);
    }

    /// The records, in the order in which the edges were first recorded.
    pub fn content(self) -> (list: Vec<(EdgeId, Vec<EdgeId>)>)
        ensures
            recorded(list@) == self@,
    {
        self.0
    }
}

} // verus!
