//! Maps keyed by packet identifiers, walked in ascending order.

use std::collections::BTreeMap;

use vstd::prelude::*;
use vstd::std_specs::cmp::OrdSpec;
use vstd::std_specs::iter::IteratorSpec;

use crate::steps;

verus! {

/// The identifiers of a set that are below a bound, in ascending order.
pub open spec fn ids_below(ids: Set<u16>, bound: nat) -> Seq<u16>
    decreases bound,
{
    if bound == 0 {
        Seq::empty()
    } else {
        let front = ids_below(ids, (bound - 1) as nat);
        if ids.contains((bound - 1) as u16) {
            front.push((bound - 1) as u16)
        } else {
            front
        }
    }
}

/// The identifiers of a set in ascending order.
pub open spec fn ascending_ids(ids: Set<u16>) -> Seq<u16> {
    ids_below(ids, 0x1_0000)
}

/// The listing below a bound holds what the set holds below it.
proof fn lemma_ids_below(ids: Set<u16>, bound: nat)
    requires
        bound <= 0x1_0000,
    ensures
        forall|id: u16| #[trigger]
            ids_below(ids, bound).contains(id) <==> ids.contains(id) && id < bound,
        forall|i: int, j: int|
            0 <= i < j < ids_below(ids, bound).len() ==> (#[trigger] ids_below(ids, bound)[i]) < (
            #[trigger] ids_below(ids, bound)[j]),
    decreases bound,
{
    if bound > 0 {
        let front = ids_below(ids, (bound - 1) as nat);
        let last = (bound - 1) as u16;
        lemma_ids_below(ids, (bound - 1) as nat);
        assert forall|id: u16| #[trigger]
            ids_below(ids, bound).contains(id) <==> ids.contains(id) && id < bound by {
            steps::lemma_push_contains(front, last, id);
        }
        assert forall|i: int, j: int|
            0 <= i < j < ids_below(ids, bound).len() implies (#[trigger] ids_below(ids, bound)[i])
            < (#[trigger] ids_below(ids, bound)[j]) by {
            if j == front.len() {
                assert(front.contains(front[i]));
            }
        }
    }
}

/// The ascending listing holds each identifier of the set once, in order.
pub proof fn lemma_ascending_ids(ids: Set<u16>)
    ensures
        forall|id: u16| #[trigger] ascending_ids(ids).contains(id) <==> ids.contains(id),
        forall|i: int| 0 <= i < ascending_ids(ids).len() ==> ids.contains(
            #[trigger] ascending_ids(ids)[i],
        ),
        forall|i: int, j: int|
            0 <= i < j < ascending_ids(ids).len() ==> (#[trigger] ascending_ids(ids)[i]) < (
            #[trigger] ascending_ids(ids)[j]),
{
    lemma_ids_below(ids, 0x1_0000);
    assert forall|i: int| 0 <= i < ascending_ids(ids).len() implies ids.contains(
        #[trigger] ascending_ids(ids)[i],
    ) by {
        assert(ascending_ids(ids).contains(ascending_ids(ids)[i]));
    }
}

/// There is only one ascending listing.
proof fn lemma_listing_unique(a: Seq<u16>, b: Seq<u16>)
    requires
        forall|i: int, j: int| 0 <= i < j < a.len() ==> (#[trigger] a[i]) < (#[trigger] a[j]),
        forall|i: int, j: int| 0 <= i < j < b.len() ==> (#[trigger] b[i]) < (#[trigger] b[j]),
        forall|id: u16| #[trigger] a.contains(id) <==> b.contains(id),
    ensures
        a == b,
    decreases a.len(),
{
    if a.len() == 0 {
        if b.len() > 0 {
            assert(b.contains(b[0]));
            assert(a.contains(b[0]));
        }
        assert(a =~= b);
    } else if b.len() == 0 {
        assert(a.contains(a[0]));
        assert(b.contains(a[0]));
    } else {
        let x = a.drop_last();
        let y = b.drop_last();
        assert(a.contains(a.last()));
        assert(b.contains(a.last()));
        assert(b.contains(b.last()));
        assert(a.contains(b.last()));
        assert(a.last() == b.last()) by {
            let i = a.index_of(b.last());
            let j = b.index_of(a.last());
            if i < a.len() - 1 && j < b.len() - 1 {
                assert(a[i] < a[a.len() - 1]);
                assert(b[j] < b[b.len() - 1]);
            }
        }
        assert forall|id: u16| #[trigger] x.contains(id) <==> y.contains(id) by {
            if x.contains(id) {
                let i = x.index_of(id);
                assert(a[i] == id && a[i] < a[a.len() - 1]);
                assert(a.contains(id));
                assert(b.contains(id));
                assert(y[b.index_of(id)] == id);
            }
            if y.contains(id) {
                let i = y.index_of(id);
                assert(b[i] == id && b[i] < b[b.len() - 1]);
                assert(b.contains(id));
                assert(a.contains(id));
                assert(x[a.index_of(id)] == id);
            }
        }
        lemma_listing_unique(x, y);
        assert(a =~= x.push(a.last()));
        assert(b =~= y.push(b.last()));
    }
}

/// The keys of a map in ascending order.
pub fn packet_ids<V>(map: &BTreeMap<u16, V>) -> (ids: Vec<u16>)
    ensures
        ids@ == ascending_ids(map@.dom()),
{
    broadcast use vstd::std_specs::btree::group_btree_axioms;

    let entries = map.iter();
    let ghost walk = entries.remaining();
    let ghost keys = walk.map_values(|entry: (&u16, &V)| *entry.0);
    let mut ids: Vec<u16> = Vec::new();
    for entry in it: entries
        invariant
            it.seq() == walk,
            ids@.len() == it.index(),
            forall|i: int| 0 <= i < ids@.len() ==> #[trigger] ids@[i] == *walk[i].0,
    {
        ids.push(*entry.0);
    }
    proof {
        assert(ids@ =~= keys);
        assert forall|id: u16| #[trigger] ids@.contains(id) <==> map@.dom().contains(id) by {
            if ids@.contains(id) {
                let i = ids@.index_of(id);
                assert(map@.contains_key(*walk[i].0));
            }
            if map@.contains_key(id) {
                let i = walk.index_of((&id, &map@[id]));
                assert(ids@[i] == id);
            }
        }
        assert forall|i: int, j: int| 0 <= i < j < ids@.len() implies (#[trigger] ids@[i]) < (
        #[trigger] ids@[j]) by {
            assert(keys[i].cmp_spec(&keys[j]) is Less);
        }
        lemma_ascending_ids(map@.dom());
        lemma_listing_unique(ids@, ascending_ids(map@.dom()));
    }
    ids
}

} // verus!
