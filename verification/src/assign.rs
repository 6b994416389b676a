//! The assigner: computes which shard owns an item's position, from a ring
//! snapshot alone — independent of the store's current contents — and places
//! newly created items accordingly.

use crate::item::Item;
use crate::ring::{
    lemma_assign_lt, lemma_pred_idx_bounds, pred_idx, ring_shards_lt, spec_assign, Ring, ShardLabel,
};
use crate::store::{bucket_has_id, one_owner, store_contains_id, ShardStore};
use vstd::prelude::*;

verus! {

/// The shard owning the given position under the ring's predecessor-or-wrap
/// placement rule. A pure function of the ring snapshot and the position.
pub fn assign(ring: &Ring, position: u64) -> (s: usize)
    requires
        ring.wf(),
    ensures
        s == spec_assign(ring@, position),
{
    ring.predecessor_or_wrap(position).shard
}

/// Determinism: the assigned shard is a function of the ring snapshot and
/// the position alone, so any two assignments computed from the same
/// snapshot and position agree.
pub proof fn lemma_assign_deterministic(r: Seq<ShardLabel>, q: u64, s1: usize, s2: usize)
    requires
        s1 == spec_assign(r, q),
        s2 == spec_assign(r, q),
    ensures
        s1 == s2,
{
}

/// Total coverage: on a non-empty ring every position is assigned to the
/// shard of some label on the ring — a lookup never comes back empty.
pub proof fn lemma_assign_in_ring(r: Seq<ShardLabel>, q: u64)
    requires
        r.len() >= 1,
    ensures
        exists|i: int| 0 <= i < r.len() && r[i].shard == spec_assign(r, q),
{
    lemma_pred_idx_bounds(r, q);
    assert(r[pred_idx(r, q)].shard == spec_assign(r, q));
}

/// First-time placement: put the item into the set of the shard that the
/// ring assigns its position to, scanning the ring linearly as placement
/// does. Returns the chosen shard.
pub fn place_item(ring: &Ring, store: &mut ShardStore, item: Item) -> (s: usize)
    requires
        ring.wf(),
        old(store).wf(),
        one_owner(old(store)@),
        !store_contains_id(old(store)@, item.id),
        ring_shards_lt(ring@, old(store)@.len() as int),
    ensures
        s == spec_assign(ring@, item.position),
        final(store).wf(),
        one_owner(final(store)@),
        final(store)@.len() == old(store)@.len(),
        final(store)@[s as int].contains(item),
        forall|s2: int| 0 <= s2 < old(store)@.len() && s2 != s ==> final(store)@[s2] == old(
            store,
        )@[s2],
        final(store)@[s as int].len() == old(store)@[s as int].len() + 1,
        forall|x: Item| old(store)@[s as int].contains(x) ==> final(store)@[s as int].contains(x),
        forall|x: Item|
            final(store)@[s as int].contains(x) ==> x == item || old(store)@[s as int].contains(x),
{
    let s = ring.predecessor_linear(item.position).shard;
    proof {
        lemma_assign_lt(ring@, item.position, old(store)@.len() as int);
        if bucket_has_id(old(store)@[s as int], item.id) {
            assert(store_contains_id(old(store)@, item.id));
        }
    }
    store.add(s, item);
    s
}

} // verus!
