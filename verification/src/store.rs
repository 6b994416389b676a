//! The shard store: per shard, the mutable set of items it currently owns,
//! independent of how many ring labels point at that shard. Shards are
//! numbered `0 .. num_shards`, and each shard's set is kept sorted by item
//! position so that enumeration is deterministic and diff-able.

use crate::item::Item;
use vstd::prelude::*;

verus! {

/// Items ordered by position, ascending (items at equal positions may stand
/// in either order).
pub open spec fn bucket_sorted(b: Seq<Item>) -> bool {
    forall|i: int, j: int| 0 <= i < j < b.len() ==> b[i].position <= b[j].position
}

/// No identity occurs twice within one shard's set.
pub open spec fn bucket_ids_distinct(b: Seq<Item>) -> bool {
    forall|i: int, j: int| 0 <= i < j < b.len() ==> b[i].id != b[j].id
}

/// Some item in this shard's set carries the identity.
pub open spec fn bucket_has_id(b: Seq<Item>, id: u128) -> bool {
    exists|i: int| 0 <= i < b.len() && b[i].id == id
}

/// Some shard's set holds an item with this identity.
pub open spec fn store_contains_id(st: Seq<Seq<Item>>, id: u128) -> bool {
    exists|s: int| 0 <= s < st.len() && bucket_has_id(st[s], id)
}

/// The one-owner invariant: an identity never appears in the sets of two
/// different shards. Together with per-shard distinctness this means every
/// item is owned by exactly one shard at any time.
pub open spec fn one_owner(st: Seq<Seq<Item>>) -> bool {
    forall|s1: int, s2: int, x1: Item, x2: Item|
        0 <= s1 < st.len() && 0 <= s2 < st.len() && #[trigger] st[s1].contains(x1)
            && #[trigger] st[s2].contains(x2) && x1.id == x2.id ==> s1 == s2
}

/// One-owner, spelled out: if a well-formed store holds an identity in two
/// shards' sets, those are the same shard.
pub proof fn lemma_owner_unique(st: Seq<Seq<Item>>, id: u128, s1: int, s2: int)
    requires
        one_owner(st),
        0 <= s1 < st.len(),
        0 <= s2 < st.len(),
        bucket_has_id(st[s1], id),
        bucket_has_id(st[s2], id),
    ensures
        s1 == s2,
{
    let i1 = choose|i: int| 0 <= i < st[s1].len() && st[s1][i].id == id;
    let i2 = choose|i: int| 0 <= i < st[s2].len() && st[s2][i].id == id;
    assert(st[s1].contains(st[s1][i1]));
    assert(st[s2].contains(st[s2][i2]));
}

/// Within one shard's set, an identity names at most one item: two members
/// carrying the same identity are the same item.
pub proof fn lemma_same_id_same_item(b: Seq<Item>, x: Item, y: Item)
    requires
        bucket_ids_distinct(b),
        b.contains(x),
        b.contains(y),
        x.id == y.id,
    ensures
        x == y,
{
    let i1 = choose|i: int| 0 <= i < b.len() && b[i] == x;
    let i2 = choose|i: int| 0 <= i < b.len() && b[i] == y;
    assert(i1 == i2);
}

/// Insert an item into one shard's sorted set, after every item whose
/// position does not exceed its own.
fn bucket_insert_sorted(b: &mut Vec<Item>, item: Item)
    requires
        bucket_sorted(old(b)@),
        bucket_ids_distinct(old(b)@),
        !bucket_has_id(old(b)@, item.id),
    ensures
        bucket_sorted(final(b)@),
        bucket_ids_distinct(final(b)@),
        final(b)@.len() == old(b)@.len() + 1,
        final(b)@.contains(item),
        forall|x: Item| old(b)@.contains(x) ==> final(b)@.contains(x),
        forall|x: Item| final(b)@.contains(x) ==> x == item || old(b)@.contains(x),
{
    let mut k: usize = 0;
    while k < b.len() && b[k].position <= item.position
        invariant
            *b == *old(b),
            k <= b@.len(),
            forall|i: int| 0 <= i < k ==> b@[i].position <= item.position,
        decreases b@.len() - k,
    {
        k += 1;
    }
    let ghost oldb = b@;
    let ghost ki = k as int;
    b.insert(k, item);
    proof {
        oldb.insert_ensures(ki, item);
        assert(b@.len() == oldb.len() + 1);
        assert forall|i: int| 0 <= i < b@.len() implies b@[i] == (if i < ki {
            oldb[i]
        } else if i == ki {
            item
        } else {
            oldb[i - 1]
        }) by {
            if ki <= i - 1 < oldb.len() {
                assert(b@[i - 1 + 1] == oldb[i - 1]);
            }
        }
        assert(b@[ki] == item);
        assert(b@.contains(item));
        assert forall|x: Item| oldb.contains(x) implies b@.contains(x) by {
            let i = choose|i: int| 0 <= i < oldb.len() && oldb[i] == x;
            if i < ki {
                assert(b@[i] == x);
            } else {
                assert(b@[i + 1] == x);
            }
        }
        assert forall|x: Item| b@.contains(x) implies x == item || oldb.contains(x) by {
            let i = choose|i: int| 0 <= i < b@.len() && b@[i] == x;
            if i < ki {
                assert(oldb[i] == x);
            } else if i > ki {
                assert(oldb[i - 1] == x);
            }
        }
    }
}

/// Remove the item carrying the given identity from one shard's set; leave
/// the set unchanged and report the miss when no item carries it.
fn bucket_remove_id(b: &mut Vec<Item>, id: u128) -> (found: bool)
    requires
        bucket_sorted(old(b)@),
        bucket_ids_distinct(old(b)@),
    ensures
        bucket_sorted(final(b)@),
        bucket_ids_distinct(final(b)@),
        found == bucket_has_id(old(b)@, id),
        !bucket_has_id(final(b)@, id),
        forall|x: Item| old(b)@.contains(x) && x.id != id ==> final(b)@.contains(x),
        forall|x: Item| final(b)@.contains(x) ==> x.id != id && old(b)@.contains(x),
        final(b)@.len() == if found {
            old(b)@.len() - 1
        } else {
            old(b)@.len() as int
        },
{
    let mut k: usize = 0;
    while k < b.len() && b[k].id != id
        invariant
            *b == *old(b),
            k <= b@.len(),
            forall|i: int| 0 <= i < k ==> b@[i].id != id,
        decreases b@.len() - k,
    {
        k += 1;
    }
    if k == b.len() {
        proof {
            assert forall|x: Item| b@.contains(x) implies x.id != id by {
                let i = choose|i: int| 0 <= i < b@.len() && b@[i] == x;
            }
        }
        return false;
    }
    let ghost oldb = b@;
    let ghost ki = k as int;
    b.remove(k);
    proof {
        oldb.remove_ensures(ki);
        assert(oldb[ki].id == id);
        assert(bucket_has_id(oldb, id));
        assert forall|i: int| 0 <= i < b@.len() implies b@[i] == (if i < ki {
            oldb[i]
        } else {
            oldb[i + 1]
        }) by {}
        assert forall|x: Item| b@.contains(x) implies x.id != id && oldb.contains(x) by {
            let i = choose|i: int| 0 <= i < b@.len() && b@[i] == x;
            if i < ki {
                assert(oldb[i] == x);
            } else {
                assert(oldb[i + 1] == x);
            }
        }
        assert forall|x: Item| oldb.contains(x) && x.id != id implies b@.contains(x) by {
            let i = choose|i: int| 0 <= i < oldb.len() && oldb[i] == x;
            if i < ki {
                assert(b@[i] == x);
            } else {
                assert(i != ki);
                assert(b@[i - 1] == x);
            }
        }
    }
    true
}

/// The store of all shards' item sets, indexed by shard number.
pub struct ShardStore {
    shards: Vec<Vec<Item>>,
}

impl View for ShardStore {
    type V = Seq<Seq<Item>>;

    closed spec fn view(&self) -> Seq<Seq<Item>> {
        Seq::new(self.shards@.len(), |s: int| self.shards@[s]@)
    }
}

impl ShardStore {
    /// The store's invariant: every shard's set is sorted by position and
    /// holds each identity at most once.
    pub open spec fn wf(&self) -> bool {
        forall|s: int|
            0 <= s < self@.len() ==> bucket_sorted(#[trigger] self@[s]) && bucket_ids_distinct(
                self@[s],
            )
    }

    /// A store of `num_shards` shards, all empty.
    pub fn new(num_shards: usize) -> (r: ShardStore)
        ensures
            r.wf(),
            one_owner(r@),
            r@.len() == num_shards,
            forall|s: int| 0 <= s < num_shards ==> r@[s].len() == 0,
    {
        let mut shards: Vec<Vec<Item>> = Vec::new();
        let mut i: usize = 0;
        while i < num_shards
            invariant
                i <= num_shards,
                shards@.len() == i,
                forall|s: int| 0 <= s < i ==> shards@[s]@.len() == 0,
            decreases num_shards - i,
        {
            let empty: Vec<Item> = Vec::new();
            shards.push(empty);
            i += 1;
        }
        let r = ShardStore { shards };
        proof {
            assert forall|s: int| 0 <= s < num_shards implies r@[s].len() == 0 by {
                assert(r@[s] == r.shards@[s]@);
            }
        }
        r
    }

    /// How many shards the store holds.
    pub fn num_shards(&self) -> (n: usize)
        ensures
            n == self@.len(),
    {
        self.shards.len()
    }

    /// This shard's current items, in ascending position order.
    pub fn items_of(&self, shard: usize) -> (r: &Vec<Item>)
        requires
            shard < self@.len(),
        ensures
            r@ == self@[shard as int],
    {
        &self.shards[shard]
    }

    /// Insert an item into a shard's set. Deduplication by identity is the
    /// caller's responsibility: the item's identity must not already sit in
    /// the target set.
    pub fn add(&mut self, shard: usize, item: Item)
        requires
            old(self).wf(),
            shard < old(self)@.len(),
            !bucket_has_id(old(self)@[shard as int], item.id),
        ensures
            final(self).wf(),
            final(self)@.len() == old(self)@.len(),
            forall|s: int|
                0 <= s < old(self)@.len() && s != shard ==> final(self)@[s] == old(self)@[s],
            final(self)@[shard as int].len() == old(self)@[shard as int].len() + 1,
            final(self)@[shard as int].contains(item),
            forall|x: Item|
                old(self)@[shard as int].contains(x) ==> final(self)@[shard as int].contains(x),
            forall|x: Item|
                final(self)@[shard as int].contains(x) ==> x == item || old(self)@[shard as int].contains(x),
            one_owner(old(self)@) && !store_contains_id(old(self)@, item.id) ==> one_owner(
                final(self)@,
            ),
    {
        proof {
            assert(old(self)@[shard as int] == self.shards@[shard as int]@);
        }
        bucket_insert_sorted(&mut self.shards[shard], item);
        proof {
            assert(self.shards@ == old(self).shards@.update(shard as int, self.shards@[shard as int]));
            assert forall|s: int|
                0 <= s < old(self)@.len() && s != shard implies final(self)@[s] == old(self)@[s] by {
                assert(self.shards@[s] == old(self).shards@[s]);
            }
            assert(final(self)@[shard as int] == self.shards@[shard as int]@);
            if one_owner(old(self)@) && !store_contains_id(old(self)@, item.id) {
                let oldst = old(self)@;
                let newst = self@;
                assert forall|s1: int, s2: int, x1: Item, x2: Item|
                    0 <= s1 < newst.len() && 0 <= s2 < newst.len() && #[trigger] newst[s1].contains(
                        x1,
                    ) && #[trigger] newst[s2].contains(x2) && x1.id == x2.id implies s1 == s2 by {
                    if s1 == shard && x1 == item {
                    } else {
                        assert(oldst[s1].contains(x1));
                    }
                    if s2 == shard && x2 == item {
                    } else {
                        assert(oldst[s2].contains(x2));
                    }
                    if x1 == item && x2 == item {
                    } else if x1 == item && s1 == shard {
                        assert(oldst[s2].contains(x2));
                        let i = choose|i: int| 0 <= i < oldst[s2].len() && oldst[s2][i] == x2;
                        assert(bucket_has_id(oldst[s2], item.id));
                        assert(false);
                    } else if x2 == item && s2 == shard {
                        assert(oldst[s1].contains(x1));
                        let i = choose|i: int| 0 <= i < oldst[s1].len() && oldst[s1][i] == x1;
                        assert(bucket_has_id(oldst[s1], item.id));
                        assert(false);
                    }
                }
            }
        }
    }

    /// Remove the item with the given identity from a shard's set; report
    /// whether it was found there.
    pub fn remove(&mut self, shard: usize, id: u128) -> (found: bool)
        requires
            old(self).wf(),
            shard < old(self)@.len(),
        ensures
            final(self).wf(),
            final(self)@.len() == old(self)@.len(),
            forall|s: int|
                0 <= s < old(self)@.len() && s != shard ==> final(self)@[s] == old(self)@[s],
            found == bucket_has_id(old(self)@[shard as int], id),
            !bucket_has_id(final(self)@[shard as int], id),
            forall|x: Item|
                old(self)@[shard as int].contains(x) && x.id != id ==> final(self)@[shard as int].contains(x),
            forall|x: Item|
                final(self)@[shard as int].contains(x) ==> x.id != id && old(self)@[shard as int].contains(x),
    {
        proof {
            assert(old(self)@[shard as int] == self.shards@[shard as int]@);
        }
        let found = bucket_remove_id(&mut self.shards[shard], id);
        proof {
            assert(self.shards@ == old(self).shards@.update(shard as int, self.shards@[shard as int]));
            assert forall|s: int|
                0 <= s < old(self)@.len() && s != shard implies final(self)@[s] == old(self)@[s] by {
                assert(self.shards@[s] == old(self).shards@[s]);
            }
            assert(final(self)@[shard as int] == self.shards@[shard as int]@);
        }
        found
    }
}

} // verus!
