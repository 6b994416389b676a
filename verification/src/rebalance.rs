//! The rebalancer: grow the ring by a batch of new labels, compute the
//! minimal set of items whose owning shard changes, and move exactly those —
//! adding each item to its destination before removing it from its origin,
//! so an interruption could only ever duplicate an item, never lose one.

use crate::item::Item;
use crate::ring::{
    label_seq_insert_all, lemma_assign_lt, lemma_insert_all_snoc, lemma_insert_shards_lt,
    ring_shards_lt, spec_assign, Ring, ShardLabel,
};
use crate::store::{bucket_has_id, lemma_same_id_same_item, one_owner, ShardStore};
use vstd::prelude::*;

verus! {

/// One pending relocation: an item, the shard whose set it leaves, and the
/// shard whose set it enters.
pub struct Move {
    pub from: usize,
    pub to: usize,
    pub item: Item,
}

/// The relocation plan of one resharding pass: the moves to apply, each
/// item's identity recorded at most once. Built fresh for each pass and
/// discarded after application.
pub struct RelocationPlan {
    moves: Vec<Move>,
}

impl View for RelocationPlan {
    type V = Seq<Move>;

    closed spec fn view(&self) -> Seq<Move> {
        self.moves@
    }
}

/// Some move in the plan carries an item with this identity.
pub open spec fn plan_has_id(p: Seq<Move>, id: u128) -> bool {
    exists|k: int| 0 <= k < p.len() && (#[trigger] p[k]).item.id == id
}

/// No identity is recorded twice in the plan.
pub open spec fn plan_ids_distinct(p: Seq<Move>) -> bool {
    forall|k1: int, k2: int|
        0 <= k1 < k2 < p.len() ==> (#[trigger] p[k1]).item.id != (#[trigger] p[k2]).item.id
}

/// Every move in the plan is genuine with respect to store `st` and ring
/// `r`: the item sits in its origin shard's set, the destination is the
/// ring's assignment for the item's position, and the two differ — an item
/// whose destination equals its origin is never recorded.
pub open spec fn plan_valid(p: Seq<Move>, st: Seq<Seq<Item>>, r: Seq<ShardLabel>) -> bool {
    forall|k: int|
        0 <= k < p.len() ==> {
            let m = #[trigger] p[k];
            &&& m.from < st.len()
            &&& st[m.from as int].contains(m.item)
            &&& m.to == spec_assign(r, m.item.position)
            &&& m.to != m.from
        }
}

/// Every item of store `st` whose assignment under ring `r` differs from its
/// current shard has its relocation recorded in the plan.
pub open spec fn plan_complete(p: Seq<Move>, st: Seq<Seq<Item>>, r: Seq<ShardLabel>) -> bool {
    forall|s: int, i: int|
        0 <= s < st.len() && 0 <= i < st[s].len() && spec_assign(
            r,
            (#[trigger] st[s][i]).position,
        ) != s ==> plan_has_id(p, st[s][i].id)
}

/// Every item of store `st` sits in the shard that ring `r` assigns its
/// position to.
pub open spec fn consistent(st: Seq<Seq<Item>>, r: Seq<ShardLabel>) -> bool {
    forall|s: int, i: int|
        0 <= s < st.len() && 0 <= i < st[s].len() ==> spec_assign(
            r,
            (#[trigger] st[s][i]).position,
        ) == s
}

impl RelocationPlan {
    /// An empty plan.
    pub fn new() -> (p: RelocationPlan)
        ensures
            p@.len() == 0,
    {
        RelocationPlan { moves: Vec::new() }
    }

    /// The number of recorded relocations.
    pub fn len(&self) -> (n: usize)
        ensures
            n == self@.len(),
    {
        self.moves.len()
    }

    /// The `k`-th recorded move, for inspection.
    pub fn get(&self, k: usize) -> (m: &Move)
        requires
            k < self@.len(),
        ensures
            *m == self@[k as int],
    {
        &self.moves[k]
    }

    /// Whether some recorded move already carries this identity.
    pub fn contains_id(&self, id: u128) -> (b: bool)
        ensures
            b == plan_has_id(self@, id),
    {
        let mut k: usize = 0;
        while k < self.moves.len()
            invariant
                k <= self@.len(),
                forall|j: int| 0 <= j < k ==> (#[trigger] self@[j]).item.id != id,
            decreases self@.len() - k,
        {
            if self.moves[k].item.id == id {
                return true;
            }
            k += 1;
        }
        false
    }
}

/// Among the first `k` moves of the plan, one takes this identity out of
/// shard `s`.
pub open spec fn moved_away(p: Seq<Move>, k: int, id: u128, s: int) -> bool {
    exists|j: int| 0 <= j < k && (#[trigger] p[j]).item.id == id && p[j].from == s
}

/// Among the first `k` moves of the plan, one puts exactly item `x` into
/// shard `s`.
pub open spec fn moved_in(p: Seq<Move>, k: int, x: Item, s: int) -> bool {
    exists|j: int| 0 <= j < k && (#[trigger] p[j]).item == x && p[j].to == s
}

/// The contents of store `newst`, relative to `oldst`, once the first `k`
/// moves of the plan are applied: an item sits in a shard exactly when it
/// was there before and no applied move took it away, or an applied move put
/// it there.
pub open spec fn applied(oldst: Seq<Seq<Item>>, newst: Seq<Seq<Item>>, p: Seq<Move>, k: int) -> bool {
    &&& newst.len() == oldst.len()
    &&& forall|s: int, x: Item|
        0 <= s < newst.len() ==> (#[trigger] newst[s].contains(x) <==> ((oldst[s].contains(x)
            && !moved_away(p, k, x.id, s)) || moved_in(p, k, x, s)))
}

/// The plan can be applied to store `st`: origins and destinations index
/// shards of the store, every origin holds its item, and no move is a no-op.
pub open spec fn plan_applicable(p: Seq<Move>, st: Seq<Seq<Item>>) -> bool {
    forall|k: int|
        0 <= k < p.len() ==> {
            let m = #[trigger] p[k];
            &&& m.from < st.len()
            &&& m.to < st.len()
            &&& m.to != m.from
            &&& st[m.from as int].contains(m.item)
        }
}

/// Extending the applied prefix by one move extends what has moved away and
/// what has moved in by exactly that move.
proof fn lemma_moved_step(p: Seq<Move>, k: int)
    requires
        0 <= k < p.len(),
    ensures
        forall|id: u128, s: int|
            #[trigger] moved_away(p, k + 1, id, s) == (moved_away(p, k, id, s) || (p[k].item.id
                == id && p[k].from == s)),
        forall|x: Item, s: int|
            #[trigger] moved_in(p, k + 1, x, s) == (moved_in(p, k, x, s) || (p[k].item == x
                && p[k].to == s)),
{
    assert forall|id: u128, s: int|
        #[trigger] moved_away(p, k + 1, id, s) == (moved_away(p, k, id, s) || (p[k].item.id == id
            && p[k].from == s)) by {
        if moved_away(p, k + 1, id, s) {
            let j = choose|j: int|
                0 <= j < k + 1 && (#[trigger] p[j]).item.id == id && p[j].from == s;
            if j < k {
                assert(moved_away(p, k, id, s));
            }
        }
        if moved_away(p, k, id, s) {
            let j = choose|j: int| 0 <= j < k && (#[trigger] p[j]).item.id == id && p[j].from == s;
            assert(0 <= j < k + 1 && p[j].item.id == id && p[j].from == s);
            assert(moved_away(p, k + 1, id, s));
        }
        if p[k].item.id == id && p[k].from == s {
            assert(moved_away(p, k + 1, id, s));
        }
    }
    assert forall|x: Item, s: int|
        #[trigger] moved_in(p, k + 1, x, s) == (moved_in(p, k, x, s) || (p[k].item == x && p[k].to
            == s)) by {
        if moved_in(p, k + 1, x, s) {
            let j = choose|j: int| 0 <= j < k + 1 && (#[trigger] p[j]).item == x && p[j].to == s;
            if j < k {
                assert(moved_in(p, k, x, s));
            }
        }
        if moved_in(p, k, x, s) {
            let j = choose|j: int| 0 <= j < k && (#[trigger] p[j]).item == x && p[j].to == s;
            assert(0 <= j < k + 1 && p[j].item == x && p[j].to == s);
            assert(moved_in(p, k + 1, x, s));
        }
        if p[k].item == x && p[k].to == s {
            assert(moved_in(p, k + 1, x, s));
        }
    }
}

/// Apply the plan: every recorded item is first added to its destination
/// shard's set and only then removed from its origin's — so an interruption
/// between the two steps could only duplicate an item, never lose it.
/// Afterwards each planned item sits in its destination and nowhere else,
/// unplanned items are untouched, and exactly one shard owns each identity.
pub fn apply_moves(store: &mut ShardStore, plan: &RelocationPlan)
    requires
        old(store).wf(),
        one_owner(old(store)@),
        plan_ids_distinct(plan@),
        plan_applicable(plan@, old(store)@),
    ensures
        final(store).wf(),
        one_owner(final(store)@),
        final(store)@.len() == old(store)@.len(),
        applied(old(store)@, final(store)@, plan@, plan@.len() as int),
        forall|k: int|
            0 <= k < plan@.len() ==> final(store)@[(#[trigger] plan@[k]).to as int].contains(
                plan@[k].item,
            ),
        forall|k: int|
            0 <= k < plan@.len() ==> !bucket_has_id(
                final(store)@[(#[trigger] plan@[k]).from as int],
                plan@[k].item.id,
            ),
        forall|s: int, i: int|
            0 <= s < old(store)@.len() && 0 <= i < old(store)@[s].len() && !plan_has_id(
                plan@,
                (#[trigger] old(store)@[s][i]).id,
            ) ==> final(store)@[s].contains(old(store)@[s][i]),
        plan@.len() == 0 ==> final(store)@ == old(store)@,
{
    let n = plan.len();
    let mut k: usize = 0;
    while k < n
        invariant
            store.wf(),
            store@.len() == old(store)@.len(),
            n == plan@.len(),
            k <= n,
            plan_ids_distinct(plan@),
            plan_applicable(plan@, old(store)@),
            one_owner(old(store)@),
            applied(old(store)@, store@, plan@, k as int),
            k == 0 ==> store@ == old(store)@,
        decreases n - k,
    {
        let ghost oldst = old(store)@;
        let ghost pre = store@;
        let ghost ki = k as int;
        let ghost p = plan@;
        let m = plan.get(k);
        let ghost mv = p[ki];
        let ghost fromi = mv.from as int;
        let ghost toi = mv.to as int;
        proof {
            assert(oldst[fromi].contains(mv.item));
            // this identity has not moved yet, so it still sits at its origin
            assert(!moved_away(p, ki, mv.item.id, fromi)) by {
                if moved_away(p, ki, mv.item.id, fromi) {
                    let j = choose|j: int|
                        0 <= j < ki && (#[trigger] p[j]).item.id == mv.item.id && p[j].from
                            == fromi;
                    assert(p[j].item.id != p[ki].item.id);
                }
            }
            assert(pre[fromi].contains(mv.item));
            // and its identity is not at the destination either
            assert(!bucket_has_id(pre[toi], mv.item.id)) by {
                if bucket_has_id(pre[toi], mv.item.id) {
                    let i = choose|i: int| 0 <= i < pre[toi].len() && pre[toi][i].id == mv.item.id;
                    let y = pre[toi][i];
                    assert(pre[toi].contains(y));
                    if oldst[toi].contains(y) && !moved_away(p, ki, y.id, toi) {
                        assert(false);
                    } else {
                        assert(moved_in(p, ki, y, toi));
                        let j = choose|j: int|
                            0 <= j < ki && (#[trigger] p[j]).item == y && p[j].to == toi;
                        assert(p[j].item.id != p[ki].item.id);
                        assert(false);
                    }
                }
            }
        }
        let moved_item = m.item.duplicate();
        store.add(m.to, moved_item);
        let ghost mid = store@;
        store.remove(m.from, m.item.id);
        proof {
            lemma_moved_step(p, ki);
            let post = store@;
            assert(mid[fromi] == pre[fromi]);
            assert(post[toi] == mid[toi]);
            assert forall|s: int, x: Item| 0 <= s < post.len() implies (#[trigger] post[s].contains(
                x,
            ) == (((oldst[s].contains(x) && !moved_away(p, ki + 1, x.id, s)) || moved_in(
                p,
                ki + 1,
                x,
                s,
            )))) by {
                if s == toi {
                    if x == mv.item {
                        assert(post[s].contains(x));
                        assert(moved_in(p, ki + 1, x, s));
                    } else {
                        assert(post[s].contains(x) == pre[s].contains(x));
                        assert(!(p[ki].item.id == x.id && p[ki].from == s));
                        assert(moved_away(p, ki + 1, x.id, s) == moved_away(p, ki, x.id, s));
                        assert(moved_in(p, ki + 1, x, s) == moved_in(p, ki, x, s));
                        assert(pre[s].contains(x) == ((oldst[s].contains(x) && !moved_away(
                            p,
                            ki,
                            x.id,
                            s,
                        )) || moved_in(p, ki, x, s)));
                    }
                } else if s == fromi {
                    assert(post[s].contains(x) == (x.id != mv.item.id && mid[s].contains(x)));
                    assert(mid[s] == pre[s]);
                    if moved_in(p, ki, x, s) {
                        let j = choose|j: int|
                            0 <= j < ki && (#[trigger] p[j]).item == x && p[j].to == s;
                        assert(p[j].item.id != p[ki].item.id);
                        assert(x.id != mv.item.id);
                    }
                    assert(!(p[ki].item == x && p[ki].to == s));
                    assert(moved_in(p, ki + 1, x, s) == moved_in(p, ki, x, s));
                    if x.id == mv.item.id {
                        assert(moved_away(p, ki + 1, x.id, s));
                        assert(!post[s].contains(x));
                        assert(!moved_in(p, ki + 1, x, s));
                    } else {
                        assert(moved_away(p, ki + 1, x.id, s) == moved_away(p, ki, x.id, s));
                        assert(post[s].contains(x) == pre[s].contains(x));
                        assert(pre[s].contains(x) == ((oldst[s].contains(x) && !moved_away(
                            p,
                            ki,
                            x.id,
                            s,
                        )) || moved_in(p, ki, x, s)));
                    }
                } else {
                    assert(post[s] == mid[s] && mid[s] == pre[s]);
                    assert(!(p[ki].item.id == x.id && p[ki].from == s));
                    assert(!(p[ki].item == x && p[ki].to == s));
                    assert(moved_away(p, ki + 1, x.id, s) == moved_away(p, ki, x.id, s));
                    assert(moved_in(p, ki + 1, x, s) == moved_in(p, ki, x, s));
                    assert(pre[s].contains(x) == ((oldst[s].contains(x) && !moved_away(
                        p,
                        ki,
                        x.id,
                        s,
                    )) || moved_in(p, ki, x, s)));
                }
            }
            assert(applied(oldst, post, p, ki + 1));
        }
        k += 1;
    }
    proof {
        let oldst = old(store)@;
        let post = store@;
        let p = plan@;
        let nn = p.len() as int;
        assert forall|s1: int, s2: int, x1: Item, x2: Item|
            0 <= s1 < post.len() && 0 <= s2 < post.len() && #[trigger] post[s1].contains(x1)
                && #[trigger] post[s2].contains(x2) && x1.id == x2.id implies s1 == s2 by {
            if oldst[s1].contains(x1) && !moved_away(p, nn, x1.id, s1) {
                if oldst[s2].contains(x2) && !moved_away(p, nn, x2.id, s2) {
                } else {
                    assert(moved_in(p, nn, x2, s2));
                    let j = choose|j: int|
                        0 <= j < nn && (#[trigger] p[j]).item == x2 && p[j].to == s2;
                    assert(oldst[p[j].from as int].contains(p[j].item));
                    assert(s1 == p[j].from as int);
                    assert(moved_away(p, nn, x1.id, s1));
                    assert(false);
                }
            } else {
                assert(moved_in(p, nn, x1, s1));
                let j1 = choose|j: int| 0 <= j < nn && (#[trigger] p[j]).item == x1 && p[j].to == s1;
                if oldst[s2].contains(x2) && !moved_away(p, nn, x2.id, s2) {
                    assert(oldst[p[j1].from as int].contains(p[j1].item));
                    assert(s2 == p[j1].from as int);
                    assert(moved_away(p, nn, x2.id, s2));
                    assert(false);
                } else {
                    assert(moved_in(p, nn, x2, s2));
                    let j2 = choose|j: int|
                        0 <= j < nn && (#[trigger] p[j]).item == x2 && p[j].to == s2;
                    if j1 != j2 {
                        assert(p[j1].item.id != p[j2].item.id);
                        assert(false);
                    }
                }
            }
        }
        assert forall|kk: int| 0 <= kk < nn implies post[(#[trigger] p[kk]).to as int].contains(
            p[kk].item,
        ) by {
            assert(moved_in(p, nn, p[kk].item, p[kk].to as int));
        }
        assert forall|kk: int| 0 <= kk < nn implies !bucket_has_id(
            post[(#[trigger] p[kk]).from as int],
            p[kk].item.id,
        ) by {
            let s = p[kk].from as int;
            if bucket_has_id(post[s], p[kk].item.id) {
                let i = choose|i: int| 0 <= i < post[s].len() && post[s][i].id == p[kk].item.id;
                let y = post[s][i];
                assert(post[s].contains(y));
                if oldst[s].contains(y) && !moved_away(p, nn, y.id, s) {
                    assert(moved_away(p, nn, y.id, s));
                    assert(false);
                } else {
                    assert(moved_in(p, nn, y, s));
                    let j = choose|j: int| 0 <= j < nn && (#[trigger] p[j]).item == y && p[j].to == s;
                    if j != kk {
                        assert(p[j].item.id != p[kk].item.id);
                    }
                    assert(false);
                }
            }
        }
        assert forall|s: int, i: int|
            0 <= s < oldst.len() && 0 <= i < oldst[s].len() && !plan_has_id(
                p,
                (#[trigger] oldst[s][i]).id,
            ) implies post[s].contains(oldst[s][i]) by {
            let x = oldst[s][i];
            assert(oldst[s].contains(x));
            if moved_away(p, nn, x.id, s) {
                let j = choose|j: int| 0 <= j < nn && (#[trigger] p[j]).item.id == x.id && p[j].from == s;
                assert(plan_has_id(p, x.id));
                assert(false);
            }
        }
    }
}

/// Compute the relocation plan: for every shard and every item it currently
/// holds, recompute the owning shard against the new ring snapshot (by
/// binary search), and record a move exactly when the assignment differs
/// from the item's current shard. An identity already recorded — which the
/// one-owner invariant rules out, but is checked defensively — is not
/// recorded again.
pub fn compute_moves(new_ring: &Ring, store: &ShardStore) -> (plan: RelocationPlan)
    requires
        new_ring.wf(),
        store.wf(),
    ensures
        plan_ids_distinct(plan@),
        plan_valid(plan@, store@, new_ring@),
        plan_complete(plan@, store@, new_ring@),
{
    let mut plan = RelocationPlan::new();
    let num = store.num_shards();
    let mut s: usize = 0;
    while s < num
        invariant
            new_ring.wf(),
            store.wf(),
            num == store@.len(),
            s <= num,
            plan_ids_distinct(plan@),
            plan_valid(plan@, store@, new_ring@),
            forall|s2: int, i2: int|
                0 <= s2 < s && 0 <= i2 < store@[s2].len() && spec_assign(
                    new_ring@,
                    (#[trigger] store@[s2][i2]).position,
                ) != s2 ==> plan_has_id(plan@, store@[s2][i2].id),
        decreases num - s,
    {
        let bucket = store.items_of(s);
        let mut i: usize = 0;
        while i < bucket.len()
            invariant
                new_ring.wf(),
                store.wf(),
                num == store@.len(),
                s < num,
                bucket@ == store@[s as int],
                i <= bucket@.len(),
                plan_ids_distinct(plan@),
                plan_valid(plan@, store@, new_ring@),
                forall|s2: int, i2: int|
                    0 <= s2 < s && 0 <= i2 < store@[s2].len() && spec_assign(
                        new_ring@,
                        (#[trigger] store@[s2][i2]).position,
                    ) != s2 ==> plan_has_id(plan@, store@[s2][i2].id),
                forall|i2: int|
                    0 <= i2 < i && spec_assign(
                        new_ring@,
                        (#[trigger] store@[s as int][i2]).position,
                    ) != s ==> plan_has_id(plan@, store@[s as int][i2].id),
            decreases bucket@.len() - i,
        {
            let it = &bucket[i];
            let owner = new_ring.predecessor_or_wrap(it.position);
            if owner.shard != s {
                if !plan.contains_id(it.id) {
                    let ghost oldp = plan@;
                    let m = Move { from: s, to: owner.shard, item: it.duplicate() };
                    plan.moves.push(m);
                    proof {
                        assert(store@[s as int].contains(m.item)) by {
                            assert(store@[s as int][i as int] == m.item);
                        }
                        assert forall|k1: int, k2: int|
                            0 <= k1 < k2 < plan@.len() implies (#[trigger] plan@[k1]).item.id != (
                        #[trigger] plan@[k2]).item.id by {
                            if k2 < oldp.len() {
                                assert(oldp[k1] == plan@[k1] && oldp[k2] == plan@[k2]);
                            } else {
                                assert(plan@[k2] == m);
                                assert(oldp[k1] == plan@[k1]);
                                assert(!plan_has_id(oldp, m.item.id));
                            }
                        }
                        assert forall|k: int| 0 <= k < plan@.len() implies {
                            let mm = #[trigger] plan@[k];
                            &&& mm.from < store@.len()
                            &&& store@[mm.from as int].contains(mm.item)
                            &&& mm.to == spec_assign(new_ring@, mm.item.position)
                            &&& mm.to != mm.from
                        } by {
                            if k < oldp.len() {
                                assert(plan@[k] == oldp[k]);
                            } else {
                                assert(plan@[k] == m);
                            }
                        }
                        assert forall|id: u128| plan_has_id(oldp, id) implies plan_has_id(
                            plan@,
                            id,
                        ) by {
                            let j = choose|j: int| 0 <= j < oldp.len() && oldp[j].item.id == id;
                            assert(plan@[j] == oldp[j]);
                        }
                        assert(plan_has_id(plan@, m.item.id)) by {
                            assert(plan@[plan@.len() - 1] == m);
                        }
                    }
                }
            }
            i += 1;
        }
        s += 1;
    }
    plan
}

/// One full resharding pass: insert the batch of new labels into the live
/// ring, compute the relocation plan against the grown ring, and apply it.
/// Exactly the items whose assignment changed relocate — and when the store
/// was consistent with the old ring, those are exactly the items whose old
/// and new assignments differ. Adding no labels to a consistent store is a
/// no-op: an empty plan and an unchanged store.
pub fn rebalance(ring: &mut Ring, store: &mut ShardStore, new_labels: &Vec<ShardLabel>) -> (plan:
    RelocationPlan)
    requires
        old(ring).wf(),
        old(store).wf(),
        one_owner(old(store)@),
        ring_shards_lt(old(ring)@, old(store)@.len() as int),
        forall|k: int|
            0 <= k < new_labels@.len() ==> (#[trigger] new_labels@[k]).shard < old(store)@.len(),
    ensures
        final(ring).wf(),
        final(ring)@ == label_seq_insert_all(old(ring)@, new_labels@),
        final(store).wf(),
        one_owner(final(store)@),
        final(store)@.len() == old(store)@.len(),
        plan_ids_distinct(plan@),
        plan_valid(plan@, old(store)@, final(ring)@),
        plan_complete(plan@, old(store)@, final(ring)@),
        applied(old(store)@, final(store)@, plan@, plan@.len() as int),
        forall|k: int|
            0 <= k < plan@.len() ==> final(store)@[(#[trigger] plan@[k]).to as int].contains(
                plan@[k].item,
            ),
        forall|k: int|
            0 <= k < plan@.len() ==> !bucket_has_id(
                final(store)@[(#[trigger] plan@[k]).from as int],
                plan@[k].item.id,
            ),
        forall|s: int, i: int|
            0 <= s < old(store)@.len() && 0 <= i < old(store)@[s].len() && !plan_has_id(
                plan@,
                (#[trigger] old(store)@[s][i]).id,
            ) ==> final(store)@[s].contains(old(store)@[s][i]),
        consistent(final(store)@, final(ring)@),
        consistent(old(store)@, old(ring)@) ==> forall|s: int, i: int|
            0 <= s < old(store)@.len() && 0 <= i < old(store)@[s].len() ==> (plan_has_id(
                plan@,
                (#[trigger] old(store)@[s][i]).id,
            ) <==> spec_assign(final(ring)@, old(store)@[s][i].position) != spec_assign(
                old(ring)@,
                old(store)@[s][i].position,
            )),
        new_labels@.len() == 0 && consistent(old(store)@, old(ring)@) ==> plan@.len() == 0
            && final(store)@ == old(store)@ && final(ring)@ == old(ring)@,
{
    let ghost n_shards = old(store)@.len() as int;
    let mut i: usize = 0;
    while i < new_labels.len()
        invariant
            ring.wf(),
            i <= new_labels@.len(),
            forall|k: int|
                0 <= k < new_labels@.len() ==> (#[trigger] new_labels@[k]).shard < n_shards,
            ring@ == label_seq_insert_all(old(ring)@, new_labels@.subrange(0, i as int)),
            ring_shards_lt(ring@, n_shards),
        decreases new_labels@.len() - i,
    {
        proof {
            assert(new_labels@.subrange(0, i as int).push(new_labels@[i as int])
                =~= new_labels@.subrange(0, i + 1 as int));
            lemma_insert_all_snoc(old(ring)@, new_labels@.subrange(0, i as int), new_labels@[i as int]);
            lemma_insert_shards_lt(ring@, new_labels@[i as int], n_shards);
        }
        ring.insert_label(new_labels[i]);
        i += 1;
    }
    proof {
        assert(new_labels@.subrange(0, new_labels@.len() as int) =~= new_labels@);
    }
    let plan = compute_moves(ring, store);
    proof {
        assert forall|k: int| 0 <= k < plan@.len() implies ((#[trigger] plan@[k]).to
            < store@.len()) by {
            lemma_assign_lt(ring@, plan@[k].item.position, store@.len() as int);
        }
        assert(plan_applicable(plan@, store@));
    }
    apply_moves(store, &plan);
    proof {
        let oldst = old(store)@;
        let oldr = old(ring)@;
        let newr = ring@;
        let post = store@;
        let p = plan@;
        let nn = p.len() as int;
        // every item now sits where the grown ring assigns it
        assert forall|s: int, i: int|
            0 <= s < post.len() && 0 <= i < post[s].len() implies spec_assign(
            newr,
            (#[trigger] post[s][i]).position,
        ) == s by {
            let x = post[s][i];
            assert(post[s].contains(x));
            if oldst[s].contains(x) && !moved_away(p, nn, x.id, s) {
                if spec_assign(newr, x.position) != s {
                    let i0 = choose|ii: int| 0 <= ii < oldst[s].len() && oldst[s][ii] == x;
                    assert(oldst[s][i0] == x);
                    assert(plan_has_id(p, x.id));
                    let j = choose|j: int| 0 <= j < p.len() && (#[trigger] p[j]).item.id == x.id;
                    assert(oldst[p[j].from as int].contains(p[j].item));
                    assert(p[j].from as int == s);
                    lemma_same_id_same_item(oldst[s], x, p[j].item);
                    assert(moved_away(p, nn, x.id, s));
                    assert(false);
                }
            } else {
                assert(moved_in(p, nn, x, s));
                let j = choose|j: int| 0 <= j < nn && (#[trigger] p[j]).item == x && p[j].to == s;
            }
        }
        // relocated if and only if the assignment changed, for a store that
        // matched the old ring
        if consistent(oldst, oldr) {
            assert forall|s: int, i: int| 0 <= s < oldst.len() && 0 <= i < oldst[s].len() implies (
            plan_has_id(p, (#[trigger] oldst[s][i]).id) == (spec_assign(
                newr,
                oldst[s][i].position,
            ) != spec_assign(oldr, oldst[s][i].position))) by {
                let x = oldst[s][i];
                assert(spec_assign(oldr, x.position) == s);
                if plan_has_id(p, x.id) {
                    let j = choose|j: int| 0 <= j < p.len() && (#[trigger] p[j]).item.id == x.id;
                    assert(oldst[p[j].from as int].contains(p[j].item));
                    assert(oldst[s].contains(x));
                    assert(p[j].from as int == s);
                    lemma_same_id_same_item(oldst[s], x, p[j].item);
                    assert(spec_assign(newr, x.position) != s);
                }
                if spec_assign(newr, x.position) != spec_assign(oldr, x.position) {
                    assert(plan_has_id(p, x.id));
                }
            }
            // adding no labels to a consistent store moves nothing
            if new_labels@.len() == 0 {
                assert(newr == oldr);
                if p.len() > 0 {
                    let m = p[0];
                    assert(oldst[m.from as int].contains(m.item));
                    let i0 = choose|ii: int|
                        0 <= ii < oldst[m.from as int].len() && oldst[m.from as int][ii] == m.item;
                    assert(oldst[m.from as int][i0] == m.item);
                    assert(spec_assign(oldr, m.item.position) == m.from as int);
                    assert(false);
                }
            }
        }
    }
    plan
}

} // verus!
