//! The ring: an ordered collection of labelled positions. Each label ties a
//! position on the circular coordinate space to the shard that owns the arc
//! beginning there. Placement follows the predecessor-or-wrap rule: a query
//! position belongs to the label with the greatest position not exceeding it,
//! and wraps to the globally smallest label when every label lies above it.

use vstd::prelude::*;

verus! {

/// One virtual node: a position on the circle together with the shard that
/// owns it. A shard may own many labels; each is an independent ring entry.
#[derive(Clone, Copy, PartialEq, Eq, Structural, Debug)]
pub struct ShardLabel {
    pub position: u64,
    pub shard: usize,
}

/// A shard's display name paired with one of its ring positions, as handed in
/// by the topology collaborator that names shards and draws their positions.
#[derive(Debug)]
pub struct ShardInfo {
    pub shard_name: String,
    pub shard_key: u64,
}

/// Positions strictly increase along the sequence: each position occurs at
/// most once, so a position names at most one label.
pub open spec fn ring_sorted(r: Seq<ShardLabel>) -> bool {
    forall|i: int, j: int| 0 <= i < j < r.len() ==> r[i].position < r[j].position
}

/// A well-formed ring view: at least one label (a ring is never queried
/// empty) and strictly sorted by position.
pub open spec fn ring_wf(r: Seq<ShardLabel>) -> bool {
    &&& r.len() >= 1
    &&& ring_sorted(r)
}

/// Every shard named on the ring lies below `n` (so it indexes a store of
/// `n` shards).
pub open spec fn ring_shards_lt(r: Seq<ShardLabel>, n: int) -> bool {
    forall|i: int| 0 <= i < r.len() ==> r[i].shard < n
}

/// The index of the label owning position `q`: the largest index whose
/// position does not exceed `q`, and index 0 (the smallest label) when every
/// position exceeds `q` — the wrap-around case.
pub open spec fn pred_idx(r: Seq<ShardLabel>, q: u64) -> int
    decreases r.len(),
{
    if r.len() <= 1 {
        0
    } else if r[r.len() - 1].position <= q {
        r.len() - 1
    } else {
        pred_idx(r.drop_last(), q)
    }
}

/// The label that owns position `q` under predecessor-or-wrap.
pub open spec fn owner_label(r: Seq<ShardLabel>, q: u64) -> ShardLabel {
    r[pred_idx(r, q)]
}

/// The shard that owns position `q`.
pub open spec fn spec_assign(r: Seq<ShardLabel>, q: u64) -> usize {
    owner_label(r, q).shard
}

/// The owning index always falls inside a non-empty ring.
pub proof fn lemma_pred_idx_bounds(r: Seq<ShardLabel>, q: u64)
    requires
        r.len() >= 1,
    ensures
        0 <= pred_idx(r, q) < r.len(),
    decreases r.len(),
{
    if r.len() > 1 && r[r.len() - 1].position > q {
        lemma_pred_idx_bounds(r.drop_last(), q);
    }
}

/// When some label lies at or below `q`, the owning index is the greatest
/// such index: its position does not exceed `q`, and no later index does
/// either.
pub proof fn lemma_pred_idx_is_pred(r: Seq<ShardLabel>, q: u64)
    requires
        r.len() >= 1,
        exists|i: int| 0 <= i < r.len() && r[i].position <= q,
    ensures
        r[pred_idx(r, q)].position <= q,
        forall|i: int| 0 <= i < r.len() && r[i].position <= q ==> i <= pred_idx(r, q),
    decreases r.len(),
{
    if r.len() == 1 {
        let w = choose|i: int| 0 <= i < r.len() && r[i].position <= q;
        assert(w == 0);
    } else if r[r.len() - 1].position <= q {
    } else {
        let rr = r.drop_last();
        let w = choose|i: int| 0 <= i < r.len() && r[i].position <= q;
        assert(rr[w] == r[w]);
        lemma_pred_idx_is_pred(rr, q);
        lemma_pred_idx_bounds(rr, q);
        assert(rr[pred_idx(rr, q)] == r[pred_idx(rr, q)]);
        assert forall|i: int| 0 <= i < r.len() && r[i].position <= q implies i <= pred_idx(r, q) by {
            assert(i < r.len() - 1);
            assert(rr[i] == r[i]);
        }
    }
}

/// Wrap correctness: when the query lies below every label's position, the
/// owner is the label with the globally smallest position.
pub proof fn lemma_wrap(r: Seq<ShardLabel>, q: u64)
    requires
        r.len() >= 1,
        forall|i: int| 0 <= i < r.len() ==> r[i].position > q,
    ensures
        pred_idx(r, q) == 0,
        owner_label(r, q) == r[0],
    decreases r.len(),
{
    if r.len() > 1 {
        assert forall|i: int| 0 <= i < r.drop_last().len() implies r.drop_last()[i].position > q by {
            assert(r.drop_last()[i] == r[i]);
        }
        lemma_wrap(r.drop_last(), q);
    }
}

/// On a sorted ring the owning index is pinned by its local shape: a label at
/// or below `q` whose successor (if any) lies above `q` is the owner.
pub proof fn lemma_pred_idx_unique(r: Seq<ShardLabel>, q: u64, i: int)
    requires
        ring_wf(r),
        0 <= i < r.len(),
        r[i].position <= q,
        i == r.len() - 1 || r[i + 1].position > q,
    ensures
        pred_idx(r, q) == i,
{
    lemma_pred_idx_bounds(r, q);
    lemma_pred_idx_is_pred(r, q);
    let p = pred_idx(r, q);
    if p > i {
        assert(r[i + 1].position <= r[p].position);
    }
}

/// Predecessor correctness: a query strictly between two adjacent label
/// positions resolves to the lower of the two.
pub proof fn lemma_predecessor_correct(r: Seq<ShardLabel>, q: u64, i: int)
    requires
        ring_wf(r),
        0 <= i,
        i + 1 < r.len(),
        r[i].position < q,
        q < r[i + 1].position,
    ensures
        owner_label(r, q) == r[i],
        spec_assign(r, q) == r[i].shard,
{
    lemma_pred_idx_unique(r, q, i);
}

/// The assigned shard of any position stays below `n` when every label's
/// shard does.
pub proof fn lemma_assign_lt(r: Seq<ShardLabel>, q: u64, n: int)
    requires
        r.len() >= 1,
        ring_shards_lt(r, n),
    ensures
        spec_assign(r, q) < n,
{
    lemma_pred_idx_bounds(r, q);
}

/// The view of a sorted ring after inserting one label: the label replaces an
/// existing entry at the same position, or otherwise enters at the unique
/// index that keeps positions sorted.
pub open spec fn label_seq_insert(r: Seq<ShardLabel>, l: ShardLabel) -> Seq<ShardLabel>
    decreases r.len(),
{
    if r.len() == 0 {
        seq![l]
    } else if l.position < r[0].position {
        seq![l] + r
    } else if l.position == r[0].position {
        seq![l] + r.drop_first()
    } else {
        seq![r[0]] + label_seq_insert(r.drop_first(), l)
    }
}

/// The view of a ring after inserting a batch of labels, first to last.
pub open spec fn label_seq_insert_all(r: Seq<ShardLabel>, ls: Seq<ShardLabel>) -> Seq<ShardLabel>
    decreases ls.len(),
{
    if ls.len() == 0 {
        r
    } else {
        label_seq_insert_all(label_seq_insert(r, ls[0]), ls.drop_first())
    }
}

/// `label_seq_insert` lands the new label exactly where the sort order puts
/// it: given the boundary index `k` between the positions below `l` and the
/// rest, the result is either a replacement at `k` or an insertion before `k`.
pub proof fn lemma_label_seq_insert_at(r: Seq<ShardLabel>, l: ShardLabel, k: int)
    requires
        0 <= k <= r.len(),
        forall|i: int| 0 <= i < k ==> r[i].position < l.position,
        k < r.len() ==> r[k].position >= l.position,
    ensures
        k < r.len() && r[k].position == l.position ==> label_seq_insert(r, l) == r.update(k, l),
        (k == r.len() || r[k].position > l.position) ==> label_seq_insert(r, l) == r.subrange(
            0,
            k,
        ) + seq![l] + r.subrange(k, r.len() as int),
    decreases r.len(),
{
    if r.len() == 0 {
        assert(label_seq_insert(r, l) =~= r.subrange(0, 0) + seq![l] + r.subrange(0, 0));
    } else if k == 0 {
        if r[0].position > l.position {
            assert(label_seq_insert(r, l) =~= r.subrange(0, 0) + seq![l] + r.subrange(
                0,
                r.len() as int,
            ));
        } else if r[0].position == l.position {
            assert(label_seq_insert(r, l) =~= r.update(0, l));
        }
    } else {
        let rr = r.drop_first();
        assert forall|i: int| 0 <= i < k - 1 implies rr[i].position < l.position by {
            assert(rr[i] == r[i + 1]);
        }
        lemma_label_seq_insert_at(rr, l, k - 1);
        assert(label_seq_insert(r, l) == seq![r[0]] + label_seq_insert(rr, l));
        if k < r.len() && r[k].position == l.position {
            assert(rr[k - 1] == r[k]);
            assert(label_seq_insert(rr, l) == rr.update(k - 1, l));
            assert(seq![r[0]] + rr.update(k - 1, l) =~= r.update(k, l));
        } else {
            assert(label_seq_insert(rr, l) == rr.subrange(0, k - 1) + seq![l] + rr.subrange(
                k - 1,
                rr.len() as int,
            ));
            assert(seq![r[0]] + (rr.subrange(0, k - 1) + seq![l] + rr.subrange(
                k - 1,
                rr.len() as int,
            )) =~= r.subrange(0, k) + seq![l] + r.subrange(k, r.len() as int));
        }
    }
}

/// Inserting a batch of labels, then one more, is inserting the batch
/// extended by that label.
pub proof fn lemma_insert_all_snoc(r: Seq<ShardLabel>, ls: Seq<ShardLabel>, l: ShardLabel)
    ensures
        label_seq_insert_all(r, ls.push(l)) == label_seq_insert(label_seq_insert_all(r, ls), l),
    decreases ls.len(),
{
    let s1 = ls.push(l);
    if ls.len() == 0 {
        assert(s1[0] == l);
        assert(s1.drop_first() =~= Seq::<ShardLabel>::empty());
        assert(label_seq_insert_all(r, s1) == label_seq_insert_all(
            label_seq_insert(r, l),
            s1.drop_first(),
        ));
        assert(label_seq_insert_all(label_seq_insert(r, l), s1.drop_first()) == label_seq_insert(
            r,
            l,
        ));
        assert(label_seq_insert_all(r, ls) == r);
    } else {
        assert(s1[0] == ls[0]);
        assert(s1.drop_first() =~= ls.drop_first().push(l));
        lemma_insert_all_snoc(label_seq_insert(r, ls[0]), ls.drop_first(), l);
        assert(label_seq_insert_all(r, s1) == label_seq_insert_all(
            label_seq_insert(r, ls[0]),
            s1.drop_first(),
        ));
        assert(label_seq_insert_all(r, ls) == label_seq_insert_all(
            label_seq_insert(r, ls[0]),
            ls.drop_first(),
        ));
    }
}

/// Inserting a label whose shard lies below `n` keeps every shard on the
/// ring below `n`.
pub proof fn lemma_insert_shards_lt(r: Seq<ShardLabel>, l: ShardLabel, n: int)
    requires
        ring_shards_lt(r, n),
        l.shard < n,
    ensures
        ring_shards_lt(label_seq_insert(r, l), n),
    decreases r.len(),
{
    let res = label_seq_insert(r, l);
    if r.len() == 0 {
        assert forall|i: int| 0 <= i < res.len() implies res[i].shard < n by {
            assert(res[i] == l);
        }
    } else if l.position < r[0].position {
        assert forall|i: int| 0 <= i < res.len() implies res[i].shard < n by {
            if i == 0 {
                assert(res[i] == l);
            } else {
                assert(res[i] == r[i - 1]);
            }
        }
    } else if l.position == r[0].position {
        assert forall|i: int| 0 <= i < res.len() implies res[i].shard < n by {
            if i == 0 {
                assert(res[i] == l);
            } else {
                assert(res[i] == r.drop_first()[i - 1]);
                assert(r.drop_first()[i - 1] == r[i]);
            }
        }
    } else {
        let rr = r.drop_first();
        assert forall|i: int| 0 <= i < rr.len() implies rr[i].shard < n by {
            assert(rr[i] == r[i + 1]);
        }
        lemma_insert_shards_lt(rr, l, n);
        assert forall|i: int| 0 <= i < res.len() implies res[i].shard < n by {
            if i == 0 {
                assert(res[i] == r[0]);
            } else {
                assert(res[i] == label_seq_insert(rr, l)[i - 1]);
            }
        }
    }
}

/// The live ring. Constructed with its first label — an empty ring is
/// unrepresentable, so every lookup finds an owner.
pub struct Ring {
    labels: Vec<ShardLabel>,
}

impl View for Ring {
    type V = Seq<ShardLabel>;

    closed spec fn view(&self) -> Seq<ShardLabel> {
        self.labels@
    }
}

impl Ring {
    /// The ring's invariant: non-empty and strictly sorted by position.
    pub open spec fn wf(&self) -> bool {
        ring_wf(self@)
    }

    /// A ring holding one label.
    pub fn new(first: ShardLabel) -> (r: Ring)
        ensures
            r.wf(),
            r@ == seq![first],
    {
        let mut labels: Vec<ShardLabel> = Vec::new();
        labels.push(first);
        proof {
            assert(labels@ =~= seq![first]);
        }
        Ring { labels }
    }

    /// How many labels the ring holds.
    pub fn len(&self) -> (n: usize)
        ensures
            n == self@.len(),
    {
        self.labels.len()
    }

    /// The label at index `i` in position order, for enumeration.
    pub fn label_at(&self, i: usize) -> (l: ShardLabel)
        requires
            i < self@.len(),
        ensures
            l == self@[i as int],
    {
        self.labels[i]
    }

    /// Add a label at its position, keeping the ring sorted. A label already
    /// sitting at exactly that position is replaced — a position names at
    /// most one label.
    pub fn insert_label(&mut self, l: ShardLabel)
        requires
            old(self).wf(),
        ensures
            final(self).wf(),
            final(self)@ == label_seq_insert(old(self)@, l),
    {
        let mut k: usize = 0;
        while k < self.labels.len() && self.labels[k].position < l.position
            invariant
                self == old(self),
                k <= self@.len(),
                forall|i: int| 0 <= i < k ==> self@[i].position < l.position,
            decreases self@.len() - k,
        {
            k += 1;
        }
        proof {
            lemma_label_seq_insert_at(self@, l, k as int);
        }
        if k < self.labels.len() && self.labels[k].position == l.position {
            self.labels.set(k, l);
            proof {
                assert(self@ == old(self)@.update(k as int, l));
            }
        } else {
            self.labels.insert(k, l);
            proof {
                assert(self@ =~= old(self)@.subrange(0, k as int) + seq![l] + old(self)@.subrange(
                    k as int,
                    old(self)@.len() as int,
                ));
            }
        }
    }

    /// The label owning position `q`: binary search for the greatest position
    /// not exceeding `q`, falling back to the smallest label when every
    /// position lies above `q` (wrap-around).
    pub fn predecessor_or_wrap(&self, q: u64) -> (l: ShardLabel)
        requires
            self.wf(),
        ensures
            l == owner_label(self@, q),
    {
        if self.labels[0].position > q {
            proof {
                lemma_wrap(self@, q);
            }
            return self.labels[0];
        }
        let mut lo: usize = 0;
        let mut hi: usize = self.labels.len();
        while hi - lo > 1
            invariant
                self.wf(),
                lo < hi <= self@.len(),
                self@[lo as int].position <= q,
                forall|j: int| hi <= j < self@.len() ==> self@[j].position > q,
            decreases hi - lo,
        {
            let mid = lo + (hi - lo) / 2;
            if self.labels[mid].position <= q {
                lo = mid;
            } else {
                hi = mid;
            }
        }
        proof {
            lemma_pred_idx_unique(self@, q, lo as int);
        }
        self.labels[lo]
    }

    /// The label owning position `q`, found by a linear scan from the lowest
    /// position: keep the last label seen at or below `q`. Returns exactly
    /// what `predecessor_or_wrap` returns for every ring and query.
    pub fn predecessor_linear(&self, q: u64) -> (l: ShardLabel)
        requires
            self.wf(),
        ensures
            l == owner_label(self@, q),
    {
        let mut best: ShardLabel = self.labels[0];
        let mut i: usize = 0;
        while i < self.labels.len() && self.labels[i].position <= q
            invariant
                self.wf(),
                i <= self@.len(),
                forall|j: int| 0 <= j < i ==> self@[j].position <= q,
                if i == 0 {
                    best == self@[0]
                } else {
                    best == self@[i - 1]
                },
            decreases self@.len() - i,
        {
            best = self.labels[i];
            i += 1;
        }
        proof {
            if i == 0 {
                lemma_wrap(self@, q);
            } else {
                lemma_pred_idx_unique(self@, q, i - 1 as int);
            }
        }
        best
    }

    /// A point-in-time copy of the ring for a rebalancing pass: mutations to
    /// the live ring are never observed through the snapshot.
    pub fn snapshot(&self) -> (r: Ring)
        ensures
            r@ == self@,
    {
        let mut labels: Vec<ShardLabel> = Vec::new();
        let mut i: usize = 0;
        while i < self.labels.len()
            invariant
                i <= self@.len(),
                labels@ == self@.subrange(0, i as int),
            decreases self@.len() - i,
        {
            labels.push(self.labels[i]);
            proof {
                assert(labels@ =~= self@.subrange(0, i + 1 as int));
            }
            i += 1;
        }
        proof {
            assert(labels@ =~= self@);
        }
        Ring { labels }
    }
}

} // verus!
