//! Subscriber hub: owns the history store, reconciles observed tips against
//! the canonical view and multicasts `NewBlock` / `Reorg` items to bounded
//! per-subscriber queues parameterized by depth.
//!
//! The reconcile walk alternates decisions with ledger fetches, which live
//! outside this crate; the hub therefore exposes the walk as pure steps: the
//! driver asks [`BlockSubscriber::reconcile_step`] what to do next, fetches
//! the named parent, and finally hands the whole fetched branch to
//! [`BlockSubscriber::apply_branch`], which commits it and publishes.
//!
//! Every subscription stream carries its full emission history as ghost
//! state; well-formedness of the hub pins down the ordering laws: adjacent
//! `NewBlock` items are parent-linked with consecutive heights, and every
//! `Reorg` is followed by a `NewBlock` that meets the rolled-back chain at
//! the common ancestor.

use vstd::prelude::*;

use crate::archive::{canon_linked, BlockArchive};
use crate::types::{ArchiveError, Block, BlockStreamItem, ItemModel, SubscriberError};

verus! {

/// A rolled-back sequence: nonempty, ordered tip-first, parent-linked.
pub open spec fn rolled_wf(r: Seq<Block>) -> bool {
    &&& r.len() > 0
    &&& forall|j: int|
        0 < j < r.len() ==> (#[trigger] r[j]).hash == r[j - 1].parent_hash && r[j].number + 1
            == r[j - 1].number
}

/// Ordering law for two adjacent stream items.
pub open spec fn pair_wf(prev: ItemModel, cur: ItemModel) -> bool {
    match cur {
        ItemModel::NewBlock(b) => match prev {
            ItemModel::NewBlock(a) => b.number == a.number + 1 && b.parent_hash == a.hash,
            ItemModel::Reorg(r) => r.len() > 0 && b.number == r.last().number && b.parent_hash
                == r.last().parent_hash,
        },
        ItemModel::Reorg(r) => rolled_wf(r),
    }
}

/// Ordering law for a whole stream: every `Reorg` payload is well-formed
/// and every adjacent pair satisfies [`pair_wf`].
pub open spec fn stream_wf(h: Seq<ItemModel>) -> bool {
    &&& forall|i: int| 0 < i < h.len() ==> pair_wf(h[i - 1], #[trigger] h[i])
    &&& forall|i: int|
        0 <= i < h.len() ==> (#[trigger] h[i] matches ItemModel::Reorg(r) ==> rolled_wf(r))
}

/// One registered subscription: a depth, a delivery cursor and a bounded
/// queue, together with the ghost history of everything ever enqueued.
pub struct Subscription {
    /// Blocks are delivered at height `tip - depth`.
    pub depth: u64,
    /// Height of the next block to deliver.
    pub next_number: u64,
    /// Hash the next delivered block must extend.
    pub next_parent: u64,
    /// Items enqueued and not yet taken by the client.
    pub queue: Vec<BlockStreamItem>,
    /// Queue bound; overflowing it closes the stream.
    pub cap: usize,
    /// The stream was closed after the queue overflowed.
    pub lagged: bool,
    /// Every item ever enqueued, in order.
    pub history: Ghost<Seq<ItemModel>>,
}

/// The delivery cursor agrees with the last item of the history.
pub open spec fn cursor_wf(s: Subscription) -> bool {
    s.history@.len() > 0 ==> match s.history@.last() {
        ItemModel::NewBlock(b) => s.next_number == b.number + 1 && s.next_parent == b.hash,
        ItemModel::Reorg(r) => r.len() > 0 && s.next_number == r.last().number && s.next_parent
            == r.last().parent_hash,
    }
}

/// The pending queue is a suffix of the history.
pub open spec fn queue_wf(s: Subscription) -> bool {
    &&& s.queue@.len() <= s.history@.len()
    &&& forall|k: int|
        0 <= k < s.queue@.len() ==> (#[trigger] s.queue@[k])@ == s.history@[s.history@.len()
            - s.queue@.len() + k]
}

/// Full well-formedness of a subscription against the hub's archive.
pub open spec fn sub_wf(s: Subscription, ar: BlockArchive) -> bool {
    &&& stream_wf(s.history@)
    &&& queue_wf(s)
    &&& !s.lagged ==> {
        &&& cursor_wf(s)
        &&& ar.canon().len() > 0
        &&& ar.base() < s.next_number <= ar.tip_number() + 1
        &&& s.next_parent == ar.canonical_hash_at(s.next_number - 1)
    }
}

/// The subscriptions after an operation correspond one to one to those
/// before it: same depth, and each old stream a prefix of the new one.
pub open spec fn subs_preserved(a: Seq<Subscription>, b: Seq<Subscription>) -> bool {
    &&& b.len() == a.len()
    &&& forall|i: int|
        0 <= i < a.len() ==> (#[trigger] b[i]).depth == a[i].depth && a[i].history@.is_prefix_of(
            b[i].history@,
        )
}

/// Unchanged subscriptions are preserved.
pub proof fn lemma_subs_preserved_refl(a: Seq<Subscription>)
    ensures
        subs_preserved(a, a),
{
    assert forall|i: int| 0 <= i < a.len() implies (#[trigger] a[i]).depth == a[i].depth
        && a[i].history@.is_prefix_of(a[i].history@) by {
        assert(a[i].history@ =~= a[i].history@.subrange(0, a[i].history@.len() as int));
    }
}

/// The greatest depth among live subscriptions (zero when none).
pub open spec fn max_live_depth(s: Seq<Subscription>) -> u64
    decreases s.len(),
{
    if s.len() == 0 {
        0
    } else {
        let m = max_live_depth(s.drop_last());
        if !s.last().lagged && s.last().depth > m {
            s.last().depth
        } else {
            m
        }
    }
}

/// The least delivery cursor among live subscriptions (the largest value
/// when none).
pub open spec fn min_live_cursor(s: Seq<Subscription>) -> u64
    decreases s.len(),
{
    if s.len() == 0 {
        u64::MAX
    } else {
        let m = min_live_cursor(s.drop_last());
        if !s.last().lagged && s.last().next_number < m {
            s.last().next_number
        } else {
            m
        }
    }
}

/// A branch the hub commits: nonempty, parent-linked with consecutive
/// heights below the largest representable one, attaching at the canonical
/// index (or at the base on a cold start), hash-distinct, and not colliding
/// with a differently-stored block.
pub open spec fn branch_applies(ar: BlockArchive, branch: Seq<Block>) -> bool {
    &&& branch.len() > 0
    &&& branch.last().number < u64::MAX
    &&& forall|j: int|
        0 < j < branch.len() ==> (#[trigger] branch[j]).parent_hash == branch[j - 1].hash
            && branch[j].number == branch[j - 1].number + 1
    &&& (if ar.canon().len() == 0 {
        branch[0].number == ar.base()
    } else {
        &&& branch[0].number > ar.base()
        &&& ar.has_canonical(branch[0].number - 1)
        &&& ar.canonical_hash_at(branch[0].number - 1) == branch[0].parent_hash
    })
    &&& forall|x: int, y: int| 0 <= x < y < branch.len() ==> branch[x].hash != branch[y].hash
    &&& forall|j: int|
        0 <= j < branch.len() ==> (ar.store().contains_key((#[trigger] branch[j]).hash)
            ==> ar.store()[branch[j].hash] == branch[j])
}

/// What one commit with common ancestor at height `anchor` delivers to one
/// subscription: the rollback exactly when it crosses the horizon, then the
/// canonical block at every undelivered height up to the new tip minus the
/// depth — provided the queue has room for all of it; a closed subscription
/// is untouched.
pub open spec fn delivered(
    s_old: Subscription,
    s_new: Subscription,
    old_ar: BlockArchive,
    ar: BlockArchive,
    anchor: int,
) -> bool {
    let rolled = Seq::new(
        (old_ar.tip_number() - anchor) as nat,
        |j: int| old_ar.canonical_block_at(old_ar.tip_number() - j),
    );
    let touched = rolled.len() > 0 && s_old.next_number > anchor + 1;
    let start = if touched {
        anchor + 1
    } else {
        s_old.next_number as int
    };
    let stop = ar.tip_number() - s_old.depth + 1;
    let count = if stop > start {
        (stop - start) as nat
    } else {
        0
    };
    let need = (if touched {
        1int
    } else {
        0
    }) + count;
    &&& s_new.depth == s_old.depth
    &&& s_new.cap == s_old.cap
    &&& (s_old.lagged ==> s_new == s_old)
    &&& ((!s_old.lagged && s_old.queue@.len() + need <= s_old.cap) ==> {
        &&& !s_new.lagged
        &&& s_new.history@ == s_old.history@ + (if touched {
            seq![ItemModel::Reorg(rolled)]
        } else {
            Seq::<ItemModel>::empty()
        }) + Seq::new(count, |x: int| ItemModel::NewBlock(ar.canonical_block_at(start + x)))
        &&& s_new.next_number == start + count
    })
}

/// Relation between the archive before and after a reconcile commit with
/// common ancestor at height `anchor`: same base, canonical agreement at
/// and below the ancestor, the store only grown, and `rolled` exactly the
/// old canonical blocks above the ancestor, tip-first.
pub open spec fn advance_ok(
    old_ar: BlockArchive,
    ar: BlockArchive,
    rolled: Seq<Block>,
    anchor: int,
) -> bool {
    &&& old_ar.wf()
    &&& ar.wf()
    &&& ar.base() == old_ar.base()
    &&& old_ar.canon().len() > 0
    &&& ar.canon().len() > 0
    &&& old_ar.base() <= anchor <= old_ar.tip_number()
    &&& anchor < ar.tip_number()
    &&& forall|n: int|
        ar.base() <= n <= anchor ==> old_ar.has_canonical(n) && ar.has_canonical(n)
            && #[trigger] ar.canonical_hash_at(n) == old_ar.canonical_hash_at(n)
    &&& forall|h: u64|
        #[trigger] old_ar.store().contains_key(h) ==> ar.store().contains_key(h) && ar.store()[h]
            == old_ar.store()[h]
    &&& rolled.len() == old_ar.tip_number() - anchor
    &&& forall|j: int|
        0 <= j < rolled.len() ==> #[trigger] rolled[j] == old_ar.canonical_block_at(
            old_ar.tip_number() - j,
        )
}

/// The blocks rolled off a canonical suffix, tip-first, are parent-linked
/// and end with the child of the common ancestor.
pub proof fn lemma_rolled_wf(old_ar: BlockArchive, rolled: Seq<Block>, anchor: int)
    requires
        old_ar.wf(),
        old_ar.canon().len() > 0,
        old_ar.base() <= anchor <= old_ar.tip_number(),
        rolled.len() == old_ar.tip_number() - anchor,
        forall|j: int|
            0 <= j < rolled.len() ==> #[trigger] rolled[j] == old_ar.canonical_block_at(
                old_ar.tip_number() - j,
            ),
        rolled.len() > 0,
    ensures
        rolled_wf(rolled),
        rolled.last().number == anchor + 1,
        rolled.last().parent_hash == old_ar.canonical_hash_at(anchor),
    decreases 0int,
{
    assert forall|j: int| 0 < j < rolled.len() implies (#[trigger] rolled[j]).hash == rolled[j
        - 1].parent_hash && rolled[j].number + 1 == rolled[j - 1].number by {
        let n = old_ar.tip_number() - j;
        old_ar.lemma_canonical_block_id(n);
        old_ar.lemma_canonical_block_id(n + 1);
        old_ar.lemma_canonical_parent(n + 1);
    }
    old_ar.lemma_canonical_block_id(anchor + 1);
    old_ar.lemma_canonical_parent(anchor + 1);
    assert(rolled.last() == old_ar.canonical_block_at(anchor + 1));
}

/// In a parent-linked branch, heights are offsets from the first block.
proof fn lemma_branch_numbers(branch: Seq<Block>, j: int)
    requires
        forall|x: int|
            0 < x < branch.len() ==> (#[trigger] branch[x]).parent_hash == branch[x - 1].hash
                && branch[x].number == branch[x - 1].number + 1,
        0 <= j < branch.len(),
    ensures
        branch[j].number == branch[0].number + j,
    decreases j,
{
    if j > 0 {
        lemma_branch_numbers(branch, j - 1);
    }
}

/// After a commit, the new canonical index follows the applied branch above
/// the attach point and agrees with the old index below it.
#[verifier::rlimit(100)]
proof fn lemma_commit_canonical(old_arch: BlockArchive, ar: BlockArchive, branch: Seq<Block>)
    requires
        old_arch.wf(),
        ar.wf(),
        branch.len() > 0,
        ar.base() == old_arch.base(),
        forall|j: int|
            0 < j < branch.len() ==> (#[trigger] branch[j]).parent_hash == branch[j - 1].hash
                && branch[j].number == branch[j - 1].number + 1,
        forall|j: int| 0 <= j < branch.len() ==> (#[trigger] branch[j]).number == branch[0].number
            + j,
        (old_arch.canon().len() == 0 && branch[0].number == old_arch.base()) || (
        old_arch.canon().len() > 0 && branch[0].number > old_arch.base() && old_arch.has_canonical(
            branch[0].number - 1,
        ) && old_arch.canonical_hash_at(branch[0].number - 1) == branch[0].parent_hash),
        forall|h: u64|
            #[trigger] old_arch.store().contains_key(h) ==> ar.store().contains_key(h)
                && ar.store()[h] == old_arch.store()[h],
        forall|j: int|
            0 <= j < branch.len() ==> ar.store().contains_key((#[trigger] branch[j]).hash)
                && ar.store()[branch[j].hash] == branch[j],
        ar.canon().len() == branch.last().number - ar.base() + 1,
        ar.canon()[ar.canon().len() - 1] == branch.last().hash,
    ensures
        forall|k: int|
            0 <= k < branch.len() ==> ar.has_canonical((#[trigger] branch[k]).number as int)
                && ar.canonical_hash_at(branch[k].number as int) == branch[k].hash,
        forall|n: int|
            ar.base() <= n < branch[0].number ==> old_arch.has_canonical(n) && ar.has_canonical(n)
                && #[trigger] ar.canonical_hash_at(n) == old_arch.canonical_hash_at(n),
{
    let m = ar.store();
    let base = ar.base();
    let c1 = ar.canon();
    let prefix = old_arch.canon().take(branch[0].number - base);
    let c2 = prefix + branch.map_values(|b: Block| b.hash);
    crate::archive::lemma_canon_linked_extend(old_arch.store(), m, base, old_arch.canon());
    assert forall|i: int| 0 <= i < c2.len() implies #[trigger] m.contains_key(c2[i])
        && m[c2[i]].number == base + i by {
        if i < prefix.len() {
            assert(c2[i] == old_arch.canon()[i]);
            assert(m.contains_key(old_arch.canon()[i]));
        } else {
            let j = i - prefix.len();
            assert(c2[i] == branch[j].hash);
            assert(m.contains_key(branch[j].hash));
            assert(branch[j].number == branch[0].number + j);
        }
    }
    assert forall|i: int| 0 < i < c2.len() implies m[#[trigger] c2[i]].parent_hash == c2[i
        - 1] by {
        if i < prefix.len() {
            assert(c2[i] == old_arch.canon()[i]);
            assert(c2[i - 1] == old_arch.canon()[i - 1]);
        } else if i == prefix.len() {
            assert(c2[i] == branch[0].hash);
            assert(m[c2[i]] == branch[0]);
            assert(c2[i - 1] == old_arch.canon()[i - 1]);
            assert(old_arch.canonical_hash_at(branch[0].number - 1) == old_arch.canon()[
                branch[0].number - 1 - base]);
        } else {
            let j = i - prefix.len();
            assert(c2[i] == branch[j].hash);
            assert(m[c2[i]] == branch[j]);
            assert(branch[j].parent_hash == branch[j - 1].hash);
            assert(c2[i - 1] == branch[j - 1].hash);
        }
    }
    assert(canon_linked(m, base, c2));
    assert(c1.len() == c2.len());
    assert(c2[c2.len() - 1] == branch[branch.len() - 1].hash);
    assert forall|j: int| 0 <= j < c1.len() implies c1[j] == c2[j] by {
        crate::archive::lemma_canon_prefix_unique(m, base, c1, c2, c1.len() - 1, j);
    }
    assert forall|kk: int| 0 <= kk < branch.len() implies ar.has_canonical(
        (#[trigger] branch[kk]).number as int,
    ) && ar.canonical_hash_at(branch[kk].number as int) == branch[kk].hash by {
        let i = branch[kk].number - base;
        assert(branch[kk].number == branch[0].number + kk);
        assert(c1[i] == c2[i]);
        assert(c2[i] == branch[kk].hash);
    }
    assert forall|n: int| ar.base() <= n < branch[0].number implies old_arch.has_canonical(n)
        && ar.has_canonical(n) && #[trigger] ar.canonical_hash_at(n)
        == old_arch.canonical_hash_at(n) by {
        let i = n - base;
        assert(c1[i] == c2[i]);
        assert(c2[i] == prefix[i]);
        assert(prefix[i] == old_arch.canon()[i]);
    }
}

/// A copy of a block vector.
fn copy_blocks(v: &Vec<Block>) -> (r: Vec<Block>)
    ensures
        r@ == v@,
{
    let mut r: Vec<Block> = Vec::new();
    let mut i: usize = 0;
    while i < v.len()
        invariant
            i <= v@.len(),
            r@ == v@.take(i as int),
        decreases v@.len() - i,
    {
        r.push(v[i]);
        proof {
            assert(r@ =~= v@.take(i + 1));
        }
        i += 1;
    }
    proof {
        assert(r@ =~= v@);
    }
    r
}

impl Subscription {
    /// Append one item to the queue and the ghost history, or close the
    /// stream when the queue is at capacity.
    fn enqueue(&mut self, item: BlockStreamItem)
        requires
            !old(self).lagged,
            stream_wf(old(self).history@),
            queue_wf(*old(self)),
            old(self).history@.len() > 0 ==> pair_wf(old(self).history@.last(), item@),
            item@ matches ItemModel::Reorg(r) ==> rolled_wf(r),
        ensures
            final(self).depth == old(self).depth,
            final(self).cap == old(self).cap,
            final(self).next_number == old(self).next_number,
            final(self).next_parent == old(self).next_parent,
            stream_wf(final(self).history@),
            queue_wf(*final(self)),
            old(self).history@.is_prefix_of(final(self).history@),
            final(self).lagged == (old(self).queue@.len() >= old(self).cap),
            !final(self).lagged ==> final(self).history@ == old(self).history@.push(item@)
                && final(self).queue@ == old(self).queue@.push(item),
            final(self).lagged ==> final(self).history@ == old(self).history@,
            final(self).lagged ==> final(self).queue@.len() == 0,
    {
        let ghost iv = item@;
        if self.queue.len() >= self.cap {
            self.lagged = true;
            self.queue = Vec::new();
        } else {
            self.queue.push(item);
            proof {
                let h0 = old(self).history@;
                let h1 = h0.push(iv);
                assert forall|i: int| 0 < i < h1.len() implies pair_wf(h1[i - 1], #[trigger] h1[i]) by {
                    if i < h0.len() {
                        assert(h1[i - 1] == h0[i - 1]);
                        assert(h1[i] == h0[i]);
                    } else {
                        assert(h1[i] == iv);
                        assert(h1[i - 1] == h0.last());
                    }
                }
                assert forall|i: int|
                    0 <= i < h1.len() implies (#[trigger] h1[i] matches ItemModel::Reorg(r)
                    ==> rolled_wf(r)) by {
                    if i < h0.len() {
                        assert(h1[i] == h0[i]);
                    } else {
                        assert(h1[i] == iv);
                    }
                }
            }
            self.history = Ghost(self.history@.push(iv));
            proof {
                assert(old(self).history@.is_prefix_of(self.history@)) by {
                    assert(self.history@.take(old(self).history@.len() as int) =~= old(
                        self,
                    ).history@);
                }
            }
        }
    }
    /// Deliver the outcome of one reconcile commit to this subscription: a
    /// `Reorg` when the rollback crossed its horizon, then one `NewBlock`
    /// per undelivered canonical height up to `tip - depth`.
    fn publish_to(
        &mut self,
        ar: &BlockArchive,
        rolled: &Vec<Block>,
        anchor: u64,
        anchor_hash: u64,
        Ghost(old_ar): Ghost<BlockArchive>,
    )
        requires
            sub_wf(*old(self), old_ar),
            advance_ok(old_ar, *ar, rolled@, anchor as int),
            anchor_hash == ar.canonical_hash_at(anchor as int),
            rolled@.len() > 0 ==> rolled_wf(rolled@) && rolled@.last().number == anchor + 1
                && rolled@.last().parent_hash == anchor_hash,
        ensures
            sub_wf(*final(self), *ar),
            final(self).depth == old(self).depth,
            final(self).cap == old(self).cap,
            old(self).history@.is_prefix_of(final(self).history@),
            old(self).lagged ==> *final(self) == *old(self),
            delivered(*old(self), *final(self), old_ar, *ar, anchor as int),
    {
        let ghost rolled_spec = Seq::new(
            (old_ar.tip_number() - anchor) as nat,
            |j: int| old_ar.canonical_block_at(old_ar.tip_number() - j),
        );
        let ghost touched_g = rolled@.len() > 0 && old(self).next_number > anchor + 1;
        let ghost start_g: int = if touched_g {
            anchor + 1
        } else {
            old(self).next_number as int
        };
        let ghost stop_g: int = ar.tip_number() - old(self).depth + 1;
        let ghost count_g: nat = if stop_g > start_g {
            (stop_g - start_g) as nat
        } else {
            0
        };
        let ghost need_g: int = (if touched_g {
            1int
        } else {
            0
        }) + count_g;
        let ghost cap_ok = !old(self).lagged && old(self).queue@.len() + need_g <= old(self).cap;
        let ghost reorg_part = if touched_g {
            seq![ItemModel::Reorg(rolled_spec)]
        } else {
            Seq::<ItemModel>::empty()
        };
        proof {
            assert(rolled_spec =~= rolled@);
            assert(old(self).history@.is_prefix_of(old(self).history@)) by {
                assert(old(self).history@.take(old(self).history@.len() as int) =~= old(
                    self,
                ).history@);
            }
        }
        if self.lagged {
            return ;
        }
        if rolled.len() > 0 && self.next_number > anchor + 1 {
            let payload = copy_blocks(rolled);
            proof {
                if self.history@.len() > 0 {
                    assert(pair_wf(
                        self.history@.last(),
                        BlockStreamItem::Reorg(payload)@,
                    ));
                }
            }
            self.enqueue(BlockStreamItem::Reorg(payload));
            self.next_number = anchor + 1;
            self.next_parent = anchor_hash;
        }
        proof {
            if cap_ok {
                assert(!self.lagged);
                assert(self.history@ =~= old(self).history@ + reorg_part);
                assert(self.next_number == start_g);
                assert(self.queue@.len() == old(self).queue@.len() + (if touched_g {
                    1int
                } else {
                    0
                }));
            }
        }
        if self.lagged {
            return ;
        }
        proof {
            // the cursor stands at or below the ancestor's child, so the
            // parent link carries over to the new canonical branch
            assert(ar.has_canonical(self.next_number - 1));
            assert(self.next_parent == ar.canonical_hash_at(self.next_number - 1));
        }
        let tip_b = match ar.tip() {
            Some(t) => t,
            None => {
                proof {
                    assert(false);
                }
                return ;
            },
        };
        if tip_b.number < self.depth {
            proof {
                if cap_ok {
                    assert(count_g == 0);
                    assert(self.history@ =~= old(self).history@ + reorg_part + Seq::new(
                        count_g,
                        |x: int| ItemModel::NewBlock(ar.canonical_block_at(start_g + x)),
                    ));
                }
            }
            return ;
        }
        let target = tip_b.number - self.depth;
        proof {
            if cap_ok {
                assert(self.history@ =~= old(self).history@ + reorg_part + Seq::new(
                    (self.next_number - start_g) as nat,
                    |x: int| ItemModel::NewBlock(ar.canonical_block_at(start_g + x)),
                ));
            }
        }
        while !self.lagged && self.next_number <= target
            invariant
                ar.wf(),
                ar.canon().len() > 0,
                target <= ar.tip_number(),
                target as int == stop_g - 1,
                count_g == (if stop_g > start_g {
                    (stop_g - start_g) as nat
                } else {
                    0
                }),
                need_g == (if touched_g {
                    1int
                } else {
                    0
                }) + count_g,
                cap_ok == (!old(self).lagged && old(self).queue@.len() + need_g <= old(self).cap),
                sub_wf(*self, *ar),
                self.depth == old(self).depth,
                self.cap == old(self).cap,
                old(self).history@.is_prefix_of(self.history@),
                cap_ok ==> {
                    &&& !self.lagged
                    &&& start_g <= self.next_number
                    &&& self.next_number <= (if stop_g > start_g {
                        stop_g
                    } else {
                        start_g
                    })
                    &&& self.history@ == old(self).history@ + reorg_part + Seq::new(
                        (self.next_number - start_g) as nat,
                        |x: int| ItemModel::NewBlock(ar.canonical_block_at(start_g + x)),
                    )
                    &&& self.queue@.len() == old(self).queue@.len() + (if touched_g {
                        1int
                    } else {
                        0
                    }) + (self.next_number - start_g)
                },
            decreases (if self.lagged {
                0int
            } else {
                target + 1 - self.next_number
            }),
        {
            let b = match ar.get_canonical_by_number(self.next_number) {
                Some(b) => b,
                None => {
                    proof {
                        assert(false);
                    }
                    tip_b
                },
            };
            proof {
                ar.lemma_canonical_parent(self.next_number as int);
                if self.history@.len() > 0 {
                    assert(pair_wf(self.history@.last(), BlockStreamItem::NewBlock(b)@));
                }
                let ghost pre = self.history@;
                assert(pre.is_prefix_of(pre.push(BlockStreamItem::NewBlock(b)@))) by {
                    assert(pre.push(BlockStreamItem::NewBlock(b)@).take(pre.len() as int) =~= pre);
                }
            }
            let ghost mid = *self;
            self.enqueue(BlockStreamItem::NewBlock(b));
            if !self.lagged {
                self.next_parent = b.hash;
                self.next_number = self.next_number + 1;
            }
            proof {
                let a = old(self).history@;
                let c = self.history@;
                assert(a.is_prefix_of(c)) by {
                    assert(a =~= c.subrange(0, a.len() as int));
                }
                if cap_ok {
                    assert(stop_g > start_g);
                    assert(count_g == stop_g - start_g);
                    assert(mid.queue@.len() == old(self).queue@.len() + (if touched_g {
                        1int
                    } else {
                        0
                    }) + (mid.next_number - start_g));
                    assert(mid.next_number - start_g <= count_g - 1);
                    assert(mid.queue@.len() < mid.cap);
                    assert(!self.lagged);
                    assert(self.history@ =~= old(self).history@ + reorg_part + Seq::new(
                        (self.next_number - start_g) as nat,
                        |x: int| ItemModel::NewBlock(ar.canonical_block_at(start_g + x)),
                    ));
                }
            }
        }
        proof {
            if cap_ok {
                assert(self.next_number == start_g + count_g);
            }
        }
    }
}

/// What the reconcile walk should do with the block it currently holds.
#[derive(Clone, Copy, PartialEq, Eq, Structural, Debug)]
pub enum ReconcileStep {
    /// The walker's parent lies on the canonical branch (or the walker is a
    /// base block on a cold start): the branch walked so far can be applied.
    Attach,
    /// Fetch this parent hash and step to it.
    NeedParent(u64),
    /// The walk left `max_reorg_depth`: the hub must halt with `DeepReorg`.
    TooDeep,
}

/// The subscriber hub.
pub struct BlockSubscriber {
    archive: BlockArchive,
    subs: Vec<Subscription>,
    max_reorg_depth: u64,
    prune_slack: u64,
    queue_cap: usize,
    halted: bool,
}

impl BlockSubscriber {
    /// The history store.
    pub closed spec fn arch(self) -> BlockArchive {
        self.archive
    }

    /// The registered subscriptions, in registration order.
    pub closed spec fn subs_view(self) -> Seq<Subscription> {
        self.subs@
    }

    /// The hub halted after a too-deep reorganization.
    pub closed spec fn is_halted(self) -> bool {
        self.halted
    }

    /// The configured reorganization-depth limit.
    /// The configured pruning slack below the deepest subscriber horizon.
    pub closed spec fn slack(self) -> u64 {
        self.prune_slack
    }

    pub closed spec fn reorg_limit(self) -> u64 {
        self.max_reorg_depth
    }

    /// Well-formedness: the archive invariants plus every subscription's
    /// stream laws.
    pub open spec fn wf(self) -> bool {
        &&& self.arch().wf()
        &&& forall|i: int|
            0 <= i < self.subs_view().len() ==> sub_wf(#[trigger] self.subs_view()[i], self.arch())
    }

    /// A fresh hub with an empty history store.
    pub fn new(max_reorg_depth: u64, prune_slack: u64, queue_cap: usize) -> (r: Self)
        requires
            queue_cap >= 1,
        ensures
            r.wf(),
            r.arch().canon().len() == 0,
            r.arch().store() == Map::<u64, Block>::empty(),
            r.subs_view().len() == 0,
            !r.is_halted(),
            r.reorg_limit() == max_reorg_depth,
    {
        BlockSubscriber {
            archive: BlockArchive::new(),
            subs: Vec::new(),
            max_reorg_depth,
            prune_slack,
            queue_cap,
            halted: false,
        }
    }

    /// How many subscriptions were registered (live or closed).
    pub fn subscription_count(&self) -> (r: usize)
        ensures
            r == self.subs_view().len(),
    {
        self.subs.len()
    }

    /// A view of the history store, for resolving fold queries against it.
    pub fn archive_ref(&self) -> (r: &BlockArchive)
        ensures
            *r == self.arch(),
    {
        &self.archive
    }

    /// The canonical tip, if any.
    pub fn tip(&self) -> (r: Option<Block>)
        requires
            self.wf(),
        ensures
            match r {
                Some(b) => self.arch().canon().len() > 0 && b == self.arch().canonical_block_at(
                    self.arch().tip_number(),
                ),
                None => self.arch().canon().len() == 0,
            },
    {
        self.archive.tip()
    }

    /// The canonical block at a height, if retained.
    pub fn get_canonical(&self, n: u64) -> (r: Option<Block>)
        requires
            self.wf(),
        ensures
            match r {
                Some(b) => self.arch().has_canonical(n as int) && b
                    == self.arch().canonical_block_at(n as int),
                None => !self.arch().has_canonical(n as int),
            },
    {
        self.archive.get_canonical_by_number(n)
    }

    /// A stored block by hash, if retained.
    pub fn get_block(&self, h: u64) -> (r: Option<Block>)
        requires
            self.wf(),
        ensures
            match r {
                Some(b) => self.arch().store().contains_key(h) && self.arch().store()[h] == b,
                None => !self.arch().store().contains_key(h),
            },
    {
        self.archive.get_by_hash(h)
    }

    /// Whether an observed tip differs from the canonical view, so that a
    /// reconcile walk is needed. Nothing is emitted when the observed tip is
    /// already the canonical tip.
    pub fn needs_update(&self, observed_number: u64, observed_hash: u64) -> (r: bool)
        requires
            self.wf(),
        ensures
            r == !(self.arch().canon().len() > 0 && observed_number == self.arch().tip_number()
                && observed_hash == self.arch().canonical_hash_at(self.arch().tip_number())),
    {
        match self.archive.tip() {
            Some(t) => !(observed_number == t.number && observed_hash == t.hash),
            None => true,
        }
    }

    /// The walker block's parent lies on the canonical branch, or the
    /// walker is a base-height block while the canonical index is empty.
    pub open spec fn attach_ok(self, w: Block) -> bool {
        if self.arch().canon().len() == 0 {
            w.number == self.arch().base()
        } else {
            &&& w.number > self.arch().base()
            &&& self.arch().has_canonical(w.number - 1)
            &&& self.arch().canonical_hash_at(w.number - 1) == w.parent_hash
        }
    }

    /// One decision of the reconcile walk, for the block the walk currently
    /// holds: attach here, fetch the parent, or give up as a deep reorg.
    pub fn reconcile_step(&self, walker: &Block) -> (r: ReconcileStep)
        requires
            self.wf(),
        ensures
            r == ReconcileStep::Attach <==> self.attach_ok(*walker),
            r == ReconcileStep::TooDeep <==> (!self.attach_ok(*walker) && self.arch().canon().len()
                > 0 && self.arch().tip_number() - walker.number >= self.reorg_limit()),
            r matches ReconcileStep::NeedParent(p) ==> p == walker.parent_hash && !self.attach_ok(
                *walker,
            ),
    {
        let canon_len = self.archive.canonical_len();
        if canon_len == 0 {
            if walker.number == self.archive.base_number() {
                return ReconcileStep::Attach;
            }
            return ReconcileStep::NeedParent(walker.parent_hash);
        }
        if walker.number > self.archive.base_number() {
            match self.archive.get_canonical_by_number(walker.number - 1) {
                Some(c) => {
                    if c.hash == walker.parent_hash {
                        return ReconcileStep::Attach;
                    }
                },
                None => {},
            }
        }
        let tip_n = self.archive.base_number() + (canon_len as u64 - 1);
        if tip_n >= walker.number && tip_n - walker.number >= self.max_reorg_depth {
            return ReconcileStep::TooDeep;
        }
        ReconcileStep::NeedParent(walker.parent_hash)
    }

    /// Halt the hub after a too-deep reorganization; every stream then ends
    /// with `DeepReorg`.
    pub fn halt(&mut self)
        requires
            old(self).wf(),
        ensures
            final(self).wf(),
            final(self).is_halted(),
            final(self).arch() == old(self).arch(),
            final(self).subs_view() == old(self).subs_view(),
    {
        self.halted = true;
        proof {
            assert(self.arch() == old(self).arch());
            assert(self.subs_view() == old(self).subs_view());
        }
    }

    /// Register a subscription at `depth`: it immediately replays the
    /// canonical block at `tip - depth` and thereafter receives one
    /// `NewBlock` per unit of tip advance, plus the `Reorg` items that
    /// touch its horizon. Fails exactly when the chain is empty or the
    /// block at `tip - depth` is not retained.
    pub fn subscribe_new_blocks_at_depth(&mut self, depth: u64) -> (r: Result<
        usize,
        SubscriberError,
    >)
        requires
            old(self).wf(),
        ensures
            final(self).wf(),
            final(self).arch() == old(self).arch(),
            final(self).is_halted() == old(self).is_halted(),
            match r {
                Ok(id) => {
                    &&& id == old(self).subs_view().len()
                    &&& final(self).subs_view().len() == old(self).subs_view().len() + 1
                    &&& forall|i: int|
                        0 <= i < old(self).subs_view().len() ==> final(self).subs_view()[i] == old(
                            self,
                        ).subs_view()[i]
                    &&& old(self).arch().canon().len() > 0
                    &&& old(self).arch().tip_number() - depth >= old(self).arch().base()
                    &&& final(self).subs_view()[id as int].depth == depth
                    &&& !final(self).subs_view()[id as int].lagged
                    &&& final(self).subs_view()[id as int].history@ =~= seq![
                        ItemModel::NewBlock(
                            old(self).arch().canonical_block_at(
                                old(self).arch().tip_number() - depth,
                            ),
                        ),
                    ]
                    &&& final(self).subs_view()[id as int].queue@.len() == 1
                },
                Err(_) => {
                    &&& final(self).subs_view() == old(self).subs_view()
                    &&& !(old(self).arch().canon().len() > 0 && old(self).arch().tip_number()
                        - depth >= old(self).arch().base())
                },
            },
    {
        let t = match self.archive.tip() {
            Some(t) => t,
            None => {
                return Err(SubscriberError::DepthUnavailable);
            }
        };
        if depth > t.number || t.number - depth < self.archive.base_number() {
            return Err(SubscriberError::DepthUnavailable);
        }
        let start_n = t.number - depth;
        let b = match self.archive.get_canonical_by_number(start_n) {
            Some(b) => b,
            None => {
                proof {
                    assert(false);
                }
                t
            }
        };
        let mut queue: Vec<BlockStreamItem> = Vec::new();
        queue.push(BlockStreamItem::NewBlock(b));
        let ghost hist0: Seq<ItemModel> = seq![ItemModel::NewBlock(b)];
        let sub = Subscription {
            depth,
            next_number: start_n + 1,
            next_parent: b.hash,
            queue,
            cap: self.queue_cap,
            lagged: false,
            history: Ghost(hist0),
        };
        let id = self.subs.len();
        proof {
            assert(sub_wf(sub, self.archive));
        }
        self.subs.push(sub);
        Ok(id)
    }

    /// Commit a fetched branch and publish the outcome. `branch` must be
    /// the blocks walked from the attach point up to the observed tip,
    /// ascending and parent-linked, with `branch[0]` accepted by
    /// [`Self::reconcile_step`] as `Attach`. On success the canonical index
    /// follows the branch: blocks rolled off the old canonical suffix are
    /// multicast as one `Reorg` to every subscription they touch, and each
    /// subscription receives the `NewBlock` items at its depth. On failure
    /// (a malformed branch, a hash collision, or an unattachable branch)
    /// the canonical index and the subscriptions are untouched, though
    /// fetched headers may remain stored.
    #[verifier::spinoff_prover]
    #[verifier::rlimit(100)]
    pub fn apply_branch(&mut self, branch: &Vec<Block>) -> (r: Result<(), SubscriberError>)
        requires
            old(self).wf(),
        ensures
            final(self).wf(),
            final(self).is_halted() == old(self).is_halted(),
            final(self).arch().base() == old(self).arch().base(),
            subs_preserved(old(self).subs_view(), final(self).subs_view()),
            match r {
                Ok(()) => {
                    &&& branch@.len() > 0
                    &&& final(self).arch().canon().len() > 0
                    &&& final(self).arch().tip_number() == branch@.last().number
                    &&& forall|k: int|
                        0 <= k < branch@.len() ==> final(self).arch().has_canonical(
                            (#[trigger] branch@[k]).number as int,
                        ) && final(self).arch().canonical_hash_at(branch@[k].number as int)
                            == branch@[k].hash
                    &&& forall|n: int|
                        final(self).arch().base() <= n < branch@[0].number ==> old(
                            self,
                        ).arch().has_canonical(n) && final(self).arch().has_canonical(n)
                            && #[trigger] final(self).arch().canonical_hash_at(n) == old(
                            self,
                        ).arch().canonical_hash_at(n)
                },
                Err(_) => final(self).arch().canon() == old(self).arch().canon(),
            },
            r is Ok <==> branch_applies(old(self).arch(), branch@),
            (r is Ok && old(self).arch().canon().len() > 0) ==> forall|i: int|
                0 <= i < old(self).subs_view().len() ==> delivered(
                    #[trigger] old(self).subs_view()[i],
                    final(self).subs_view()[i],
                    old(self).arch(),
                    final(self).arch(),
                    branch@[0].number - 1,
                ),
            (r is Ok && old(self).arch().canon().len() == 0) ==> final(self).subs_view() == old(
                self,
            ).subs_view(),
    {
        proof {
            lemma_subs_preserved_refl(self.subs@);
        }
        if branch.len() == 0 {
            return Err(SubscriberError::ChainBroken);
        }
        let first = branch[0];
        let last = branch[branch.len() - 1];
        if last.number == u64::MAX {
            return Err(SubscriberError::ChainBroken);
        }
        let mut k: usize = 1;
        while k < branch.len()
            invariant
                old(self).wf(),
                *self == *old(self),
                1 <= k <= branch@.len(),
                forall|j: int|
                    0 < j < k ==> (#[trigger] branch@[j]).parent_hash == branch@[j - 1].hash
                        && branch@[j].number == branch@[j - 1].number + 1,
            decreases branch@.len() - k,
        {
            let prev = branch[k - 1];
            let cur = branch[k];
            if !(prev.number < u64::MAX && cur.number == prev.number + 1 && cur.parent_hash
                == prev.hash) {
                proof {
                    lemma_subs_preserved_refl(self.subs@);
                }
                return Err(SubscriberError::ChainBroken);
            }
            k += 1;
        }
        let cold = self.archive.canonical_len() == 0;
        if cold {
            if first.number != self.archive.base_number() {
                return Err(SubscriberError::ChainBroken);
            }
        } else {
            if first.number <= self.archive.base_number() {
                return Err(SubscriberError::ChainBroken);
            }
            match self.archive.get_canonical_by_number(first.number - 1) {
                Some(c) => {
                    if c.hash != first.parent_hash {
                        return Err(SubscriberError::ChainBroken);
                    }
                },
                None => {
                    return Err(SubscriberError::ChainBroken);
                },
            }
        }
        proof {
            assert forall|j: int|
                0 <= j < branch@.len() implies (#[trigger] branch@[j]).number == branch@[0].number
                + j by {
                lemma_branch_numbers(branch@, j);
            }
        }
        let ghost old_arch = self.archive;
        let mut k3: usize = 0;
        while k3 < branch.len()
            invariant
                old(self).wf(),
                self.archive.wf(),
                old_arch == old(self).arch(),
                self.subs == old(self).subs,
                self.halted == old(self).halted,
                self.max_reorg_depth == old(self).max_reorg_depth,
                self.prune_slack == old(self).prune_slack,
                self.queue_cap == old(self).queue_cap,
                k3 <= branch@.len(),
                branch@.len() > 0,
                first == branch@[0],
                cold == (old_arch.canon().len() == 0),
                cold ==> first.number == old_arch.base(),
                !cold ==> first.number > old_arch.base() && old_arch.has_canonical(
                    first.number - 1,
                ) && old_arch.canonical_hash_at(first.number - 1) == first.parent_hash,
                forall|j: int|
                    0 < j < branch@.len() ==> (#[trigger] branch@[j]).parent_hash == branch@[j
                        - 1].hash && branch@[j].number == branch@[j - 1].number + 1,
                forall|j: int|
                    0 <= j < branch@.len() ==> (#[trigger] branch@[j]).number == branch@[0].number
                        + j,
                self.archive.canon() == old_arch.canon(),
                self.archive.base() == old_arch.base(),
                forall|h: u64|
                    #[trigger] old_arch.store().contains_key(h)
                        ==> self.archive.store().contains_key(h) && self.archive.store()[h]
                        == old_arch.store()[h],
                forall|h: u64|
                    #[trigger] self.archive.store().contains_key(h)
                        ==> old_arch.store().contains_key(h) || (exists|x: int|
                        0 <= x < k3 && (#[trigger] branch@[x]).hash == h),
                forall|j: int|
                    0 <= j < k3 ==> self.archive.store().contains_key(
                        (#[trigger] branch@[j]).hash,
                    ) && self.archive.store()[branch@[j].hash] == branch@[j],
                forall|x: int, y: int| 0 <= x < y < k3 ==> branch@[x].hash != branch@[y].hash,
                forall|x: int|
                    0 <= x < k3 ==> (old_arch.store().contains_key((#[trigger] branch@[x]).hash)
                        ==> old_arch.store()[branch@[x].hash] == branch@[x]),
            decreases branch@.len() - k3,
        {
            let ghost pre_store = self.archive.store();
            match self.archive.insert(branch[k3]) {
                Ok(()) => {
                    proof {
                        let bnew = branch@[k3 as int];
                        assert forall|h: u64| #[trigger]
                            self.archive.store().contains_key(h) implies
                            old_arch.store().contains_key(h) || (exists|x: int|
                            0 <= x < k3 + 1 && (#[trigger] branch@[x]).hash == h) by {
                            if h == bnew.hash {
                                assert(branch@[k3 as int].hash == h);
                            } else {
                                assert(pre_store.contains_key(h));
                            }
                        }
                        assert forall|x: int| 0 <= x < k3 implies (#[trigger] branch@[x]).hash
                            != bnew.hash by {
                            if branch@[x].hash == bnew.hash {
                                assert(pre_store.contains_key(bnew.hash));
                                assert(pre_store[bnew.hash] == branch@[x]);
                                assert(pre_store[bnew.hash] == bnew);
                                assert(branch@[x].number == branch@[0].number + x);
                                assert(bnew.number == branch@[0].number + k3);
                            }
                        }
                        if old_arch.store().contains_key(bnew.hash) {
                            assert(pre_store.contains_key(bnew.hash));
                            assert(pre_store[bnew.hash] == old_arch.store()[bnew.hash]);
                            assert(pre_store[bnew.hash] == bnew);
                        }
                    }
                },
                Err(e) => {
                    proof {
                        lemma_subs_preserved_refl(self.subs@);
                        assert forall|i: int| 0 <= i < self.subs@.len() implies sub_wf(
                            #[trigger] self.subs@[i],
                            self.archive,
                        ) by {
                            assert(sub_wf(old(self).subs_view()[i], old_arch));
                        }
                        let bnew = branch@[k3 as int];
                        match e {
                            ArchiveError::DuplicateHash => {
                                assert(pre_store.contains_key(bnew.hash));
                                assert(pre_store[bnew.hash] != bnew);
                                if old_arch.store().contains_key(bnew.hash) {
                                    assert(pre_store[bnew.hash] == old_arch.store()[bnew.hash]);
                                    assert(!branch_applies(old_arch, branch@));
                                } else {
                                    let x = choose|x: int|
                                        0 <= x < k3 && (#[trigger] branch@[x]).hash == bnew.hash;
                                    assert(pre_store[bnew.hash] == branch@[x]);
                                    assert(!branch_applies(old_arch, branch@));
                                }
                            },
                            ArchiveError::ChainBroken => {
                                assert(bnew.number == branch@[0].number + k3);
                                if k3 == 0 {
                                    if !cold {
                                        assert(old_arch.store().contains_key(
                                            old_arch.canonical_hash_at(first.number - 1),
                                        ));
                                        assert(self.archive.store().contains_key(
                                            first.parent_hash,
                                        ));
                                        assert(self.archive.store()[first.parent_hash].number + 1
                                            == first.number);
                                    }
                                    assert(false);
                                } else {
                                    assert(self.archive.store().contains_key(
                                        branch@[k3 - 1].hash,
                                    ));
                                    assert(false);
                                }
                            },
                        }
                    }
                    return Err(SubscriberError::ChainBroken);
                },
            }
            k3 += 1;
        }
        let mut rolled: Vec<Block> = Vec::new();
        let ghost anchor_g: int = first.number - 1;
        if !cold {
            let old_tip_b = match self.archive.tip() {
                Some(t) => t,
                None => {
                    proof {
                        assert(false);
                    }
                    first
                },
            };
            if first.number <= old_tip_b.number {
                let mut n: u64 = old_tip_b.number + 1;
                while n > first.number
                    invariant
                        self.archive.wf(),
                        self.archive.canon() == old_arch.canon(),
                        self.archive.base() == old_arch.base(),
                        old_arch.wf(),
                        forall|h: u64|
                            #[trigger] old_arch.store().contains_key(h)
                                ==> self.archive.store().contains_key(h)
                                && self.archive.store()[h] == old_arch.store()[h],
                        old_tip_b.number == self.archive.tip_number(),
                        self.archive.canon().len() > 0,
                        self.archive.base() < first.number <= n <= old_tip_b.number + 1,
                        rolled@.len() == old_tip_b.number + 1 - n,
                        forall|j: int|
                            0 <= j < rolled@.len() ==> #[trigger] rolled@[j]
                                == old_arch.canonical_block_at(old_arch.tip_number() - j),
                    decreases n,
                {
                    n -= 1;
                    let b = match self.archive.get_canonical_by_number(n) {
                        Some(b) => b,
                        None => {
                            proof {
                                assert(false);
                            }
                            first
                        },
                    };
                    proof {
                        // the block read now equals the one the old archive held
                        self.archive.lemma_canonical_block_id(n as int);
                        old_arch.lemma_canonical_block_id(n as int);
                        assert(old_arch.store().contains_key(old_arch.canonical_hash_at(n as int)));
                        assert(b == old_arch.canonical_block_at(n as int));
                    }
                    rolled.push(b);
                }
            }
        }
        match self.archive.set_tip(last.hash) {
            Ok(()) => {},
            Err(_) => {
                proof {
                    // the new tip is stored at or above the base, below the
                    // limit: designating it cannot fail
                    assert(self.archive.store().contains_key(last.hash));
                    assert(false);
                }
                return Err(SubscriberError::ChainBroken);
            },
        }
        proof {
            assert forall|j: int|
                0 <= j < branch@.len() implies (#[trigger] branch@[j]).number == branch@[0].number
                + j by {
                lemma_branch_numbers(branch@, j);
            }
            lemma_commit_canonical(old_arch, self.archive, branch@);
        }
        proof {
            assert(branch_applies(old_arch, branch@));
        }
        if cold {
            proof {
                lemma_subs_preserved_refl(self.subs@);
                assert forall|i: int| 0 <= i < self.subs@.len() implies sub_wf(
                    #[trigger] self.subs@[i],
                    self.archive,
                ) by {
                    assert(sub_wf(old(self).subs_view()[i], old_arch));
                    assert(self.subs@[i].lagged);
                }
            }
            return Ok(());
        }
        let anchor_u = first.number - 1;
        let anchor_hash = first.parent_hash;
        proof {
            assert(advance_ok(old_arch, self.archive, rolled@, anchor_g));
            if rolled@.len() > 0 {
                lemma_rolled_wf(old_arch, rolled@, anchor_g);
            }
        }
        proof {
            assert forall|i: int| 0 <= i < self.subs_view().len() implies sub_wf(
                #[trigger] self.subs_view()[i],
                old_arch,
            ) by {
                assert(sub_wf(old(self).subs_view()[i], old(self).arch()));
            }
        }
        self.publish_all(&rolled, anchor_u, anchor_hash, Ghost(old_arch));
        Ok(())
    }

    /// Multicast the outcome of one reconcile commit to every
    /// subscription.
    fn publish_all(
        &mut self,
        rolled: &Vec<Block>,
        anchor_u: u64,
        anchor_hash: u64,
        Ghost(old_arch): Ghost<BlockArchive>,
    )
        requires
            advance_ok(old_arch, old(self).arch(), rolled@, anchor_u as int),
            anchor_hash == old(self).arch().canonical_hash_at(anchor_u as int),
            rolled@.len() > 0 ==> rolled_wf(rolled@) && rolled@.last().number == anchor_u + 1
                && rolled@.last().parent_hash == anchor_hash,
            forall|i: int|
                0 <= i < old(self).subs_view().len() ==> sub_wf(
                    #[trigger] old(self).subs_view()[i],
                    old_arch,
                ),
        ensures
            final(self).wf(),
            final(self).arch() == old(self).arch(),
            final(self).is_halted() == old(self).is_halted(),
            subs_preserved(old(self).subs_view(), final(self).subs_view()),
            forall|i: int|
                0 <= i < old(self).subs_view().len() ==> delivered(
                    #[trigger] old(self).subs_view()[i],
                    final(self).subs_view()[i],
                    old_arch,
                    old(self).arch(),
                    anchor_u as int,
                ),
    {
        let mut new_subs: Vec<Subscription> = Vec::new();
        let ghost old_subs = self.subs@;
        proof {
            assert forall|i: int| 0 <= i < old_subs.len() implies sub_wf(
                #[trigger] old_subs[i],
                old_arch,
            ) by {
                assert(sub_wf(old(self).subs_view()[i], old_arch));
            }
        }
        while self.subs.len() > 0
            invariant
                self.archive == old(self).arch(),
                self.halted == old(self).halted,
                advance_ok(old_arch, self.archive, rolled@, anchor_u as int),
                anchor_hash == self.archive.canonical_hash_at(anchor_u as int),
                rolled@.len() > 0 ==> rolled_wf(rolled@) && rolled@.last().number == anchor_u + 1
                    && rolled@.last().parent_hash == anchor_hash,
                old_subs == old(self).subs_view(),
                old_subs.len() == new_subs@.len() + self.subs@.len(),
                forall|i: int|
                    0 <= i < self.subs@.len() ==> #[trigger] self.subs@[i] == old_subs[
                        new_subs@.len() + i],
                forall|i: int| 0 <= i < old_subs.len() ==> sub_wf(#[trigger] old_subs[i], old_arch),
                forall|i: int|
                    0 <= i < new_subs@.len() ==> {
                        &&& sub_wf(#[trigger] new_subs@[i], self.archive)
                        &&& new_subs@[i].depth == old_subs[i].depth
                        &&& old_subs[i].history@.is_prefix_of(new_subs@[i].history@)
                        &&& delivered(
                            old_subs[i],
                            new_subs@[i],
                            old_arch,
                            self.archive,
                            anchor_u as int,
                        )
                    },
            decreases self.subs@.len(),
        {
            let mut sub = self.subs.remove(0);
            sub.publish_to(&self.archive, rolled, anchor_u, anchor_hash, Ghost(old_arch));
            new_subs.push(sub);
        }
        self.subs = new_subs;
    }

    /// Prune canonical entries below `tip - max_depth - slack`, where
    /// `max_depth` is the greatest live subscriber depth; the cut never
    /// crosses a live subscriber's delivery cursor and never lowers the
    /// base. Subscriptions and their histories are untouched.
    pub fn prune(&mut self)
        requires
            old(self).wf(),
        ensures
            final(self).arch().base() as int == (if old(self).arch().canon().len() == 0 {
                old(self).arch().base() as int
            } else {
                let tip = old(self).arch().tip_number();
                let md = max_live_depth(old(self).subs_view()) as int;
                let sl = old(self).slack() as int;
                let c0 = if tip - md - sl >= 0 {
                    tip - md - sl
                } else {
                    0
                };
                let mc = min_live_cursor(old(self).subs_view()) as int;
                let c = if c0 >= mc {
                    mc - 1
                } else {
                    c0
                };
                if c <= old(self).arch().base() {
                    old(self).arch().base() as int
                } else {
                    c
                }
            }),
            final(self).wf(),
            final(self).subs_view() == old(self).subs_view(),
            final(self).is_halted() == old(self).is_halted(),
            final(self).arch().base() >= old(self).arch().base(),
            (final(self).arch().canon().len() > 0) <==> (old(self).arch().canon().len() > 0),
            final(self).arch().canon().len() > 0 ==> final(self).arch().tip_number() == old(
                self,
            ).arch().tip_number(),
            forall|n: int|
                final(self).arch().base() <= n ==> (#[trigger] final(self).arch().has_canonical(n)
                    == old(self).arch().has_canonical(n) && (final(self).arch().has_canonical(n)
                    ==> final(self).arch().canonical_hash_at(n) == old(
                    self,
                ).arch().canonical_hash_at(n))),
    {
        let tip_b = match self.archive.tip() {
            Some(t) => t,
            None => {
                return ;
            },
        };
        let mut maxd: u64 = 0;
        let mut min_cursor: u64 = u64::MAX;
        let mut i: usize = 0;
        while i < self.subs.len()
            invariant
                old(self).wf(),
                *self == *old(self),
                i <= self.subs@.len(),
                min_cursor >= 1,
                maxd == max_live_depth(self.subs@.take(i as int)),
                min_cursor == min_live_cursor(self.subs@.take(i as int)),
                forall|j: int|
                    0 <= j < i && !(#[trigger] self.subs@[j]).lagged ==> self.subs@[j].depth
                        <= maxd && min_cursor <= self.subs@[j].next_number,
            decreases self.subs@.len() - i,
        {
            let lagged = self.subs[i].lagged;
            if !lagged {
                proof {
                    assert(sub_wf(self.subs_view()[i as int], self.arch()));
                }
                let d = self.subs[i].depth;
                if d > maxd {
                    maxd = d;
                }
                let c = self.subs[i].next_number;
                if c < min_cursor {
                    min_cursor = c;
                }
            }
            proof {
                assert(self.subs@.take(i as int + 1).drop_last() =~= self.subs@.take(i as int));
                assert(self.subs@.take(i as int + 1).last() == self.subs@[i as int]);
            }
            i += 1;
        }
        proof {
            assert(self.subs@.take(self.subs@.len() as int) =~= self.subs@);
        }
        let mut cut: u64 = tip_b.number;
        cut = if cut > maxd {
            cut - maxd
        } else {
            0
        };
        cut = if cut > self.prune_slack {
            cut - self.prune_slack
        } else {
            0
        };
        if cut >= min_cursor {
            cut = min_cursor - 1;
        }
        let ghost old_arch = self.archive;
        self.archive.prune_below(cut);
        proof {
            assert forall|j: int| 0 <= j < self.subs@.len() implies sub_wf(
                #[trigger] self.subs@[j],
                self.archive,
            ) by {
                let s = self.subs@[j];
                assert(sub_wf(old(self).subs_view()[j], old_arch));
                if !s.lagged {
                    assert(min_cursor <= s.next_number);
                    assert(self.archive.base() < s.next_number);
                    assert(self.archive.has_canonical(s.next_number - 1));
                    assert(self.archive.canonical_hash_at(s.next_number - 1)
                        == old_arch.canonical_hash_at(s.next_number - 1));
                }
            }
        }
    }

    /// Take the next pending item of subscription `id`, if any. A halted
    /// hub answers `DeepReorg`; an overflowed subscription answers
    /// `SubscriberLagged`.
    pub fn take_next(&mut self, id: usize) -> (r: Result<Option<BlockStreamItem>, SubscriberError>)
        requires
            old(self).wf(),
            id < old(self).subs_view().len(),
        ensures
            final(self).wf(),
            final(self).arch() == old(self).arch(),
            final(self).subs_view().len() == old(self).subs_view().len(),
            forall|i: int|
                0 <= i < old(self).subs_view().len() && i != id ==> final(self).subs_view()[i]
                    == old(self).subs_view()[i],
            final(self).subs_view()[id as int].history == old(self).subs_view()[id as int].history,
            match r {
                Err(SubscriberError::DeepReorg) => old(self).is_halted(),
                Err(SubscriberError::SubscriberLagged) => !old(self).is_halted() && old(
                    self,
                ).subs_view()[id as int].lagged,
                Err(SubscriberError::ChainBroken) => false,
                Err(SubscriberError::DepthUnavailable) => false,
                Ok(item) => {
                    &&& !old(self).is_halted()
                    &&& !old(self).subs_view()[id as int].lagged
                    &&& match item {
                        Some(it) => {
                            &&& old(self).subs_view()[id as int].queue@.len() > 0
                            &&& it@ == old(self).subs_view()[id as int].queue@[0]@
                            &&& final(self).subs_view()[id as int].queue@ == old(
                                self,
                            ).subs_view()[id as int].queue@.drop_first()
                        },
                        None => {
                            &&& old(self).subs_view()[id as int].queue@.len() == 0
                            &&& final(self).subs_view() == old(self).subs_view()
                        },
                    }
                },
            },
    {
        if self.halted {
            return Err(SubscriberError::DeepReorg);
        }
        let mut sub = self.subs.remove(id);
        if sub.lagged {
            self.subs.insert(id, sub);
            proof {
                assert(final(self).subs_view() =~= old(self).subs_view());
            }
            return Err(SubscriberError::SubscriberLagged);
        }
        if sub.queue.len() == 0 {
            self.subs.insert(id, sub);
            proof {
                assert(final(self).subs_view() =~= old(self).subs_view());
            }
            return Ok(None);
        }
        let item = sub.queue.remove(0);
        self.subs.insert(id, sub);
        proof {
            let s_old = old(self).subs_view()[id as int];
            let s_new = final(self).subs_view()[id as int];
            assert(s_new.queue@ =~= s_old.queue@.drop_first());
            assert forall|i: int|
                0 <= i < old(self).subs_view().len() && i != id implies final(self).subs_view()[i]
                == old(self).subs_view()[i] by {
            }
            assert(sub_wf(s_new, self.archive));
        }
        Ok(Some(item))
    }
}

/// Law: subscription monotonicity. Between two successive `NewBlock` items
/// on any subscription, the heights differ by exactly one and the later
/// block extends the earlier one.
pub proof fn lemma_subscription_monotonicity(hub: BlockSubscriber, s: int, i: int)
    requires
        hub.wf(),
        0 <= s < hub.subs_view().len(),
        0 < i < hub.subs_view()[s].history@.len(),
        hub.subs_view()[s].history@[i - 1] matches ItemModel::NewBlock(_),
        hub.subs_view()[s].history@[i] matches ItemModel::NewBlock(_),
    ensures
        hub.subs_view()[s].history@[i]->NewBlock_0.number == hub.subs_view()[s].history@[i
            - 1]->NewBlock_0.number + 1,
        hub.subs_view()[s].history@[i]->NewBlock_0.parent_hash == hub.subs_view()[s].history@[i
            - 1]->NewBlock_0.hash,
{
    assert(sub_wf(hub.subs_view()[s], hub.arch()));
    assert(pair_wf(hub.subs_view()[s].history@[i - 1], hub.subs_view()[s].history@[i]));
}

/// Law: reorg causality. A `Reorg` on any subscription carries a nonempty,
/// tip-first, parent-linked rollback, and the `NewBlock` that follows it
/// replaces the deepest rolled-back block: same height, same parent — the
/// new chain meets the chain preceding the `Reorg` at the common ancestor.
pub proof fn lemma_reorg_causality(hub: BlockSubscriber, s: int, i: int)
    requires
        hub.wf(),
        0 <= s < hub.subs_view().len(),
        0 <= i < hub.subs_view()[s].history@.len(),
        hub.subs_view()[s].history@[i] matches ItemModel::Reorg(_),
    ensures
        rolled_wf(hub.subs_view()[s].history@[i]->Reorg_0),
        (i + 1 < hub.subs_view()[s].history@.len() && (hub.subs_view()[s].history@[i
            + 1] matches ItemModel::NewBlock(_))) ==> {
            let r = hub.subs_view()[s].history@[i]->Reorg_0;
            let b = hub.subs_view()[s].history@[i + 1]->NewBlock_0;
            b.number == r.last().number && b.parent_hash == r.last().parent_hash
        },
{
    assert(sub_wf(hub.subs_view()[s], hub.arch()));
    assert(stream_wf(hub.subs_view()[s].history@));
    if i + 1 < hub.subs_view()[s].history@.len() {
        assert(pair_wf(hub.subs_view()[s].history@[i], hub.subs_view()[s].history@[i + 1]));
    }
}

} // verus!
