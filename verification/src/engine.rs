//! Fold engine: resolves query targets against the canonical chain and
//! derives the folded state at the resolved block, either by syncing from
//! scratch or by folding forward from the nearest cached ancestor.
//!
//! Whatever path is taken, the returned state is exactly the one that
//! syncing at the resolved block specifies — the sync/fold equivalence is
//! proved here once and for all from the coherence obligation every
//! [`Foldable`] implementor discharges. A target whose state is already
//! cached is answered without invoking user code at all.

use vstd::prelude::*;

use crate::access::{Event, FoldMiddleware, SyncMiddleware};
use crate::archive::BlockArchive;
use crate::cache::{pruned_to, CacheEntry, FoldCache};
use crate::foldable::Foldable;
use crate::types::{Block, BlockState, FoldError, QueryBlock};

verus! {

/// How a query target resolves against the canonical chain: `Latest` is
/// the tip, a height or a depth reads the canonical index, and a hash
/// resolves only while it lies on the canonical branch.
pub open spec fn resolve_spec(ar: BlockArchive, q: QueryBlock) -> Option<Block> {
    match q {
        QueryBlock::Latest => if ar.canon().len() > 0 {
            Some(ar.canonical_block_at(ar.tip_number()))
        } else {
            None
        },
        QueryBlock::BlockNumber(n) => if ar.has_canonical(n as int) {
            Some(ar.canonical_block_at(n as int))
        } else {
            None
        },
        QueryBlock::BlockDepth(d) => if ar.canon().len() > 0 && ar.tip_number() - d >= ar.base() {
            Some(ar.canonical_block_at(ar.tip_number() - d))
        } else {
            None
        },
        QueryBlock::BlockHash(h) => if ar.store().contains_key(h) && ar.has_canonical(
            ar.store()[h].number as int,
        ) && ar.canonical_hash_at(ar.store()[h].number as int) == h {
            Some(ar.store()[h])
        } else {
            None
        },
    }
}

/// Resolve a query target; `None` is a target above the tip, below the
/// pruning floor, or off the canonical branch.
pub fn resolve(ar: &BlockArchive, q: QueryBlock) -> (r: Option<Block>)
    requires
        ar.wf(),
    ensures
        r == resolve_spec(*ar, q),
        r matches Some(b) ==> ar.store().contains_key(b.hash) && ar.store()[b.hash] == b,
{
    proof {
        if ar.canon().len() > 0 {
            ar.lemma_canonical_block_id(ar.tip_number());
        }
    }
    match q {
        QueryBlock::Latest => {
            let r = ar.tip();
            proof {
                if r matches Some(b) {
                    ar.lemma_canonical_block_id(ar.tip_number());
                }
            }
            r
        },
        QueryBlock::BlockNumber(n) => {
            let r = ar.get_canonical_by_number(n);
            proof {
                if r matches Some(b) {
                    ar.lemma_canonical_block_id(n as int);
                }
            }
            r
        },
        QueryBlock::BlockDepth(d) => {
            match ar.tip() {
                Some(t) => {
                    if d > t.number {
                        return None;
                    }
                    let r = ar.get_canonical_by_number(t.number - d);
                    proof {
                        if r matches Some(b) {
                            ar.lemma_canonical_block_id(t.number - d);
                        }
                    }
                    r
                },
                None => None,
            }
        },
        QueryBlock::BlockHash(h) => {
            match ar.get_by_hash(h) {
                Some(b) => {
                    match ar.get_canonical_by_number(b.number) {
                        Some(c) => {
                            if c.hash == h {
                                Some(b)
                            } else {
                                None
                            }
                        },
                        None => None,
                    }
                },
                None => None,
            }
        },
    }
}

/// Law: pruning correctness. On an archive whose base was pruned to
/// `tip - safety_depth`, every depth query within the safety depth still
/// resolves.
pub proof fn lemma_pruning_preserves_queries(ar: BlockArchive, d: u64, safety_depth: u64)
    requires
        ar.wf(),
        ar.canon().len() > 0,
        d <= safety_depth,
        ar.base() <= ar.tip_number() - safety_depth,
    ensures
        resolve_spec(ar, QueryBlock::BlockDepth(d)) matches Some(b) && b.number == ar.tip_number()
            - d,
{
    ar.lemma_canonical_block_id(ar.tip_number() - d);
}

/// The j-th ancestor of `b` along stored parent pointers.
pub open spec fn walk_block(ar: BlockArchive, b: Block, j: nat) -> Block
    decreases j,
{
    if j == 0 {
        b
    } else {
        ar.store()[walk_block(ar, b, (j - 1) as nat).parent_hash]
    }
}

/// The cache holds a usable fold anchor for `child`: an entry at the
/// child's parent hash whose recorded block is the stored parent itself.
pub open spec fn anchor_at<F: Foldable>(
    ar: BlockArchive,
    c: Map<u64, CacheEntry<F>>,
    child: Block,
) -> bool {
    &&& c.contains_key(child.parent_hash)
    &&& ar.store().contains_key(child.parent_hash)
    &&& c[child.parent_hash].block == ar.store()[child.parent_hash]
}

/// The anchor the bounded ancestor walk finds from `cur`, if any: the
/// nearest cached ancestor within `fuel` steps, stopping at the pruning
/// floor.
pub open spec fn walk_anchor<F: Foldable>(
    ar: BlockArchive,
    c: Map<u64, CacheEntry<F>>,
    cur: Block,
    fuel: int,
    floor: u64,
) -> Option<Block>
    decreases fuel,
{
    if fuel <= 0 || cur.number <= floor {
        None
    } else if anchor_at(ar, c, cur) {
        Some(ar.store()[cur.parent_hash])
    } else {
        walk_anchor(ar, c, ar.store()[cur.parent_hash], fuel - 1, floor)
    }
}

/// One more user invocation, saturating.
pub open spec fn tick(c: u64) -> u64 {
    if c < u64::MAX {
        (c + 1) as u64
    } else {
        u64::MAX
    }
}

/// `k` more user invocations, saturating.
pub open spec fn tick_n(c: u64, k: nat) -> u64
    decreases k,
{
    if k == 0 {
        c
    } else {
        tick(tick_n(c, (k - 1) as nat))
    }
}

/// The memo map after folding the ancestors of `b` at distances
/// `lo .. hi` (deepest first): each one's entry certifies the synced state
/// at its block.
pub open spec fn memo_from<F: Foldable>(
    ar: BlockArchive,
    initial_state: F::InitialState,
    b: Block,
    lo: int,
    hi: int,
    m0: Map<u64, CacheEntry<F>>,
) -> Map<u64, CacheEntry<F>>
    decreases hi - lo,
{
    if lo >= hi {
        m0
    } else {
        memo_from(ar, initial_state, b, lo + 1, hi, m0).insert(
            walk_block(ar, b, lo as nat).hash,
            CacheEntry {
                block: walk_block(ar, b, lo as nat),
                state: F::sync_spec(initial_state, walk_block(ar, b, lo as nat)),
            },
        )
    }
}

/// The engine configuration and the per-initial-state caches.
pub struct StateFoldEnvironment<F: Foldable> {
    caches: Vec<(F::InitialState, FoldCache<F>)>,
    safety_depth: u64,
    max_fold_distance: u64,
    partition_size: u64,
    sync_count: u64,
    fold_count: u64,
}

impl<F: Foldable> StateFoldEnvironment<F> {
    /// The cache forest: one tree of memoized states per initial state.
    pub closed spec fn caches_view(self) -> Seq<(F::InitialState, FoldCache<F>)> {
        self.caches@
    }

    /// How many times user `sync` code ran (saturating).
    pub closed spec fn syncs(self) -> u64 {
        self.sync_count
    }

    /// How many times user `fold` code ran (saturating).
    pub closed spec fn folds(self) -> u64 {
        self.fold_count
    }

    /// The configured safety depth.
    pub closed spec fn safety(self) -> u64 {
        self.safety_depth
    }

    /// The configured fold-distance bound.
    pub closed spec fn fold_distance(self) -> u64 {
        self.max_fold_distance
    }

    /// The configured event-query partition bound.
    pub closed spec fn partition(self) -> u64 {
        self.partition_size
    }

    /// Well-formedness: initial states are distinct and every cache entry
    /// certifies itself against the derivation specification.
    pub open spec fn wf(self) -> bool {
        &&& self.partition() >= 1
        &&& forall|i: int, j: int|
            0 <= i < j < self.caches_view().len() ==> (#[trigger] self.caches_view()[i]).0 != (
            #[trigger] self.caches_view()[j]).0
        &&& forall|i: int|
            0 <= i < self.caches_view().len() ==> (#[trigger] self.caches_view()[i]).1.wf_for(
                self.caches_view()[i].0,
            )
    }

    /// The memo map for one initial state (empty when none is registered).
    pub open spec fn cache_for(self, initial_state: F::InitialState) -> Map<u64, CacheEntry<F>> {
        if exists|i: int|
            0 <= i < self.caches_view().len() && (#[trigger] self.caches_view()[i]).0
                == initial_state {
            let i = choose|i: int|
                0 <= i < self.caches_view().len() && (#[trigger] self.caches_view()[i]).0
                    == initial_state;
            self.caches_view()[i].1.map()
        } else {
            Map::empty()
        }
    }

    proof fn lemma_cache_for_at(self, initial_state: F::InitialState, i: int)
        requires
            self.wf(),
            0 <= i < self.caches_view().len(),
            self.caches_view()[i].0 == initial_state,
        ensures
            self.cache_for(initial_state) == self.caches_view()[i].1.map(),
    {
        let j = choose|j: int|
            0 <= j < self.caches_view().len() && (#[trigger] self.caches_view()[j]).0
                == initial_state;
        if i < j {
            assert(self.caches_view()[i].0 != self.caches_view()[j].0);
        } else if j < i {
            assert(self.caches_view()[j].0 != self.caches_view()[i].0);
        }
    }

    /// Memoization in terms of the per-initial-state map.
    pub proof fn lemma_has_cached_for(self, initial_state: F::InitialState, b: Block)
        requires
            self.wf(),
        ensures
            self.has_cached(initial_state, b) <==> (self.cache_for(initial_state).contains_key(
                b.hash,
            ) && self.cache_for(initial_state)[b.hash].block == b),
    {
        if self.has_cached(initial_state, b) {
            let i = choose|i: int|
                0 <= i < self.caches_view().len() && (#[trigger] self.caches_view()[i]).0
                    == initial_state && self.caches_view()[i].1.map().contains_key(b.hash)
                    && self.caches_view()[i].1.map()[b.hash].block == b;
            self.lemma_cache_for_at(initial_state, i);
        }
        if self.cache_for(initial_state).contains_key(b.hash) && self.cache_for(
            initial_state,
        )[b.hash].block == b {
            if exists|i: int|
                0 <= i < self.caches_view().len() && (#[trigger] self.caches_view()[i]).0
                    == initial_state {
                let i = choose|i: int|
                    0 <= i < self.caches_view().len() && (#[trigger] self.caches_view()[i]).0
                        == initial_state;
                assert(0 <= i < self.caches_view().len() && (self.caches_view()[i]).0
                    == initial_state && self.caches_view()[i].1.map().contains_key(b.hash)
                    && self.caches_view()[i].1.map()[b.hash].block == b);
            }
        }
    }

    /// The state at `b` derived from `initial_state` is memoized.
    pub open spec fn has_cached(self, initial_state: F::InitialState, b: Block) -> bool {
        exists|i: int|
            0 <= i < self.caches_view().len() && (#[trigger] self.caches_view()[i]).0
                == initial_state && self.caches_view()[i].1.map().contains_key(b.hash)
                && self.caches_view()[i].1.map()[b.hash].block == b
    }

    /// A fresh environment.
    pub fn new(safety_depth: u64, max_fold_distance: u64, partition_size: u64) -> (r: Self)
        requires
            partition_size >= 1,
        ensures
            r.wf(),
            r.caches_view().len() == 0,
            r.syncs() == 0,
            r.folds() == 0,
            r.safety() == safety_depth,
            r.fold_distance() == max_fold_distance,
            r.partition() == partition_size,
    {
        StateFoldEnvironment {
            caches: Vec::new(),
            safety_depth,
            max_fold_distance,
            partition_size,
            sync_count: 0,
            fold_count: 0,
        }
    }

    /// How many times user `sync` code ran.
    pub fn sync_invocations(&self) -> (r: u64)
        ensures
            r == self.syncs(),
    {
        self.sync_count
    }

    /// How many times user `fold` code ran.
    pub fn fold_invocations(&self) -> (r: u64)
        ensures
            r == self.folds(),
    {
        self.fold_count
    }

    fn find_or_create(&mut self, initial_state: &F::InitialState) -> (ci: usize)
        requires
            old(self).wf(),
        ensures
            final(self).wf(),
            ci < final(self).caches_view().len(),
            final(self).caches_view()[ci as int].0 == *initial_state,
            final(self).syncs() == old(self).syncs(),
            final(self).folds() == old(self).folds(),
            final(self).safety() == old(self).safety(),
            final(self).fold_distance() == old(self).fold_distance(),
            final(self).partition() == old(self).partition(),
            (exists|i: int|
                0 <= i < old(self).caches_view().len() && (#[trigger] old(
                    self,
                ).caches_view()[i]).0 == *initial_state) ==> *final(self) == *old(self) && old(
                self,
            ).caches_view()[ci as int].0 == *initial_state,
            !(exists|i: int|
                0 <= i < old(self).caches_view().len() && (#[trigger] old(
                    self,
                ).caches_view()[i]).0 == *initial_state) ==> ci == old(self).caches_view().len()
                && final(self).caches_view().len() == old(self).caches_view().len() + 1
                && final(self).caches_view()[ci as int].1.map() == Map::<
                u64,
                CacheEntry<F>,
            >::empty(),
            final(self).caches_view().len() >= old(self).caches_view().len(),
            forall|i: int|
                0 <= i < old(self).caches_view().len() ==> final(self).caches_view()[i] == old(
                    self,
                ).caches_view()[i],
    {
        let mut i: usize = 0;
        while i < self.caches.len()
            invariant
                old(self).wf(),
                *self == *old(self),
                i <= self.caches@.len(),
                forall|j: int| 0 <= j < i ==> (#[trigger] self.caches@[j]).0 != *initial_state,
            decreases self.caches@.len() - i,
        {
            if F::initial_state_eq(&self.caches[i].0, initial_state) {
                return i;
            }
            i += 1;
        }
        let fresh: (F::InitialState, FoldCache<F>) = (
            F::initial_state_dup(initial_state),
            FoldCache::new(),
        );
        self.caches.push(fresh);
        proof {
            assert forall|a: int, b: int|
                0 <= a < b < self.caches@.len() implies (#[trigger] self.caches@[a]).0 != (
            #[trigger] self.caches@[b]).0 by {
                if b < self.caches@.len() - 1 {
                    assert(self.caches@[a] == old(self).caches_view()[a]);
                    assert(self.caches@[b] == old(self).caches_view()[b]);
                }
            }
        }
        self.caches.len() - 1
    }

    fn put_back(
        &mut self,
        ci: usize,
        pair: (F::InitialState, FoldCache<F>),
        Ghost(orig): Ghost<Seq<(F::InitialState, FoldCache<F>)>>,
    )
        requires
            ci <= old(self).caches_view().len(),
            old(self).partition() >= 1,
            pair.1.wf_for(pair.0),
            forall|i: int|
                0 <= i < old(self).caches_view().len() ==> (#[trigger] old(
                    self,
                ).caches_view()[i]).1.wf_for(old(self).caches_view()[i].0),
            forall|i: int, j: int|
                0 <= i < j < old(self).caches_view().len() ==> (#[trigger] old(
                    self,
                ).caches_view()[i]).0 != (#[trigger] old(self).caches_view()[j]).0,
            forall|i: int|
                0 <= i < old(self).caches_view().len() ==> (#[trigger] old(
                    self,
                ).caches_view()[i]).0 != pair.0,
        ensures
            final(self).wf(),
            final(self).caches_view() == old(self).caches_view().insert(ci as int, pair),
            final(self).syncs() == old(self).syncs(),
            final(self).folds() == old(self).folds(),
            final(self).safety() == old(self).safety(),
            final(self).fold_distance() == old(self).fold_distance(),
            final(self).partition() == old(self).partition(),
    {
        self.caches.insert(ci, pair);
        proof {
            let c = self.caches@;
            assert(c =~= old(self).caches_view().insert(ci as int, pair));
            assert forall|a: int, b: int| 0 <= a < b < c.len() implies (#[trigger] c[a]).0 != (
            #[trigger] c[b]).0 by {
                if a == ci {
                    assert(c[b] == old(self).caches_view()[b - 1]);
                } else if b == ci {
                    assert(c[a] == old(self).caches_view()[a]);
                } else if a < ci && b < ci {
                    assert(c[a] == old(self).caches_view()[a]);
                    assert(c[b] == old(self).caches_view()[b]);
                } else if a < ci {
                    assert(c[a] == old(self).caches_view()[a]);
                    assert(c[b] == old(self).caches_view()[b - 1]);
                } else {
                    assert(c[a] == old(self).caches_view()[a - 1]);
                    assert(c[b] == old(self).caches_view()[b - 1]);
                }
            }
            assert forall|i: int| 0 <= i < c.len() implies (#[trigger] c[i]).1.wf_for(
                c[i].0,
            ) by {
                if i < ci {
                    assert(c[i] == old(self).caches_view()[i]);
                } else if i > ci {
                    assert(c[i] == old(self).caches_view()[i - 1]);
                }
            }
        }
    }
    /// Prune every memo tree below `tip_number - safety_depth`: entries at
    /// or above the floor survive, and the deepest remaining entries below
    /// it are retained per tree as fold starting points.
    pub fn prune_caches(&mut self, tip_number: u64)
        requires
            old(self).wf(),
        ensures
            final(self).wf(),
            final(self).syncs() == old(self).syncs(),
            final(self).folds() == old(self).folds(),
            final(self).safety() == old(self).safety(),
            final(self).fold_distance() == old(self).fold_distance(),
            final(self).partition() == old(self).partition(),
            final(self).caches_view().len() == old(self).caches_view().len(),
            forall|i: int|
                0 <= i < old(self).caches_view().len()
                    ==> (#[trigger] final(self).caches_view()[i]).0 == old(
                    self,
                ).caches_view()[i].0 && pruned_to(
                    old(self).caches_view()[i].1.map(),
                    final(self).caches_view()[i].1.map(),
                    (if tip_number > old(self).safety() {
                        (tip_number - old(self).safety()) as u64
                    } else {
                        0
                    }),
                ),
    {
        let floor = if tip_number > self.safety_depth {
            tip_number - self.safety_depth
        } else {
            0
        };
        let mut new_caches: Vec<(F::InitialState, FoldCache<F>)> = Vec::new();
        let ghost old_caches = self.caches@;
        while self.caches.len() > 0
            invariant
                old(self).wf(),
                old_caches == old(self).caches_view(),
                floor as int == (if tip_number > old(self).safety() {
                    tip_number - old(self).safety()
                } else {
                    0
                }),
                self.safety_depth == old(self).safety(),
                self.max_fold_distance == old(self).fold_distance(),
                self.partition_size == old(self).partition(),
                self.sync_count == old(self).syncs(),
                self.fold_count == old(self).folds(),
                old_caches.len() == new_caches@.len() + self.caches@.len(),
                forall|i: int|
                    0 <= i < self.caches@.len() ==> #[trigger] self.caches@[i] == old_caches[
                        new_caches@.len() + i],
                forall|i: int|
                    0 <= i < new_caches@.len() ==> {
                        &&& (#[trigger] new_caches@[i]).0 == old_caches[i].0
                        &&& new_caches@[i].1.wf_for(new_caches@[i].0)
                        &&& pruned_to(old_caches[i].1.map(), new_caches@[i].1.map(), floor)
                    },
            decreases self.caches@.len(),
        {
            let pair = self.caches.remove(0);
            let ghost idx = new_caches@.len() as int;
            proof {
                assert((old(self).caches_view()[idx]).1.wf_for(old(self).caches_view()[idx].0));
            }
            let (is_p, mut cache_p) = pair;
            cache_p.prune_below(floor);
            proof {
                assert forall|h: u64| #[trigger]
                    cache_p.map().contains_key(h) implies cache_p.map()[h].block.hash == h
                    && cache_p.map()[h].state == F::sync_spec(is_p, cache_p.map()[h].block) by {
                    assert(old_caches[idx].1.map().contains_key(h));
                    assert(cache_p.map()[h] == old_caches[idx].1.map()[h]);
                }
            }
            new_caches.push((is_p, cache_p));
        }
        self.caches = new_caches;
        proof {
            assert forall|a: int, bb: int|
                0 <= a < bb < self.caches@.len() implies (#[trigger] self.caches@[a]).0 != (
            #[trigger] self.caches@[bb]).0 by {
                assert(self.caches@[a].0 == old_caches[a].0);
                assert(self.caches@[bb].0 == old_caches[bb].0);
                assert((old(self).caches_view()[a]).0 != (old(self).caches_view()[bb]).0);
            }
        }
    }

    /// Derive the state at the block `query` resolves to, memoizing every
    /// intermediate result. A memoized target is answered at once, with no
    /// user code run (the single-flight slot is already filled). Otherwise
    /// the engine walks at most `max_fold_distance` ancestors looking for a
    /// memoized starting point: from an anchor at distance `d` it runs user
    /// `fold` exactly `d` times, once per block ascending, memoizing each,
    /// and never runs `sync`; with no anchor it runs `sync` exactly once.
    /// User `sync` code receives a view clamped to the resolved block, and
    /// each `fold` step a view restricted to its one-block delta, over the
    /// caller's event snapshot.
    /// Either way the returned state is exactly the synced state at the
    /// resolved block. A user error is surfaced with the failing block's
    /// hash, leaves the target unmemoized, and can only arise on inputs for
    /// which the user code does not guarantee success.
    pub fn get_state_for_block(
        &mut self,
        archive: &BlockArchive,
        initial_state: &F::InitialState,
        query: QueryBlock,
        ledger: &Vec<Event>,
    ) -> (r: Result<BlockState<F>, FoldError<F::Error>>)
        requires
            old(self).wf(),
            archive.wf(),
        ensures
            final(self).wf(),
            final(self).safety() == old(self).safety(),
            final(self).fold_distance() == old(self).fold_distance(),
            final(self).partition() == old(self).partition(),
            match r {
                Ok(bs) => {
                    &&& resolve_spec(*archive, query) == Some(bs.block)
                    &&& bs.state == F::sync_spec(*initial_state, bs.block)
                    &&& final(self).has_cached(*initial_state, bs.block)
                },
                Err(FoldError::BlockOutOfRange) => resolve_spec(*archive, query) is None,
                Err(FoldError::ChainBroken) => false,
                Err(FoldError::Foldable(h, _)) => (match resolve_spec(*archive, query) {
                    Some(b) => {
                        &&& !old(self).has_cached(*initial_state, b)
                        &&& !final(self).has_cached(*initial_state, b)
                        &&& final(self).syncs() == old(self).syncs()
                        &&& (match walk_anchor(
                            *archive,
                            old(self).cache_for(*initial_state),
                            b,
                            old(self).fold_distance() as int,
                            archive.base(),
                        ) {
                            Some(a) => exists|j: int|
                                0 <= j < b.number - a.number && (#[trigger] walk_block(
                                    *archive,
                                    b,
                                    j as nat,
                                )).hash == h && !F::fold_succeeds(
                                    F::sync_spec(
                                        *initial_state,
                                        walk_block(*archive, b, (j + 1) as nat),
                                    ),
                                    walk_block(*archive, b, j as nat),
                                ) && final(self).folds() == tick_n(
                                    old(self).folds(),
                                    (b.number - a.number - 1 - j) as nat,
                                ) && final(self).cache_for(*initial_state) == memo_from(
                                    *archive,
                                    *initial_state,
                                    b,
                                    j + 1,
                                    b.number - a.number,
                                    old(self).cache_for(*initial_state),
                                ),
                            None => {
                                &&& h == b.hash
                                &&& !F::sync_succeeds(*initial_state, b)
                                &&& final(self).folds() == old(self).folds()
                                &&& final(self).cache_for(*initial_state) == old(self).cache_for(
                                    *initial_state,
                                )
                            },
                        })
                    },
                    None => false,
                }),
            },
            resolve_spec(*archive, query) is None <==> r matches Err(FoldError::BlockOutOfRange),
            (match resolve_spec(*archive, query) {
                Some(b) => old(self).has_cached(*initial_state, b),
                None => false,
            }) ==> final(self).syncs() == old(self).syncs() && final(self).folds() == old(
                self,
            ).folds() && (r matches Ok(_)) && final(self).cache_for(*initial_state) == old(
                self,
            ).cache_for(*initial_state),
            (match resolve_spec(*archive, query) {
                Some(b) => (!old(self).has_cached(*initial_state, b) && r matches Ok(_))
                    ==> (match walk_anchor(
                    *archive,
                    old(self).cache_for(*initial_state),
                    b,
                    old(self).fold_distance() as int,
                    archive.base(),
                ) {
                    Some(a) => {
                        &&& final(self).syncs() == old(self).syncs()
                        &&& final(self).folds() == tick_n(
                            old(self).folds(),
                            (b.number - a.number) as nat,
                        )
                        &&& forall|j: int|
                            0 <= j < b.number - a.number ==> final(self).has_cached(
                                *initial_state,
                                #[trigger] walk_block(*archive, b, j as nat),
                            )
                        &&& final(self).cache_for(*initial_state) == memo_from(
                            *archive,
                            *initial_state,
                            b,
                            0,
                            b.number - a.number,
                            old(self).cache_for(*initial_state),
                        )
                    },
                    None => {
                        &&& final(self).syncs() == tick(old(self).syncs())
                        &&& final(self).folds() == old(self).folds()
                        &&& final(self).cache_for(*initial_state) == old(self).cache_for(
                            *initial_state,
                        ).insert(
                            b.hash,
                            (CacheEntry { block: b, state: F::sync_spec(*initial_state, b) }),
                        )
                    },
                }),
                None => true,
            }),
    {
        let b = match resolve(archive, query) {
            Some(b) => b,
            None => {
                return Err(FoldError::BlockOutOfRange);
            },
        };
        let ghost env0 = *old(self);
        let ci = self.find_or_create(initial_state);
        let ghost mid_env = *self;
        let pair = self.caches.remove(ci);
        let ghost removed = mid_env.caches_view().remove(ci as int);
        let ghost is_g = pair.0;
        let ghost c0 = pair.1.map();
        proof {
            assert(self.caches@ == removed);
            assert forall|i: int|
                0 <= i < removed.len() implies (#[trigger] removed[i]).0 != pair.0 by {
                if i < ci {
                    assert(removed[i] == mid_env.caches_view()[i]);
                } else {
                    assert(removed[i] == mid_env.caches_view()[i + 1]);
                }
            }
            assert forall|i: int, j: int|
                0 <= i < j < removed.len() implies (#[trigger] removed[i]).0 != (
            #[trigger] removed[j]).0 by {
                let a = if i < ci {
                    i
                } else {
                    i + 1
                };
                let bb = if j < ci {
                    j
                } else {
                    j + 1
                };
                assert(removed[i] == mid_env.caches_view()[a]);
                assert(removed[j] == mid_env.caches_view()[bb]);
            }
            assert forall|i: int| 0 <= i < removed.len() implies (#[trigger] removed[i]).1.wf_for(
                removed[i].0,
            ) by {
                if i < ci {
                    assert(removed[i] == mid_env.caches_view()[i]);
                } else {
                    assert(removed[i] == mid_env.caches_view()[i + 1]);
                }
            }
            // the removed tree is exactly the one the old environment held
            // for this initial state (or empty when none was registered)
            if exists|i: int|
                0 <= i < env0.caches_view().len() && (#[trigger] env0.caches_view()[i]).0
                    == *initial_state {
                env0.lemma_cache_for_at(*initial_state, ci as int);
            }
            assert(c0 == env0.cache_for(*initial_state));
            env0.lemma_has_cached_for(*initial_state, b);
        }
        let mut cache = pair.1;
        let is_copy = pair.0;
        // memoized target: answer without running user code
        let hit = cache.probe(b.hash);
        let mut cached_state: Option<F> = None;
        match hit {
            Some(p) => {
                if p.0 == b {
                    cached_state = Some(p.1);
                }
            },
            None => {},
        }
        match cached_state {
            Some(s) => {
                proof {
                    // a hit means the tree already existed, so the
                    // environment is exactly what the caller handed in
                    assert(env0.cache_for(*initial_state).contains_key(b.hash));
                    assert(exists|i: int|
                        0 <= i < env0.caches_view().len() && (#[trigger] env0.caches_view()[i]).0
                            == *initial_state);
                }
                self.put_back(ci, (is_copy, cache), Ghost(removed));
                proof {
                    assert(self.caches_view() =~= mid_env.caches_view());
                    assert(self.has_cached(*initial_state, b));
                    assert(self.caches_view() =~= env0.caches_view());
                    assert(self.caches_view() == env0.caches_view());
                    assert(self.cache_for(*initial_state) == env0.cache_for(*initial_state));
                }
                return Ok(BlockState { block: b, state: s });
            },
            None => {},
        }
        proof {
            assert(!env0.has_cached(*initial_state, b));
        }
        // look for the nearest memoized ancestor within the fold bound
        let mut path: Vec<Block> = Vec::new();
        path.push(b);
        let mut cur: Block = b;
        let mut k: u64 = 0;
        let mut anchor_state: Option<F> = None;
        let mut anchor_num: u64 = 0;
        let ghost mut anchor_block: Block = b;
        let max_fd = self.max_fold_distance;
        let floor = archive.base_number();
        while anchor_state.is_none() && k < max_fd && cur.number > floor
            invariant
                archive.wf(),
                floor == archive.base(),
                max_fd == self.max_fold_distance,
                cache.wf_for(is_g),
                c0 == cache.map(),
                is_g == *initial_state,
                path@.len() >= 1,
                k == path@.len() - 1,
                path@[0] == b,
                path@[path@.len() - 1] == cur,
                forall|j: int|
                    0 <= j < path@.len() ==> {
                        &&& #[trigger] path@[j] == walk_block(*archive, b, j as nat)
                        &&& archive.store().contains_key(path@[j].hash)
                        &&& archive.store()[path@[j].hash] == path@[j]
                        &&& path@[j].number == b.number - j
                    },
                anchor_state is None ==> walk_anchor(*archive, c0, b, max_fd as int, floor)
                    == walk_anchor(*archive, c0, cur, max_fd - k, floor),
                anchor_state matches Some(s) ==> {
                    &&& walk_anchor(*archive, c0, b, max_fd as int, floor) == Some(anchor_block)
                    &&& anchor_block == walk_block(*archive, b, path@.len() as nat)
                    &&& s == F::sync_spec(is_g, anchor_block)
                    &&& cur.parent_hash == anchor_block.hash
                    &&& cur.number == anchor_block.number + 1
                    &&& anchor_num == anchor_block.number
                    &&& path@.len() as int == b.number - anchor_block.number
                },
            decreases (if anchor_state is Some {
                0int
            } else {
                max_fd - k + 1
            }),
        {
            let ph = cur.parent_hash;
            let par = match archive.get_by_hash(ph) {
                Some(p) => p,
                None => {
                    proof {
                        assert(false);
                    }
                    cur
                },
            };
            let mut hit_here: Option<F> = None;
            match cache.probe(ph) {
                Some(p) => {
                    if p.0 == par {
                        proof {
                            anchor_block = par;
                        }
                        anchor_num = p.0.number;
                        hit_here = Some(p.1);
                    }
                },
                None => {},
            }
            match hit_here {
                Some(s) => {
                    anchor_state = Some(s);
                },
                None => {
                    proof {
                        assert(!anchor_at(*archive, c0, cur));
                    }
                    path.push(par);
                    cur = par;
                    k = k + 1;
                },
            }
        }
        proof {
            if anchor_state is None {
                assert(walk_anchor(*archive, c0, b, max_fd as int, floor) is None);
            }
        }
        match anchor_state {
            Some(s0) => {
                // fold forward along the collected path, memoizing each step
                let mut state = s0;
                let mut prev_num: u64 = anchor_num;
                let ghost mut prev_b: Block = anchor_block;
                let ghost old_folds: u64 = self.fold_count;
                let ghost mut fail_j: int = 0;
                let mut i: usize = path.len();
                let mut failed: Option<FoldError<F::Error>> = None;
                while i > 0 && failed.is_none()
                    invariant
                        archive.wf(),
                        i <= path@.len(),
                        path@.len() >= 1,
                        path@[0] == b,
                        cache.wf_for(is_g),
                        is_g == *initial_state,
                        forall|j: int|
                            0 <= j < path@.len() ==> {
                                &&& #[trigger] path@[j] == walk_block(*archive, b, j as nat)
                                &&& archive.store().contains_key(path@[j].hash)
                                &&& archive.store()[path@[j].hash] == path@[j]
                                &&& path@[j].number == b.number - j
                            },
                        self.sync_count == old(self).syncs(),
                        failed is None ==> self.fold_count == tick_n(
                            old_folds,
                            (path@.len() - i) as nat,
                        ),
                        old_folds == old(self).folds(),
                        self.safety_depth == old(self).safety(),
                        self.max_fold_distance == old(self).fold_distance(),
                        self.partition_size == old(self).partition(),
                        self.partition_size >= 1,
                        self.caches@ == removed,
                        c0 == old(self).cache_for(*initial_state),
                        failed is None ==> cache.map() == memo_from(
                            *archive,
                            is_g,
                            b,
                            i as int,
                            path@.len() as int,
                            c0,
                        ),
                        failed is Some ==> 0 <= fail_j < path@.len() && self.fold_count == tick_n(
                            old_folds,
                            (path@.len() - 1 - fail_j) as nat,
                        ) && cache.map() == memo_from(
                            *archive,
                            is_g,
                            b,
                            fail_j + 1,
                            path@.len() as int,
                            c0,
                        ),
                        failed matches Some(f) ==> f matches FoldError::Foldable(_, _),
                        failed matches Some(f) ==> (f matches FoldError::Foldable(h, _) ==> {
                            &&& 0 <= fail_j
                            &&& h == (walk_block(*archive, b, fail_j as nat)).hash
                            &&& !F::fold_succeeds(
                                F::sync_spec(
                                    *initial_state,
                                    walk_block(*archive, b, (fail_j + 1) as nat),
                                ),
                                walk_block(*archive, b, fail_j as nat),
                            )
                        }),
                        failed is None ==> state == F::sync_spec(is_g, prev_b),
                        failed is None ==> prev_b == walk_block(*archive, b, i as nat),
                        failed is None ==> prev_num == prev_b.number,
                        failed is None && i > 0 ==> path@[i - 1].parent_hash == prev_b.hash
                            && path@[i - 1].number == prev_b.number + 1,
                        forall|x: int|
                            i <= x < path@.len() && failed is None ==> cache.map().contains_key(
                                (#[trigger] path@[x]).hash,
                            ) && cache.map()[path@[x].hash].block == path@[x],
                        (failed is Some || i > 0) ==> (cache.map().contains_key(b.hash)
                            ==> cache.map()[b.hash].block != b),
                        failed is None && i == 0 ==> cache.map().contains_key(b.hash)
                            && cache.map()[b.hash].block == b,
                    decreases (if failed is Some {
                        0int
                    } else {
                        i + 1
                    }),
                {
                    i -= 1;
                    let blk = path[i];
                    let fmw = FoldMiddleware::new(prev_num, blk.number, self.partition_size);
                    match F::fold(&state, &blk, &fmw, ledger) {
                        Ok(s) => {
                            proof {
                                F::fold_extends_sync(is_g, prev_b, blk);
                            }
                            if self.fold_count < u64::MAX {
                                self.fold_count = self.fold_count + 1;
                            }
                            let s2 = s.duplicate();
                            let ghost pre_cache = cache;
                            cache.put(blk, s2);
                            proof {
                                prev_b = blk;
                                assert forall|h: u64| #[trigger]
                                    cache.map().contains_key(h) implies cache.map()[h].block.hash
                                    == h && cache.map()[h].state == F::sync_spec(
                                    is_g,
                                    cache.map()[h].block,
                                ) by {
                                    if h != blk.hash {
                                        assert(pre_cache.map().contains_key(h));
                                        assert(cache.map()[h] == pre_cache.map()[h]);
                                    }
                                }
                                if i > 0 {
                                    // the target is distinct from every other
                                    // path block, so its slot is untouched
                                    assert(blk.hash != b.hash) by {
                                        if blk.hash == b.hash {
                                            assert(archive.store()[blk.hash] == blk);
                                            assert(archive.store()[b.hash] == b);
                                        }
                                    }
                                }
                                assert(cache.map() == memo_from(
                                    *archive,
                                    is_g,
                                    b,
                                    i as int,
                                    path@.len() as int,
                                    c0,
                                )) by {
                                    assert((CacheEntry { block: blk, state: s2 }) == (CacheEntry {
                                        block: walk_block(*archive, b, i as nat),
                                        state: F::sync_spec(
                                            is_g,
                                            walk_block(*archive, b, i as nat),
                                        ),
                                    }));
                                }
                            }
                            prev_num = blk.number;
                            state = s;
                        },
                        Err(e) => {
                            proof {
                                fail_j = i as int;
                            }
                            failed = Some(FoldError::Foldable(blk.hash, e));
                        },
                    }
                }
                match failed {
                    Some(e) => {
                        let ghost failed_cache = cache.map();
                        self.put_back(ci, (is_copy, cache), Ghost(removed));
                        proof {
                            self.lemma_has_cached_for(*initial_state, b);
                            self.lemma_cache_for_at(*initial_state, ci as int);
                            assert(self.cache_for(*initial_state) == failed_cache);
                            match &e {
                                FoldError::Foldable(h, _) => {
                                    assert(0 <= fail_j < b.number - anchor_block.number);
                                    assert((walk_block(*archive, b, fail_j as nat)).hash == *h);
                                    assert(!F::fold_succeeds(
                                        F::sync_spec(
                                            *initial_state,
                                            walk_block(*archive, b, (fail_j + 1) as nat),
                                        ),
                                        walk_block(*archive, b, fail_j as nat),
                                    ));
                                    assert(self.folds() == tick_n(
                                        old(self).folds(),
                                        (b.number - anchor_block.number - 1 - fail_j) as nat,
                                    ));
                                },
                                _ => {},
                            }
                        }
                        Err(e)
                    },
                    None => {
                        let out = state.duplicate();
                        let ghost done_cache = cache.map();
                        self.put_back(ci, (is_copy, cache), Ghost(removed));
                        proof {
                            assert(self.caches_view()[ci as int].0 == *initial_state);
                            assert(self.caches_view()[ci as int].1.map().contains_key(b.hash));
                            assert(self.has_cached(*initial_state, b));
                            self.lemma_cache_for_at(*initial_state, ci as int);
                            assert(self.cache_for(*initial_state) == done_cache);
                            assert forall|j: int|
                                0 <= j < b.number - anchor_block.number implies self.has_cached(
                                *initial_state,
                                #[trigger] walk_block(*archive, b, j as nat),
                            ) by {
                                assert(path@[j] == walk_block(*archive, b, j as nat));
                                assert(self.caches_view()[ci as int].1.map().contains_key(
                                    path@[j].hash,
                                ));
                            }
                        }
                        Ok(BlockState { block: b, state: out })
                    },
                }
            },
            None => {
                // no usable ancestor: sync from scratch
                let smw = SyncMiddleware::new(b.number, self.partition_size);
                match F::sync(initial_state, &b, &smw, ledger) {
                    Ok(s) => {
                        if self.sync_count < u64::MAX {
                            self.sync_count = self.sync_count + 1;
                        }
                        let s2 = s.duplicate();
                        let ghost pre_cache = cache;
                        cache.put(b, s2);
                        proof {
                            assert forall|h: u64| #[trigger]
                                cache.map().contains_key(h) implies cache.map()[h].block.hash == h
                                && cache.map()[h].state == F::sync_spec(
                                is_g,
                                cache.map()[h].block,
                            ) by {
                                if h != b.hash {
                                    assert(pre_cache.map().contains_key(h));
                                    assert(cache.map()[h] == pre_cache.map()[h]);
                                }
                            }
                        }
                        let ghost done_cache = cache.map();
                        self.put_back(ci, (is_copy, cache), Ghost(removed));
                        proof {
                            assert(self.caches_view()[ci as int].0 == *initial_state);
                            assert(self.has_cached(*initial_state, b));
                            self.lemma_cache_for_at(*initial_state, ci as int);
                            assert(self.cache_for(*initial_state) == done_cache);
                            assert((CacheEntry { block: b, state: s2 }) == (CacheEntry {
                                block: b,
                                state: F::sync_spec(*initial_state, b),
                            }));
                        }
                        Ok(BlockState { block: b, state: s })
                    },
                    Err(e) => {
                        self.put_back(ci, (is_copy, cache), Ghost(removed));
                        proof {
                            self.lemma_has_cached_for(*initial_state, b);
                            self.lemma_cache_for_at(*initial_state, ci as int);
                            assert(self.cache_for(*initial_state) == c0);
                        }
                        Err(FoldError::Foldable(b.hash, e))
                    },
                }
            },
        }
    }
}

} // verus!
