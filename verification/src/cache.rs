//! Fold cache: memoized derived states keyed by block hash, one cache per
//! initial state. An entry records the block it was derived at together
//! with the state, so a cached state certifies itself against the
//! derivation specification.

use vstd::prelude::*;

use crate::foldable::Foldable;
use crate::types::Block;

verus! {

/// One memoized result.
pub struct CacheEntry<F: Foldable> {
    /// The block at which `state` is valid.
    pub block: Block,
    /// The derived state.
    pub state: F,
}

/// The map from block hash to entry described by a sequence of entries.
pub open spec fn cmap<F: Foldable>(s: Seq<CacheEntry<F>>) -> Map<u64, CacheEntry<F>>
    decreases s.len(),
{
    if s.len() == 0 {
        Map::empty()
    } else {
        cmap(s.drop_last()).insert(s.last().block.hash, s.last())
    }
}

/// The second map is the first pruned to `floor`: a subset with values
/// unchanged, every entry at or above the floor kept, the deepest entries
/// below the floor kept, and nothing else kept below the floor.
pub open spec fn pruned_to<F: Foldable>(
    m0: Map<u64, CacheEntry<F>>,
    m1: Map<u64, CacheEntry<F>>,
    floor: u64,
) -> bool {
    &&& forall|h: u64| #[trigger] m1.contains_key(h) ==> m0.contains_key(h) && m1[h] == m0[h]
    &&& forall|h: u64|
        #[trigger] m0.contains_key(h) && m0[h].block.number >= floor ==> m1.contains_key(h)
    &&& forall|h: u64|
        #[trigger] m0.contains_key(h) && m0[h].block.number < floor && (forall|h2: u64|
            #[trigger] m0.contains_key(h2) && m0[h2].block.number < floor
                ==> m0[h2].block.number <= m0[h].block.number) ==> m1.contains_key(h)
    &&& forall|h: u64|
        #[trigger] m1.contains_key(h) && m1[h].block.number < floor ==> (forall|h2: u64|
            #[trigger] m0.contains_key(h2) && m0[h2].block.number < floor
                ==> m0[h2].block.number <= m1[h].block.number)
}

/// No two entries share a block hash.
pub open spec fn distinct_entries<F: Foldable>(s: Seq<CacheEntry<F>>) -> bool {
    forall|i: int, j: int| 0 <= i < j < s.len() ==> s[i].block.hash != s[j].block.hash
}

proof fn lemma_cmap_contains<F: Foldable>(s: Seq<CacheEntry<F>>, h: u64)
    ensures
        cmap(s).contains_key(h) <==> (exists|i: int| 0 <= i < s.len() && s[i].block.hash == h),
    decreases s.len(),
{
    if s.len() > 0 {
        lemma_cmap_contains(s.drop_last(), h);
        if s.last().block.hash == h {
            assert(s[s.len() - 1].block.hash == h);
        } else {
            if cmap(s).contains_key(h) {
                let i = choose|i: int|
                    0 <= i < s.drop_last().len() && s.drop_last()[i].block.hash == h;
                assert(s[i].block.hash == h);
            }
            if exists|i: int| 0 <= i < s.len() && s[i].block.hash == h {
                let i = choose|i: int| 0 <= i < s.len() && s[i].block.hash == h;
                assert(s.drop_last()[i].block.hash == h);
            }
        }
    }
}

proof fn lemma_cmap_index<F: Foldable>(s: Seq<CacheEntry<F>>, i: int)
    requires
        distinct_entries(s),
        0 <= i < s.len(),
    ensures
        cmap(s).contains_key(s[i].block.hash),
        cmap(s)[s[i].block.hash] == s[i],
    decreases s.len(),
{
    if i < s.len() - 1 {
        lemma_cmap_index(s.drop_last(), i);
        assert(s.drop_last()[i] == s[i]);
        assert(s[s.len() - 1].block.hash != s[i].block.hash);
    }
}

/// Memoized derived states for one initial state.
pub struct FoldCache<F: Foldable> {
    entries: Vec<CacheEntry<F>>,
}

impl<F: Foldable> FoldCache<F> {
    /// The map from block hash to memoized entry.
    pub closed spec fn map(self) -> Map<u64, CacheEntry<F>> {
        cmap(self.entries@)
    }

    /// Internal representation invariant (abstract to callers).
    pub closed spec fn inv(self) -> bool {
        distinct_entries(self.entries@)
    }

    /// Every entry is keyed by its block's hash and certifies itself: it
    /// holds exactly the state that syncing at its block from
    /// `initial_state` specifies.
    pub open spec fn wf_for(self, initial_state: F::InitialState) -> bool {
        &&& self.inv()
        &&& forall|h: u64|
            #[trigger] self.map().contains_key(h) ==> self.map()[h].block.hash == h
                && self.map()[h].state == F::sync_spec(initial_state, self.map()[h].block)
    }

    /// An empty cache.
    pub fn new() -> (r: Self)
        ensures
            r.map() == Map::<u64, CacheEntry<F>>::empty(),
            r.inv(),
    {
        FoldCache { entries: Vec::new() }
    }

    fn find(&self, h: u64) -> (r: Option<usize>)
        ensures
            match r {
                Some(i) => i < self.entries@.len() && self.entries@[i as int].block.hash == h,
                None => forall|i: int|
                    0 <= i < self.entries@.len() ==> self.entries@[i].block.hash != h,
            },
    {
        let mut i: usize = 0;
        while i < self.entries.len()
            invariant
                i <= self.entries@.len(),
                forall|j: int| 0 <= j < i ==> self.entries@[j].block.hash != h,
            decreases self.entries@.len() - i,
        {
            if self.entries[i].block.hash == h {
                return Some(i);
            }
            i += 1;
        }
        None
    }

    /// Look a memoized state up by block hash; a hit hands out the recorded
    /// block and a copy of the state.
    pub fn probe(&self, h: u64) -> (r: Option<(Block, F)>)
        requires
            self.inv(),
        ensures
            match r {
                Some(p) => self.map().contains_key(h) && self.map()[h].block == p.0
                    && self.map()[h].state == p.1,
                None => !self.map().contains_key(h),
            },
    {
        proof {
            lemma_cmap_contains(self.entries@, h);
        }
        match self.find(h) {
            Some(i) => {
                proof {
                    lemma_cmap_index(self.entries@, i as int);
                }
                Some((self.entries[i].block, self.entries[i].state.duplicate()))
            },
            None => None,
        }
    }

    /// Memoize a state at a block, replacing any entry under the same hash.
    pub fn put(&mut self, block: Block, state: F)
        requires
            old(self).inv(),
        ensures
            final(self).inv(),
            final(self).map() == old(self).map().insert(
                block.hash,
                CacheEntry { block, state },
            ),
    {
        proof {
            lemma_cmap_contains(self.entries@, block.hash);
        }
        match self.find(block.hash) {
            Some(i) => {
                let ghost pre = self.entries@;
                self.entries.remove(i);
                proof {
                    assert forall|x: int, y: int|
                        0 <= x < y < self.entries@.len() implies self.entries@[x].block.hash
                        != self.entries@[y].block.hash by {
                        if y < i {
                        } else if x < i {
                            assert(self.entries@[y] == pre[y + 1]);
                        } else {
                            assert(self.entries@[x] == pre[x + 1]);
                            assert(self.entries@[y] == pre[y + 1]);
                        }
                    }
                    assert forall|j: int|
                        0 <= j < self.entries@.len() implies self.entries@[j].block.hash
                        != block.hash by {
                        if j < i {
                            assert(self.entries@[j] == pre[j]);
                        } else {
                            assert(self.entries@[j] == pre[j + 1]);
                        }
                    }
                }
                let ghost mid = self.entries@;
                self.entries.push(CacheEntry { block, state });
                proof {
                    assert forall|x: int, y: int|
                        0 <= x < y < self.entries@.len() implies self.entries@[x].block.hash
                        != self.entries@[y].block.hash by {
                        if y < self.entries@.len() - 1 {
                            assert(self.entries@[x] == mid[x]);
                            assert(self.entries@[y] == mid[y]);
                        } else {
                            assert(self.entries@[x] == mid[x]);
                            assert(mid[x].block.hash != block.hash);
                        }
                    }
                    self.lemma_put_map(pre, i as int, block);
                }
            },
            None => {
                self.entries.push(CacheEntry { block, state });
                proof {
                    assert(self.entries@.drop_last() =~= old(self).entries@);
                }
            },
        }
    }

    /// The number of entries held.
    pub closed spec fn size(self) -> nat {
        self.entries@.len()
    }

    /// The deepest height strictly below `floor` among the entries, if any.
    fn max_number_below(&self, floor: u64) -> (r: Option<u64>)
        requires
            self.inv(),
        ensures
            match r {
                Some(n) => {
                    &&& n < floor
                    &&& exists|h: u64|
                        #[trigger] self.map().contains_key(h) && self.map()[h].block.number == n
                    &&& forall|h: u64|
                        #[trigger] self.map().contains_key(h) && self.map()[h].block.number
                            < floor ==> self.map()[h].block.number <= n
                },
                None => forall|h: u64|
                    #[trigger] self.map().contains_key(h) ==> self.map()[h].block.number >= floor,
            },
    {
        let mut best: Option<u64> = None;
        let ghost mut best_i: int = 0;
        let mut i: usize = 0;
        while i < self.entries.len()
            invariant
                self.inv(),
                i <= self.entries@.len(),
                best matches Some(n) ==> 0 <= best_i < i && self.entries@[best_i].block.number
                    == n && n < floor,
                best matches Some(n) ==> forall|j: int|
                    0 <= j < i && (#[trigger] self.entries@[j]).block.number < floor
                        ==> self.entries@[j].block.number <= n,
                best is None ==> forall|j: int|
                    0 <= j < i ==> (#[trigger] self.entries@[j]).block.number >= floor,
            decreases self.entries@.len() - i,
        {
            let n = self.entries[i].block.number;
            if n < floor {
                let better = match best {
                    Some(m) => n > m,
                    None => true,
                };
                if better {
                    best = Some(n);
                    proof {
                        best_i = i as int;
                    }
                }
            }
            i += 1;
        }
        proof {
            match best {
                Some(n) => {
                    lemma_cmap_index(self.entries@, best_i);
                    assert(self.map().contains_key(self.entries@[best_i].block.hash));
                    assert(self.map()[self.entries@[best_i].block.hash].block.number == n);
                    assert forall|h: u64| #[trigger]
                        self.map().contains_key(h) && self.map()[h].block.number
                        < floor implies self.map()[h].block.number <= n by {
                        lemma_cmap_contains(self.entries@, h);
                        let j = choose|j: int|
                            0 <= j < self.entries@.len() && self.entries@[j].block.hash == h;
                        lemma_cmap_index(self.entries@, j);
                    }
                },
                None => {
                    assert forall|h: u64| #[trigger]
                        self.map().contains_key(h) implies self.map()[h].block.number
                        >= floor by {
                        lemma_cmap_contains(self.entries@, h);
                        let j = choose|j: int|
                            0 <= j < self.entries@.len() && self.entries@[j].block.hash == h;
                        lemma_cmap_index(self.entries@, j);
                    }
                },
            }
        }
        best
    }

    /// Some entry strictly below `floor` whose height is not `keep`.
    fn find_prunable(&self, floor: u64, keep: u64) -> (r: Option<u64>)
        requires
            self.inv(),
        ensures
            match r {
                Some(h) => self.map().contains_key(h) && self.map()[h].block.number < floor
                    && self.map()[h].block.number != keep,
                None => forall|h: u64|
                    #[trigger] self.map().contains_key(h) ==> !(self.map()[h].block.number < floor
                        && self.map()[h].block.number != keep),
            },
    {
        let mut i: usize = 0;
        while i < self.entries.len()
            invariant
                self.inv(),
                i <= self.entries@.len(),
                forall|j: int|
                    0 <= j < i ==> !((#[trigger] self.entries@[j]).block.number < floor
                        && self.entries@[j].block.number != keep),
            decreases self.entries@.len() - i,
        {
            let n = self.entries[i].block.number;
            if n < floor && n != keep {
                proof {
                    lemma_cmap_index(self.entries@, i as int);
                }
                return Some(self.entries[i].block.hash);
            }
            i += 1;
        }
        proof {
            assert forall|h: u64| #[trigger]
                self.map().contains_key(h) implies !(self.map()[h].block.number < floor
                && self.map()[h].block.number != keep) by {
                lemma_cmap_contains(self.entries@, h);
                let j = choose|j: int|
                    0 <= j < self.entries@.len() && self.entries@[j].block.hash == h;
                lemma_cmap_index(self.entries@, j);
            }
        }
        None
    }

    /// Drop the entry stored under `h`.
    fn remove_key(&mut self, h: u64)
        requires
            old(self).inv(),
            old(self).map().contains_key(h),
        ensures
            final(self).inv(),
            final(self).map() == old(self).map().remove(h),
            final(self).size() == old(self).size() - 1,
    {
        proof {
            lemma_cmap_contains(self.entries@, h);
        }
        let i = match self.find(h) {
            Some(i) => i,
            None => {
                proof {
                    assert(false);
                }
                0
            },
        };
        let ghost pre = self.entries@;
        self.entries.remove(i);
        proof {
            assert forall|x: int, y: int|
                0 <= x < y < self.entries@.len() implies self.entries@[x].block.hash
                != self.entries@[y].block.hash by {
                if y < i {
                } else if x < i {
                    assert(self.entries@[y] == pre[y + 1]);
                } else {
                    assert(self.entries@[x] == pre[x + 1]);
                    assert(self.entries@[y] == pre[y + 1]);
                }
            }
            lemma_cmap_index(pre, i as int);
            assert forall|h2: u64|
                self.map().contains_key(h2) <==> old(self).map().remove(h).contains_key(h2) by {
                lemma_cmap_contains(self.entries@, h2);
                lemma_cmap_contains(pre, h2);
                if h2 != h {
                    if exists|x: int|
                        0 <= x < self.entries@.len() && self.entries@[x].block.hash == h2 {
                        let x = choose|x: int|
                            0 <= x < self.entries@.len() && self.entries@[x].block.hash == h2;
                        if x < i {
                            assert(pre[x].block.hash == h2);
                        } else {
                            assert(pre[x + 1].block.hash == h2);
                        }
                    }
                    if exists|x: int| 0 <= x < pre.len() && pre[x].block.hash == h2 {
                        let x = choose|x: int| 0 <= x < pre.len() && pre[x].block.hash == h2;
                        if x < i {
                            assert(self.entries@[x].block.hash == h2);
                        } else {
                            assert(x != i);
                            assert(self.entries@[x - 1].block.hash == h2);
                        }
                    }
                } else {
                    if exists|x: int|
                        0 <= x < self.entries@.len() && self.entries@[x].block.hash == h {
                        let x = choose|x: int|
                            0 <= x < self.entries@.len() && self.entries@[x].block.hash == h;
                        if x < i {
                            assert(pre[x].block.hash == h);
                            assert(pre[x] == pre[i as int]);
                        } else {
                            assert(pre[x + 1].block.hash == h);
                            assert(pre[x + 1] == pre[i as int]);
                        }
                    }
                }
            }
            assert forall|h2: u64| #[trigger]
                self.map().contains_key(h2) implies self.map()[h2] == old(self).map().remove(
                h,
            )[h2] by {
                lemma_cmap_contains(self.entries@, h2);
                let x = choose|x: int|
                    0 <= x < self.entries@.len() && self.entries@[x].block.hash == h2;
                lemma_cmap_index(self.entries@, x);
                if x < i {
                    lemma_cmap_index(pre, x);
                    assert(pre[x] == self.entries@[x]);
                } else {
                    lemma_cmap_index(pre, x + 1);
                    assert(pre[x + 1] == self.entries@[x]);
                }
            }
            assert(self.map() =~= old(self).map().remove(h));
        }
    }

    /// Remove entries below height `floor`, except that the deepest
    /// remaining entries below the floor are retained, so future folds
    /// keep a starting point.
    pub fn prune_below(&mut self, floor: u64)
        requires
            old(self).inv(),
        ensures
            final(self).inv(),
            pruned_to(old(self).map(), final(self).map(), floor),
    {
        let keep = match self.max_number_below(floor) {
            Some(n) => n,
            None => {
                proof {
                    assert(pruned_to(self.map(), self.map(), floor));
                }
                return ;
            },
        };
        let ghost m0 = self.map();
        loop
            invariant_except_break
                self.inv(),
                forall|h: u64|
                    #[trigger] self.map().contains_key(h) ==> m0.contains_key(h) && self.map()[h]
                        == m0[h],
                forall|h: u64|
                    #[trigger] m0.contains_key(h) && (m0[h].block.number >= floor
                        || m0[h].block.number == keep) ==> self.map().contains_key(h),
                keep < floor,
                exists|h: u64| #[trigger] m0.contains_key(h) && m0[h].block.number == keep,
                forall|h: u64|
                    #[trigger] m0.contains_key(h) && m0[h].block.number < floor
                        ==> m0[h].block.number <= keep,
            ensures
                self.inv(),
                pruned_to(m0, self.map(), floor),
            decreases self.size(),
        {
            match self.find_prunable(floor, keep) {
                Some(h) => {
                    self.remove_key(h);
                },
                None => {
                    proof {
                        assert forall|h: u64| #[trigger]
                            self.map().contains_key(h) && self.map()[h].block.number
                            < floor implies forall|h2: u64|
                            #[trigger] m0.contains_key(h2) && m0[h2].block.number < floor
                                ==> m0[h2].block.number <= self.map()[h].block.number by {
                            assert(self.map()[h].block.number == keep);
                        }
                        assert forall|h: u64|
                            #[trigger] m0.contains_key(h) && m0[h].block.number < floor && (forall|
                                h2: u64,
                            |
                                #[trigger] m0.contains_key(h2) && m0[h2].block.number < floor
                                    ==> m0[h2].block.number
                                    <= m0[h].block.number) implies self.map().contains_key(h) by {
                            let hk = choose|hk: u64|
                                #[trigger] m0.contains_key(hk) && m0[hk].block.number == keep;
                            assert(m0[hk].block.number <= m0[h].block.number);
                            assert(m0[h].block.number <= keep);
                            assert(m0[h].block.number == keep);
                        }
                    }
                    break ;
                },
            }
        }
    }

    proof fn lemma_put_map(self, pre: Seq<CacheEntry<F>>, i: int, block: Block)
        requires
            distinct_entries(pre),
            distinct_entries(self.entries@),
            0 <= i < pre.len(),
            pre[i].block.hash == block.hash,
            self.entries@.len() == pre.len(),
            self.entries@[self.entries@.len() - 1].block == block,
            forall|j: int| 0 <= j < i ==> self.entries@[j] == pre[j],
            forall|j: int|
                i <= j < self.entries@.len() - 1 ==> self.entries@[j] == pre[j + 1],
        ensures
            self.map() == cmap(pre).insert(
                block.hash,
                self.entries@[self.entries@.len() - 1],
            ),
    {
        let last = self.entries@[self.entries@.len() - 1];
        assert forall|h: u64|
            self.map().contains_key(h) <==> cmap(pre).insert(
                block.hash,
                last,
            ).contains_key(h) by {
            lemma_cmap_contains(self.entries@, h);
            lemma_cmap_contains(pre, h);
            if h != block.hash {
                if exists|x: int| 0 <= x < self.entries@.len() && self.entries@[x].block.hash
                    == h {
                    let x = choose|x: int|
                        0 <= x < self.entries@.len() && self.entries@[x].block.hash == h;
                    if x < i {
                        assert(pre[x].block.hash == h);
                    } else {
                        assert(pre[x + 1].block.hash == h);
                    }
                }
                if exists|x: int| 0 <= x < pre.len() && pre[x].block.hash == h {
                    let x = choose|x: int| 0 <= x < pre.len() && pre[x].block.hash == h;
                    if x < i {
                        assert(self.entries@[x].block.hash == h);
                    } else {
                        assert(x > i);
                        assert(self.entries@[x - 1].block.hash == h);
                    }
                }
            }
        }
        assert forall|h: u64| #[trigger]
            self.map().contains_key(h) implies self.map()[h] == cmap(pre).insert(
            block.hash,
            last,
        )[h] by {
            lemma_cmap_contains(self.entries@, h);
            let x = choose|x: int|
                0 <= x < self.entries@.len() && self.entries@[x].block.hash == h;
            lemma_cmap_index(self.entries@, x);
            if h != block.hash {
                if x < i {
                    lemma_cmap_index(pre, x);
                    assert(pre[x] == self.entries@[x]);
                } else {
                    assert(x < self.entries@.len() - 1);
                    lemma_cmap_index(pre, x + 1);
                    assert(pre[x + 1] == self.entries@[x]);
                }
            } else {
                assert(x == self.entries@.len() - 1) by {
                    if x < self.entries@.len() - 1 {
                        if x < i {
                            assert(pre[x].block.hash == block.hash);
                            assert(pre[i].block.hash == block.hash);
                        } else {
                            assert(pre[x + 1].block.hash == block.hash);
                            assert(pre[i].block.hash == block.hash);
                        }
                    }
                }
            }
        }
        assert(self.map() =~= cmap(pre).insert(block.hash, last));
    }
}

} // verus!
