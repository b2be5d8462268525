//! In-memory canonical chain of block headers: a store keyed by hash plus an
//! ordered index by height along the currently-believed-canonical branch.
//!
//! Invariants kept by every operation:
//! - closure: every stored block above the pruning base has its parent
//!   stored too, one height below;
//! - the canonical index is contiguous from `base` to the tip, and each
//!   entry chains to the previous one via `parent_hash`;
//! - the base is never decreased except by explicit pruning, which only
//!   raises it.

use vstd::prelude::*;

use crate::types::{ArchiveError, Block};

verus! {

/// The map from hash to block described by a sequence of blocks, later
/// entries shadowing earlier ones.
pub open spec fn map_of(s: Seq<Block>) -> Map<u64, Block>
    decreases s.len(),
{
    if s.len() == 0 {
        Map::empty()
    } else {
        map_of(s.drop_last()).insert(s.last().hash, s.last())
    }
}

/// No two blocks of the sequence share a hash.
pub open spec fn distinct_hashes(s: Seq<Block>) -> bool {
    forall|i: int, j: int| 0 <= i < j < s.len() ==> s[i].hash != s[j].hash
}

/// A hash is a key of `map_of(s)` exactly when some block of `s` carries it.
pub proof fn lemma_map_of_contains(s: Seq<Block>, h: u64)
    ensures
        map_of(s).contains_key(h) <==> (exists|i: int| 0 <= i < s.len() && s[i].hash == h),
    decreases s.len(),
{
    if s.len() > 0 {
        lemma_map_of_contains(s.drop_last(), h);
        if s.last().hash == h {
            assert(s[s.len() - 1].hash == h);
        } else {
            if map_of(s).contains_key(h) {
                let i = choose|i: int| 0 <= i < s.drop_last().len() && s.drop_last()[i].hash == h;
                assert(s[i].hash == h);
            }
            if exists|i: int| 0 <= i < s.len() && s[i].hash == h {
                let i = choose|i: int| 0 <= i < s.len() && s[i].hash == h;
                assert(s.drop_last()[i].hash == h);
            }
        }
    }
}

/// With distinct hashes, `map_of(s)` maps each block's hash to that block.
pub proof fn lemma_map_of_index(s: Seq<Block>, i: int)
    requires
        distinct_hashes(s),
        0 <= i < s.len(),
    ensures
        map_of(s).contains_key(s[i].hash),
        map_of(s)[s[i].hash] == s[i],
    decreases s.len(),
{
    if i < s.len() - 1 {
        lemma_map_of_index(s.drop_last(), i);
        assert(s.drop_last()[i] == s[i]);
        assert(s[s.len() - 1].hash != s[i].hash);
    }
}

/// The index sequence `c` is a chain in `m` starting at height `base`: entry
/// `i` is stored at height `base + i` and points back to entry `i - 1`.
pub open spec fn canon_linked(m: Map<u64, Block>, base: u64, c: Seq<u64>) -> bool {
    &&& forall|i: int|
        0 <= i < c.len() ==> #[trigger] m.contains_key(c[i]) && m[c[i]].number == base + i
    &&& forall|i: int| 0 < i < c.len() ==> m[#[trigger] c[i]].parent_hash == c[i - 1]
}

/// Two chains over the same store that agree at one position agree at every
/// earlier position: a chain is determined downward by its parent pointers.
pub proof fn lemma_canon_prefix_unique(
    m: Map<u64, Block>,
    base: u64,
    c1: Seq<u64>,
    c2: Seq<u64>,
    k: int,
    j: int,
)
    requires
        canon_linked(m, base, c1),
        canon_linked(m, base, c2),
        0 <= j <= k,
        k < c1.len(),
        k < c2.len(),
        c1[k] == c2[k],
    ensures
        c1[j] == c2[j],
    decreases k - j,
{
    if j < k {
        assert(m[c1[k]].parent_hash == c1[k - 1]);
        assert(m[c2[k]].parent_hash == c2[k - 1]);
        lemma_canon_prefix_unique(m, base, c1, c2, k - 1, j);
    }
}

/// Chain linkage survives extending the store with new entries.
pub proof fn lemma_canon_linked_extend(
    m1: Map<u64, Block>,
    m2: Map<u64, Block>,
    base: u64,
    c: Seq<u64>,
)
    requires
        canon_linked(m1, base, c),
        forall|h: u64| #[trigger] m1.contains_key(h) ==> m2.contains_key(h) && m2[h] == m1[h],
    ensures
        canon_linked(m2, base, c),
{
    assert forall|i: int| 0 <= i < c.len() implies #[trigger] m2.contains_key(c[i])
        && m2[c[i]].number == base + i by {
        assert(m1.contains_key(c[i]));
    }
    assert forall|i: int| 0 < i < c.len() implies m2[#[trigger] c[i]].parent_hash == c[i - 1] by {
        assert(m1.contains_key(c[i]));
    }
}

/// `anc` lies on the parent chain of `h` within the store `m`.
pub open spec fn is_ancestor(m: Map<u64, Block>, anc: u64, h: u64) -> bool
    decreases (if m.contains_key(h) { m[h].number as int } else { 0 }),
{
    h == anc || (m.contains_key(h) && m[h].number > 0 && {
        let p = m[h].parent_hash;
        if m.contains_key(p) && m[p].number < m[h].number {
            is_ancestor(m, anc, p)
        } else {
            false
        }
    })
}

/// An ancestor never lies above its descendant.
pub proof fn lemma_ancestor_le(m: Map<u64, Block>, y: u64, h: u64)
    requires
        is_ancestor(m, y, h),
        m.contains_key(y),
        m.contains_key(h),
    ensures
        m[y].number <= m[h].number,
    decreases m[h].number,
{
    if y != h {
        let p = m[h].parent_hash;
        lemma_ancestor_le(m, y, p);
    }
}

/// An ancestor at its descendant's own height is that block.
pub proof fn lemma_ancestor_same_height(m: Map<u64, Block>, y: u64, h: u64)
    requires
        is_ancestor(m, y, h),
        m.contains_key(y),
        m.contains_key(h),
        m[y].number == m[h].number,
    ensures
        y == h,
{
    if y != h {
        let p = m[h].parent_hash;
        lemma_ancestor_le(m, y, p);
    }
}

/// Walking one step down from an ancestor-or-self of `h` stays on the
/// ancestry of `h`.
pub proof fn lemma_ancestor_step(m: Map<u64, Block>, h: u64, anc: u64)
    requires
        is_ancestor(m, anc, h),
        m.contains_key(anc),
        m[anc].number > 0,
        m.contains_key(m[anc].parent_hash),
        m[m[anc].parent_hash].number < m[anc].number,
    ensures
        is_ancestor(m, m[anc].parent_hash, h),
    decreases (if m.contains_key(h) { m[h].number as int } else { 0 }),
{
    let p = m[anc].parent_hash;
    if h == anc {
        assert(p != anc);
        assert(is_ancestor(m, p, p));
    } else {
        lemma_ancestor_step(m, m[h].parent_hash, anc);
    }
}

/// The block-history store.
pub struct BlockArchive {
    blocks: Vec<Block>,
    canonical: Vec<u64>,
    base_number: u64,
}

impl BlockArchive {
    /// The map from hash to stored block.
    pub closed spec fn store(self) -> Map<u64, Block> {
        map_of(self.blocks@)
    }

    /// The canonical index: hashes ordered by height, starting at `base()`.
    pub closed spec fn canon(self) -> Seq<u64> {
        self.canonical@
    }

    /// The height of the first canonical entry (the pruning floor).
    pub closed spec fn base(self) -> u64 {
        self.base_number
    }

    /// Internal representation invariant (abstract to callers).
    pub closed spec fn inv_internal(self) -> bool {
        distinct_hashes(self.blocks@)
    }

    /// Height of the canonical tip (meaningful only when not empty).
    pub open spec fn tip_number(self) -> int {
        self.base() + self.canon().len() - 1
    }

    /// The canonical index has an entry at height `n`.
    pub open spec fn has_canonical(self, n: int) -> bool {
        self.base() <= n < self.base() + self.canon().len()
    }

    /// The canonical hash at height `n`.
    pub open spec fn canonical_hash_at(self, n: int) -> u64
        recommends
            self.has_canonical(n),
    {
        self.canon()[n - self.base()]
    }

    /// The canonical block at height `n`.
    pub open spec fn canonical_block_at(self, n: int) -> Block
        recommends
            self.has_canonical(n),
    {
        self.store()[self.canonical_hash_at(n)]
    }

    /// Closure: every stored block is keyed by its own hash, sits at or
    /// above the base, and every stored block above the base has its parent
    /// stored one height below.
    pub open spec fn store_closed(self) -> bool {
        forall|h: u64|
            #[trigger] self.store().contains_key(h) ==> {
                &&& self.store()[h].hash == h
                &&& self.store()[h].number >= self.base()
                &&& (self.store()[h].number > self.base()
                    ==> self.store().contains_key(self.store()[h].parent_hash)
                        && self.store()[self.store()[h].parent_hash].number + 1
                            == self.store()[h].number)
            }
    }

    /// Well-formedness of the whole archive.
    pub open spec fn wf(self) -> bool {
        &&& self.inv_internal()
        &&& self.store_closed()
        &&& self.base() + self.canon().len() <= u64::MAX
        &&& canon_linked(self.store(), self.base(), self.canon())
    }

    /// An empty archive.
    pub fn new() -> (r: Self)
        ensures
            r.wf(),
            r.store() == Map::<u64, Block>::empty(),
            r.canon() == Seq::<u64>::empty(),
            r.base() == 0,
    {
        BlockArchive { blocks: Vec::new(), canonical: Vec::new(), base_number: 0 }
    }

    fn find(&self, h: u64) -> (r: Option<usize>)
        ensures
            match r {
                Some(i) => i < self.blocks@.len() && self.blocks@[i as int].hash == h,
                None => forall|i: int| 0 <= i < self.blocks@.len() ==> self.blocks@[i].hash != h,
            },
    {
        let mut i: usize = 0;
        while i < self.blocks.len()
            invariant
                i <= self.blocks@.len(),
                forall|j: int| 0 <= j < i ==> self.blocks@[j].hash != h,
            decreases self.blocks@.len() - i,
        {
            if self.blocks[i].hash == h {
                return Some(i);
            }
            i += 1;
        }
        None
    }

    /// Look a block up by hash.
    pub fn get_by_hash(&self, h: u64) -> (r: Option<Block>)
        requires
            self.wf(),
        ensures
            match r {
                Some(b) => self.store().contains_key(h) && self.store()[h] == b,
                None => !self.store().contains_key(h),
            },
    {
        proof {
            lemma_map_of_contains(self.blocks@, h);
        }
        match self.find(h) {
            Some(i) => {
                proof {
                    lemma_map_of_index(self.blocks@, i as int);
                }
                Some(self.blocks[i])
            }
            None => None,
        }
    }

    /// Add a block to the store. A block already stored with identical
    /// contents is accepted silently; a hash collision with different
    /// contents is `DuplicateHash`; a non-genesis block whose parent is not
    /// stored one height below is `ChainBroken`. The canonical index is
    /// untouched.
    pub fn insert(&mut self, b: Block) -> (r: Result<(), ArchiveError>)
        requires
            old(self).wf(),
        ensures
            final(self).wf(),
            final(self).canon() == old(self).canon(),
            final(self).base() == old(self).base(),
            match r {
                Ok(()) => {
                    &&& final(self).store() == old(self).store().insert(b.hash, b)
                    &&& (old(self).store().contains_key(b.hash) ==> old(self).store()[b.hash]
                        == b)
                },
                Err(ArchiveError::DuplicateHash) => {
                    &&& final(self).store() == old(self).store()
                    &&& old(self).store().contains_key(b.hash)
                    &&& old(self).store()[b.hash] != b
                },
                Err(ArchiveError::ChainBroken) => {
                    &&& final(self).store() == old(self).store()
                    &&& !old(self).store().contains_key(b.hash)
                    &&& (b.number < old(self).base() || (b.number > old(self).base() && !(old(
                        self,
                    ).store().contains_key(b.parent_hash) && old(self).store()[b.parent_hash].number
                        + 1 == b.number)))
                },
            },
    {
        proof {
            lemma_map_of_contains(self.blocks@, b.hash);
        }
        match self.find(b.hash) {
            Some(i) => {
                proof {
                    lemma_map_of_index(self.blocks@, i as int);
                }
                let existing = self.blocks[i];
                if existing == b {
                    proof {
                        assert(self.store() =~= self.store().insert(b.hash, b));
                    }
                    Ok(())
                } else {
                    Err(ArchiveError::DuplicateHash)
                }
            }
            None => {
                if b.number < self.base_number {
                    return Err(ArchiveError::ChainBroken);
                }
                if b.number > self.base_number {
                    proof {
                        lemma_map_of_contains(self.blocks@, b.parent_hash);
                    }
                    let parent_ok = match self.get_by_hash(b.parent_hash) {
                        Some(p) => p.number < u64::MAX && p.number + 1 == b.number,
                        None => false,
                    };
                    if !parent_ok {
                        return Err(ArchiveError::ChainBroken);
                    }
                }
                let ghost old_blocks = self.blocks@;
                self.blocks.push(b);
                proof {
                    assert(self.blocks@.drop_last() =~= old_blocks);
                    assert(self.blocks@.last() == b);
                    assert forall|h: u64| #[trigger]
                        self.store().contains_key(h) implies {
                        &&& self.store()[h].hash == h
                        &&& (self.store()[h].number > self.base() ==> self.store().contains_key(
                            self.store()[h].parent_hash,
                        ) && self.store()[self.store()[h].parent_hash].number + 1
                            == self.store()[h].number)
                    } by {
                        if h != b.hash {
                            assert(old(self).store().contains_key(h));
                            assert(self.store()[h] == old(self).store()[h]);
                        }
                    }
                }
                Ok(())
            }
        }
    }

    /// Number of canonical entries.
    pub fn canonical_len(&self) -> (r: usize)
        ensures
            r == self.canon().len(),
    {
        self.canonical.len()
    }

    /// The pruning floor.
    pub fn base_number(&self) -> (r: u64)
        ensures
            r == self.base(),
    {
        self.base_number
    }

    /// The canonical block at height `n`, via the index.
    pub fn get_canonical_by_number(&self, n: u64) -> (r: Option<Block>)
        requires
            self.wf(),
        ensures
            match r {
                Some(b) => {
                    &&& self.has_canonical(n as int)
                    &&& b == self.canonical_block_at(n as int)
                    &&& b.hash == self.canonical_hash_at(n as int)
                    &&& b.number == n
                },
                None => !self.has_canonical(n as int),
            },
    {
        if n < self.base_number {
            return None;
        }
        let off = n - self.base_number;
        if off >= self.canonical.len() as u64 {
            return None;
        }
        let h = self.canonical[off as usize];
        proof {
            self.lemma_canonical_block_id(n as int);
        }
        match self.get_by_hash(h) {
            Some(b) => Some(b),
            None => None,
        }
    }

    /// Walk parent pointers from `from` down to height `t`, collecting the
    /// blocks tip-first.
    fn chain_down_to(&self, from: Block, t: u64) -> (rev: Vec<Block>)
        requires
            self.wf(),
            self.store().contains_key(from.hash),
            self.store()[from.hash] == from,
            self.base() <= t <= from.number,
        ensures
            rev@.len() == from.number - t + 1,
            rev@[0] == from,
            forall|k: int|
                0 <= k < rev@.len() ==> {
                    &&& self.store().contains_key((#[trigger] rev@[k]).hash)
                    &&& self.store()[rev@[k].hash] == rev@[k]
                    &&& rev@[k].number == from.number - k
                },
            forall|k: int| 0 < k < rev@.len() ==> rev@[k - 1].parent_hash == rev@[k].hash,
    {
        let mut rev: Vec<Block> = Vec::new();
        let mut cur: Block = from;
        rev.push(cur);
        while cur.number > t
            invariant
                self.wf(),
                self.base() <= t <= cur.number <= from.number,
                self.store().contains_key(cur.hash),
                self.store()[cur.hash] == cur,
                rev@.len() == from.number - cur.number + 1,
                rev@[0] == from,
                rev@[rev@.len() - 1] == cur,
                forall|k: int|
                    0 <= k < rev@.len() ==> {
                        &&& self.store().contains_key((#[trigger] rev@[k]).hash)
                        &&& self.store()[rev@[k].hash] == rev@[k]
                        &&& rev@[k].number == from.number - k
                    },
                forall|k: int| 0 < k < rev@.len() ==> rev@[k - 1].parent_hash == rev@[k].hash,
            decreases cur.number,
        {
            let p = match self.get_by_hash(cur.parent_hash) {
                Some(p) => p,
                None => {
                    proof {
                        assert(false);
                    }
                    cur
                }
            };
            rev.push(p);
            cur = p;
        }
        rev
    }

    /// Designate the stored block `h` as the canonical tip, rebuilding the
    /// canonical index by walking parents down to the base. Fails with
    /// `ChainBroken` when `h` is not stored or lies below the base (a tip at
    /// the largest representable height is also refused). The store and the
    /// base are untouched either way.
    pub fn set_tip(&mut self, h: u64) -> (r: Result<(), ArchiveError>)
        requires
            old(self).wf(),
        ensures
            final(self).wf(),
            final(self).store() == old(self).store(),
            final(self).base() == old(self).base(),
            match r {
                Ok(()) => {
                    &&& old(self).store().contains_key(h)
                    &&& old(self).base() <= old(self).store()[h].number < u64::MAX
                    &&& final(self).canon().len() == old(self).store()[h].number - old(
                        self,
                    ).base() + 1
                    &&& final(self).tip_number() == old(self).store()[h].number
                    &&& final(self).canon()[final(self).canon().len() - 1] == h
                },
                Err(_) => {
                    &&& final(self).canon() == old(self).canon()
                    &&& !(old(self).store().contains_key(h) && old(self).base() <= old(
                        self,
                    ).store()[h].number < u64::MAX)
                },
            },
    {
        let b = match self.get_by_hash(h) {
            Some(b) => b,
            None => {
                return Err(ArchiveError::ChainBroken);
            }
        };
        if b.number < self.base_number || b.number == u64::MAX {
            return Err(ArchiveError::ChainBroken);
        }
        let rev = self.chain_down_to(b, self.base_number);
        let mut canon: Vec<u64> = Vec::new();
        let mut i: usize = rev.len();
        while i > 0
            invariant
                i <= rev@.len(),
                canon@.len() == rev@.len() - i,
                forall|x: int| 0 <= x < canon@.len() ==> canon@[x] == rev@[rev@.len() - 1 - x].hash,
            decreases i,
        {
            i -= 1;
            canon.push(rev[i].hash);
        }
        self.canonical = canon;
        proof {
            let m = self.store();
            let base = self.base();
            let c = self.canon();
            let r = rev@;
            let l = r.len() as int;
            assert forall|x: int|
                0 <= x < c.len() implies #[trigger] m.contains_key(c[x]) && m[c[x]].number == base
                + x by {
                assert(c[x] == r[l - 1 - x].hash);
                assert(r[l - 1 - x].number == b.number - (l - 1 - x));
            }
            assert forall|x: int| 0 < x < c.len() implies m[#[trigger] c[x]].parent_hash == c[x
                - 1] by {
                assert(c[x] == r[l - 1 - x].hash);
                assert(m[c[x]] == r[l - 1 - x]);
                assert(r[l - 1 - x].parent_hash == r[l - x].hash);
                assert(c[x - 1] == r[l - x].hash);
            }
        }
        Ok(())
    }

    /// `h` lies on the canonical index.
    pub open spec fn on_canonical(self, h: u64) -> bool {
        exists|i: int| 0 <= i < self.canon().len() && self.canon()[i] == h
    }

    /// The chain of stored blocks from height `to_number` up to the block
    /// `from`, ascending (the ancestor comes first, `from` last). Fails with
    /// `ChainBroken` exactly when `from` is not stored or `to_number` does
    /// not lie between the base and `from`'s height.
    pub fn ancestor_path(&self, from: u64, to_number: u64) -> (r: Result<
        Vec<Block>,
        ArchiveError,
    >)
        requires
            self.wf(),
        ensures
            match r {
                Ok(p) => {
                    &&& self.store().contains_key(from)
                    &&& self.base() <= to_number <= self.store()[from].number
                    &&& p@.len() == self.store()[from].number - to_number + 1
                    &&& p@[p@.len() - 1] == self.store()[from]
                    &&& forall|i: int|
                        0 <= i < p@.len() ==> {
                            &&& self.store().contains_key((#[trigger] p@[i]).hash)
                            &&& self.store()[p@[i].hash] == p@[i]
                            &&& p@[i].number == to_number + i
                        }
                    &&& forall|i: int| 0 < i < p@.len() ==> p@[i].parent_hash == p@[i - 1].hash
                },
                Err(_) => !(self.store().contains_key(from) && self.base() <= to_number
                    <= self.store()[from].number),
            },
    {
        let b = match self.get_by_hash(from) {
            Some(b) => b,
            None => {
                return Err(ArchiveError::ChainBroken);
            }
        };
        if to_number < self.base_number || to_number > b.number {
            return Err(ArchiveError::ChainBroken);
        }
        let rev = self.chain_down_to(b, to_number);
        let mut path: Vec<Block> = Vec::new();
        let mut i: usize = rev.len();
        while i > 0
            invariant
                i <= rev@.len(),
                path@.len() == rev@.len() - i,
                forall|x: int| 0 <= x < path@.len() ==> path@[x] == rev@[rev@.len() - 1 - x],
            decreases i,
        {
            i -= 1;
            path.push(rev[i]);
        }
        Ok(path)
    }

    /// The deepest-known shared ancestor of the stored blocks `a` and `b`:
    /// walks the deeper side back until heights match, then both sides in
    /// lockstep. Fails with `ChainBroken` when either block is missing or
    /// below the base, or when the walks reach the base without meeting.
    /// Two blocks on the canonical index always meet.
    pub fn common_ancestor(&self, a: u64, b: u64) -> (r: Result<Block, ArchiveError>)
        requires
            self.wf(),
        ensures
            match r {
                Ok(c) => {
                    &&& self.store().contains_key(c.hash)
                    &&& self.store()[c.hash] == c
                    &&& c.number >= self.base()
                    &&& is_ancestor(self.store(), c.hash, a)
                    &&& is_ancestor(self.store(), c.hash, b)
                    &&& forall|c2: u64|
                        (#[trigger] is_ancestor(self.store(), c2, a)) && is_ancestor(
                            self.store(),
                            c2,
                            b,
                        ) && self.store().contains_key(c2) ==> self.store()[c2].number <= c.number
                },
                Err(_) => !(self.on_canonical(a) && self.on_canonical(b)),
            },
    {
        proof {
            if self.on_canonical(a) {
                self.lemma_on_canonical_stored(a);
            }
            if self.on_canonical(b) {
                self.lemma_on_canonical_stored(b);
            }
        }
        let mut ab = match self.get_by_hash(a) {
            Some(x) => x,
            None => {
                return Err(ArchiveError::ChainBroken);
            }
        };
        let mut bb = match self.get_by_hash(b) {
            Some(x) => x,
            None => {
                return Err(ArchiveError::ChainBroken);
            }
        };
        if ab.number < self.base_number || bb.number < self.base_number {
            return Err(ArchiveError::ChainBroken);
        }
        let ghost both_canon = self.on_canonical(a) && self.on_canonical(b);
        while ab.number > bb.number
            invariant
                self.wf(),
                self.store().contains_key(ab.hash),
                self.store()[ab.hash] == ab,
                self.store().contains_key(bb.hash),
                self.store()[bb.hash] == bb,
                ab.number >= self.base(),
                bb.number >= self.base(),
                is_ancestor(self.store(), ab.hash, a),
                is_ancestor(self.store(), bb.hash, b),
                forall|c2: u64|
                    (#[trigger] is_ancestor(self.store(), c2, a)) && is_ancestor(
                        self.store(),
                        c2,
                        b,
                    ) && self.store().contains_key(c2) ==> is_ancestor(self.store(), c2, ab.hash)
                        && is_ancestor(self.store(), c2, bb.hash),
                both_canon == (self.on_canonical(a) && self.on_canonical(b)),
                both_canon ==> self.has_canonical(ab.number as int) && ab.hash
                    == self.canonical_hash_at(ab.number as int),
                both_canon ==> self.has_canonical(bb.number as int) && bb.hash
                    == self.canonical_hash_at(bb.number as int),
            decreases ab.number,
        {
            let p = match self.get_by_hash(ab.parent_hash) {
                Some(p) => p,
                None => {
                    proof {
                        assert(false);
                    }
                    ab
                }
            };
            proof {
                lemma_ancestor_step(self.store(), a, ab.hash);
                let m = self.store();
                assert forall|c2: u64|
                    (#[trigger] is_ancestor(m, c2, a)) && is_ancestor(m, c2, b)
                        && m.contains_key(c2) implies is_ancestor(m, c2, p.hash) && is_ancestor(
                    m,
                    c2,
                    bb.hash,
                ) by {
                    if c2 == ab.hash {
                        lemma_ancestor_le(m, c2, bb.hash);
                    }
                    assert(is_ancestor(m, c2, ab.hash));
                }
            }
            ab = p;
        }
        while bb.number > ab.number
            invariant
                self.wf(),
                self.store().contains_key(ab.hash),
                self.store()[ab.hash] == ab,
                self.store().contains_key(bb.hash),
                self.store()[bb.hash] == bb,
                ab.number <= bb.number,
                ab.number >= self.base(),
                is_ancestor(self.store(), ab.hash, a),
                is_ancestor(self.store(), bb.hash, b),
                forall|c2: u64|
                    (#[trigger] is_ancestor(self.store(), c2, a)) && is_ancestor(
                        self.store(),
                        c2,
                        b,
                    ) && self.store().contains_key(c2) ==> is_ancestor(self.store(), c2, ab.hash)
                        && is_ancestor(self.store(), c2, bb.hash),
                both_canon == (self.on_canonical(a) && self.on_canonical(b)),
                both_canon ==> self.has_canonical(ab.number as int) && ab.hash
                    == self.canonical_hash_at(ab.number as int),
                both_canon ==> self.has_canonical(bb.number as int) && bb.hash
                    == self.canonical_hash_at(bb.number as int),
            decreases bb.number,
        {
            let p = match self.get_by_hash(bb.parent_hash) {
                Some(p) => p,
                None => {
                    proof {
                        assert(false);
                    }
                    bb
                }
            };
            proof {
                lemma_ancestor_step(self.store(), b, bb.hash);
                let m = self.store();
                assert forall|c2: u64|
                    (#[trigger] is_ancestor(m, c2, a)) && is_ancestor(m, c2, b)
                        && m.contains_key(c2) implies is_ancestor(m, c2, ab.hash) && is_ancestor(
                    m,
                    c2,
                    p.hash,
                ) by {
                    if c2 == bb.hash {
                        lemma_ancestor_le(m, c2, ab.hash);
                    }
                    assert(is_ancestor(m, c2, bb.hash));
                }
            }
            bb = p;
        }
        while ab.hash != bb.hash
            invariant
                self.wf(),
                self.store().contains_key(ab.hash),
                self.store()[ab.hash] == ab,
                self.store().contains_key(bb.hash),
                self.store()[bb.hash] == bb,
                ab.number == bb.number,
                ab.number >= self.base(),
                is_ancestor(self.store(), ab.hash, a),
                is_ancestor(self.store(), bb.hash, b),
                forall|c2: u64|
                    (#[trigger] is_ancestor(self.store(), c2, a)) && is_ancestor(
                        self.store(),
                        c2,
                        b,
                    ) && self.store().contains_key(c2) ==> is_ancestor(self.store(), c2, ab.hash)
                        && is_ancestor(self.store(), c2, bb.hash),
                both_canon == (self.on_canonical(a) && self.on_canonical(b)),
                both_canon ==> self.has_canonical(ab.number as int) && ab.hash
                    == self.canonical_hash_at(ab.number as int),
                both_canon ==> self.has_canonical(bb.number as int) && bb.hash
                    == self.canonical_hash_at(bb.number as int),
            decreases ab.number,
        {
            if ab.number == self.base_number {
                return Err(ArchiveError::ChainBroken);
            }
            let pa = match self.get_by_hash(ab.parent_hash) {
                Some(p) => p,
                None => {
                    proof {
                        assert(false);
                    }
                    ab
                }
            };
            let pb = match self.get_by_hash(bb.parent_hash) {
                Some(p) => p,
                None => {
                    proof {
                        assert(false);
                    }
                    bb
                }
            };
            proof {
                lemma_ancestor_step(self.store(), a, ab.hash);
                lemma_ancestor_step(self.store(), b, bb.hash);
                let m = self.store();
                assert forall|c2: u64|
                    (#[trigger] is_ancestor(m, c2, a)) && is_ancestor(m, c2, b)
                        && m.contains_key(c2) implies is_ancestor(m, c2, pa.hash) && is_ancestor(
                    m,
                    c2,
                    pb.hash,
                ) by {
                    if c2 == ab.hash {
                        lemma_ancestor_same_height(m, c2, bb.hash);
                    }
                    if c2 == bb.hash {
                        lemma_ancestor_same_height(m, c2, ab.hash);
                    }
                    assert(is_ancestor(m, c2, ab.hash));
                    assert(is_ancestor(m, c2, bb.hash));
                }
            }
            ab = pa;
            bb = pb;
        }
        proof {
            let m = self.store();
            assert forall|c2: u64|
                (#[trigger] is_ancestor(m, c2, a)) && is_ancestor(m, c2, b) && m.contains_key(
                c2,
            ) implies m[c2].number <= ab.number by {
                lemma_ancestor_le(m, c2, ab.hash);
            }
        }
        Ok(ab)
    }

    /// Every canonical hash is stored at its indexed height.
    pub proof fn lemma_on_canonical_stored(self, h: u64)
        requires
            self.wf(),
            self.on_canonical(h),
        ensures
            self.store().contains_key(h),
            self.base() <= self.store()[h].number,
            self.has_canonical(self.store()[h].number as int),
            self.canonical_hash_at(self.store()[h].number as int) == h,
    {
        let i = choose|i: int| 0 <= i < self.canon().len() && self.canon()[i] == h;
        assert(self.store().contains_key(self.canon()[i]));
        assert(self.store()[h].number == self.base() + i);
    }

    /// A canonical block carries the indexed hash and height.
    pub proof fn lemma_canonical_block_id(self, n: int)
        requires
            self.wf(),
            self.has_canonical(n),
        ensures
            self.store().contains_key(self.canonical_hash_at(n)),
            self.canonical_block_at(n).hash == self.canonical_hash_at(n),
            self.canonical_block_at(n).number == n,
    {
        let i = n - self.base();
        assert(self.store().contains_key(self.canon()[i]));
    }

    /// The parent of a canonical block above the base is canonical one
    /// height below.
    pub proof fn lemma_canonical_parent(self, n: int)
        requires
            self.wf(),
            self.has_canonical(n),
            n > self.base(),
        ensures
            self.has_canonical(n - 1),
            self.canonical_block_at(n).parent_hash == self.canonical_hash_at(n - 1),
            self.canonical_block_at(n - 1).number == n - 1,
    {
        let i = n - self.base();
        assert(self.store().contains_key(self.canon()[i]));
        assert(self.store()[self.canon()[i]].parent_hash == self.canon()[i - 1]);
        assert(self.store().contains_key(self.canon()[i - 1]));
    }

    /// Remove every stored block strictly below height `n`, raising the
    /// base. The cut is clamped to the canonical tip, so the tip always
    /// survives; everything at or above the new base — in the store and on
    /// the canonical index — is kept unchanged. With an empty index, or a
    /// cut at or below the base, nothing changes.
    pub fn prune_below(&mut self, n: u64)
        requires
            old(self).wf(),
        ensures
            final(self).wf(),
            final(self).base() as int == if old(self).canon().len() == 0 || n <= old(self).base() {
                old(self).base() as int
            } else if n > old(self).tip_number() {
                old(self).tip_number()
            } else {
                n as int
            },
            forall|h: u64|
                #[trigger] final(self).store().contains_key(h) <==> (old(
                    self,
                ).store().contains_key(h) && old(self).store()[h].number >= final(self).base()),
            forall|h: u64|
                final(self).store().contains_key(h) ==> final(self).store()[h] == old(
                    self,
                ).store()[h],
            final(self).canon().len() == old(self).canon().len() - (final(self).base() - old(
                self,
            ).base()),
            forall|m: int|
                final(self).base() <= m < final(self).base() + final(self).canon().len()
                    ==> old(self).has_canonical(m) && #[trigger] final(self).canonical_hash_at(m)
                    == old(self).canonical_hash_at(m),
            final(self).canon().len() > 0 ==> final(self).tip_number() == old(self).tip_number(),
    {
        if self.canonical.len() == 0 || n <= self.base_number {
            return ;
        }
        let tip_n = self.base_number + (self.canonical.len() as u64 - 1);
        let cut = if n > tip_n {
            tip_n
        } else {
            n
        };
        let ghost old_self = *self;
        let mut newc: Vec<u64> = Vec::new();
        let start = (cut - self.base_number) as usize;
        let mut i: usize = start;
        while i < self.canonical.len()
            invariant
                start <= i <= self.canonical@.len(),
                newc@.len() == i - start,
                forall|x: int| 0 <= x < newc@.len() ==> newc@[x] == self.canonical@[start + x],
            decreases self.canonical@.len() - i,
        {
            newc.push(self.canonical[i]);
            i += 1;
        }
        let mut newb: Vec<Block> = Vec::new();
        let mut j: usize = 0;
        while j < self.blocks.len()
            invariant
                *self == old_self,
                old_self.wf(),
                j <= self.blocks@.len(),
                forall|x: int|
                    0 <= x < newb@.len() ==> (#[trigger] newb@[x]).number >= cut
                        && old_self.store().contains_key(newb@[x].hash)
                        && old_self.store()[newb@[x].hash] == newb@[x],
                forall|x: int|
                    0 <= x < newb@.len() ==> exists|y: int|
                        0 <= y < j && self.blocks@[y] == #[trigger] newb@[x],
                forall|y: int|
                    0 <= y < j && (#[trigger] self.blocks@[y]).number >= cut ==> exists|x: int|
                        0 <= x < newb@.len() && newb@[x] == self.blocks@[y],
                distinct_hashes(newb@),
            decreases self.blocks@.len() - j,
        {
            let b = self.blocks[j];
            let ghost pre = newb@;
            if b.number >= cut {
                proof {
                    lemma_map_of_index(self.blocks@, j as int);
                    assert forall|x: int| 0 <= x < newb@.len() implies (#[trigger] newb@[x]).hash
                        != b.hash by {
                        if newb@[x].hash == b.hash {
                            let y = choose|y: int| 0 <= y < j && self.blocks@[y] == newb@[x];
                            assert(self.blocks@[y].hash == self.blocks@[j as int].hash);
                        }
                    }
                }
                newb.push(b);
            }
            proof {
                assert forall|y: int|
                    0 <= y < j + 1 && (#[trigger] self.blocks@[y]).number >= cut implies exists|
                    x: int,
                |
                    0 <= x < newb@.len() && newb@[x] == self.blocks@[y] by {
                    if y < j {
                        let x = choose|x: int| 0 <= x < pre.len() && pre[x] == self.blocks@[y];
                        assert(newb@[x] == self.blocks@[y]);
                    } else {
                        assert(newb@[newb@.len() - 1] == self.blocks@[y]);
                    }
                }
                assert forall|x: int| 0 <= x < newb@.len() implies exists|y: int|
                    0 <= y < j + 1 && self.blocks@[y] == #[trigger] newb@[x] by {
                    if x < pre.len() {
                        let y = choose|y: int| 0 <= y < j && self.blocks@[y] == pre[x];
                        assert(self.blocks@[y] == newb@[x]);
                    } else {
                        assert(self.blocks@[j as int] == newb@[x]);
                    }
                }
            }
            j += 1;
        }
        self.blocks = newb;
        self.canonical = newc;
        self.base_number = cut;
        proof {
            assert forall|h: u64| #[trigger]
                self.store().contains_key(h) implies (old_self.store().contains_key(h)
                && old_self.store()[h].number >= cut && self.store()[h]
                == old_self.store()[h]) by {
                lemma_map_of_contains(self.blocks@, h);
                let x = choose|x: int| 0 <= x < self.blocks@.len() && self.blocks@[x].hash == h;
                lemma_map_of_index(self.blocks@, x);
            }
            assert forall|h: u64|
                old_self.store().contains_key(h) && old_self.store()[h].number
                    >= cut implies #[trigger] self.store().contains_key(h) by {
                lemma_map_of_contains(old_self.blocks@, h);
                let y = choose|y: int|
                    0 <= y < old_self.blocks@.len() && old_self.blocks@[y].hash == h;
                lemma_map_of_index(old_self.blocks@, y);
                let x = choose|x: int|
                    0 <= x < self.blocks@.len() && self.blocks@[x] == old_self.blocks@[y];
                lemma_map_of_contains(self.blocks@, h);
            }
            assert forall|h: u64| #[trigger]
                self.store().contains_key(h) implies {
                &&& self.store()[h].hash == h
                &&& self.store()[h].number >= self.base()
                &&& (self.store()[h].number > self.base() ==> self.store().contains_key(
                    self.store()[h].parent_hash,
                ) && self.store()[self.store()[h].parent_hash].number + 1
                    == self.store()[h].number)
            } by {
                assert(old_self.store().contains_key(h));
                let b = old_self.store()[h];
                if b.number > cut {
                    assert(b.number > old_self.base());
                    let p = b.parent_hash;
                    assert(old_self.store().contains_key(p));
                    assert(old_self.store()[p].number + 1 == b.number);
                    assert(old_self.store()[p].number >= cut);
                    assert(self.store().contains_key(p));
                    assert(self.store()[p] == old_self.store()[p]);
                }
            }
            assert(self.base() + self.canon().len() <= u64::MAX);
            assert forall|x: int|
                0 <= x < self.canon().len() implies #[trigger] self.store().contains_key(
                self.canon()[x],
            ) && self.store()[self.canon()[x]].number == self.base() + x by {
                assert(self.canon()[x] == old_self.canon()[start + x]);
                assert(old_self.store().contains_key(old_self.canon()[start + x]));
                assert(old_self.store()[old_self.canon()[start + x]].number == old_self.base()
                    + start + x);
                assert(old_self.store()[old_self.canon()[start + x]].number >= cut);
                assert(self.store().contains_key(self.canon()[x]));
                assert(self.store()[self.canon()[x]] == old_self.store()[self.canon()[x]]);
            }
            assert forall|x: int| 0 < x < self.canon().len() implies self.store()[
            #[trigger] self.canon()[x]].parent_hash == self.canon()[x - 1] by {
                assert(self.canon()[x] == old_self.canon()[start + x]);
                assert(self.canon()[x - 1] == old_self.canon()[start + x - 1]);
                assert(old_self.store().contains_key(old_self.canon()[start + x]));
                assert(old_self.store()[old_self.canon()[start + x]].parent_hash
                    == old_self.canon()[start + x - 1]);
                assert(self.store().contains_key(self.canon()[x]));
                assert(self.store()[self.canon()[x]] == old_self.store()[self.canon()[x]]);
            }
        }
    }

    /// The canonical tip, if the index is nonempty.
    #[verifier::spinoff_prover]
    #[verifier::rlimit(100)]
    pub fn tip(&self) -> (r: Option<Block>)
        requires
            self.wf(),
        ensures
            match r {
                Some(b) => {
                    &&& self.canon().len() > 0
                    &&& b == self.canonical_block_at(self.tip_number())
                    &&& b.hash == self.canonical_hash_at(self.tip_number())
                    &&& b.number == self.tip_number()
                },
                None => self.canon().len() == 0,
            },
    {
        if self.canonical.len() == 0 {
            return None;
        }
        let h = self.canonical[self.canonical.len() - 1];
        proof {
            self.lemma_canonical_block_id(self.tip_number());
        }
        self.get_by_hash(h)
    }
}

/// Law: canonical closure. Every hash on the canonical index is stored, and
/// the parent of every canonical block above the pruning base is stored one
/// height below it (at base zero that covers every non-genesis canonical
/// block).
pub proof fn lemma_canonical_closure(a: BlockArchive)
    requires
        a.wf(),
    ensures
        forall|i: int|
            0 <= i < a.canon().len() ==> {
                &&& #[trigger] a.store().contains_key(a.canon()[i])
                &&& (a.store()[a.canon()[i]].number > a.base() ==> a.store().contains_key(
                    a.store()[a.canon()[i]].parent_hash,
                ) && a.store()[a.store()[a.canon()[i]].parent_hash].number + 1
                    == a.store()[a.canon()[i]].number)
            },
{
}

} // verus!
