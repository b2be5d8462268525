//! Test doubles: trivial and counting fold definitions, and an in-memory
//! ledger that grows a hash-chain of headers and serves lookups by hash,
//! by height along a branch, and at the latest block.

use vstd::prelude::*;

use crate::access::{Event, FoldMiddleware, SyncMiddleware};
use crate::archive::{distinct_hashes, lemma_map_of_contains, lemma_map_of_index, map_of};
use crate::foldable::Foldable;
use crate::types::Block;

verus! {

/// The error the mock fold definitions report.
#[derive(Clone, Copy, PartialEq, Eq, Structural, Debug)]
pub struct MockError;

/// A fold definition that derives nothing; deriving it always fails.
#[derive(Clone, Copy, PartialEq, Eq, Structural, Debug)]
pub struct MockFold;

impl Foldable for MockFold {
    type InitialState = u64;

    type Error = MockError;

    open spec fn sync_spec(initial_state: u64, block: Block) -> Self {
        MockFold
    }

    open spec fn fold_spec(previous: Self, block: Block) -> Self {
        MockFold
    }

    proof fn fold_extends_sync(initial_state: u64, parent: Block, block: Block) {
    }

    fn initial_state_eq(a: &u64, b: &u64) -> (r: bool) {
        *a == *b
    }

    fn initial_state_dup(a: &u64) -> (r: u64) {
        *a
    }

    fn duplicate(&self) -> (r: Self) {
        MockFold
    }

    open spec fn sync_succeeds(initial_state: u64, block: Block) -> bool {
        false
    }

    open spec fn fold_succeeds(previous: Self, block: Block) -> bool {
        false
    }

    fn sync(
        initial_state: &u64,
        block: &Block,
        access: &SyncMiddleware,
        ledger: &Vec<Event>,
    ) -> (r: Result<Self, MockError>)
        ensures
            r is Err,
    {
        Err(MockError)
    }

    fn fold(
        previous: &Self,
        block: &Block,
        access: &FoldMiddleware,
        ledger: &Vec<Event>,
    ) -> (r: Result<Self, MockError>)
        ensures
            r is Err,
    {
        Err(MockError)
    }
}

/// A fold definition whose state counts blocks: the derived `n` is the
/// block height plus the initial state (saturating at the largest
/// representable value), and `low_hash` records the block's id.
#[derive(Clone, Copy, PartialEq, Eq, Structural, Debug)]
pub struct IncrementFold {
    /// The id of the block the state was derived at.
    pub low_hash: u64,
    /// Height plus initial state.
    pub n: u64,
    /// The seed this state was derived from.
    pub initial_state: u64,
}

impl Foldable for IncrementFold {
    type InitialState = u64;

    type Error = MockError;

    open spec fn sync_spec(initial_state: u64, block: Block) -> Self {
        IncrementFold {
            low_hash: block.hash,
            n: if initial_state + block.number <= u64::MAX {
                (initial_state + block.number) as u64
            } else {
                u64::MAX
            },
            initial_state,
        }
    }

    open spec fn fold_spec(previous: Self, block: Block) -> Self {
        IncrementFold {
            low_hash: block.hash,
            n: if previous.n < u64::MAX {
                (previous.n + 1) as u64
            } else {
                u64::MAX
            },
            initial_state: previous.initial_state,
        }
    }

    proof fn fold_extends_sync(initial_state: u64, parent: Block, block: Block) {
    }

    fn initial_state_eq(a: &u64, b: &u64) -> (r: bool) {
        *a == *b
    }

    fn initial_state_dup(a: &u64) -> (r: u64) {
        *a
    }

    fn duplicate(&self) -> (r: Self) {
        *self
    }

    open spec fn sync_succeeds(initial_state: u64, block: Block) -> bool {
        true
    }

    open spec fn fold_succeeds(previous: Self, block: Block) -> bool {
        &&& previous.n < u64::MAX
        &&& block.number <= u64::MAX - previous.initial_state
        &&& previous.n + 1 == block.number + previous.initial_state
    }

    fn sync(
        initial_state: &u64,
        block: &Block,
        access: &SyncMiddleware,
        ledger: &Vec<Event>,
    ) -> (r: Result<Self, MockError>)
        ensures
            r is Ok,
    {
        let n = if *initial_state <= u64::MAX - block.number {
            *initial_state + block.number
        } else {
            u64::MAX
        };
        Ok(IncrementFold { low_hash: block.hash, n, initial_state: *initial_state })
    }

    fn fold(
        previous: &Self,
        block: &Block,
        access: &FoldMiddleware,
        ledger: &Vec<Event>,
    ) -> (r: Result<Self, MockError>)
        ensures
            r is Ok <==> Self::fold_succeeds(*previous, *block),
    {
        // a fold must extend the previous state by exactly one height
        let consistent = previous.n < u64::MAX && block.number <= u64::MAX
            - previous.initial_state && previous.n + 1 == block.number + previous.initial_state;
        if !consistent {
            return Err(MockError);
        }
        Ok(
            IncrementFold {
                low_hash: block.hash,
                n: previous.n + 1,
                initial_state: previous.initial_state,
            },
        )
    }
}

/// Lookup of a height by walking parent pointers down from `tip`.
pub open spec fn chain_lookup(m: Map<u64, Block>, tip: u64, number: u64) -> Option<Block>
    decreases (if m.contains_key(tip) {
        m[tip].number as int
    } else {
        0
    }),
{
    if m.contains_key(tip) {
        let b = m[tip];
        if b.number == number {
            Some(b)
        } else if b.number == 0 {
            None
        } else if m.contains_key(b.parent_hash) && m[b.parent_hash].number < b.number {
            chain_lookup(m, b.parent_hash, number)
        } else {
            None
        }
    } else {
        None
    }
}

/// An in-memory ledger of headers: a hash-keyed chain, a running counter
/// that mints fresh ids, the latest appended block and the greatest height
/// seen.
pub struct MockMiddleware {
    blocks: Vec<Block>,
    block_count: u64,
    latest_block: u64,
    deepest_block: u64,
}

impl MockMiddleware {
    /// The map from hash to block.
    pub closed spec fn chain(self) -> Map<u64, Block> {
        map_of(self.blocks@)
    }

    /// Hash of the most recently appended block.
    pub closed spec fn latest(self) -> u64 {
        self.latest_block
    }

    /// How many ids were minted.
    pub closed spec fn count(self) -> u64 {
        self.block_count
    }

    /// The greatest height seen.
    pub closed spec fn deepest(self) -> u64 {
        self.deepest_block
    }

    /// Internal representation invariant (abstract to callers).
    pub closed spec fn inv(self) -> bool {
        distinct_hashes(self.blocks@)
    }

    /// Well-formedness: blocks are keyed by their own hash, ids never
    /// exceed the counter, parents sit strictly below their children, and
    /// the latest hash is present.
    pub open spec fn wf(self) -> bool {
        &&& self.inv()
        &&& forall|h: u64|
            #[trigger] self.chain().contains_key(h) ==> {
                &&& self.chain()[h].hash == h
                &&& self.chain()[h].hash <= self.count()
                &&& (self.chain()[h].number > 0 ==> self.chain().contains_key(
                    self.chain()[h].parent_hash,
                ) && self.chain()[self.chain()[h].parent_hash].number < self.chain()[h].number)
            }
        &&& self.chain().contains_key(self.latest())
    }

    fn find(&self, h: u64) -> (r: Option<usize>)
        ensures
            match r {
                Some(i) => i < self.blocks@.len() && self.blocks@[i as int].hash == h,
                None => forall|i: int| 0 <= i < self.blocks@.len() ==> self.blocks@[i].hash != h,
            },
    {
        let mut i: usize = 0;
        while i < self.blocks.len()
            invariant
                i <= self.blocks@.len(),
                forall|j: int| 0 <= j < i ==> self.blocks@[j].hash != h,
            decreases self.blocks@.len() - i,
        {
            if self.blocks[i].hash == h {
                return Some(i);
            }
            i += 1;
        }
        None
    }

    /// A block by hash.
    pub fn get_block(&self, hash: u64) -> (r: Option<Block>)
        requires
            self.inv(),
        ensures
            match r {
                Some(b) => self.chain().contains_key(hash) && self.chain()[hash] == b,
                None => !self.chain().contains_key(hash),
            },
    {
        proof {
            lemma_map_of_contains(self.blocks@, hash);
        }
        match self.find(hash) {
            Some(i) => {
                proof {
                    lemma_map_of_index(self.blocks@, i as int);
                }
                Some(self.blocks[i])
            },
            None => None,
        }
    }

    /// A ledger seeded with a genesis block (id zero at height zero) and
    /// `initial_block_count` blocks chained on top of it: one linear
    /// branch whose block at height `i` carries id `i` and points to id
    /// `i - 1`, and nothing else.
    pub fn new(initial_block_count: u64) -> (r: Self)
        requires
            1 <= initial_block_count < u64::MAX,
        ensures
            r.wf(),
            r.count() == initial_block_count,
            r.latest() == initial_block_count,
            r.deepest() == initial_block_count,
            r.chain().contains_key(0) && r.chain()[0] == (Block {
                hash: 0,
                parent_hash: 0,
                number: 0,
                timestamp: 0,
                logs_bloom: 0,
            }),
            forall|i: u64|
                1 <= i <= initial_block_count ==> #[trigger] r.chain().contains_key(i)
                    && r.chain()[i] == (Block {
                    hash: i,
                    parent_hash: (i - 1) as u64,
                    number: i,
                    timestamp: 0,
                    logs_bloom: 0,
                }),
            forall|h: u64| #[trigger] r.chain().contains_key(h) ==> h <= initial_block_count,
    {
        let genesis = Block { hash: 0, parent_hash: 0, number: 0, timestamp: 0, logs_bloom: 0 };
        let mut blocks: Vec<Block> = Vec::new();
        blocks.push(genesis);
        let mut this = MockMiddleware { blocks, block_count: 0, latest_block: 0, deepest_block: 0 };
        proof {
            assert(this.blocks@.drop_last() =~= Seq::<Block>::empty());
            assert(this.chain().contains_key(0u64));
            assert(this.chain()[0u64] == genesis);
            assert forall|h: u64| #[trigger] this.chain().contains_key(h) implies h == 0 by {
                lemma_map_of_contains(this.blocks@, h);
            }
        }
        let mut previous_hash: u64 = 0;
        let mut i: u64 = 0;
        while i < initial_block_count
            invariant
                initial_block_count < u64::MAX,
                i <= initial_block_count,
                this.wf(),
                this.count() == i,
                this.latest() == i,
                this.deepest() == i,
                previous_hash == i,
                this.chain().contains_key(0) && this.chain()[0] == genesis,
                forall|x: u64|
                    1 <= x <= i ==> #[trigger] this.chain().contains_key(x) && this.chain()[x]
                        == (Block {
                        hash: x,
                        parent_hash: (x - 1) as u64,
                        number: x,
                        timestamp: 0,
                        logs_bloom: 0,
                    }),
                forall|h: u64| #[trigger] this.chain().contains_key(h) ==> h <= i,
            decreases initial_block_count - i,
        {
            let next = match this.add_block(previous_hash) {
                Some(h) => h,
                None => {
                    proof {
                        assert(false);
                    }
                    previous_hash
                },
            };
            previous_hash = next;
            i += 1;
        }
        this
    }

    /// Append a block whose parent is `parent_hash`, minting a fresh id;
    /// `None` when the parent is unknown or a counter limit is reached.
    pub fn add_block(&mut self, parent_hash: u64) -> (r: Option<u64>)
        requires
            old(self).wf(),
        ensures
            final(self).wf(),
            match r {
                Some(h) => {
                    &&& old(self).chain().contains_key(parent_hash)
                    &&& old(self).chain()[parent_hash].number < u64::MAX
                    &&& old(self).count() < u64::MAX
                    &&& h == old(self).count() + 1
                    &&& final(self).count() == old(self).count() + 1
                    &&& final(self).latest() == h
                    &&& final(self).deepest() == (if old(self).chain()[parent_hash].number + 1
                        > old(self).deepest() {
                        (old(self).chain()[parent_hash].number + 1) as u64
                    } else {
                        old(self).deepest()
                    })
                    &&& final(self).chain() == old(self).chain().insert(
                        h,
                        Block {
                            hash: h,
                            parent_hash,
                            number: (old(self).chain()[parent_hash].number + 1) as u64,
                            timestamp: 0,
                            logs_bloom: 0,
                        },
                    )
                },
                None => {
                    &&& *final(self) == *old(self)
                    &&& !(old(self).chain().contains_key(parent_hash) && old(
                        self,
                    ).chain()[parent_hash].number < u64::MAX && old(self).count() < u64::MAX)
                },
            },
    {
        let parent = match self.get_block(parent_hash) {
            Some(p) => p,
            None => {
                return None;
            },
        };
        if parent.number == u64::MAX || self.block_count == u64::MAX {
            return None;
        }
        let new_hash = self.block_count + 1;
        let new_block = Block {
            hash: new_hash,
            parent_hash,
            number: parent.number + 1,
            timestamp: 0,
            logs_bloom: 0,
        };
        proof {
            lemma_map_of_contains(self.blocks@, new_hash);
            if exists|i: int| 0 <= i < self.blocks@.len() && self.blocks@[i].hash == new_hash {
                let i = choose|i: int|
                    0 <= i < self.blocks@.len() && self.blocks@[i].hash == new_hash;
                lemma_map_of_index(self.blocks@, i);
            }
        }
        let ghost old_blocks = self.blocks@;
        self.blocks.push(new_block);
        self.block_count = new_hash;
        self.latest_block = new_hash;
        if new_block.number > self.deepest_block {
            self.deepest_block = new_block.number;
        }
        proof {
            assert(self.blocks@.drop_last() =~= old_blocks);
            assert forall|h: u64| #[trigger]
                self.chain().contains_key(h) implies {
                &&& self.chain()[h].hash == h
                &&& self.chain()[h].hash <= self.count()
                &&& (self.chain()[h].number > 0 ==> self.chain().contains_key(
                    self.chain()[h].parent_hash,
                ) && self.chain()[self.chain()[h].parent_hash].number < self.chain()[h].number)
            } by {
                if h != new_hash {
                    assert(old(self).chain().contains_key(h));
                    assert(self.chain()[h] == old(self).chain()[h]);
                }
            }
        }
        Some(new_hash)
    }

    /// The block at `number` on the branch ending at `tip`.
    pub fn get_block_with_number_from(&self, number: u64, tip: u64) -> (r: Option<Block>)
        requires
            self.wf(),
        ensures
            r == chain_lookup(self.chain(), tip, number),
    {
        let mut current_hash = tip;
        loop
            invariant_except_break
                self.wf(),
                chain_lookup(self.chain(), tip, number) == chain_lookup(
                    self.chain(),
                    current_hash,
                    number,
                ),
            ensures
                chain_lookup(self.chain(), tip, number) == chain_lookup(
                    self.chain(),
                    current_hash,
                    number,
                ),
                (self.chain().contains_key(current_hash) && self.chain()[current_hash].number
                    == number) ==> chain_lookup(self.chain(), current_hash, number) == Some(
                    self.chain()[current_hash],
                ),
                !(self.chain().contains_key(current_hash) && self.chain()[current_hash].number
                    == number) ==> chain_lookup(self.chain(), current_hash, number) is None,
            decreases (if self.chain().contains_key(current_hash) {
                self.chain()[current_hash].number as int
            } else {
                0
            }),
        {
            match self.get_block(current_hash) {
                Some(block) => {
                    if block.number == number {
                        break ;
                    } else if block.number == 0 {
                        break ;
                    } else {
                        current_hash = block.parent_hash;
                    }
                },
                None => {
                    break ;
                },
            }
        }
        self.get_block_result(current_hash, number)
    }

    fn get_block_result(&self, h: u64, number: u64) -> (r: Option<Block>)
        requires
            self.inv(),
        ensures
            match r {
                Some(b) => self.chain().contains_key(h) && self.chain()[h] == b && b.number
                    == number,
                None => !(self.chain().contains_key(h) && self.chain()[h].number == number),
            },
    {
        match self.get_block(h) {
            Some(b) => {
                if b.number == number {
                    Some(b)
                } else {
                    None
                }
            },
            None => None,
        }
    }

    /// The block at `number` on the branch ending at the latest block.
    pub fn get_block_with_number(&self, number: u64) -> (r: Option<Block>)
        requires
            self.wf(),
        ensures
            r == chain_lookup(self.chain(), self.latest(), number),
    {
        self.get_block_with_number_from(number, self.latest_block)
    }

    /// The most recently appended block.
    pub fn get_latest_block(&self) -> (r: Option<Block>)
        requires
            self.wf(),
        ensures
            r == Some(self.chain()[self.latest()]),
    {
        self.get_block(self.latest_block)
    }

    /// Height of the most recently appended block.
    pub fn get_block_number(&self) -> (r: u64)
        requires
            self.wf(),
        ensures
            r == self.chain()[self.latest()].number,
    {
        match self.get_latest_block() {
            Some(b) => b.number,
            None => {
                proof {
                    assert(false);
                }
                0
            },
        }
    }
}

} // verus!
