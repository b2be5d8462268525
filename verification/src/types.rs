//! Core data model: block headers, query targets, stream items and errors.
//!
//! A block hash is an opaque identifier; it is modeled here as a `u64`, the
//! low word of the 32-byte id. Identity of a block is its hash.

use vstd::prelude::*;

verus! {

/// A block header. Blocks are immutable once observed; identity is `hash`.
#[derive(Clone, Copy, PartialEq, Eq, Structural, Debug)]
pub struct Block {
    /// Opaque id of this block.
    pub hash: u64,
    /// Hash of the parent block. For a genesis block (number 0) this is
    /// unconstrained (the mock ledger uses a self-parent).
    pub parent_hash: u64,
    /// Height; increases by exactly one along any chain.
    pub number: u64,
    /// Opaque timestamp; carried, never interpreted.
    pub timestamp: u64,
    /// Opaque log filter; carried, never interpreted.
    pub logs_bloom: u64,
}

impl Block {
    /// A genesis block has height zero and no parent in the store.
    pub open spec fn is_genesis(self) -> bool {
        self.number == 0
    }

    /// `self` is the immediate child of `parent`.
    pub open spec fn extends(self, parent: Block) -> bool {
        &&& self.parent_hash == parent.hash
        &&& self.number == parent.number + 1
    }
}

/// A request target for state derivation, resolved against the canonical
/// chain at request time.
#[derive(Clone, Copy, PartialEq, Eq, Structural, Debug)]
pub enum QueryBlock {
    /// The current canonical tip.
    Latest,
    /// A block identified by hash.
    BlockHash(u64),
    /// The canonical block at this height.
    BlockNumber(u64),
    /// The canonical block at `tip.number - depth`.
    BlockDepth(u64),
}

/// One item of a subscription stream.
#[derive(Clone, Debug)]
pub enum BlockStreamItem {
    /// A block newly observed on the canonical chain at the subscription's
    /// depth.
    NewBlock(Block),
    /// The blocks rolled off the canonical chain, ordered tip-first (the
    /// last element is the child of the common ancestor).
    Reorg(Vec<Block>),
}

/// Spec-level shape of a stream item.
pub enum ItemModel {
    NewBlock(Block),
    Reorg(Seq<Block>),
}

impl View for BlockStreamItem {
    type V = ItemModel;

    open spec fn view(&self) -> ItemModel {
        match self {
            BlockStreamItem::NewBlock(b) => ItemModel::NewBlock(*b),
            BlockStreamItem::Reorg(r) => ItemModel::Reorg(r@),
        }
    }
}

/// Failures of the block archive.
#[derive(Clone, Copy, PartialEq, Eq, Structural, Debug)]
pub enum ArchiveError {
    /// A block with this hash is already stored with different contents.
    DuplicateHash,
    /// The parent chain is not closed in the store.
    ChainBroken,
}

/// Failures of the subscriber hub.
#[derive(Clone, Copy, PartialEq, Eq, Structural, Debug)]
pub enum SubscriberError {
    /// A reorganization exceeded `max_reorg_depth`; the hub halts.
    DeepReorg,
    /// This subscription's queue overflowed; its stream is closed.
    SubscriberLagged,
    /// The parent chain is not closed in the store.
    ChainBroken,
    /// The chain is empty, or the block at the requested depth is not
    /// retained.
    DepthUnavailable,
}

/// Failures of restricted ledger access.
#[derive(Clone, Copy, PartialEq, Eq, Structural, Debug)]
pub enum AccessError {
    /// The requested range starts above what the restricted view exposes,
    /// or below what a fold view exposes.
    OutOfRange,
}

/// Failures of state derivation, carrying user errors with block context.
#[derive(Clone, Copy, PartialEq, Eq, Debug)]
pub enum FoldError<E> {
    /// The query target is above the tip or cannot be resolved against the
    /// canonical chain.
    BlockOutOfRange,
    /// The parent chain is not closed in the store.
    ChainBroken,
    /// User fold code failed; carries the hash of the block being derived.
    Foldable(u64, E),
}

/// A derived state paired with the block at which it is valid.
#[derive(Clone, Copy, PartialEq, Eq, Debug)]
pub struct BlockState<S> {
    /// The chain position at which `state` is valid.
    pub block: Block,
    /// The derived state.
    pub state: S,
}

} // verus!
