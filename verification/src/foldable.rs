//! The user-supplied state definition: how a state is derived at a block
//! from scratch (`sync`) and how it is extended by one block (`fold`).
//!
//! Both derivations are pinned to specification functions, and every
//! implementor proves the coherence obligation [`Foldable::fold_extends_sync`]:
//! folding one block onto the synced state at its parent yields the synced
//! state at the block. The engine leans on that obligation to return the
//! same state whether it syncs from scratch or folds from a cached
//! ancestor.

use vstd::prelude::*;

use crate::access::{Event, FoldMiddleware, SyncMiddleware};
use crate::types::Block;

verus! {

/// A foldable state type.
pub trait Foldable: Sized {
    /// Seed of the derivation; a cache tree is rooted at each distinct one.
    type InitialState;

    /// Error type of the user derivation code.
    type Error;

    /// The state this type derives at `block` from `initial_state` alone.
    spec fn sync_spec(initial_state: Self::InitialState, block: Block) -> Self;

    /// The state derived at `block` by extending the state at its parent.
    spec fn fold_spec(previous: Self, block: Block) -> Self;

    /// Coherence: folding one block onto the synced state at the parent
    /// equals syncing at the block itself.
    proof fn fold_extends_sync(initial_state: Self::InitialState, parent: Block, block: Block)
        requires
            block.parent_hash == parent.hash,
            block.number == parent.number + 1,
        ensures
            Self::fold_spec(Self::sync_spec(initial_state, parent), block) == Self::sync_spec(
                initial_state,
                block,
            ),
    ;

    /// Equality test on initial states.
    fn initial_state_eq(a: &Self::InitialState, b: &Self::InitialState) -> (r: bool)
        ensures
            r == (a == b),
    ;

    /// An owned copy of an initial state.
    fn initial_state_dup(a: &Self::InitialState) -> (r: Self::InitialState)
        ensures
            r == a,
    ;

    /// An owned copy of a state.
    fn duplicate(&self) -> (r: Self)
        ensures
            r == self,
    ;

    /// The inputs on which `sync` is guaranteed to succeed.
    spec fn sync_succeeds(initial_state: Self::InitialState, block: Block) -> bool;

    /// The inputs on which `fold` is guaranteed to succeed.
    spec fn fold_succeeds(previous: Self, block: Block) -> bool;

    /// Derive the state at `block` from `initial_state` alone. Ledger
    /// reads go through `access`, a view clamped to `block`, over the
    /// engine's event snapshot.
    fn sync(
        initial_state: &Self::InitialState,
        block: &Block,
        access: &SyncMiddleware,
        ledger: &Vec<Event>,
    ) -> (r: Result<Self, Self::Error>)
        ensures
            r matches Ok(s) ==> s == Self::sync_spec(*initial_state, *block),
            Self::sync_succeeds(*initial_state, *block) ==> r is Ok,
    ;

    /// Extend the state at the parent of `block` by one block. Ledger
    /// reads go through `access`, a view restricted to the one-block delta,
    /// over the engine's event snapshot.
    fn fold(
        previous: &Self,
        block: &Block,
        access: &FoldMiddleware,
        ledger: &Vec<Event>,
    ) -> (r: Result<Self, Self::Error>)
        ensures
            r matches Ok(s) ==> s == Self::fold_spec(*previous, *block),
            Self::fold_succeeds(*previous, *block) ==> r is Ok,
    ;

}

} // verus!
