//! Restricted ledger views handed to user fold code: a sync view clamps
//! every read to a fixed target block, a fold view additionally hides
//! everything at or below the previous block, so user code only observes
//! the delta. Both views carry a partition bound, and [`partition_range`]
//! splits a long span into sub-ranges of that size for a driver to fetch
//! and retry one at a time; queries against an already-fetched snapshot
//! are filtered in one pass.

use vstd::prelude::*;

use crate::types::AccessError;

verus! {

/// A ledger event, reduced to what the range logic reads: the height it
/// occurred at and an opaque payload.
#[derive(Clone, Copy, PartialEq, Eq, Structural, Debug)]
pub struct Event {
    /// Height of the block this event occurred in.
    pub block_number: u64,
    /// Opaque content; carried, never interpreted.
    pub payload: u64,
}

/// The events of `evs` whose height lies in `[from, to]`, in their
/// original order.
pub open spec fn events_in_range(evs: Seq<Event>, from: u64, to: u64) -> Seq<Event>
    decreases evs.len(),
{
    if evs.len() == 0 {
        Seq::empty()
    } else {
        let rest = events_in_range(evs.drop_last(), from, to);
        if from <= evs.last().block_number <= to {
            rest.push(evs.last())
        } else {
            rest
        }
    }
}

fn filter_range(ledger: &Vec<Event>, from: u64, to: u64) -> (r: Vec<Event>)
    ensures
        r@ == events_in_range(ledger@, from, to),
{
    let mut out: Vec<Event> = Vec::new();
    let mut i: usize = 0;
    while i < ledger.len()
        invariant
            i <= ledger@.len(),
            out@ == events_in_range(ledger@.take(i as int), from, to),
        decreases ledger@.len() - i,
    {
        let e = ledger[i];
        proof {
            assert(ledger@.take(i + 1).drop_last() =~= ledger@.take(i as int));
            assert(ledger@.take(i + 1).last() == ledger@[i as int]);
        }
        if from <= e.block_number && e.block_number <= to {
            out.push(e);
        }
        i += 1;
    }
    proof {
        assert(ledger@.take(ledger@.len() as int) =~= ledger@);
    }
    out
}

/// Split `[from, to]` into consecutive sub-ranges of at most `size`
/// heights each, in ascending order.
pub fn partition_range(from: u64, to: u64, size: u64) -> (r: Vec<(u64, u64)>)
    requires
        from <= to,
        size >= 1,
    ensures
        r@.len() >= 1,
        r@[0].0 == from,
        r@[r@.len() - 1].1 == to,
        forall|i: int| 0 <= i < r@.len() ==> (#[trigger] r@[i]).0 <= r@[i].1,
        forall|i: int| 0 <= i < r@.len() ==> (#[trigger] r@[i]).1 - r@[i].0 < size,
        forall|i: int| 0 < i < r@.len() ==> (#[trigger] r@[i]).0 == r@[i - 1].1 + 1,
{
    let mut out: Vec<(u64, u64)> = Vec::new();
    let mut lo: u64 = from;
    loop
        invariant_except_break
            from <= lo,
            size >= 1,
            lo <= to,
            out@.len() == 0 <==> lo == from,
            out@.len() > 0 ==> out@[0].0 == from && out@[out@.len() - 1].1 + 1 == lo,
            forall|i: int| 0 <= i < out@.len() ==> (#[trigger] out@[i]).0 <= out@[i].1,
            forall|i: int| 0 <= i < out@.len() ==> (#[trigger] out@[i]).1 - out@[i].0 < size,
            forall|i: int| 0 < i < out@.len() ==> (#[trigger] out@[i]).0 == out@[i - 1].1 + 1,
        ensures
            out@.len() >= 1,
            out@[0].0 == from,
            out@[out@.len() - 1].1 == to,
            forall|i: int| 0 <= i < out@.len() ==> (#[trigger] out@[i]).0 <= out@[i].1,
            forall|i: int| 0 <= i < out@.len() ==> (#[trigger] out@[i]).1 - out@[i].0 < size,
            forall|i: int| 0 < i < out@.len() ==> (#[trigger] out@[i]).0 == out@[i - 1].1 + 1,
        decreases to - lo,
    {
        let hi = if to - lo >= size {
            lo + (size - 1)
        } else {
            to
        };
        out.push((lo, hi));
        if hi == to {
            break ;
        }
        lo = hi + 1;
    }
    out
}

/// A read-only ledger view fixed at a target block: requests above the
/// target are clamped down to it, requests that start above it are out of
/// range.
pub struct SyncMiddleware {
    /// Height every read is clamped to.
    pub target_number: u64,
    /// Largest height span of a single event query.
    pub partition_size: u64,
}

impl SyncMiddleware {
    /// A view fixed at `target_number`.
    pub fn new(target_number: u64, partition_size: u64) -> (r: Self)
        requires
            partition_size >= 1,
        ensures
            r.target_number == target_number,
            r.partition_size == partition_size,
    {
        SyncMiddleware { target_number, partition_size }
    }

    /// Clamp a requested range to the target: the end is lowered to the
    /// target, a start above the target is `OutOfRange`.
    pub fn clamp_range(&self, from: u64, to: u64) -> (r: Result<(u64, u64), AccessError>)
        ensures
            match r {
                Ok(p) => from <= self.target_number && p.0 == from && p.1 == (if to
                    <= self.target_number {
                    to
                } else {
                    self.target_number
                }),
                Err(AccessError::OutOfRange) => from > self.target_number,
            },
    {
        if from > self.target_number {
            return Err(AccessError::OutOfRange);
        }
        let hi = if to <= self.target_number {
            to
        } else {
            self.target_number
        };
        Ok((from, hi))
    }

    /// The events of `[from, to]` as this view exposes them: clamped to
    /// the target, in canonical order. The snapshot `ledger` holds what
    /// the adapter returned.
    pub fn query_events(&self, ledger: &Vec<Event>, from: u64, to: u64) -> (r: Result<
        Vec<Event>,
        AccessError,
    >)
        ensures
            match r {
                Ok(es) => from <= self.target_number && es@ == events_in_range(
                    ledger@,
                    from,
                    if to <= self.target_number {
                        to
                    } else {
                        self.target_number
                    },
                ),
                Err(AccessError::OutOfRange) => from > self.target_number,
            },
    {
        let (lo, hi) = match self.clamp_range(from, to) {
            Ok(p) => p,
            Err(e) => {
                return Err(e);
            },
        };
        Ok(filter_range(ledger, lo, hi))
    }
}

/// A read-only ledger view restricted to the half-open span between a
/// previous block (exclusive) and a new block (inclusive), so fold code
/// observes only the delta.
pub struct FoldMiddleware {
    /// Height of the block the previous state was derived at.
    pub previous_number: u64,
    /// Height every read is clamped to.
    pub new_number: u64,
    /// Largest height span of a single event query.
    pub partition_size: u64,
}

impl FoldMiddleware {
    /// A view of the span `(previous_number, new_number]`.
    pub fn new(previous_number: u64, new_number: u64, partition_size: u64) -> (r: Self)
        requires
            partition_size >= 1,
        ensures
            r.previous_number == previous_number,
            r.new_number == new_number,
            r.partition_size == partition_size,
    {
        FoldMiddleware { previous_number, new_number, partition_size }
    }

    /// Clamp a requested range to the delta: the end is lowered to the new
    /// block, a start at or below the previous block, or above the new
    /// block, is `OutOfRange`.
    pub fn clamp_range(&self, from: u64, to: u64) -> (r: Result<(u64, u64), AccessError>)
        ensures
            match r {
                Ok(p) => self.previous_number < from <= self.new_number && p.0 == from && p.1 == (
                if to <= self.new_number {
                    to
                } else {
                    self.new_number
                }),
                Err(AccessError::OutOfRange) => !(self.previous_number < from
                    <= self.new_number),
            },
    {
        if from <= self.previous_number || from > self.new_number {
            return Err(AccessError::OutOfRange);
        }
        let hi = if to <= self.new_number {
            to
        } else {
            self.new_number
        };
        Ok((from, hi))
    }

    /// The events of `[from, to]` as this view exposes them.
    pub fn query_events(&self, ledger: &Vec<Event>, from: u64, to: u64) -> (r: Result<
        Vec<Event>,
        AccessError,
    >)
        ensures
            match r {
                Ok(es) => self.previous_number < from <= self.new_number && es@
                    == events_in_range(
                    ledger@,
                    from,
                    if to <= self.new_number {
                        to
                    } else {
                        self.new_number
                    },
                ),
                Err(AccessError::OutOfRange) => !(self.previous_number < from
                    <= self.new_number),
            },
    {
        let (lo, hi) = match self.clamp_range(from, to) {
            Ok(p) => p,
            Err(e) => {
                return Err(e);
            },
        };
        Ok(filter_range(ledger, lo, hi))
    }
}

} // verus!
