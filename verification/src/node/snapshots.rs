//! Snapshots in the host loop: when to take one, and how the two ends of a
//! transfer keep count.
//!
//! **Taking** is triggered by the log growing, not by a timer: a node that
//! checkpoints every so many applied entries does work proportional to the work
//! it has done.
//!
//! **Sending** is one chunk per turn, not a loop. A leader that streamed a
//! gigabyte inside one turn would stop answering heartbeats for the duration.

use vstd::prelude::*;

use crate::log::journal::counted;
use crate::raft::{Index, NodeId, SnapshotMeta};
use crate::wire::Wire;

verus! {

/// How many applied entries between checkpoints.
///
/// Proportional to work done rather than to time passed: often enough that the
/// log floor moves and rarely enough that taking one is not the node's main
/// activity.
pub const ENTRIES_BETWEEN_CHECKPOINTS: u64 = 10_000;

/// Whether enough has been applied since the last checkpoint to take another.
pub fn checkpoint_is_due(applied: Index, last_checkpoint: Index) -> (r: bool)
    ensures
        r == (applied >= last_checkpoint + ENTRIES_BETWEEN_CHECKPOINTS),
{
    applied.saturating_sub(last_checkpoint) >= ENTRIES_BETWEEN_CHECKPOINTS
}

/// A snapshot being sent to one follower.
#[derive(Debug)]
pub struct Outgoing {
    pub peer: NodeId,
    pub meta: SnapshotMeta,
    /// What the receiver last said it had. A resume restarts from here.
    pub position: Vec<(String, u64)>,
    /// Chunks handed to the transport.
    pub chunks_sent: u64,
}

impl Outgoing {
    pub fn new(peer: NodeId, meta: SnapshotMeta) -> (r: Self)
        ensures
            r.peer == peer,
            r.meta == meta,
            r.position@.len() == 0,
            r.chunks_sent == 0,
    {
        Outgoing { peer, meta, position: Vec::new(), chunks_sent: 0 }
    }

    /// Restart from what the receiver says it has.
    ///
    /// The whole point of a resume: a transfer that was interrupted at nine
    /// tenths does not send the first nine tenths again.
    pub fn resume_from(&mut self, position: Vec<(String, u64)>)
        ensures
            *final(self) == (Outgoing { position, ..*old(self) }),
    {
        self.position = position;
    }

    /// The sender had a next chunk, or it did not.
    pub fn next_chunk(&mut self, had_one: bool)
        ensures
            *final(self) == (Outgoing {
                chunks_sent: if had_one {
                    counted(old(self).chunks_sent, 1)
                } else {
                    old(self).chunks_sent
                },
                ..*old(self)
            }),
    {
        if had_one {
            self.chunks_sent = self.chunks_sent.saturating_add(1);
        }
    }
}

/// What a receiver made of a chunk.
#[derive(Debug, Clone, Copy, PartialEq, Eq, Structural)]
pub enum Accepted {
    Written,
    Complete,
    Rejected,
    OutOfOrder,
}

/// A snapshot being received.
#[derive(Debug)]
pub struct Incoming {
    pub from: NodeId,
    pub meta: SnapshotMeta,
    /// Chunks accepted. A resumed transfer counts on its own, which is how a
    /// resume is told from a restart.
    pub chunks_accepted: u64,
    pub chunks_rejected: u64,
}

impl Incoming {
    pub fn new(from: NodeId, meta: SnapshotMeta) -> (r: Self)
        ensures
            r == (Incoming { from, meta, chunks_accepted: 0, chunks_rejected: 0 }),
    {
        Incoming { from, meta, chunks_accepted: 0, chunks_rejected: 0 }
    }

    /// Count what the receiver made of a chunk.
    pub fn accept(&mut self, outcome: Accepted)
        ensures
            *final(self) == (if outcome is Written || outcome is Complete {
                Incoming { chunks_accepted: counted(old(self).chunks_accepted, 1), ..*old(self) }
            } else {
                Incoming { chunks_rejected: counted(old(self).chunks_rejected, 1), ..*old(self) }
            }),
    {
        match outcome {
            Accepted::Written | Accepted::Complete => {
                self.chunks_accepted = self.chunks_accepted.saturating_add(1);
            },
            Accepted::Rejected | Accepted::OutOfOrder => {
                self.chunks_rejected = self.chunks_rejected.saturating_add(1);
            },
        }
    }
}

} // verus!
