//! One node: the loop that turns a `Ready` into I/O, in the order the contract
//! requires.
//!
//! The consensus core does no I/O, so somebody has to, and what it does is fixed
//! rather than a matter of taste:
//!
//! 1. persist the entries, then the hard state, then **one** sync covering both;
//! 2. only then send the messages;
//! 3. apply the committed entries to the state machine;
//! 4. report the watermarks back to the core.
//!
//! Step 2 waiting on step 1 is the whole of Raft's durability argument. A vote
//! response that goes out before the vote is on disk lets a node come back from
//! a crash and grant a second vote in the same term.
//!
//! **Group commit falls out of this rather than being bolted on.** A hundred
//! proposals stepped into the core between two turns produce one `Ready` holding
//! a hundred entries, which is one `append` and one `sync`.
//!
//! The node performs nothing itself. It is told what arrived and what the core
//! has ready, and says what to step into the core, what to do to the log's
//! directory, what to send and what to apply, each in order, for a host to do.

pub mod looping;
pub mod promises;
pub mod snapshots;
