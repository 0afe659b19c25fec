//! Keel: a replicated key-value store, from the bytes on its wire and its disk
//! up to the loops that drive it.
//!
//! Everything here is a function of its arguments. What needs a socket, a file,
//! a process or a clock is handed in as plain values and handed back as plain
//! values, so every rule of the store can be stated in a contract and proved.

pub mod api;
pub mod bench;
pub mod chaos;
pub mod client;
pub mod fuzz;
pub mod le;
pub mod lines;
pub mod log;
pub mod maelstrom;
pub mod net;
pub mod node;
pub mod order;
pub mod raft;
pub mod rng;
pub mod text;
pub mod time;
pub mod wire;
