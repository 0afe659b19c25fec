//! The durable log.

pub mod durability;
pub mod error;
pub mod fold;
pub mod fs;
pub mod journal;
pub mod memory;
pub mod promises;
pub mod reading;
pub mod record;
pub mod recovery;
pub mod segment;
