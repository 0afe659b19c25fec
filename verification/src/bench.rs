//! Measuring a cluster, and the bar a number has to pass before it can be
//! written down.
//!
//! The order is the point. A bar added after the first number is a bar that
//! has already been bypassed once, and the number that bypassed it is the one
//! everybody quotes.

pub mod campaign;
pub mod drawing;
pub mod driver;
pub mod environment;
pub mod failover;
pub mod histogram;
pub mod pacing;
pub mod plot;
pub mod promises;
pub mod publishable;
pub mod record;
mod sealed;
pub mod trials;
pub mod workload;
