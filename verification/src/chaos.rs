//! Faults against a cluster of real processes.
//!
//! The schedule is drawn from a seed and printed before anything is injected,
//! every fault is paired with its repair, and a run reports how many faults it
//! actually managed to inject. "No violations" from a run that injected nothing
//! is the failure mode this is written to avoid, so the count is part of the
//! result rather than a footnote.
//!
//! The three nemeses are in [`proxy`] (partitions, asymmetric ones included),
//! [`nemesis`] (a pause and a crash, which are different faults), and [`clock`]
//! (a monotonic clock that leaps).

pub mod clock;
pub mod cluster;
pub mod drive;
pub mod nemesis;
pub mod promises;
pub mod proxy;
pub mod schedule;

use vstd::prelude::*;
use vstd::string::*;

verus! {

/// Everything that can go wrong while breaking things on purpose.
///
/// Kept distinct from what the *cluster* does wrong. A harness that reports its
/// own failure to spawn a process as a consensus violation has wasted somebody's
/// afternoon, so those two never share a variant.
#[derive(Debug, PartialEq, Eq)]
pub enum ChaosError {
    /// The operating system failed, and this is what it said.
    Io(String),
    /// A signal was aimed at a process that is not running. Always a harness
    /// bug: the schedule tracks what is up.
    NotRunning(String),
    DiedDuringStartup(String),
    NeverReady(String),
    NoClockControl(String),
    NoBinary(String),
    /// What the run was actually looking for.
    Violation(String),
}

/// What a chaos error says.
pub open spec fn chaos_error_text(e: ChaosError) -> Seq<char> {
    match e {
        ChaosError::Io(why) => "io: "@ + why@,
        ChaosError::NotRunning(name) => name@ + " is not running"@,
        ChaosError::DiedDuringStartup(name) => name@ + " exited during startup; see its log"@,
        ChaosError::NeverReady(name) => name@ + " never wrote its ready file"@,
        ChaosError::NoClockControl(why) => "no clock control on this host: "@ + why@,
        ChaosError::NoBinary(name) => "could not find the "@ + name@ + " binary; pass its path explicitly"@,
        ChaosError::Violation(what) => what@,
    }
}

impl ChaosError {
    /// What went wrong, for a person.
    pub fn message(&self) -> (r: String)
        ensures
            r@ == chaos_error_text(*self),
    {
        let mut out = String::new();
        match self {
            ChaosError::Io(why) => {
                out.append("io: ");
                out.append(why.as_str());
            },
            ChaosError::NotRunning(name) => {
                out.append(name.as_str());
                out.append(" is not running");
            },
            ChaosError::DiedDuringStartup(name) => {
                out.append(name.as_str());
                out.append(" exited during startup; see its log");
            },
            ChaosError::NeverReady(name) => {
                out.append(name.as_str());
                out.append(" never wrote its ready file");
            },
            ChaosError::NoClockControl(why) => {
                out.append("no clock control on this host: ");
                out.append(why.as_str());
            },
            ChaosError::NoBinary(name) => {
                out.append("could not find the ");
                out.append(name.as_str());
                out.append(" binary; pass its path explicitly");
            },
            ChaosError::Violation(what) => {
                out.append(what.as_str());
            },
        }
        proof {
            assert(out@ =~= chaos_error_text(*self));
        }
        out
    }
}

} // verus!
