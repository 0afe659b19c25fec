//! What a partition proxy decides.
//!
//! Every peer connection goes through a proxy, and the proxy can be told to drop
//! traffic in one direction or both. That is what makes a partition
//! *asymmetric*, which is the shape that finds bugs. The proxy counts what it
//! carried and what it dropped, so a run can assert that a partition actually cut
//! something rather than assuming the rule took effect.

use vstd::prelude::*;

verus! {

/// Which way traffic is blocked.
#[derive(Debug, Clone, Copy, PartialEq, Eq, Structural)]
pub enum Cut {
    /// Nothing is blocked.
    Clear,
    /// Traffic from the client side to the server side is dropped; the reverse
    /// still flows. This is the asymmetric case.
    Forward,
    /// The reverse.
    Backward,
    /// Both directions.
    Both,
}

impl Cut {
    /// Whether traffic from the client side to the server side is dropped.
    pub open spec fn stops_forward(self) -> bool {
        self is Forward || self is Both
    }

    /// Whether traffic from the server side to the client side is dropped.
    pub open spec fn stops_backward(self) -> bool {
        self is Backward || self is Both
    }

    pub fn blocks_forward(self) -> (r: bool)
        ensures
            r == self.stops_forward(),
    {
        matches!(self, Cut::Forward | Cut::Both)
    }

    pub fn blocks_backward(self) -> (r: bool)
        ensures
            r == self.stops_backward(),
    {
        matches!(self, Cut::Backward | Cut::Both)
    }
}

/// What a proxy carried and what it refused.
#[derive(Debug, Clone, Copy, PartialEq, Eq, Structural)]
pub struct Counters {
    pub connections: u64,
    pub bytes_forward: u64,
    pub bytes_backward: u64,
    /// Connections refused outright because the link was cut when they arrived.
    pub refused: u64,
    /// Connections torn down because the link was cut while they were open.
    pub severed: u64,
}

impl Counters {
    pub fn new() -> (r: Self)
        ensures
            r == (Counters {
                connections: 0,
                bytes_forward: 0,
                bytes_backward: 0,
                refused: 0,
                severed: 0,
            }),
    {
        Counters { connections: 0, bytes_forward: 0, bytes_backward: 0, refused: 0, severed: 0 }
    }

    pub fn snapshot(&self) -> (r: (u64, u64, u64, u64, u64))
        ensures
            r == (
                self.connections,
                self.bytes_forward,
                self.bytes_backward,
                self.refused,
                self.severed,
            ),
    {
        (self.connections, self.bytes_forward, self.bytes_backward, self.refused, self.severed)
    }
}

/// What a proxy saw.
#[derive(Debug, Clone, Copy, PartialEq, Eq, Structural)]
pub enum Seen {
    /// A connection arrived.
    Arrival,
    /// A connection reached its target and was joined to it.
    Joined,
    /// A direction of an open connection is about to be read.
    Turn { forward: bool },
    /// So many bytes were carried in one direction.
    Carried { forward: bool, bytes: u64 },
    /// A read found nothing to carry yet.
    Quiet,
    /// The connection ended, or could not be read or written.
    Ended,
}

/// What a proxy does next.
#[derive(Debug, Clone, Copy, PartialEq, Eq, Structural)]
pub enum Does {
    /// Drop the connection. A peer learns it cannot connect, which is what a
    /// partition looks like from the inside.
    Refuse,
    /// Connect to the target and carry both directions.
    Join,
    /// Read what there is and pass it on.
    Read,
    /// Close both ends. Severed rather than paused: a paused connection delivers
    /// a burst of stale messages when the partition heals, which is a different
    /// fault and one no real network produces.
    Sever,
    /// Look at the cut again, and then read.
    Again,
    /// This direction is done.
    Stop,
}

/// Whether a cut drops a direction.
pub open spec fn drops(cut: Cut, forward: bool) -> bool {
    if forward {
        cut.stops_forward()
    } else {
        cut.stops_backward()
    }
}

/// What a proxy does about what it saw. A new connection is refused under any
/// cut; an open one is severed once the cut drops the direction it carries, also
/// where nothing is being said.
pub open spec fn reaction(cut: Cut, seen: Seen) -> Does {
    match seen {
        Seen::Arrival => if cut is Clear {
            Does::Join
        } else {
            Does::Refuse
        },
        Seen::Joined => Does::Again,
        Seen::Turn { forward } => if drops(cut, forward) {
            Does::Sever
        } else {
            Does::Read
        },
        Seen::Carried { .. } => Does::Again,
        Seen::Quiet => Does::Again,
        Seen::Ended => Does::Stop,
    }
}

/// A count and what is added to it, where a count that is full stays full.
pub open spec fn more(count: u64, by: nat) -> u64 {
    if count + by > u64::MAX {
        u64::MAX
    } else {
        (count + by) as u64
    }
}

/// What the counters say after what was seen and done.
pub open spec fn tallied(counters: Counters, cut: Cut, seen: Seen) -> Counters {
    match (seen, reaction(cut, seen)) {
        (Seen::Arrival, Does::Refuse) => Counters { refused: more(counters.refused, 1), ..counters },
        (Seen::Joined, _) => Counters { connections: more(counters.connections, 1), ..counters },
        (Seen::Turn { .. }, Does::Sever) => Counters {
            severed: more(counters.severed, 1),
            ..counters
        },
        (Seen::Carried { forward, bytes }, _) => if forward {
            Counters { bytes_forward: more(counters.bytes_forward, bytes as nat), ..counters }
        } else {
            Counters { bytes_backward: more(counters.bytes_backward, bytes as nat), ..counters }
        },
        _ => counters,
    }
}

/// What a proxy does about what it saw, and what it counts.
pub fn pump(counters: &mut Counters, cut: Cut, seen: Seen) -> (r: Does)
    ensures
        r == reaction(cut, seen),
        *final(counters) == tallied(*old(counters), cut, seen),
{
    match seen {
        Seen::Arrival => if cut == Cut::Clear {
            Does::Join
        } else {
            counters.refused = counters.refused.saturating_add(1);
            Does::Refuse
        },
        Seen::Joined => {
            counters.connections = counters.connections.saturating_add(1);
            Does::Again
        },
        Seen::Turn { forward } => {
            let blocked: bool = if forward {
                cut.blocks_forward()
            } else {
                cut.blocks_backward()
            };
            if blocked {
                counters.severed = counters.severed.saturating_add(1);
                Does::Sever
            } else {
                Does::Read
            }
        },
        Seen::Carried { forward, bytes } => {
            if forward {
                counters.bytes_forward = counters.bytes_forward.saturating_add(bytes);
            } else {
                counters.bytes_backward = counters.bytes_backward.saturating_add(bytes);
            }
            Does::Again
        },
        Seen::Quiet => Does::Again,
        Seen::Ended => Does::Stop,
    }
}

/// A cut takes effect on connections that are already open as well as on new
/// ones, in the directions it names and in no other.
pub proof fn law_a_cut_reaches_open_connections(cut: Cut, forward: bool)
    ensures
        drops(cut, forward) ==> reaction(cut, Seen::Turn { forward }) == Does::Sever,
        !drops(cut, forward) ==> reaction(cut, Seen::Turn { forward }) == Does::Read,
        !(cut is Clear) ==> reaction(cut, Seen::Arrival) == Does::Refuse,
{
}

/// A partition that dropped something says so: a connection refused or severed
/// is always counted.
pub proof fn law_what_is_dropped_is_counted(counters: Counters, cut: Cut, seen: Seen)
    requires
        counters.refused < u64::MAX,
        counters.severed < u64::MAX,
    ensures
        reaction(cut, seen) is Refuse ==> tallied(counters, cut, seen).refused == counters.refused
            + 1,
        reaction(cut, seen) is Sever ==> tallied(counters, cut, seen).severed == counters.severed
            + 1,
{
}

} // verus!
