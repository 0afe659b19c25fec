//! The seam between a consensus host and a network.
//!
//! Three methods. A host hands frames to [`Transport::send`], pushes them out
//! with [`Transport::flush`], and takes whatever has arrived with
//! [`Transport::recv`]. Nothing here blocks, nothing here owns a thread, and
//! nothing here knows what a frame means: the payload is opaque bytes.

use vstd::prelude::*;
use vstd::string::*;

use crate::text::{decimal, push_decimal};

pub mod conformance;
pub mod frame;
pub mod loopback;
pub mod peers;
pub mod promises;

verus! {

/// Who a frame is going to or came from.
pub type NodeId = u64;

/// The default bound on one frame: the payload limit of the wire encoding, with
/// the length prefix's worth of room to spare, so that a payload that is encoded
/// is never one that is refused here.
pub const MAX_FRAME_BYTES: usize = 16_777_220;

/// A frame that arrived, and who sent it.
#[derive(Debug, Clone, PartialEq, Eq)]
pub struct Received {
    pub from: NodeId,
    pub frame: Vec<u8>,
}

/// What a [`Received`] stands for.
pub struct ReceivedView {
    pub from: NodeId,
    pub frame: Seq<u8>,
}

impl View for Received {
    type V = ReceivedView;

    open spec fn view(&self) -> ReceivedView {
        ReceivedView { from: self.from, frame: self.frame@ }
    }
}

#[derive(Debug)]
pub enum TransportError {
    /// Nothing is configured for this peer. A programming error, not a network
    /// condition: an unreachable peer is reported by `recv` returning nothing,
    /// not by `send` failing.
    UnknownPeer(NodeId),
    /// The connection to this peer is gone. The host reports it and carries on;
    /// consensus is built for this.
    Disconnected(NodeId),
    FrameTooLarge { got: usize, limit: usize },
    /// The operating system failed, and this is what it said.
    Io(String),
}

/// What a transport error says.
pub open spec fn transport_error_text(e: TransportError) -> Seq<char> {
    match e {
        TransportError::UnknownPeer(id) => "no route to node "@ + decimal(id as nat),
        TransportError::Disconnected(id) => "connection to node "@ + decimal(id as nat)
            + " is closed"@,
        TransportError::FrameTooLarge { got, limit } => "frame is "@ + decimal(got as nat)
            + " bytes, above the "@ + decimal(limit as nat) + "-byte limit"@,
        TransportError::Io(why) => why@,
    }
}

impl TransportError {
    /// What went wrong, for a person.
    pub fn message(&self) -> (r: String)
        ensures
            r@ == transport_error_text(*self),
    {
        let mut out = String::new();
        match self {
            TransportError::UnknownPeer(id) => {
                out.append("no route to node ");
                push_decimal(&mut out, *id);
            },
            TransportError::Disconnected(id) => {
                out.append("connection to node ");
                push_decimal(&mut out, *id);
                out.append(" is closed");
            },
            TransportError::FrameTooLarge { got, limit } => {
                out.append("frame is ");
                push_decimal(&mut out, *got as u64);
                out.append(" bytes, above the ");
                push_decimal(&mut out, *limit as u64);
                out.append("-byte limit");
            },
            TransportError::Io(why) => {
                out.append(why.as_str());
            },
        }
        proof {
            assert(out@ =~= transport_error_text(*self));
        }
        out
    }
}

/// Move opaque frames between nodes.
///
/// What every implementation owes:
///
/// * **Order is preserved per peer.** Two frames sent to the same peer arrive in
///   the order they were sent, or the later one does not arrive at all.
/// * **A frame arrives whole or not at all.** Never a prefix, never two frames
///   spliced together.
/// * **Nothing blocks.** `recv` returns `Ok(None)` when nothing has arrived; it
///   does not wait. A consensus host has a timer to service.
/// * **`send` may buffer, and `flush` pushes as much as the operating system
///   will take.** A flush that cannot write everything keeps the remainder and
///   makes progress on the next call, so a host flushes every turn.
pub trait Transport {
    /// Which node this transport speaks as.
    fn local(&self) -> NodeId;

    /// Hand a frame over for delivery. May buffer; see `flush`.
    fn send(&mut self, peer: NodeId, frame: &[u8]) -> Result<(), TransportError>;

    /// Push buffered frames toward their peers, as far as they will go.
    fn flush(&mut self) -> Result<(), TransportError>;

    /// Take the next frame that has arrived, or `Ok(None)` if none has. Never
    /// blocks.
    fn recv(&mut self) -> Result<Option<Received>, TransportError>;
}

} // verus!
