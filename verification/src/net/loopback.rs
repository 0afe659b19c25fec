//! An in-memory link, for tests and for anything that wants a network without
//! having one.
//!
//! Deliberately boring: a queue in each direction, drained in order. It is not a
//! fault model: it never drops, delays, or duplicates. It does enforce the frame
//! limit. A transport that accepts what TCP would refuse is how a message
//! becomes undeliverable only in production.
//!
//! Each end owns its own queues, and [`Loopback::carry`] is the wire between
//! them.

use std::collections::VecDeque;

use vstd::prelude::*;

use crate::net::{NodeId, Received, ReceivedView, Transport, TransportError, MAX_FRAME_BYTES};

verus! {

/// What the bytes of some frames are.
pub open spec fn frame_views(frames: Seq<Vec<u8>>) -> Seq<Seq<u8>> {
    frames.map_values(|f: Vec<u8>| f@)
}

/// Both ends of an in-memory link.
pub struct LoopbackPair {
    pub left: Loopback,
    pub right: Loopback,
}

impl LoopbackPair {
    /// A link between two nodes, which are not the same one.
    pub fn new(left: NodeId, right: NodeId) -> (r: Self)
        requires
            left != right,
        ensures
            r.left@ == LoopbackView::idle(left, right),
            r.right@ == LoopbackView::idle(right, left),
    {
        LoopbackPair { left: Loopback::idle(left, right), right: Loopback::idle(right, left) }
    }

    pub fn split(self) -> (r: (Loopback, Loopback))
        ensures
            r == (self.left, self.right),
    {
        (self.left, self.right)
    }
}

/// One end of an in-memory link.
pub struct Loopback {
    local: NodeId,
    peer: NodeId,
    inbox: VecDeque<Vec<u8>>,
    outbox: VecDeque<Vec<u8>>,
    pending: VecDeque<Vec<u8>>,
    max_frame_bytes: usize,
}

/// What a [`Loopback`] stands for.
pub struct LoopbackView {
    pub local: NodeId,
    pub peer: NodeId,
    /// What arrived and was not yet taken.
    pub inbox: Seq<Seq<u8>>,
    /// What was flushed and is on its way.
    pub outbox: Seq<Seq<u8>>,
    /// What was sent and not yet flushed.
    pub pending: Seq<Seq<u8>>,
    pub max_frame_bytes: usize,
}

impl View for Loopback {
    type V = LoopbackView;

    closed spec fn view(&self) -> LoopbackView {
        LoopbackView {
            local: self.local,
            peer: self.peer,
            inbox: frame_views(self.inbox@),
            outbox: frame_views(self.outbox@),
            pending: frame_views(self.pending@),
            max_frame_bytes: self.max_frame_bytes,
        }
    }
}

impl LoopbackView {
    /// An end that nothing was sent to or from.
    pub open spec fn idle(local: NodeId, peer: NodeId) -> LoopbackView {
        LoopbackView {
            local,
            peer,
            inbox: Seq::empty(),
            outbox: Seq::empty(),
            pending: Seq::empty(),
            max_frame_bytes: MAX_FRAME_BYTES,
        }
    }

    /// A frame handed over.
    pub open spec fn sent(self, peer: NodeId, frame: Seq<u8>) -> LoopbackView {
        if peer == self.peer && frame.len() <= self.max_frame_bytes {
            LoopbackView { pending: self.pending.push(frame), ..self }
        } else {
            self
        }
    }

    /// What arrived joined by what another end had on its way.
    pub open spec fn joined_by(self, from: LoopbackView) -> LoopbackView {
        LoopbackView { inbox: self.inbox + from.outbox, ..self }
    }

    /// Everything handed over pushed out.
    pub open spec fn flushed(self) -> LoopbackView {
        LoopbackView { pending: Seq::empty(), outbox: self.outbox + self.pending, ..self }
    }
}

impl Loopback {
    fn idle(local: NodeId, peer: NodeId) -> (r: Loopback)
        ensures
            r@ == LoopbackView::idle(local, peer),
    {
        let r = Loopback {
            local,
            peer,
            inbox: VecDeque::new(),
            outbox: VecDeque::new(),
            pending: VecDeque::new(),
            max_frame_bytes: MAX_FRAME_BYTES,
        };
        proof {
            assert(frame_views(r.inbox@) =~= Seq::empty());
            assert(frame_views(r.outbox@) =~= Seq::empty());
            assert(frame_views(r.pending@) =~= Seq::empty());
        }
        r
    }

    /// Lower the frame limit, so a test can reach the refusal path without
    /// building a sixteen-megabyte message to do it.
    pub fn with_max_frame_bytes(self, max: usize) -> (r: Self)
        ensures
            r@ == (LoopbackView { max_frame_bytes: max, ..self@ }),
    {
        let mut r = self;
        r.max_frame_bytes = max;
        r
    }

    /// How many frames have been handed to `send` and not yet flushed. Exists so
    /// a test can tell "buffered" from "delivered" rather than inferring it.
    pub fn unflushed(&self) -> (r: usize)
        ensures
            r == self@.pending.len(),
    {
        self.pending.len()
    }

    /// Bring what this end flushed to the other one, in order.
    pub fn carry(&mut self, to: &mut Loopback)
        ensures
            final(self)@ == (LoopbackView { outbox: Seq::empty(), ..old(self)@ }),
            final(to)@ == old(to)@.joined_by(old(self)@),
    {
        let ghost out = self.outbox@;
        let ghost held = to.inbox@;
        to.inbox.append(&mut self.outbox);
        proof {
            assert(frame_views(to.inbox@) =~= frame_views(held) + frame_views(out));
            assert(frame_views(self.outbox@) =~= Seq::empty());
        }
    }
}

impl Transport for Loopback {
    fn local(&self) -> (r: NodeId)
        ensures
            r == self@.local,
    {
        self.local
    }

    fn send(&mut self, peer: NodeId, frame: &[u8]) -> (r: Result<(), TransportError>)
        ensures
            final(self)@ == old(self)@.sent(peer, frame@),
            match r {
                Ok(()) => peer == old(self)@.peer && frame@.len() <= old(self)@.max_frame_bytes,
                Err(TransportError::UnknownPeer(id)) => id == peer && peer != old(self)@.peer,
                Err(TransportError::FrameTooLarge { got, limit }) => {
                    &&& peer == old(self)@.peer
                    &&& got == frame@.len()
                    &&& limit == old(self)@.max_frame_bytes
                    &&& got > limit
                },
                Err(_) => false,
            },
    {
        if peer != self.peer {
            return Err(TransportError::UnknownPeer(peer));
        }
        if frame.len() > self.max_frame_bytes {
            return Err(
                TransportError::FrameTooLarge { got: frame.len(), limit: self.max_frame_bytes },
            );
        }
        let ghost held = self.pending@;
        let copy = vstd::slice::slice_to_vec(frame);
        let ghost one = copy@;
        self.pending.push_back(copy);
        proof {
            assert(frame_views(self.pending@) =~= frame_views(held).push(one));
        }
        Ok(())
    }

    fn flush(&mut self) -> (r: Result<(), TransportError>)
        ensures
            r is Ok,
            final(self)@ == old(self)@.flushed(),
    {
        let ghost out = self.outbox@;
        let ghost held = self.pending@;
        self.outbox.append(&mut self.pending);
        proof {
            assert(frame_views(self.outbox@) =~= frame_views(out) + frame_views(held));
            assert(frame_views(self.pending@) =~= Seq::empty());
        }
        Ok(())
    }

    fn recv(&mut self) -> (r: Result<Option<Received>, TransportError>)
        ensures
            match r {
                Ok(Some(received)) => {
                    &&& old(self)@.inbox.len() > 0
                    &&& received@ == (ReceivedView {
                        from: old(self)@.peer,
                        frame: old(self)@.inbox[0],
                    })
                    &&& final(self)@ == (LoopbackView {
                        inbox: old(self)@.inbox.skip(1),
                        ..old(self)@
                    })
                },
                Ok(None) => old(self)@.inbox.len() == 0 && final(self)@ == old(self)@,
                Err(_) => false,
            },
    {
        let ghost held = self.inbox@;
        match self.inbox.pop_front() {
            Some(frame) => {
                proof {
                    assert(frame_views(self.inbox@) =~= frame_views(held).skip(1));
                }
                Ok(Some(Received { from: self.peer, frame }))
            },
            None => Ok(None),
        }
    }
}

// -------------------------------------------------------------------- laws

/// Frames handed over one after the other.
pub open spec fn all_sent(end: LoopbackView, frames: Seq<Seq<u8>>) -> LoopbackView
    decreases frames.len(),
{
    if frames.len() == 0 {
        end
    } else {
        all_sent(end, frames.drop_last()).sent(end.peer, frames.last())
    }
}

/// Frames within the limit, handed over one after the other, are all pending.
proof fn lemma_all_sent(end: LoopbackView, frames: Seq<Seq<u8>>)
    requires
        end.pending.len() == 0,
        forall|i: int|
            0 <= i < frames.len() ==> (#[trigger] frames[i]).len() <= end.max_frame_bytes,
    ensures
        all_sent(end, frames) == (LoopbackView { pending: frames, ..end }),
    decreases frames.len(),
{
    if frames.len() == 0 {
        assert(end.pending =~= frames);
    } else {
        let head = frames.drop_last();
        assert(forall|i: int| 0 <= i < head.len() ==> #[trigger] head[i] == frames[i]);
        lemma_all_sent(end, head);
        assert(frames[frames.len() - 1].len() <= end.max_frame_bytes);
        assert(head.push(frames.last()) =~= frames);
    }
}

/// Frames within the limit that were sent to the peer, flushed and carried, stand
/// in its inbox whole and in the order they were sent, behind what was there
/// before; nothing is lost, repeated or made up.
pub proof fn law_frames_arrive_whole_and_in_order(
    from: LoopbackView,
    to: LoopbackView,
    frames: Seq<Seq<u8>>,
)
    requires
        from.pending.len() == 0,
        from.outbox.len() == 0,
        forall|i: int|
            0 <= i < frames.len() ==> (#[trigger] frames[i]).len() <= from.max_frame_bytes,
    ensures
        to.joined_by(all_sent(from, frames).flushed()) == (LoopbackView {
            inbox: to.inbox + frames,
            ..to
        }),
{
    lemma_all_sent(from, frames);
    assert(from.outbox + frames =~= frames);
}

} // verus!
