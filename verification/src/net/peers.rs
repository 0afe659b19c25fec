//! What a node decides about its connections, apart from the sockets.
//!
//! **One connection per direction.** A node writes to a peer only on the
//! connection it dialled, and reads from a peer only on the connection that peer
//! dialled. Two nodes that dial each other at the same moment then have nothing
//! to agree on, and everything from one node to another is on one connection.
//!
//! **A connection announces who it is.** The first frame on an accepted
//! connection is the dialler's node id, because an address is not an identity
//! when a node restarts on a new port. Until that frame arrives the connection
//! is pending and nothing on it is attributed to anyone.

use vstd::prelude::*;

use crate::le::{from_le64, le64, lemma_le64_read_back, push_le64, read_le64};
use crate::net::frame::{encode, framed, yielded, Front, Reader, ReaderView};
use crate::net::loopback::frame_views;
use crate::net::{NodeId, TransportError};

verus! {

/// What a dialler says first.
pub fn hello(local: NodeId) -> (r: Vec<u8>)
    ensures
        r@ == le64(local),
{
    let mut r: Vec<u8> = Vec::new();
    push_le64(&mut r, local);
    proof {
        assert(r@ =~= le64(local));
    }
    r
}

/// Who a first frame says is calling, where it is an identity.
pub open spec fn identity_of(frame: Seq<u8>) -> Option<NodeId> {
    if frame.len() == 8 {
        Some(from_le64(frame))
    } else {
        None
    }
}

/// Who a first frame says is calling, where it is an identity.
pub fn identity(frame: &[u8]) -> (r: Option<NodeId>)
    ensures
        r == identity_of(frame@),
{
    if frame.len() == 8 {
        proof {
            assert(frame@.skip(0) =~= frame@);
        }
        Some(read_le64(frame, 0))
    } else {
        None
    }
}

/// Whoever announces itself is known by that name.
pub proof fn law_a_caller_is_known_by_its_name(local: NodeId)
    ensures
        identity_of(le64(local)) == Some(local),
{
    lemma_le64_read_back(local);
}

/// What becomes of an accepted connection that has not said who it is.
#[derive(Debug, Clone, Copy, PartialEq, Eq, Structural)]
pub enum Caller {
    /// It said so now. A connection that an earlier call left under this name is
    /// replaced: the newer one is the live one.
    Named(NodeId),
    /// It has not said so yet.
    Waiting,
    /// It speaks a protocol this one does not, or hung up without a word.
    Dropped,
}

/// What becomes of a connection with these bytes on it.
pub open spec fn settled(reader: ReaderView, dead: bool) -> Caller {
    match reader.front() {
        Front::Frame(frame) => match identity_of(frame) {
            Some(id) => Caller::Named(id),
            None => Caller::Dropped,
        },
        Front::TooLarge(_) => Caller::Dropped,
        Front::NotYet => if dead {
            Caller::Dropped
        } else {
            Caller::Waiting
        },
    }
}

/// Decide what becomes of an accepted connection, once what has arrived on it
/// was read.
pub fn settle(reader: &mut Reader, dead: bool) -> (r: Caller)
    ensures
        r == settled(old(reader)@, dead),
        final(reader)@ == old(reader)@.rest(),
{
    match reader.next_frame() {
        Ok(Some(frame)) => match identity(frame.as_slice()) {
            Some(id) => Caller::Named(id),
            None => Caller::Dropped,
        },
        Ok(None) => if dead {
            Caller::Dropped
        } else {
            Caller::Waiting
        },
        Err(_) => Caller::Dropped,
    }
}

/// Take every whole frame that has arrived on a connection, and say whether the
/// stream can no longer be read: there is no way to find where the next frame
/// starts, so the connection is closed and the peer redials.
pub fn drain(reader: &mut Reader) -> (r: (Vec<Vec<u8>>, bool))
    ensures
        frame_views(r.0@) == yielded(old(reader)@).0,
        final(reader)@ == yielded(old(reader)@).1,
        r.1 == (final(reader)@.front() is TooLarge),
{
    let mut frames: Vec<Vec<u8>> = Vec::new();
    proof {
        let all = yielded(reader@).0;
        assert(frame_views(frames@) + all =~= all);
    }
    loop
        invariant
            yielded(old(reader)@) == ({
                let (others, last) = yielded(reader@);
                (frame_views(frames@) + others, last)
            }),
        decreases reader@.buf.len(),
    {
        let ghost before = reader@;
        match reader.next_frame() {
            Ok(Some(frame)) => {
                let ghost held = frames@;
                let ghost one = frame@;
                frames.push(frame);
                proof {
                    assert(frame_views(frames@) =~= frame_views(held).push(one));
                    let others = yielded(reader@).0;
                    assert(frame_views(held) + (seq![one] + others) =~= frame_views(frames@)
                        + others);
                }
            },
            Ok(None) => {
                proof {
                    assert(frame_views(frames@) + Seq::empty() =~= frame_views(frames@));
                }
                return (frames, false);
            },
            Err(_) => {
                proof {
                    assert(frame_views(frames@) + Seq::empty() =~= frame_views(frames@));
                }
                return (frames, true);
            },
        }
    }
}

/// How a frame gets to a peer.
#[derive(Debug, Clone, Copy, PartialEq, Eq, Structural)]
pub enum Route {
    /// On the connection that is there.
    Open,
    /// On one that has to be dialled first. Dialling is lazy: it happens on the
    /// first send, and again after a disconnection.
    Dial,
}

/// Decide how a frame gets to a peer. A peer without a route is refused: a
/// consensus host knows its own membership, so a send to somewhere unknown is a
/// bug rather than a network condition. So is a send to oneself.
pub fn route_for(local: NodeId, peer: NodeId, connected: bool, routed: bool) -> (r: Result<
    Route,
    TransportError,
>)
    ensures
        match r {
            Ok(Route::Open) => peer != local && connected,
            Ok(Route::Dial) => peer != local && !connected && routed,
            Err(TransportError::UnknownPeer(id)) => {
                &&& id == peer
                &&& peer == local || (!connected && !routed)
            },
            Err(_) => false,
        },
{
    if peer == local {
        return Err(TransportError::UnknownPeer(peer));
    }
    if connected {
        Ok(Route::Open)
    } else if routed {
        Ok(Route::Dial)
    } else {
        Err(TransportError::UnknownPeer(peer))
    }
}

/// What a non-blocking read or write came back with.
#[derive(Debug, Clone, Copy, PartialEq, Eq, Structural)]
pub enum Moved {
    /// So many bytes.
    Bytes(usize),
    /// It would have had to wait.
    WouldBlock,
    Interrupted,
    Failed,
}

/// What to do after a non-blocking read or write.
#[derive(Debug, Clone, Copy, PartialEq, Eq, Structural)]
pub enum Next {
    Again,
    /// Come back on the next turn.
    Later,
    /// The peer hung up or the connection failed.
    Dead,
}

/// What to do after a non-blocking read or write. No bytes at all means that the
/// peer hung up.
pub fn after(moved: Moved) -> (r: Next)
    ensures
        r == (match moved {
            Moved::Bytes(n) => if n == 0 {
                Next::Dead
            } else {
                Next::Again
            },
            Moved::Interrupted => Next::Again,
            Moved::WouldBlock => Next::Later,
            Moved::Failed => Next::Dead,
        }),
{
    match moved {
        Moved::Bytes(n) => if n == 0 {
            Next::Dead
        } else {
            Next::Again
        },
        Moved::Interrupted => Next::Again,
        Moved::WouldBlock => Next::Later,
        Moved::Failed => Next::Dead,
    }
}

/// What is queued for a peer and was not yet written.
#[derive(Debug)]
pub struct Outbound {
    bytes: Vec<u8>,
    written: usize,
}

impl View for Outbound {
    type V = Seq<u8>;

    closed spec fn view(&self) -> Seq<u8> {
        self.bytes@.skip(self.written as int)
    }
}

impl Outbound {
    /// Whether no more was written than was queued.
    pub closed spec fn wf(self) -> bool {
        self.written <= self.bytes@.len()
    }

    pub fn new() -> (r: Self)
        ensures
            r.wf(),
            r@ == Seq::<u8>::empty(),
    {
        let r = Outbound { bytes: Vec::new(), written: 0 };
        proof {
            assert(r@ =~= Seq::<u8>::empty());
        }
        r
    }

    /// Queue one frame behind what is there.
    pub fn queue(&mut self, payload: &[u8], max: usize) -> (r: Result<(), TransportError>)
        requires
            old(self).wf(),
            payload@.len() <= u32::MAX || payload@.len() > max,
        ensures
            final(self).wf(),
            match r {
                Ok(()) => payload@.len() <= max && final(self)@ == old(self)@ + framed(payload@),
                Err(TransportError::FrameTooLarge { got, limit }) => {
                    &&& payload@.len() > max
                    &&& got == payload@.len()
                    &&& limit == max
                    &&& final(self)@ == old(self)@
                },
                Err(_) => false,
            },
    {
        match encode(payload, max) {
            Ok(mut frame) => {
                let ghost more = frame@;
                let ghost before = self.bytes@;
                self.bytes.append(&mut frame);
                proof {
                    assert(self@ =~= old(self)@ + more);
                }
                Ok(())
            },
            Err(e) => Err(e),
        }
    }

    /// What is left to write.
    pub fn unwritten(&self) -> (r: &[u8])
        requires
            self.wf(),
        ensures
            r@ == self@,
    {
        let r = vstd::slice::slice_subrange(self.bytes.as_slice(), self.written, self.bytes.len());
        proof {
            assert(r@ =~= self@);
        }
        r
    }

    /// So many bytes were written.
    pub fn wrote(&mut self, count: usize)
        requires
            old(self).wf(),
            count <= old(self)@.len(),
        ensures
            final(self).wf(),
            final(self)@ == old(self)@.skip(count as int),
    {
        let queued: usize = self.bytes.len();
        assert(self.written + count <= queued);
        self.written += count;
        proof {
            assert(self@ =~= old(self)@.skip(count as int));
        }
        if self.written == self.bytes.len() {
            self.bytes = Vec::new();
            self.written = 0;
            proof {
                assert(self@ =~= old(self)@.skip(count as int));
            }
        }
    }
}

} // verus!
