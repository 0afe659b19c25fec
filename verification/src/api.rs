//! What Keel puts on a wire: the client protocol, the peer protocol, and the
//! one encoding both use.
//!
//! **A command and a query are different types.** A command changes state and
//! goes through the log; a query does not and must not. [`Request`] can carry
//! either, and nothing can carry a [`Query`] where a [`Command`] is required.
//!
//! **A session is `(client, seq)` plus a nonce.** The pair is what makes a
//! retried command apply exactly once. The nonce is what makes the registration
//! retryable: a client that never saw its `Registered` response and asks again
//! is given the identity it already has.
//!
//! Framing is not here: a length prefix is a property of a byte stream. What is
//! here is a bound on how large a payload may be, so that a transport which
//! forgot to check is not the only thing between a corrupt length and an
//! allocation.

use vstd::prelude::*;
use vstd::string::*;

use crate::raft::{Index, Message, MessageView, NodeId, Term};
use crate::text::{decimal, push_decimal};
use crate::wire::{malformed_text, Malformed, Wire};

verus! {

/// The largest payload that is encoded or decoded.
pub const MAX_PAYLOAD_BYTES: usize = 16_777_216;

/// A client's identity, handed out by [`Request::Register`] and valid until the
/// session expires.
pub type ClientId = u64;

/// Position within one client's stream of commands. Strictly increasing, and
/// the second half of the key the state machine deduplicates on.
pub type SeqNo = u64;

/// The label a request goes out under and its answer comes back under.
pub type RequestId = u64;

// ---------------------------------------------------------------- commands

/// A request that changes state. Every one of these goes through the log.
#[allow(inconsistent_fields)]
#[derive(Debug, PartialEq, Eq)]
pub enum Command {
    Put {
        key: Vec<u8>,
        value: Vec<u8>,
    },
    Delete {
        key: Vec<u8>,
    },
    /// Compare and swap. `expect` of `None` means "only if absent", and `value`
    /// of `None` means "delete".
    Cas {
        key: Vec<u8>,
        expect: Option<Vec<u8>>,
        value: Option<Vec<u8>>,
    },
    /// Add to a counter.
    Incr {
        key: Vec<u8>,
        by: i64,
    },
}

/// What a [`Command`] stands for.
#[allow(inconsistent_fields)]
pub enum CommandView {
    Put {
        key: Seq<u8>,
        value: Seq<u8>,
    },
    Delete {
        key: Seq<u8>,
    },
    Cas {
        key: Seq<u8>,
        expect: Option<Seq<u8>>,
        value: Option<Seq<u8>>,
    },
    Incr {
        key: Seq<u8>,
        by: i64,
    },
}

impl View for Command {
    type V = CommandView;

    open spec fn view(&self) -> CommandView {
        match self {
            Command::Put { key, value } => CommandView::Put { key: key.model(), value: value.model() },
            Command::Delete { key } => CommandView::Delete { key: key.model() },
            Command::Cas { key, expect, value } => CommandView::Cas { key: key.model(), expect: expect.model(), value: value.model() },
            Command::Incr { key, by } => CommandView::Incr { key: key.model(), by: by.model() },
        }
    }
}

impl Clone for Command {
    fn clone(&self) -> (r: Self)
        ensures
            r@ == self@,
    {
        self.duplicate()
    }
}

impl Wire for Command {
    type Model = CommandView;

    open spec fn model(&self) -> CommandView {
        self@
    }

    open spec fn fits(m: CommandView) -> bool {
        match m {
            CommandView::Put { key, value } => <Vec<u8> as Wire>::fits(key) && <Vec<u8> as Wire>::fits(value),
            CommandView::Delete { key } => <Vec<u8> as Wire>::fits(key),
            CommandView::Cas { key, expect, value } => <Vec<u8> as Wire>::fits(key) && <Option<Vec<u8>> as Wire>::fits(expect) && <Option<Vec<u8>> as Wire>::fits(value),
            CommandView::Incr { key, by } => <Vec<u8> as Wire>::fits(key) && i64::fits(by),
        }
    }

    open spec fn encoding(m: CommandView) -> Seq<u8> {
        match m {
            CommandView::Put { key, value } => u32::encoding(0) + <(Vec<u8>, Vec<u8>) as Wire>::encoding(
                (key, value),
            ),
            CommandView::Delete { key } => u32::encoding(1) + <Vec<u8> as Wire>::encoding(
                key,
            ),
            CommandView::Cas { key, expect, value } => u32::encoding(2) + <(Vec<u8>, (Option<Vec<u8>>, Option<Vec<u8>>)) as Wire>::encoding(
                (key, (expect, value)),
            ),
            CommandView::Incr { key, by } => u32::encoding(3) + <(Vec<u8>, i64) as Wire>::encoding(
                (key, by),
            ),
        }
    }

    open spec fn parse(s: Seq<u8>) -> Option<(CommandView, Seq<u8>)> {
        match u32::parse(s) {
            Some((tag, rest)) => if tag == 0 {
                match <(Vec<u8>, Vec<u8>) as Wire>::parse(rest) {
                    Some(((key, value), rest)) => Some(
                        (CommandView::Put { key, value }, rest),
                    ),
                    None => None,
                }
            } else if tag == 1 {
                match <Vec<u8> as Wire>::parse(rest) {
                    Some((key, rest)) => Some(
                        (CommandView::Delete { key }, rest),
                    ),
                    None => None,
                }
            } else if tag == 2 {
                match <(Vec<u8>, (Option<Vec<u8>>, Option<Vec<u8>>)) as Wire>::parse(rest) {
                    Some(((key, (expect, value)), rest)) => Some(
                        (CommandView::Cas { key, expect, value }, rest),
                    ),
                    None => None,
                }
            } else if tag == 3 {
                match <(Vec<u8>, i64) as Wire>::parse(rest) {
                    Some(((key, by), rest)) => Some(
                        (CommandView::Incr { key, by }, rest),
                    ),
                    None => None,
                }
            } else {
                None
            },
            None => None,
        }
    }

    proof fn lemma_read_back(m: CommandView, tail: Seq<u8>) {
        match m {
            CommandView::Put { key, value } => {
                let fields = <(Vec<u8>, Vec<u8>) as Wire>::encoding((key, value));
                assert(Self::encoding(m) + tail =~= u32::encoding(0) + (fields + tail));
                u32::lemma_read_back(0, fields + tail);
                <(Vec<u8>, Vec<u8>) as Wire>::lemma_read_back((key, value), tail);
            },
            CommandView::Delete { key } => {
                let fields = <Vec<u8> as Wire>::encoding(key);
                assert(Self::encoding(m) + tail =~= u32::encoding(1) + (fields + tail));
                u32::lemma_read_back(1, fields + tail);
                <Vec<u8> as Wire>::lemma_read_back(key, tail);
            },
            CommandView::Cas { key, expect, value } => {
                let fields = <(Vec<u8>, (Option<Vec<u8>>, Option<Vec<u8>>)) as Wire>::encoding((key, (expect, value)));
                assert(Self::encoding(m) + tail =~= u32::encoding(2) + (fields + tail));
                u32::lemma_read_back(2, fields + tail);
                <(Vec<u8>, (Option<Vec<u8>>, Option<Vec<u8>>)) as Wire>::lemma_read_back((key, (expect, value)), tail);
            },
            CommandView::Incr { key, by } => {
                let fields = <(Vec<u8>, i64) as Wire>::encoding((key, by));
                assert(Self::encoding(m) + tail =~= u32::encoding(3) + (fields + tail));
                u32::lemma_read_back(3, fields + tail);
                <(Vec<u8>, i64) as Wire>::lemma_read_back((key, by), tail);
            },
        }
    }

    proof fn lemma_extends(s: Seq<u8>, tail: Seq<u8>) {
        u32::lemma_extends(s, tail);
        let (tag, rest) = u32::parse(s)->0;
        if tag == 0 {
            <(Vec<u8>, Vec<u8>) as Wire>::lemma_extends(rest, tail);
            let left = (<(Vec<u8>, Vec<u8>) as Wire>::parse(rest)->0).1;
            assert(left =~= s.skip(s.len() - left.len()));
        }
        if tag == 1 {
            <Vec<u8> as Wire>::lemma_extends(rest, tail);
            let left = (<Vec<u8> as Wire>::parse(rest)->0).1;
            assert(left =~= s.skip(s.len() - left.len()));
        }
        if tag == 2 {
            <(Vec<u8>, (Option<Vec<u8>>, Option<Vec<u8>>)) as Wire>::lemma_extends(rest, tail);
            let left = (<(Vec<u8>, (Option<Vec<u8>>, Option<Vec<u8>>)) as Wire>::parse(rest)->0).1;
            assert(left =~= s.skip(s.len() - left.len()));
        }
        if tag == 3 {
            <(Vec<u8>, i64) as Wire>::lemma_extends(rest, tail);
            let left = (<(Vec<u8>, i64) as Wire>::parse(rest)->0).1;
            assert(left =~= s.skip(s.len() - left.len()));
        }
    }

    fn put(&self, out: &mut Vec<u8>) {
        match self {
            Command::Put { key, value } => {
                0u32.put(out);
                key.put(out);
                value.put(out);
            },
            Command::Delete { key } => {
                1u32.put(out);
                key.put(out);
            },
            Command::Cas { key, expect, value } => {
                2u32.put(out);
                key.put(out);
                expect.put(out);
                value.put(out);
            },
            Command::Incr { key, by } => {
                3u32.put(out);
                key.put(out);
                by.put(out);
            },
        }
        proof {
            assert(out@ =~= old(out)@ + Self::encoding(self.model()));
        }
    }

    fn take(bytes: &[u8], pos: usize) -> (r: Result<(Command, usize), Malformed>) {
        match u32::take(bytes, pos) {
            Ok((tag, next)) => match tag {
                0 => match <(Vec<u8>, Vec<u8>) as Wire>::take(bytes, next) {
                    Ok(((key, value), next)) => Ok((Command::Put { key, value }, next)),
                    Err(e) => Err(e),
                },
                1 => match <Vec<u8> as Wire>::take(bytes, next) {
                    Ok((key, next)) => Ok((Command::Delete { key }, next)),
                    Err(e) => Err(e),
                },
                2 => match <(Vec<u8>, (Option<Vec<u8>>, Option<Vec<u8>>)) as Wire>::take(bytes, next) {
                    Ok(((key, (expect, value)), next)) => Ok((Command::Cas { key, expect, value }, next)),
                    Err(e) => Err(e),
                },
                3 => match <(Vec<u8>, i64) as Wire>::take(bytes, next) {
                    Ok(((key, by), next)) => Ok((Command::Incr { key, by }, next)),
                    Err(e) => Err(e),
                },
                _ => Err(Malformed::Variant(tag)),
            },
            Err(e) => Err(e),
        }
    }

    fn duplicate(&self) -> (r: Command) {
        match self {
            Command::Put { key, value } => Command::Put { key: key.duplicate(), value: value.duplicate() },
            Command::Delete { key } => Command::Delete { key: key.duplicate() },
            Command::Cas { key, expect, value } => Command::Cas { key: key.duplicate(), expect: expect.duplicate(), value: value.duplicate() },
            Command::Incr { key, by } => Command::Incr { key: key.duplicate(), by: by.duplicate() },
        }
    }
}

/// A request that does not change state, and therefore must never reach the log.
#[derive(Debug, PartialEq, Eq)]
pub enum Query {
    Get {
        key: Vec<u8>,
    },
    /// Half-open: `start` included, `end` excluded, `None` meaning unbounded.
    Scan {
        start: Option<Vec<u8>>,
        end: Option<Vec<u8>>,
        limit: u32,
    },
}

/// What a [`Query`] stands for.
pub enum QueryView {
    Get {
        key: Seq<u8>,
    },
    Scan {
        start: Option<Seq<u8>>,
        end: Option<Seq<u8>>,
        limit: u32,
    },
}

impl View for Query {
    type V = QueryView;

    open spec fn view(&self) -> QueryView {
        match self {
            Query::Get { key } => QueryView::Get { key: key.model() },
            Query::Scan { start, end, limit } => QueryView::Scan { start: start.model(), end: end.model(), limit: limit.model() },
        }
    }
}

impl Clone for Query {
    fn clone(&self) -> (r: Self)
        ensures
            r@ == self@,
    {
        self.duplicate()
    }
}

impl Wire for Query {
    type Model = QueryView;

    open spec fn model(&self) -> QueryView {
        self@
    }

    open spec fn fits(m: QueryView) -> bool {
        match m {
            QueryView::Get { key } => <Vec<u8> as Wire>::fits(key),
            QueryView::Scan { start, end, limit } => <Option<Vec<u8>> as Wire>::fits(start) && <Option<Vec<u8>> as Wire>::fits(end) && u32::fits(limit),
        }
    }

    open spec fn encoding(m: QueryView) -> Seq<u8> {
        match m {
            QueryView::Get { key } => u32::encoding(0) + <Vec<u8> as Wire>::encoding(
                key,
            ),
            QueryView::Scan { start, end, limit } => u32::encoding(1) + <(Option<Vec<u8>>, (Option<Vec<u8>>, u32)) as Wire>::encoding(
                (start, (end, limit)),
            ),
        }
    }

    open spec fn parse(s: Seq<u8>) -> Option<(QueryView, Seq<u8>)> {
        match u32::parse(s) {
            Some((tag, rest)) => if tag == 0 {
                match <Vec<u8> as Wire>::parse(rest) {
                    Some((key, rest)) => Some(
                        (QueryView::Get { key }, rest),
                    ),
                    None => None,
                }
            } else if tag == 1 {
                match <(Option<Vec<u8>>, (Option<Vec<u8>>, u32)) as Wire>::parse(rest) {
                    Some(((start, (end, limit)), rest)) => Some(
                        (QueryView::Scan { start, end, limit }, rest),
                    ),
                    None => None,
                }
            } else {
                None
            },
            None => None,
        }
    }

    proof fn lemma_read_back(m: QueryView, tail: Seq<u8>) {
        match m {
            QueryView::Get { key } => {
                let fields = <Vec<u8> as Wire>::encoding(key);
                assert(Self::encoding(m) + tail =~= u32::encoding(0) + (fields + tail));
                u32::lemma_read_back(0, fields + tail);
                <Vec<u8> as Wire>::lemma_read_back(key, tail);
            },
            QueryView::Scan { start, end, limit } => {
                let fields = <(Option<Vec<u8>>, (Option<Vec<u8>>, u32)) as Wire>::encoding((start, (end, limit)));
                assert(Self::encoding(m) + tail =~= u32::encoding(1) + (fields + tail));
                u32::lemma_read_back(1, fields + tail);
                <(Option<Vec<u8>>, (Option<Vec<u8>>, u32)) as Wire>::lemma_read_back((start, (end, limit)), tail);
            },
        }
    }

    proof fn lemma_extends(s: Seq<u8>, tail: Seq<u8>) {
        u32::lemma_extends(s, tail);
        let (tag, rest) = u32::parse(s)->0;
        if tag == 0 {
            <Vec<u8> as Wire>::lemma_extends(rest, tail);
            let left = (<Vec<u8> as Wire>::parse(rest)->0).1;
            assert(left =~= s.skip(s.len() - left.len()));
        }
        if tag == 1 {
            <(Option<Vec<u8>>, (Option<Vec<u8>>, u32)) as Wire>::lemma_extends(rest, tail);
            let left = (<(Option<Vec<u8>>, (Option<Vec<u8>>, u32)) as Wire>::parse(rest)->0).1;
            assert(left =~= s.skip(s.len() - left.len()));
        }
    }

    fn put(&self, out: &mut Vec<u8>) {
        match self {
            Query::Get { key } => {
                0u32.put(out);
                key.put(out);
            },
            Query::Scan { start, end, limit } => {
                1u32.put(out);
                start.put(out);
                end.put(out);
                limit.put(out);
            },
        }
        proof {
            assert(out@ =~= old(out)@ + Self::encoding(self.model()));
        }
    }

    fn take(bytes: &[u8], pos: usize) -> (r: Result<(Query, usize), Malformed>) {
        match u32::take(bytes, pos) {
            Ok((tag, next)) => match tag {
                0 => match <Vec<u8> as Wire>::take(bytes, next) {
                    Ok((key, next)) => Ok((Query::Get { key }, next)),
                    Err(e) => Err(e),
                },
                1 => match <(Option<Vec<u8>>, (Option<Vec<u8>>, u32)) as Wire>::take(bytes, next) {
                    Ok(((start, (end, limit)), next)) => Ok((Query::Scan { start, end, limit }, next)),
                    Err(e) => Err(e),
                },
                _ => Err(Malformed::Variant(tag)),
            },
            Err(e) => Err(e),
        }
    }

    fn duplicate(&self) -> (r: Query) {
        match self {
            Query::Get { key } => Query::Get { key: key.duplicate() },
            Query::Scan { start, end, limit } => Query::Scan { start: start.duplicate(), end: end.duplicate(), limit: limit.duplicate() },
        }
    }
}

/// How fresh a read has to be. The default is the safe one.
#[derive(Debug, Clone, Copy, PartialEq, Eq, Structural)]
pub enum Consistency {
    /// The leader confirms it is still the leader before answering.
    Linearizable,
    /// Answered from the leader's lease without a round trip. Correct while the
    /// clock drift between nodes stays inside the bound the lease was sized for.
    Lease,
    /// Answered by whichever node received it, from whatever it has applied.
    Stale,
}

impl Wire for Consistency {
    type Model = Consistency;

    open spec fn model(&self) -> Consistency {
        *self
    }

    open spec fn fits(m: Consistency) -> bool {
        true
    }

    open spec fn encoding(m: Consistency) -> Seq<u8> {
        match m {
            Consistency::Linearizable => u32::encoding(0),
            Consistency::Lease => u32::encoding(1),
            Consistency::Stale => u32::encoding(2),
        }
    }

    open spec fn parse(s: Seq<u8>) -> Option<(Consistency, Seq<u8>)> {
        match u32::parse(s) {
            Some((tag, rest)) => if tag == 0 {
                Some((Consistency::Linearizable, rest))
            } else if tag == 1 {
                Some((Consistency::Lease, rest))
            } else if tag == 2 {
                Some((Consistency::Stale, rest))
            } else {
                None
            },
            None => None,
        }
    }

    proof fn lemma_read_back(m: Consistency, tail: Seq<u8>) {
        match m {
            Consistency::Linearizable => {
                u32::lemma_read_back(0, tail);
            },
            Consistency::Lease => {
                u32::lemma_read_back(1, tail);
            },
            Consistency::Stale => {
                u32::lemma_read_back(2, tail);
            },
        }
    }

    proof fn lemma_extends(s: Seq<u8>, tail: Seq<u8>) {
        u32::lemma_extends(s, tail);
    }

    fn put(&self, out: &mut Vec<u8>) {
        match self {
            Consistency::Linearizable => {
                0u32.put(out);
            },
            Consistency::Lease => {
                1u32.put(out);
            },
            Consistency::Stale => {
                2u32.put(out);
            },
        }
        proof {
            assert(out@ =~= old(out)@ + Self::encoding(self.model()));
        }
    }

    fn take(bytes: &[u8], pos: usize) -> (r: Result<(Consistency, usize), Malformed>) {
        match u32::take(bytes, pos) {
            Ok((tag, next)) => match tag {
                0 => Ok((Consistency::Linearizable, next)),
                1 => Ok((Consistency::Lease, next)),
                2 => Ok((Consistency::Stale, next)),
                _ => Err(Malformed::Variant(tag)),
            },
            Err(e) => Err(e),
        }
    }

    fn duplicate(&self) -> (r: Consistency) {
        *self
    }
}

impl Default for Consistency {
    fn default() -> (r: Self)
        ensures
            r == Consistency::Linearizable,
    {
        Consistency::Linearizable
    }
}

// ---------------------------------------------------------------- requests

/// What a client sends.
#[derive(Debug, PartialEq, Eq)]
pub enum Request {
    /// Open a session. The nonce makes this retryable: a server that has already
    /// registered this nonce returns the identity it handed out the first time.
    Register {
        nonce: u64,
    },
    Command {
        client: ClientId,
        seq: SeqNo,
        command: Command,
    },
    Query {
        consistency: Consistency,
        query: Query,
    },
    /// Report liveness so that the session of an idle client does not expire.
    KeepAlive {
        client: ClientId,
    },
}

/// What a [`Request`] stands for.
pub enum RequestView {
    Register {
        nonce: u64,
    },
    Command {
        client: ClientId,
        seq: SeqNo,
        command: CommandView,
    },
    Query {
        consistency: Consistency,
        query: QueryView,
    },
    KeepAlive {
        client: ClientId,
    },
}

impl View for Request {
    type V = RequestView;

    open spec fn view(&self) -> RequestView {
        match self {
            Request::Register { nonce } => RequestView::Register { nonce: nonce.model() },
            Request::Command { client, seq, command } => RequestView::Command { client: client.model(), seq: seq.model(), command: command.model() },
            Request::Query { consistency, query } => RequestView::Query { consistency: consistency.model(), query: query.model() },
            Request::KeepAlive { client } => RequestView::KeepAlive { client: client.model() },
        }
    }
}

impl Clone for Request {
    fn clone(&self) -> (r: Self)
        ensures
            r@ == self@,
    {
        self.duplicate()
    }
}

impl Wire for Request {
    type Model = RequestView;

    open spec fn model(&self) -> RequestView {
        self@
    }

    open spec fn fits(m: RequestView) -> bool {
        match m {
            RequestView::Register { nonce } => u64::fits(nonce),
            RequestView::Command { client, seq, command } => ClientId::fits(client) && SeqNo::fits(seq) && Command::fits(command),
            RequestView::Query { consistency, query } => Consistency::fits(consistency) && Query::fits(query),
            RequestView::KeepAlive { client } => ClientId::fits(client),
        }
    }

    open spec fn encoding(m: RequestView) -> Seq<u8> {
        match m {
            RequestView::Register { nonce } => u32::encoding(0) + u64::encoding(
                nonce,
            ),
            RequestView::Command { client, seq, command } => u32::encoding(1) + <(ClientId, (SeqNo, Command)) as Wire>::encoding(
                (client, (seq, command)),
            ),
            RequestView::Query { consistency, query } => u32::encoding(2) + <(Consistency, Query) as Wire>::encoding(
                (consistency, query),
            ),
            RequestView::KeepAlive { client } => u32::encoding(3) + ClientId::encoding(
                client,
            ),
        }
    }

    open spec fn parse(s: Seq<u8>) -> Option<(RequestView, Seq<u8>)> {
        match u32::parse(s) {
            Some((tag, rest)) => if tag == 0 {
                match u64::parse(rest) {
                    Some((nonce, rest)) => Some(
                        (RequestView::Register { nonce }, rest),
                    ),
                    None => None,
                }
            } else if tag == 1 {
                match <(ClientId, (SeqNo, Command)) as Wire>::parse(rest) {
                    Some(((client, (seq, command)), rest)) => Some(
                        (RequestView::Command { client, seq, command }, rest),
                    ),
                    None => None,
                }
            } else if tag == 2 {
                match <(Consistency, Query) as Wire>::parse(rest) {
                    Some(((consistency, query), rest)) => Some(
                        (RequestView::Query { consistency, query }, rest),
                    ),
                    None => None,
                }
            } else if tag == 3 {
                match ClientId::parse(rest) {
                    Some((client, rest)) => Some(
                        (RequestView::KeepAlive { client }, rest),
                    ),
                    None => None,
                }
            } else {
                None
            },
            None => None,
        }
    }

    proof fn lemma_read_back(m: RequestView, tail: Seq<u8>) {
        match m {
            RequestView::Register { nonce } => {
                let fields = u64::encoding(nonce);
                assert(Self::encoding(m) + tail =~= u32::encoding(0) + (fields + tail));
                u32::lemma_read_back(0, fields + tail);
                u64::lemma_read_back(nonce, tail);
            },
            RequestView::Command { client, seq, command } => {
                let fields = <(ClientId, (SeqNo, Command)) as Wire>::encoding((client, (seq, command)));
                assert(Self::encoding(m) + tail =~= u32::encoding(1) + (fields + tail));
                u32::lemma_read_back(1, fields + tail);
                <(ClientId, (SeqNo, Command)) as Wire>::lemma_read_back((client, (seq, command)), tail);
            },
            RequestView::Query { consistency, query } => {
                let fields = <(Consistency, Query) as Wire>::encoding((consistency, query));
                assert(Self::encoding(m) + tail =~= u32::encoding(2) + (fields + tail));
                u32::lemma_read_back(2, fields + tail);
                <(Consistency, Query) as Wire>::lemma_read_back((consistency, query), tail);
            },
            RequestView::KeepAlive { client } => {
                let fields = ClientId::encoding(client);
                assert(Self::encoding(m) + tail =~= u32::encoding(3) + (fields + tail));
                u32::lemma_read_back(3, fields + tail);
                ClientId::lemma_read_back(client, tail);
            },
        }
    }

    proof fn lemma_extends(s: Seq<u8>, tail: Seq<u8>) {
        u32::lemma_extends(s, tail);
        let (tag, rest) = u32::parse(s)->0;
        if tag == 0 {
            u64::lemma_extends(rest, tail);
            let left = (u64::parse(rest)->0).1;
            assert(left =~= s.skip(s.len() - left.len()));
        }
        if tag == 1 {
            <(ClientId, (SeqNo, Command)) as Wire>::lemma_extends(rest, tail);
            let left = (<(ClientId, (SeqNo, Command)) as Wire>::parse(rest)->0).1;
            assert(left =~= s.skip(s.len() - left.len()));
        }
        if tag == 2 {
            <(Consistency, Query) as Wire>::lemma_extends(rest, tail);
            let left = (<(Consistency, Query) as Wire>::parse(rest)->0).1;
            assert(left =~= s.skip(s.len() - left.len()));
        }
        if tag == 3 {
            ClientId::lemma_extends(rest, tail);
            let left = (ClientId::parse(rest)->0).1;
            assert(left =~= s.skip(s.len() - left.len()));
        }
    }

    fn put(&self, out: &mut Vec<u8>) {
        match self {
            Request::Register { nonce } => {
                0u32.put(out);
                nonce.put(out);
            },
            Request::Command { client, seq, command } => {
                1u32.put(out);
                client.put(out);
                seq.put(out);
                command.put(out);
            },
            Request::Query { consistency, query } => {
                2u32.put(out);
                consistency.put(out);
                query.put(out);
            },
            Request::KeepAlive { client } => {
                3u32.put(out);
                client.put(out);
            },
        }
        proof {
            assert(out@ =~= old(out)@ + Self::encoding(self.model()));
        }
    }

    fn take(bytes: &[u8], pos: usize) -> (r: Result<(Request, usize), Malformed>) {
        match u32::take(bytes, pos) {
            Ok((tag, next)) => match tag {
                0 => match u64::take(bytes, next) {
                    Ok((nonce, next)) => Ok((Request::Register { nonce }, next)),
                    Err(e) => Err(e),
                },
                1 => match <(ClientId, (SeqNo, Command)) as Wire>::take(bytes, next) {
                    Ok(((client, (seq, command)), next)) => Ok((Request::Command { client, seq, command }, next)),
                    Err(e) => Err(e),
                },
                2 => match <(Consistency, Query) as Wire>::take(bytes, next) {
                    Ok(((consistency, query), next)) => Ok((Request::Query { consistency, query }, next)),
                    Err(e) => Err(e),
                },
                3 => match ClientId::take(bytes, next) {
                    Ok((client, next)) => Ok((Request::KeepAlive { client }, next)),
                    Err(e) => Err(e),
                },
                _ => Err(Malformed::Variant(tag)),
            },
            Err(e) => Err(e),
        }
    }

    fn duplicate(&self) -> (r: Request) {
        match self {
            Request::Register { nonce } => Request::Register { nonce: nonce.duplicate() },
            Request::Command { client, seq, command } => Request::Command { client: client.duplicate(), seq: seq.duplicate(), command: command.duplicate() },
            Request::Query { consistency, query } => Request::Query { consistency: consistency.duplicate(), query: query.duplicate() },
            Request::KeepAlive { client } => Request::KeepAlive { client: client.duplicate() },
        }
    }
}

/// Why a request could not be answered. Each is a condition the client is
/// expected to handle.
#[allow(inconsistent_fields)]
#[derive(Debug, PartialEq, Eq)]
pub enum ApiError {
    /// The session is gone: expired, or never registered. Register again.
    SessionExpired,
    /// A sequence number below one already applied for this client, and whose
    /// cached response is gone.
    SequenceTooOld {
        got: SeqNo,
        floor: SeqNo,
    },
    /// No quorum, or a leader that has not yet committed its own term's no-op.
    Unavailable,
    /// The request would exceed a bound the server enforces.
    TooLarge {
        got: usize,
        limit: usize,
    },
    /// The node has latched a fatal storage error and is refusing everything.
    NodeFailed(String),
}

/// What a [`ApiError`] stands for.
#[allow(inconsistent_fields)]
pub enum ApiErrorView {
    SessionExpired,
    SequenceTooOld {
        got: SeqNo,
        floor: SeqNo,
    },
    Unavailable,
    TooLarge {
        got: usize,
        limit: usize,
    },
    NodeFailed(Seq<char>),
}

impl View for ApiError {
    type V = ApiErrorView;

    open spec fn view(&self) -> ApiErrorView {
        match self {
            ApiError::SessionExpired => ApiErrorView::SessionExpired,
            ApiError::SequenceTooOld { got, floor } => ApiErrorView::SequenceTooOld { got: got.model(), floor: floor.model() },
            ApiError::Unavailable => ApiErrorView::Unavailable,
            ApiError::TooLarge { got, limit } => ApiErrorView::TooLarge { got: got.model(), limit: limit.model() },
            ApiError::NodeFailed(why) => ApiErrorView::NodeFailed(why.model()),
        }
    }
}

impl Clone for ApiError {
    fn clone(&self) -> (r: Self)
        ensures
            r@ == self@,
    {
        self.duplicate()
    }
}

impl Wire for ApiError {
    type Model = ApiErrorView;

    open spec fn model(&self) -> ApiErrorView {
        self@
    }

    open spec fn fits(m: ApiErrorView) -> bool {
        match m {
            ApiErrorView::SessionExpired => true,
            ApiErrorView::SequenceTooOld { got, floor } => SeqNo::fits(got) && SeqNo::fits(floor),
            ApiErrorView::Unavailable => true,
            ApiErrorView::TooLarge { got, limit } => usize::fits(got) && usize::fits(limit),
            ApiErrorView::NodeFailed(why) => String::fits(why),
        }
    }

    open spec fn encoding(m: ApiErrorView) -> Seq<u8> {
        match m {
            ApiErrorView::SessionExpired => u32::encoding(0),
            ApiErrorView::SequenceTooOld { got, floor } => u32::encoding(1) + <(SeqNo, SeqNo) as Wire>::encoding(
                (got, floor),
            ),
            ApiErrorView::Unavailable => u32::encoding(2),
            ApiErrorView::TooLarge { got, limit } => u32::encoding(3) + <(usize, usize) as Wire>::encoding(
                (got, limit),
            ),
            ApiErrorView::NodeFailed(why) => u32::encoding(4) + String::encoding(
                why,
            ),
        }
    }

    open spec fn parse(s: Seq<u8>) -> Option<(ApiErrorView, Seq<u8>)> {
        match u32::parse(s) {
            Some((tag, rest)) => if tag == 0 {
                Some((ApiErrorView::SessionExpired, rest))
            } else if tag == 1 {
                match <(SeqNo, SeqNo) as Wire>::parse(rest) {
                    Some(((got, floor), rest)) => Some(
                        (ApiErrorView::SequenceTooOld { got, floor }, rest),
                    ),
                    None => None,
                }
            } else if tag == 2 {
                Some((ApiErrorView::Unavailable, rest))
            } else if tag == 3 {
                match <(usize, usize) as Wire>::parse(rest) {
                    Some(((got, limit), rest)) => Some(
                        (ApiErrorView::TooLarge { got, limit }, rest),
                    ),
                    None => None,
                }
            } else if tag == 4 {
                match String::parse(rest) {
                    Some((why, rest)) => Some(
                        (ApiErrorView::NodeFailed(why), rest),
                    ),
                    None => None,
                }
            } else {
                None
            },
            None => None,
        }
    }

    proof fn lemma_read_back(m: ApiErrorView, tail: Seq<u8>) {
        match m {
            ApiErrorView::SessionExpired => {
                u32::lemma_read_back(0, tail);
            },
            ApiErrorView::SequenceTooOld { got, floor } => {
                let fields = <(SeqNo, SeqNo) as Wire>::encoding((got, floor));
                assert(Self::encoding(m) + tail =~= u32::encoding(1) + (fields + tail));
                u32::lemma_read_back(1, fields + tail);
                <(SeqNo, SeqNo) as Wire>::lemma_read_back((got, floor), tail);
            },
            ApiErrorView::Unavailable => {
                u32::lemma_read_back(2, tail);
            },
            ApiErrorView::TooLarge { got, limit } => {
                let fields = <(usize, usize) as Wire>::encoding((got, limit));
                assert(Self::encoding(m) + tail =~= u32::encoding(3) + (fields + tail));
                u32::lemma_read_back(3, fields + tail);
                <(usize, usize) as Wire>::lemma_read_back((got, limit), tail);
            },
            ApiErrorView::NodeFailed(why) => {
                let fields = String::encoding(why);
                assert(Self::encoding(m) + tail =~= u32::encoding(4) + (fields + tail));
                u32::lemma_read_back(4, fields + tail);
                String::lemma_read_back(why, tail);
            },
        }
    }

    proof fn lemma_extends(s: Seq<u8>, tail: Seq<u8>) {
        u32::lemma_extends(s, tail);
        let (tag, rest) = u32::parse(s)->0;
        if tag == 1 {
            <(SeqNo, SeqNo) as Wire>::lemma_extends(rest, tail);
            let left = (<(SeqNo, SeqNo) as Wire>::parse(rest)->0).1;
            assert(left =~= s.skip(s.len() - left.len()));
        }
        if tag == 3 {
            <(usize, usize) as Wire>::lemma_extends(rest, tail);
            let left = (<(usize, usize) as Wire>::parse(rest)->0).1;
            assert(left =~= s.skip(s.len() - left.len()));
        }
        if tag == 4 {
            String::lemma_extends(rest, tail);
            let left = (String::parse(rest)->0).1;
            assert(left =~= s.skip(s.len() - left.len()));
        }
    }

    fn put(&self, out: &mut Vec<u8>) {
        match self {
            ApiError::SessionExpired => {
                0u32.put(out);
            },
            ApiError::SequenceTooOld { got, floor } => {
                1u32.put(out);
                got.put(out);
                floor.put(out);
            },
            ApiError::Unavailable => {
                2u32.put(out);
            },
            ApiError::TooLarge { got, limit } => {
                3u32.put(out);
                got.put(out);
                limit.put(out);
            },
            ApiError::NodeFailed(why) => {
                4u32.put(out);
                why.put(out);
            },
        }
        proof {
            assert(out@ =~= old(out)@ + Self::encoding(self.model()));
        }
    }

    fn take(bytes: &[u8], pos: usize) -> (r: Result<(ApiError, usize), Malformed>) {
        match u32::take(bytes, pos) {
            Ok((tag, next)) => match tag {
                0 => Ok((ApiError::SessionExpired, next)),
                1 => match <(SeqNo, SeqNo) as Wire>::take(bytes, next) {
                    Ok(((got, floor), next)) => Ok((ApiError::SequenceTooOld { got, floor }, next)),
                    Err(e) => Err(e),
                },
                2 => Ok((ApiError::Unavailable, next)),
                3 => match <(usize, usize) as Wire>::take(bytes, next) {
                    Ok(((got, limit), next)) => Ok((ApiError::TooLarge { got, limit }, next)),
                    Err(e) => Err(e),
                },
                4 => match String::take(bytes, next) {
                    Ok((why, next)) => Ok((ApiError::NodeFailed(why), next)),
                    Err(e) => Err(e),
                },
                _ => Err(Malformed::Variant(tag)),
            },
            Err(e) => Err(e),
        }
    }

    fn duplicate(&self) -> (r: ApiError) {
        match self {
            ApiError::SessionExpired => ApiError::SessionExpired,
            ApiError::SequenceTooOld { got, floor } => ApiError::SequenceTooOld { got: got.duplicate(), floor: floor.duplicate() },
            ApiError::Unavailable => ApiError::Unavailable,
            ApiError::TooLarge { got, limit } => ApiError::TooLarge { got: got.duplicate(), limit: limit.duplicate() },
            ApiError::NodeFailed(why) => ApiError::NodeFailed(why.duplicate()),
        }
    }
}

/// What an [`ApiError`] says.
pub open spec fn api_error_text(e: ApiErrorView) -> Seq<char> {
    match e {
        ApiErrorView::SessionExpired => "session expired or unknown"@,
        ApiErrorView::SequenceTooOld { got, floor } => "sequence number "@ + decimal(got as nat)
            + " is below the session's floor "@ + decimal(floor as nat),
        ApiErrorView::Unavailable => "no quorum available"@,
        ApiErrorView::TooLarge { got, limit } => "request too large: "@ + decimal(got as nat)
            + " bytes against a limit of "@ + decimal(limit as nat),
        ApiErrorView::NodeFailed(why) => "this node has failed and is refusing requests: "@ + why,
    }
}

impl ApiError {
    /// What went wrong, for a person.
    pub fn message(&self) -> (r: String)
        ensures
            r@ == api_error_text(self@),
    {
        let mut out = String::new();
        match self {
            ApiError::SessionExpired => {
                out.append("session expired or unknown");
            },
            ApiError::SequenceTooOld { got, floor } => {
                out.append("sequence number ");
                push_decimal(&mut out, *got);
                out.append(" is below the session's floor ");
                push_decimal(&mut out, *floor);
            },
            ApiError::Unavailable => {
                out.append("no quorum available");
            },
            ApiError::TooLarge { got, limit } => {
                out.append("request too large: ");
                push_decimal(&mut out, *got as u64);
                out.append(" bytes against a limit of ");
                push_decimal(&mut out, *limit as u64);
            },
            ApiError::NodeFailed(why) => {
                out.append("this node has failed and is refusing requests: ");
                out.append(why.as_str());
            },
        }
        proof {
            assert(out@ =~= api_error_text(self@));
        }
        out
    }
}

/// What a server sends back.
#[derive(Debug, PartialEq, Eq)]
pub enum Response {
    Registered {
        client: ClientId,
    },
    /// A `Put` or `Delete` that applied, or a `Cas` that took effect.
    Applied,
    /// A `Cas` whose `expect` did not match. Carries what was actually there.
    CasMismatch {
        actual: Option<Vec<u8>>,
    },
    Value(Option<Vec<u8>>),
    Scanned(Vec<(Vec<u8>, Vec<u8>)>),
    /// This node is not the leader. `leader` is a hint and may be stale or absent.
    NotLeader {
        leader: Option<NodeId>,
    },
    Error(ApiError),
    /// What a counter reads after an `Incr`.
    Counter(i64),
}

/// What a [`Response`] stands for.
pub enum ResponseView {
    Registered {
        client: ClientId,
    },
    Applied,
    CasMismatch {
        actual: Option<Seq<u8>>,
    },
    Value(Option<Seq<u8>>),
    Scanned(Seq<(Seq<u8>, Seq<u8>)>),
    NotLeader {
        leader: Option<NodeId>,
    },
    Error(ApiErrorView),
    Counter(i64),
}

impl View for Response {
    type V = ResponseView;

    open spec fn view(&self) -> ResponseView {
        match self {
            Response::Registered { client } => ResponseView::Registered { client: client.model() },
            Response::Applied => ResponseView::Applied,
            Response::CasMismatch { actual } => ResponseView::CasMismatch { actual: actual.model() },
            Response::Value(value) => ResponseView::Value(value.model()),
            Response::Scanned(rows) => ResponseView::Scanned(rows.model()),
            Response::NotLeader { leader } => ResponseView::NotLeader { leader: leader.model() },
            Response::Error(error) => ResponseView::Error(error.model()),
            Response::Counter(value) => ResponseView::Counter(value.model()),
        }
    }
}

impl Clone for Response {
    fn clone(&self) -> (r: Self)
        ensures
            r@ == self@,
    {
        self.duplicate()
    }
}

impl Wire for Response {
    type Model = ResponseView;

    open spec fn model(&self) -> ResponseView {
        self@
    }

    open spec fn fits(m: ResponseView) -> bool {
        match m {
            ResponseView::Registered { client } => ClientId::fits(client),
            ResponseView::Applied => true,
            ResponseView::CasMismatch { actual } => <Option<Vec<u8>> as Wire>::fits(actual),
            ResponseView::Value(value) => <Option<Vec<u8>> as Wire>::fits(value),
            ResponseView::Scanned(rows) => <Vec<(Vec<u8>, Vec<u8>)> as Wire>::fits(rows),
            ResponseView::NotLeader { leader } => <Option<NodeId> as Wire>::fits(leader),
            ResponseView::Error(error) => ApiError::fits(error),
            ResponseView::Counter(value) => i64::fits(value),
        }
    }

    open spec fn encoding(m: ResponseView) -> Seq<u8> {
        match m {
            ResponseView::Registered { client } => u32::encoding(0) + ClientId::encoding(
                client,
            ),
            ResponseView::Applied => u32::encoding(1),
            ResponseView::CasMismatch { actual } => u32::encoding(2) + <Option<Vec<u8>> as Wire>::encoding(
                actual,
            ),
            ResponseView::Value(value) => u32::encoding(3) + <Option<Vec<u8>> as Wire>::encoding(
                value,
            ),
            ResponseView::Scanned(rows) => u32::encoding(4) + <Vec<(Vec<u8>, Vec<u8>)> as Wire>::encoding(
                rows,
            ),
            ResponseView::NotLeader { leader } => u32::encoding(5) + <Option<NodeId> as Wire>::encoding(
                leader,
            ),
            ResponseView::Error(error) => u32::encoding(6) + ApiError::encoding(
                error,
            ),
            ResponseView::Counter(value) => u32::encoding(7) + i64::encoding(
                value,
            ),
        }
    }

    open spec fn parse(s: Seq<u8>) -> Option<(ResponseView, Seq<u8>)> {
        match u32::parse(s) {
            Some((tag, rest)) => if tag == 0 {
                match ClientId::parse(rest) {
                    Some((client, rest)) => Some(
                        (ResponseView::Registered { client }, rest),
                    ),
                    None => None,
                }
            } else if tag == 1 {
                Some((ResponseView::Applied, rest))
            } else if tag == 2 {
                match <Option<Vec<u8>> as Wire>::parse(rest) {
                    Some((actual, rest)) => Some(
                        (ResponseView::CasMismatch { actual }, rest),
                    ),
                    None => None,
                }
            } else if tag == 3 {
                match <Option<Vec<u8>> as Wire>::parse(rest) {
                    Some((value, rest)) => Some(
                        (ResponseView::Value(value), rest),
                    ),
                    None => None,
                }
            } else if tag == 4 {
                match <Vec<(Vec<u8>, Vec<u8>)> as Wire>::parse(rest) {
                    Some((rows, rest)) => Some(
                        (ResponseView::Scanned(rows), rest),
                    ),
                    None => None,
                }
            } else if tag == 5 {
                match <Option<NodeId> as Wire>::parse(rest) {
                    Some((leader, rest)) => Some(
                        (ResponseView::NotLeader { leader }, rest),
                    ),
                    None => None,
                }
            } else if tag == 6 {
                match ApiError::parse(rest) {
                    Some((error, rest)) => Some(
                        (ResponseView::Error(error), rest),
                    ),
                    None => None,
                }
            } else if tag == 7 {
                match i64::parse(rest) {
                    Some((value, rest)) => Some(
                        (ResponseView::Counter(value), rest),
                    ),
                    None => None,
                }
            } else {
                None
            },
            None => None,
        }
    }

    proof fn lemma_read_back(m: ResponseView, tail: Seq<u8>) {
        match m {
            ResponseView::Registered { client } => {
                let fields = ClientId::encoding(client);
                assert(Self::encoding(m) + tail =~= u32::encoding(0) + (fields + tail));
                u32::lemma_read_back(0, fields + tail);
                ClientId::lemma_read_back(client, tail);
            },
            ResponseView::Applied => {
                u32::lemma_read_back(1, tail);
            },
            ResponseView::CasMismatch { actual } => {
                let fields = <Option<Vec<u8>> as Wire>::encoding(actual);
                assert(Self::encoding(m) + tail =~= u32::encoding(2) + (fields + tail));
                u32::lemma_read_back(2, fields + tail);
                <Option<Vec<u8>> as Wire>::lemma_read_back(actual, tail);
            },
            ResponseView::Value(value) => {
                let fields = <Option<Vec<u8>> as Wire>::encoding(value);
                assert(Self::encoding(m) + tail =~= u32::encoding(3) + (fields + tail));
                u32::lemma_read_back(3, fields + tail);
                <Option<Vec<u8>> as Wire>::lemma_read_back(value, tail);
            },
            ResponseView::Scanned(rows) => {
                let fields = <Vec<(Vec<u8>, Vec<u8>)> as Wire>::encoding(rows);
                assert(Self::encoding(m) + tail =~= u32::encoding(4) + (fields + tail));
                u32::lemma_read_back(4, fields + tail);
                <Vec<(Vec<u8>, Vec<u8>)> as Wire>::lemma_read_back(rows, tail);
            },
            ResponseView::NotLeader { leader } => {
                let fields = <Option<NodeId> as Wire>::encoding(leader);
                assert(Self::encoding(m) + tail =~= u32::encoding(5) + (fields + tail));
                u32::lemma_read_back(5, fields + tail);
                <Option<NodeId> as Wire>::lemma_read_back(leader, tail);
            },
            ResponseView::Error(error) => {
                let fields = ApiError::encoding(error);
                assert(Self::encoding(m) + tail =~= u32::encoding(6) + (fields + tail));
                u32::lemma_read_back(6, fields + tail);
                ApiError::lemma_read_back(error, tail);
            },
            ResponseView::Counter(value) => {
                let fields = i64::encoding(value);
                assert(Self::encoding(m) + tail =~= u32::encoding(7) + (fields + tail));
                u32::lemma_read_back(7, fields + tail);
                i64::lemma_read_back(value, tail);
            },
        }
    }

    proof fn lemma_extends(s: Seq<u8>, tail: Seq<u8>) {
        u32::lemma_extends(s, tail);
        let (tag, rest) = u32::parse(s)->0;
        if tag == 0 {
            ClientId::lemma_extends(rest, tail);
            let left = (ClientId::parse(rest)->0).1;
            assert(left =~= s.skip(s.len() - left.len()));
        }
        if tag == 2 {
            <Option<Vec<u8>> as Wire>::lemma_extends(rest, tail);
            let left = (<Option<Vec<u8>> as Wire>::parse(rest)->0).1;
            assert(left =~= s.skip(s.len() - left.len()));
        }
        if tag == 3 {
            <Option<Vec<u8>> as Wire>::lemma_extends(rest, tail);
            let left = (<Option<Vec<u8>> as Wire>::parse(rest)->0).1;
            assert(left =~= s.skip(s.len() - left.len()));
        }
        if tag == 4 {
            <Vec<(Vec<u8>, Vec<u8>)> as Wire>::lemma_extends(rest, tail);
            let left = (<Vec<(Vec<u8>, Vec<u8>)> as Wire>::parse(rest)->0).1;
            assert(left =~= s.skip(s.len() - left.len()));
        }
        if tag == 5 {
            <Option<NodeId> as Wire>::lemma_extends(rest, tail);
            let left = (<Option<NodeId> as Wire>::parse(rest)->0).1;
            assert(left =~= s.skip(s.len() - left.len()));
        }
        if tag == 6 {
            ApiError::lemma_extends(rest, tail);
            let left = (ApiError::parse(rest)->0).1;
            assert(left =~= s.skip(s.len() - left.len()));
        }
        if tag == 7 {
            i64::lemma_extends(rest, tail);
            let left = (i64::parse(rest)->0).1;
            assert(left =~= s.skip(s.len() - left.len()));
        }
    }

    fn put(&self, out: &mut Vec<u8>) {
        match self {
            Response::Registered { client } => {
                0u32.put(out);
                client.put(out);
            },
            Response::Applied => {
                1u32.put(out);
            },
            Response::CasMismatch { actual } => {
                2u32.put(out);
                actual.put(out);
            },
            Response::Value(value) => {
                3u32.put(out);
                value.put(out);
            },
            Response::Scanned(rows) => {
                4u32.put(out);
                rows.put(out);
            },
            Response::NotLeader { leader } => {
                5u32.put(out);
                leader.put(out);
            },
            Response::Error(error) => {
                6u32.put(out);
                error.put(out);
            },
            Response::Counter(value) => {
                7u32.put(out);
                value.put(out);
            },
        }
        proof {
            assert(out@ =~= old(out)@ + Self::encoding(self.model()));
        }
    }

    fn take(bytes: &[u8], pos: usize) -> (r: Result<(Response, usize), Malformed>) {
        match u32::take(bytes, pos) {
            Ok((tag, next)) => match tag {
                0 => match ClientId::take(bytes, next) {
                    Ok((client, next)) => Ok((Response::Registered { client }, next)),
                    Err(e) => Err(e),
                },
                1 => Ok((Response::Applied, next)),
                2 => match <Option<Vec<u8>> as Wire>::take(bytes, next) {
                    Ok((actual, next)) => Ok((Response::CasMismatch { actual }, next)),
                    Err(e) => Err(e),
                },
                3 => match <Option<Vec<u8>> as Wire>::take(bytes, next) {
                    Ok((value, next)) => Ok((Response::Value(value), next)),
                    Err(e) => Err(e),
                },
                4 => match <Vec<(Vec<u8>, Vec<u8>)> as Wire>::take(bytes, next) {
                    Ok((rows, next)) => Ok((Response::Scanned(rows), next)),
                    Err(e) => Err(e),
                },
                5 => match <Option<NodeId> as Wire>::take(bytes, next) {
                    Ok((leader, next)) => Ok((Response::NotLeader { leader }, next)),
                    Err(e) => Err(e),
                },
                6 => match ApiError::take(bytes, next) {
                    Ok((error, next)) => Ok((Response::Error(error), next)),
                    Err(e) => Err(e),
                },
                7 => match i64::take(bytes, next) {
                    Ok((value, next)) => Ok((Response::Counter(value), next)),
                    Err(e) => Err(e),
                },
                _ => Err(Malformed::Variant(tag)),
            },
            Err(e) => Err(e),
        }
    }

    fn duplicate(&self) -> (r: Response) {
        match self {
            Response::Registered { client } => Response::Registered { client: client.duplicate() },
            Response::Applied => Response::Applied,
            Response::CasMismatch { actual } => Response::CasMismatch { actual: actual.duplicate() },
            Response::Value(value) => Response::Value(value.duplicate()),
            Response::Scanned(rows) => Response::Scanned(rows.duplicate()),
            Response::NotLeader { leader } => Response::NotLeader { leader: leader.duplicate() },
            Response::Error(error) => Response::Error(error.duplicate()),
            Response::Counter(value) => Response::Counter(value.duplicate()),
        }
    }
}

/// What a proposal does when it is applied.
#[derive(Debug, PartialEq, Eq)]
pub enum ProposalBody {
    Register {
        nonce: u64,
    },
    Command(Command),
    KeepAlive,
}

/// What a [`ProposalBody`] stands for.
pub enum ProposalBodyView {
    Register {
        nonce: u64,
    },
    Command(CommandView),
    KeepAlive,
}

impl View for ProposalBody {
    type V = ProposalBodyView;

    open spec fn view(&self) -> ProposalBodyView {
        match self {
            ProposalBody::Register { nonce } => ProposalBodyView::Register { nonce: nonce.model() },
            ProposalBody::Command(command) => ProposalBodyView::Command(command.model()),
            ProposalBody::KeepAlive => ProposalBodyView::KeepAlive,
        }
    }
}

impl Clone for ProposalBody {
    fn clone(&self) -> (r: Self)
        ensures
            r@ == self@,
    {
        self.duplicate()
    }
}

impl Wire for ProposalBody {
    type Model = ProposalBodyView;

    open spec fn model(&self) -> ProposalBodyView {
        self@
    }

    open spec fn fits(m: ProposalBodyView) -> bool {
        match m {
            ProposalBodyView::Register { nonce } => u64::fits(nonce),
            ProposalBodyView::Command(command) => Command::fits(command),
            ProposalBodyView::KeepAlive => true,
        }
    }

    open spec fn encoding(m: ProposalBodyView) -> Seq<u8> {
        match m {
            ProposalBodyView::Register { nonce } => u32::encoding(0) + u64::encoding(
                nonce,
            ),
            ProposalBodyView::Command(command) => u32::encoding(1) + Command::encoding(
                command,
            ),
            ProposalBodyView::KeepAlive => u32::encoding(2),
        }
    }

    open spec fn parse(s: Seq<u8>) -> Option<(ProposalBodyView, Seq<u8>)> {
        match u32::parse(s) {
            Some((tag, rest)) => if tag == 0 {
                match u64::parse(rest) {
                    Some((nonce, rest)) => Some(
                        (ProposalBodyView::Register { nonce }, rest),
                    ),
                    None => None,
                }
            } else if tag == 1 {
                match Command::parse(rest) {
                    Some((command, rest)) => Some(
                        (ProposalBodyView::Command(command), rest),
                    ),
                    None => None,
                }
            } else if tag == 2 {
                Some((ProposalBodyView::KeepAlive, rest))
            } else {
                None
            },
            None => None,
        }
    }

    proof fn lemma_read_back(m: ProposalBodyView, tail: Seq<u8>) {
        match m {
            ProposalBodyView::Register { nonce } => {
                let fields = u64::encoding(nonce);
                assert(Self::encoding(m) + tail =~= u32::encoding(0) + (fields + tail));
                u32::lemma_read_back(0, fields + tail);
                u64::lemma_read_back(nonce, tail);
            },
            ProposalBodyView::Command(command) => {
                let fields = Command::encoding(command);
                assert(Self::encoding(m) + tail =~= u32::encoding(1) + (fields + tail));
                u32::lemma_read_back(1, fields + tail);
                Command::lemma_read_back(command, tail);
            },
            ProposalBodyView::KeepAlive => {
                u32::lemma_read_back(2, tail);
            },
        }
    }

    proof fn lemma_extends(s: Seq<u8>, tail: Seq<u8>) {
        u32::lemma_extends(s, tail);
        let (tag, rest) = u32::parse(s)->0;
        if tag == 0 {
            u64::lemma_extends(rest, tail);
            let left = (u64::parse(rest)->0).1;
            assert(left =~= s.skip(s.len() - left.len()));
        }
        if tag == 1 {
            Command::lemma_extends(rest, tail);
            let left = (Command::parse(rest)->0).1;
            assert(left =~= s.skip(s.len() - left.len()));
        }
    }

    fn put(&self, out: &mut Vec<u8>) {
        match self {
            ProposalBody::Register { nonce } => {
                0u32.put(out);
                nonce.put(out);
            },
            ProposalBody::Command(command) => {
                1u32.put(out);
                command.put(out);
            },
            ProposalBody::KeepAlive => {
                2u32.put(out);
            },
        }
        proof {
            assert(out@ =~= old(out)@ + Self::encoding(self.model()));
        }
    }

    fn take(bytes: &[u8], pos: usize) -> (r: Result<(ProposalBody, usize), Malformed>) {
        match u32::take(bytes, pos) {
            Ok((tag, next)) => match tag {
                0 => match u64::take(bytes, next) {
                    Ok((nonce, next)) => Ok((ProposalBody::Register { nonce }, next)),
                    Err(e) => Err(e),
                },
                1 => match Command::take(bytes, next) {
                    Ok((command, next)) => Ok((ProposalBody::Command(command), next)),
                    Err(e) => Err(e),
                },
                2 => Ok((ProposalBody::KeepAlive, next)),
                _ => Err(Malformed::Variant(tag)),
            },
            Err(e) => Err(e),
        }
    }

    fn duplicate(&self) -> (r: ProposalBody) {
        match self {
            ProposalBody::Register { nonce } => ProposalBody::Register { nonce: nonce.duplicate() },
            ProposalBody::Command(command) => ProposalBody::Command(command.duplicate()),
            ProposalBody::KeepAlive => ProposalBody::KeepAlive,
        }
    }
}

/// What the leader puts in a log entry.
#[derive(Debug, PartialEq, Eq)]
pub struct Proposal {
    /// The leader's clock when it proposed this.
    pub stamped_ms: u64,
    /// The session pair the command goes under, when it goes under one.
    pub session: Option<(ClientId, SeqNo)>,
    pub body: ProposalBody,
}

/// What a [`Proposal`] stands for.
pub struct ProposalView {
    pub stamped_ms: u64,
    pub session: Option<(ClientId, SeqNo)>,
    pub body: ProposalBodyView,
}

impl View for Proposal {
    type V = ProposalView;

    open spec fn view(&self) -> ProposalView {
        ProposalView {
            stamped_ms: self.stamped_ms.model(),
            session: self.session.model(),
            body: self.body.model(),
        }
    }
}

impl Clone for Proposal {
    fn clone(&self) -> (r: Self)
        ensures
            r@ == self@,
    {
        self.duplicate()
    }
}

impl Wire for Proposal {
    type Model = ProposalView;

    open spec fn model(&self) -> ProposalView {
        self@
    }

    open spec fn fits(m: ProposalView) -> bool {
        u64::fits(m.stamped_ms) && <Option<(ClientId, SeqNo)> as Wire>::fits(m.session) && ProposalBody::fits(m.body)
    }

    open spec fn encoding(m: ProposalView) -> Seq<u8> {
        <(u64, (Option<(ClientId, SeqNo)>, ProposalBody)) as Wire>::encoding((m.stamped_ms, (m.session, m.body)))
    }

    open spec fn parse(s: Seq<u8>) -> Option<(ProposalView, Seq<u8>)> {
        match <(u64, (Option<(ClientId, SeqNo)>, ProposalBody)) as Wire>::parse(s) {
            Some(((stamped_ms, (session, body)), rest)) => Some((ProposalView { stamped_ms, session, body }, rest)),
            None => None,
        }
    }

    proof fn lemma_read_back(m: ProposalView, tail: Seq<u8>) {
        <(u64, (Option<(ClientId, SeqNo)>, ProposalBody)) as Wire>::lemma_read_back((m.stamped_ms, (m.session, m.body)), tail);
    }

    proof fn lemma_extends(s: Seq<u8>, tail: Seq<u8>) {
        <(u64, (Option<(ClientId, SeqNo)>, ProposalBody)) as Wire>::lemma_extends(s, tail);
    }

    fn put(&self, out: &mut Vec<u8>) {
        self.stamped_ms.put(out);
        self.session.put(out);
        self.body.put(out);
        proof {
            assert(out@ =~= old(out)@ + Self::encoding(self.model()));
        }
    }

    fn take(bytes: &[u8], pos: usize) -> (r: Result<(Proposal, usize), Malformed>) {
        match <(u64, (Option<(ClientId, SeqNo)>, ProposalBody)) as Wire>::take(bytes, pos) {
            Ok(((stamped_ms, (session, body)), next)) => Ok((Proposal { stamped_ms, session, body }, next)),
            Err(e) => Err(e),
        }
    }

    fn duplicate(&self) -> (r: Proposal) {
        Proposal {
            stamped_ms: self.stamped_ms.duplicate(),
            session: self.session.duplicate(),
            body: self.body.duplicate(),
        }
    }
}

/// A body and the label it travels under.
#[derive(Debug, PartialEq, Eq)]
pub struct Envelope<T> {
    pub id: RequestId,
    pub body: T,
}

impl<T: Wire> Envelope<T> {
    pub fn new(id: RequestId, body: T) -> (r: Self)
        ensures
            r.id == id,
            r.body == body,
    {
        Envelope { id, body }
    }
}

impl<T: Wire> Wire for Envelope<T> {
    type Model = (RequestId, T::Model);

    open spec fn model(&self) -> (RequestId, T::Model) {
        (self.id, self.body.model())
    }

    open spec fn fits(m: (RequestId, T::Model)) -> bool {
        <(RequestId, T) as Wire>::fits(m)
    }

    open spec fn encoding(m: (RequestId, T::Model)) -> Seq<u8> {
        <(RequestId, T) as Wire>::encoding(m)
    }

    open spec fn parse(s: Seq<u8>) -> Option<((RequestId, T::Model), Seq<u8>)> {
        <(RequestId, T) as Wire>::parse(s)
    }

    proof fn lemma_read_back(m: (RequestId, T::Model), tail: Seq<u8>) {
        <(RequestId, T) as Wire>::lemma_read_back(m, tail);
    }

    proof fn lemma_extends(s: Seq<u8>, tail: Seq<u8>) {
        <(RequestId, T) as Wire>::lemma_extends(s, tail);
    }

    fn put(&self, out: &mut Vec<u8>) {
        self.id.put(out);
        self.body.put(out);
        proof {
            assert(out@ =~= old(out)@ + Self::encoding(self.model()));
        }
    }

    fn take(bytes: &[u8], pos: usize) -> (r: Result<(Envelope<T>, usize), Malformed>) {
        match <(RequestId, T) as Wire>::take(bytes, pos) {
            Ok(((id, body), next)) => Ok((Envelope { id, body }, next)),
            Err(e) => Err(e),
        }
    }

    fn duplicate(&self) -> (r: Envelope<T>) {
        Envelope { id: self.id, body: self.body.duplicate() }
    }
}

// ------------------------------------------------------------------- peers

/// What one node sends another.
///
/// Peer traffic and client traffic are separate enums because they are separate
/// protocols with separate compatibility stories.
#[derive(Debug, PartialEq, Eq)]
pub enum Peer {
    /// A consensus message, straight from the core.
    Raft(Message),
    /// One chunk of a snapshot stream. Kept out of `Raft` because a chunk is bulk
    /// data on its own flow-control regime.
    SnapshotChunk {
        index: Index,
        term: Term,
        offset: u64,
        last: bool,
        data: Vec<u8>,
    },
    /// Ask for a snapshot, from the verified position of each of its files on.
    SnapshotRequest {
        index: Index,
        term: Term,
        position: Vec<(String, u64)>,
    },
    /// One chunk of one file of a snapshot.
    SnapshotFile {
        index: Index,
        term: Term,
        file: String,
        offset: u64,
        crc: u32,
        last: bool,
        data: Vec<u8>,
    },
    /// The snapshot is whole, and this is what its state digests to.
    SnapshotComplete {
        index: Index,
        term: Term,
        digest: u64,
    },
    /// Whether the snapshot was installed.
    SnapshotStatus {
        index: Index,
        term: Term,
        ok: bool,
    },
}

/// What a [`Peer`] stands for.
pub enum PeerView {
    Raft(MessageView),
    SnapshotChunk {
        index: Index,
        term: Term,
        offset: u64,
        last: bool,
        data: Seq<u8>,
    },
    SnapshotRequest {
        index: Index,
        term: Term,
        position: Seq<(Seq<char>, u64)>,
    },
    SnapshotFile {
        index: Index,
        term: Term,
        file: Seq<char>,
        offset: u64,
        crc: u32,
        last: bool,
        data: Seq<u8>,
    },
    SnapshotComplete {
        index: Index,
        term: Term,
        digest: u64,
    },
    SnapshotStatus {
        index: Index,
        term: Term,
        ok: bool,
    },
}

impl View for Peer {
    type V = PeerView;

    open spec fn view(&self) -> PeerView {
        match self {
            Peer::Raft(message) => PeerView::Raft(message.model()),
            Peer::SnapshotChunk { index, term, offset, last, data } => PeerView::SnapshotChunk { index: index.model(), term: term.model(), offset: offset.model(), last: last.model(), data: data.model() },
            Peer::SnapshotRequest { index, term, position } => PeerView::SnapshotRequest { index: index.model(), term: term.model(), position: position.model() },
            Peer::SnapshotFile { index, term, file, offset, crc, last, data } => PeerView::SnapshotFile { index: index.model(), term: term.model(), file: file.model(), offset: offset.model(), crc: crc.model(), last: last.model(), data: data.model() },
            Peer::SnapshotComplete { index, term, digest } => PeerView::SnapshotComplete { index: index.model(), term: term.model(), digest: digest.model() },
            Peer::SnapshotStatus { index, term, ok } => PeerView::SnapshotStatus { index: index.model(), term: term.model(), ok: ok.model() },
        }
    }
}

impl Clone for Peer {
    fn clone(&self) -> (r: Self)
        ensures
            r@ == self@,
    {
        self.duplicate()
    }
}

impl Wire for Peer {
    type Model = PeerView;

    open spec fn model(&self) -> PeerView {
        self@
    }

    open spec fn fits(m: PeerView) -> bool {
        match m {
            PeerView::Raft(message) => Message::fits(message),
            PeerView::SnapshotChunk { index, term, offset, last, data } => Index::fits(index) && Term::fits(term) && u64::fits(offset) && bool::fits(last) && <Vec<u8> as Wire>::fits(data),
            PeerView::SnapshotRequest { index, term, position } => Index::fits(index) && Term::fits(term) && <Vec<(String, u64)> as Wire>::fits(position),
            PeerView::SnapshotFile { index, term, file, offset, crc, last, data } => Index::fits(index) && Term::fits(term) && String::fits(file) && u64::fits(offset) && u32::fits(crc) && bool::fits(last) && <Vec<u8> as Wire>::fits(data),
            PeerView::SnapshotComplete { index, term, digest } => Index::fits(index) && Term::fits(term) && u64::fits(digest),
            PeerView::SnapshotStatus { index, term, ok } => Index::fits(index) && Term::fits(term) && bool::fits(ok),
        }
    }

    open spec fn encoding(m: PeerView) -> Seq<u8> {
        match m {
            PeerView::Raft(message) => u32::encoding(0) + Message::encoding(
                message,
            ),
            PeerView::SnapshotChunk { index, term, offset, last, data } => u32::encoding(1) + <(Index, (Term, (u64, (bool, Vec<u8>)))) as Wire>::encoding(
                (index, (term, (offset, (last, data)))),
            ),
            PeerView::SnapshotRequest { index, term, position } => u32::encoding(2) + <(Index, (Term, Vec<(String, u64)>)) as Wire>::encoding(
                (index, (term, position)),
            ),
            PeerView::SnapshotFile { index, term, file, offset, crc, last, data } => u32::encoding(3) + <(Index, (Term, (String, (u64, (u32, (bool, Vec<u8>)))))) as Wire>::encoding(
                (index, (term, (file, (offset, (crc, (last, data)))))),
            ),
            PeerView::SnapshotComplete { index, term, digest } => u32::encoding(4) + <(Index, (Term, u64)) as Wire>::encoding(
                (index, (term, digest)),
            ),
            PeerView::SnapshotStatus { index, term, ok } => u32::encoding(5) + <(Index, (Term, bool)) as Wire>::encoding(
                (index, (term, ok)),
            ),
        }
    }

    open spec fn parse(s: Seq<u8>) -> Option<(PeerView, Seq<u8>)> {
        match u32::parse(s) {
            Some((tag, rest)) => if tag == 0 {
                match Message::parse(rest) {
                    Some((message, rest)) => Some(
                        (PeerView::Raft(message), rest),
                    ),
                    None => None,
                }
            } else if tag == 1 {
                match <(Index, (Term, (u64, (bool, Vec<u8>)))) as Wire>::parse(rest) {
                    Some(((index, (term, (offset, (last, data)))), rest)) => Some(
                        (PeerView::SnapshotChunk { index, term, offset, last, data }, rest),
                    ),
                    None => None,
                }
            } else if tag == 2 {
                match <(Index, (Term, Vec<(String, u64)>)) as Wire>::parse(rest) {
                    Some(((index, (term, position)), rest)) => Some(
                        (PeerView::SnapshotRequest { index, term, position }, rest),
                    ),
                    None => None,
                }
            } else if tag == 3 {
                match <(Index, (Term, (String, (u64, (u32, (bool, Vec<u8>)))))) as Wire>::parse(rest) {
                    Some(((index, (term, (file, (offset, (crc, (last, data)))))), rest)) => Some(
                        (PeerView::SnapshotFile { index, term, file, offset, crc, last, data }, rest),
                    ),
                    None => None,
                }
            } else if tag == 4 {
                match <(Index, (Term, u64)) as Wire>::parse(rest) {
                    Some(((index, (term, digest)), rest)) => Some(
                        (PeerView::SnapshotComplete { index, term, digest }, rest),
                    ),
                    None => None,
                }
            } else if tag == 5 {
                match <(Index, (Term, bool)) as Wire>::parse(rest) {
                    Some(((index, (term, ok)), rest)) => Some(
                        (PeerView::SnapshotStatus { index, term, ok }, rest),
                    ),
                    None => None,
                }
            } else {
                None
            },
            None => None,
        }
    }

    proof fn lemma_read_back(m: PeerView, tail: Seq<u8>) {
        match m {
            PeerView::Raft(message) => {
                let fields = Message::encoding(message);
                assert(Self::encoding(m) + tail =~= u32::encoding(0) + (fields + tail));
                u32::lemma_read_back(0, fields + tail);
                Message::lemma_read_back(message, tail);
            },
            PeerView::SnapshotChunk { index, term, offset, last, data } => {
                let fields = <(Index, (Term, (u64, (bool, Vec<u8>)))) as Wire>::encoding((index, (term, (offset, (last, data)))));
                assert(Self::encoding(m) + tail =~= u32::encoding(1) + (fields + tail));
                u32::lemma_read_back(1, fields + tail);
                <(Index, (Term, (u64, (bool, Vec<u8>)))) as Wire>::lemma_read_back((index, (term, (offset, (last, data)))), tail);
            },
            PeerView::SnapshotRequest { index, term, position } => {
                let fields = <(Index, (Term, Vec<(String, u64)>)) as Wire>::encoding((index, (term, position)));
                assert(Self::encoding(m) + tail =~= u32::encoding(2) + (fields + tail));
                u32::lemma_read_back(2, fields + tail);
                <(Index, (Term, Vec<(String, u64)>)) as Wire>::lemma_read_back((index, (term, position)), tail);
            },
            PeerView::SnapshotFile { index, term, file, offset, crc, last, data } => {
                let fields = <(Index, (Term, (String, (u64, (u32, (bool, Vec<u8>)))))) as Wire>::encoding((index, (term, (file, (offset, (crc, (last, data)))))));
                assert(Self::encoding(m) + tail =~= u32::encoding(3) + (fields + tail));
                u32::lemma_read_back(3, fields + tail);
                <(Index, (Term, (String, (u64, (u32, (bool, Vec<u8>)))))) as Wire>::lemma_read_back((index, (term, (file, (offset, (crc, (last, data)))))), tail);
            },
            PeerView::SnapshotComplete { index, term, digest } => {
                let fields = <(Index, (Term, u64)) as Wire>::encoding((index, (term, digest)));
                assert(Self::encoding(m) + tail =~= u32::encoding(4) + (fields + tail));
                u32::lemma_read_back(4, fields + tail);
                <(Index, (Term, u64)) as Wire>::lemma_read_back((index, (term, digest)), tail);
            },
            PeerView::SnapshotStatus { index, term, ok } => {
                let fields = <(Index, (Term, bool)) as Wire>::encoding((index, (term, ok)));
                assert(Self::encoding(m) + tail =~= u32::encoding(5) + (fields + tail));
                u32::lemma_read_back(5, fields + tail);
                <(Index, (Term, bool)) as Wire>::lemma_read_back((index, (term, ok)), tail);
            },
        }
    }

    proof fn lemma_extends(s: Seq<u8>, tail: Seq<u8>) {
        u32::lemma_extends(s, tail);
        let (tag, rest) = u32::parse(s)->0;
        if tag == 0 {
            Message::lemma_extends(rest, tail);
            let left = (Message::parse(rest)->0).1;
            assert(left =~= s.skip(s.len() - left.len()));
        }
        if tag == 1 {
            <(Index, (Term, (u64, (bool, Vec<u8>)))) as Wire>::lemma_extends(rest, tail);
            let left = (<(Index, (Term, (u64, (bool, Vec<u8>)))) as Wire>::parse(rest)->0).1;
            assert(left =~= s.skip(s.len() - left.len()));
        }
        if tag == 2 {
            <(Index, (Term, Vec<(String, u64)>)) as Wire>::lemma_extends(rest, tail);
            let left = (<(Index, (Term, Vec<(String, u64)>)) as Wire>::parse(rest)->0).1;
            assert(left =~= s.skip(s.len() - left.len()));
        }
        if tag == 3 {
            <(Index, (Term, (String, (u64, (u32, (bool, Vec<u8>)))))) as Wire>::lemma_extends(rest, tail);
            let left = (<(Index, (Term, (String, (u64, (u32, (bool, Vec<u8>)))))) as Wire>::parse(rest)->0).1;
            assert(left =~= s.skip(s.len() - left.len()));
        }
        if tag == 4 {
            <(Index, (Term, u64)) as Wire>::lemma_extends(rest, tail);
            let left = (<(Index, (Term, u64)) as Wire>::parse(rest)->0).1;
            assert(left =~= s.skip(s.len() - left.len()));
        }
        if tag == 5 {
            <(Index, (Term, bool)) as Wire>::lemma_extends(rest, tail);
            let left = (<(Index, (Term, bool)) as Wire>::parse(rest)->0).1;
            assert(left =~= s.skip(s.len() - left.len()));
        }
    }

    fn put(&self, out: &mut Vec<u8>) {
        match self {
            Peer::Raft(message) => {
                0u32.put(out);
                message.put(out);
            },
            Peer::SnapshotChunk { index, term, offset, last, data } => {
                1u32.put(out);
                index.put(out);
                term.put(out);
                offset.put(out);
                last.put(out);
                data.put(out);
            },
            Peer::SnapshotRequest { index, term, position } => {
                2u32.put(out);
                index.put(out);
                term.put(out);
                position.put(out);
            },
            Peer::SnapshotFile { index, term, file, offset, crc, last, data } => {
                3u32.put(out);
                index.put(out);
                term.put(out);
                file.put(out);
                offset.put(out);
                crc.put(out);
                last.put(out);
                data.put(out);
            },
            Peer::SnapshotComplete { index, term, digest } => {
                4u32.put(out);
                index.put(out);
                term.put(out);
                digest.put(out);
            },
            Peer::SnapshotStatus { index, term, ok } => {
                5u32.put(out);
                index.put(out);
                term.put(out);
                ok.put(out);
            },
        }
        proof {
            assert(out@ =~= old(out)@ + Self::encoding(self.model()));
        }
    }

    fn take(bytes: &[u8], pos: usize) -> (r: Result<(Peer, usize), Malformed>) {
        match u32::take(bytes, pos) {
            Ok((tag, next)) => match tag {
                0 => match Message::take(bytes, next) {
                    Ok((message, next)) => Ok((Peer::Raft(message), next)),
                    Err(e) => Err(e),
                },
                1 => match <(Index, (Term, (u64, (bool, Vec<u8>)))) as Wire>::take(bytes, next) {
                    Ok(((index, (term, (offset, (last, data)))), next)) => Ok((Peer::SnapshotChunk { index, term, offset, last, data }, next)),
                    Err(e) => Err(e),
                },
                2 => match <(Index, (Term, Vec<(String, u64)>)) as Wire>::take(bytes, next) {
                    Ok(((index, (term, position)), next)) => Ok((Peer::SnapshotRequest { index, term, position }, next)),
                    Err(e) => Err(e),
                },
                3 => match <(Index, (Term, (String, (u64, (u32, (bool, Vec<u8>)))))) as Wire>::take(bytes, next) {
                    Ok(((index, (term, (file, (offset, (crc, (last, data)))))), next)) => Ok((Peer::SnapshotFile { index, term, file, offset, crc, last, data }, next)),
                    Err(e) => Err(e),
                },
                4 => match <(Index, (Term, u64)) as Wire>::take(bytes, next) {
                    Ok(((index, (term, digest)), next)) => Ok((Peer::SnapshotComplete { index, term, digest }, next)),
                    Err(e) => Err(e),
                },
                5 => match <(Index, (Term, bool)) as Wire>::take(bytes, next) {
                    Ok(((index, (term, ok)), next)) => Ok((Peer::SnapshotStatus { index, term, ok }, next)),
                    Err(e) => Err(e),
                },
                _ => Err(Malformed::Variant(tag)),
            },
            Err(e) => Err(e),
        }
    }

    fn duplicate(&self) -> (r: Peer) {
        match self {
            Peer::Raft(message) => Peer::Raft(message.duplicate()),
            Peer::SnapshotChunk { index, term, offset, last, data } => Peer::SnapshotChunk { index: index.duplicate(), term: term.duplicate(), offset: offset.duplicate(), last: last.duplicate(), data: data.duplicate() },
            Peer::SnapshotRequest { index, term, position } => Peer::SnapshotRequest { index: index.duplicate(), term: term.duplicate(), position: position.duplicate() },
            Peer::SnapshotFile { index, term, file, offset, crc, last, data } => Peer::SnapshotFile { index: index.duplicate(), term: term.duplicate(), file: file.duplicate(), offset: offset.duplicate(), crc: crc.duplicate(), last: last.duplicate(), data: data.duplicate() },
            Peer::SnapshotComplete { index, term, digest } => Peer::SnapshotComplete { index: index.duplicate(), term: term.duplicate(), digest: digest.duplicate() },
            Peer::SnapshotStatus { index, term, ok } => Peer::SnapshotStatus { index: index.duplicate(), term: term.duplicate(), ok: ok.duplicate() },
        }
    }
}

// ---------------------------------------------------------------- encoding

/// Why a payload could not be turned into bytes, or back.
#[derive(Debug)]
pub enum CodecError {
    TooLarge { got: usize },
    Malformed(Malformed),
    /// Bytes decoded, but not all of them were consumed. A well-formed payload
    /// with something appended is not a well-formed payload.
    Trailing { trailing: usize },
}

/// What a codec error says.
pub open spec fn codec_error_text(e: CodecError) -> Seq<char> {
    match e {
        CodecError::TooLarge { got } => "payload is "@ + decimal(got as nat) + " bytes, above the 16777216-byte limit"@,
        CodecError::Malformed(m) => "malformed payload: "@ + malformed_text(m),
        CodecError::Trailing { trailing } => decimal(trailing as nat) + " trailing bytes after a complete payload"@,
    }
}

impl CodecError {
    /// What went wrong, for a person.
    pub fn message(&self) -> (r: String)
        ensures
            r@ == codec_error_text(*self),
    {
        let mut out = String::new();
        match self {
            CodecError::TooLarge { got } => {
                out.append("payload is ");
                push_decimal(&mut out, *got as u64);
                out.append(" bytes, above the 16777216-byte limit");
            },
            CodecError::Malformed(m) => {
                out.append("malformed payload: ");
                out.append(m.message().as_str());
            },
            CodecError::Trailing { trailing } => {
                push_decimal(&mut out, *trailing as u64);
                out.append(" trailing bytes after a complete payload");
            },
        }
        proof {
            assert(out@ =~= codec_error_text(*self));
        }
        out
    }
}

/// What some bytes decode to, when they decode at all.
pub open spec fn decoded<T: Wire>(s: Seq<u8>) -> Option<T::Model> {
    if s.len() > MAX_PAYLOAD_BYTES {
        None
    } else {
        match T::parse(s) {
            Some((m, rest)) => if rest.len() == 0 {
                Some(m)
            } else {
                None
            },
            None => None,
        }
    }
}

/// Whether an error is why some bytes do not decode.
pub open spec fn refused<T: Wire>(s: Seq<u8>, e: CodecError) -> bool {
    match e {
        CodecError::TooLarge { got } => got == s.len() && got > MAX_PAYLOAD_BYTES,
        CodecError::Malformed(_) => s.len() <= MAX_PAYLOAD_BYTES && T::parse(s) is None,
        CodecError::Trailing { trailing } => {
            &&& s.len() <= MAX_PAYLOAD_BYTES
            &&& T::parse(s) is Some
            &&& trailing == (T::parse(s)->0).1.len()
            &&& trailing > 0
        },
    }
}

/// Whether a text says why some bytes do not decode.
pub open spec fn says_why_not<T: Wire>(s: Seq<u8>, text: Seq<char>) -> bool {
    exists|e: CodecError| #[trigger] refused::<T>(s, e) && text == codec_error_text(e)
}

/// What is said of a payload that is too large to encode.
pub open spec fn too_large_text(len: nat) -> Seq<char> {
    codec_error_text(CodecError::TooLarge { got: len as usize })
}

/// Encode a payload.
pub fn encode<T: Wire>(value: &T) -> (r: Result<Vec<u8>, CodecError>)
    ensures
        T::fits(value.model()),
        match r {
            Ok(bytes) => {
                &&& bytes@ == T::encoding(value.model())
                &&& bytes@.len() <= MAX_PAYLOAD_BYTES
                &&& decoded::<T>(bytes@) == Some(value.model())
            },
            Err(CodecError::TooLarge { got }) => {
                &&& got == T::encoding(value.model()).len()
                &&& got > MAX_PAYLOAD_BYTES
            },
            Err(_) => false,
        },
{
    let mut bytes: Vec<u8> = Vec::new();
    value.put(&mut bytes);
    proof {
        assert(bytes@ =~= T::encoding(value.model()));
        law_round_trip::<T>(value.model());
    }
    if bytes.len() > MAX_PAYLOAD_BYTES {
        return Err(CodecError::TooLarge { got: bytes.len() });
    }
    Ok(bytes)
}

/// Decode a payload, refusing anything oversized before it is parsed and
/// anything with bytes left over after it.
pub fn decode<T: Wire>(bytes: &[u8]) -> (r: Result<T, CodecError>)
    ensures
        match r {
            Ok(v) => decoded::<T>(bytes@) == Some(v.model()),
            Err(e) => refused::<T>(bytes@, e),
        },
        r is Err ==> decoded::<T>(bytes@) is None,
{
    if bytes.len() > MAX_PAYLOAD_BYTES {
        return Err(CodecError::TooLarge { got: bytes.len() });
    }
    proof {
        assert(bytes@.skip(0) =~= bytes@);
    }
    match T::take(bytes, 0) {
        Ok((value, next)) => {
            if next < bytes.len() {
                Err(CodecError::Trailing { trailing: bytes.len() - next })
            } else {
                Ok(value)
            }
        },
        Err(e) => Err(CodecError::Malformed(e)),
    }
}

// -------------------------------------------------------------------- laws

/// A payload that was encoded decodes to the value it was encoded from.
pub proof fn law_round_trip<T: Wire>(m: T::Model)
    requires
        T::fits(m),
    ensures
        T::encoding(m).len() <= MAX_PAYLOAD_BYTES ==> decoded::<T>(T::encoding(m)) == Some(m),
{
    T::lemma_read_back(m, Seq::empty());
    assert(T::encoding(m) + Seq::<u8>::empty() =~= T::encoding(m));
}

/// Two payloads that differ do not encode to the same bytes.
pub proof fn law_distinct_values_encode_distinctly<T: Wire>(a: T::Model, b: T::Model)
    requires
        T::fits(a),
        T::fits(b),
        a != b,
    ensures
        T::encoding(a) != T::encoding(b),
{
    T::lemma_read_back(a, Seq::empty());
    T::lemma_read_back(b, Seq::empty());
}

/// A payload with anything appended to it is refused, and what is refused is
/// exactly what was appended.
pub proof fn law_appended_bytes_are_refused<T: Wire>(m: T::Model, extra: Seq<u8>)
    requires
        T::fits(m),
        extra.len() > 0,
    ensures
        T::parse(T::encoding(m) + extra) == Some((m, extra)),
        decoded::<T>(T::encoding(m) + extra) is None,
{
    T::lemma_read_back(m, extra);
}

/// A payload with anything cut off its end is refused.
pub proof fn law_a_prefix_is_refused<T: Wire>(m: T::Model, cut: int)
    requires
        T::fits(m),
        0 <= cut < T::encoding(m).len(),
    ensures
        T::parse(T::encoding(m).take(cut)) is None,
        decoded::<T>(T::encoding(m).take(cut)) is None,
{
    let whole = T::encoding(m);
    let head = whole.take(cut);
    let tail = whole.skip(cut);
    assert(head + tail =~= whole);
    assert(whole + Seq::<u8>::empty() =~= whole);
    T::lemma_read_back(m, Seq::empty());
    if T::parse(head) is Some {
        T::lemma_extends(head, tail);
    }
}

} // verus!
