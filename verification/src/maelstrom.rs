//! Keel under Jepsen's Maelstrom.
//!
//! Maelstrom is a third transport: messages are lines of JSON, peers are named
//! `n1`, `n2`, and the clock is a thread that writes a tick. The workload is
//! `lin-kv`: `read`, `write` and `cas`, with an external checker deciding whether
//! the resulting history is linearizable.
//!
//! **It does not persist.** The log is in memory, which means this tests
//! replication, election and apply — and says nothing about crash recovery.
//!
//! **It does not deduplicate on a session.** Every request carries its own
//! message id, and a retry is a new operation.
//!
//! The node reads lines and decides; whoever runs it brings the lines and writes
//! the answers. A JSON value is held here as the text it is printed as.

pub mod json;
pub mod names;
pub mod promises;

use std::collections::HashMap;

use vstd::prelude::*;
use vstd::string::*;

use crate::api::{decode, decoded, encode, MAX_PAYLOAD_BYTES};
use crate::maelstrom::json::{
    arrived, arrived_in, json_same, payload_in, payload_of, same, Arrived, ArrivedView,
};
use crate::maelstrom::names::{
    bare_key, hex_decode, hex_encode, hex_read, number_of, numeric_id, unquoted,
};
use crate::raft::{EntryPayload, EntryPayloadView, Index, Message as RaftMessage, MessageView as RaftMessageView, NodeId, Term};
use crate::text::{decimal, hex, push_decimal, same_text};
use crate::wire::Wire;

verus! {

broadcast use {vstd::std_specs::hash::group_hash_axioms, vstd::map::group_map_axioms};

/// Who is answered.
#[derive(Debug)]
pub enum Dest {
    /// A client.
    Client(String),
    /// A follower that relayed a client's request, under the token it used.
    Relay { follower: String, token: u64 },
}

/// What a destination stands for.
pub enum DestView {
    Client(Seq<char>),
    Relay { follower: Seq<char>, token: u64 },
}

impl View for Dest {
    type V = DestView;

    open spec fn view(&self) -> DestView {
        match self {
            Dest::Client(name) => DestView::Client(name@),
            Dest::Relay { follower, token } => DestView::Relay {
                follower: follower@,
                token: *token,
            },
        }
    }
}

/// What a client asked for. A value is JSON, as text.
#[derive(Debug)]
pub enum Op {
    Read { key: String },
    Write { key: String, value: String },
    Cas { key: String, from: String, to: String },
}

/// What an operation stands for.
pub enum OpView {
    Read { key: Seq<char> },
    Write { key: Seq<char>, value: Seq<char> },
    Cas { key: Seq<char>, from: Seq<char>, to: Seq<char> },
}

impl View for Op {
    type V = OpView;

    open spec fn view(&self) -> OpView {
        match self {
            Op::Read { key } => OpView::Read { key: key@ },
            Op::Write { key, value } => OpView::Write { key: key@, value: value@ },
            Op::Cas { key, from, to } => OpView::Cas { key: key@, from: from@, to: to@ },
        }
    }
}

impl Op {
    fn copy(&self) -> (r: Self)
        ensures
            r@ == self@,
    {
        match self {
            Op::Read { key } => Op::Read { key: key.clone() },
            Op::Write { key, value } => Op::Write { key: key.clone(), value: value.clone() },
            Op::Cas { key, from, to } => Op::Cas {
                key: key.clone(),
                from: from.clone(),
                to: to.clone(),
            },
        }
    }
}

/// A client request waiting for the entry that answers it.
#[derive(Debug)]
pub struct Pending {
    /// Who to reply to, and about which message.
    dest: Dest,
    in_reply_to: u64,
    op: Op,
}

/// What a waiting request stands for.
pub struct PendingView {
    pub dest: DestView,
    pub in_reply_to: u64,
    pub op: OpView,
}

impl View for Pending {
    type V = PendingView;

    closed spec fn view(&self) -> PendingView {
        PendingView { dest: self.dest@, in_reply_to: self.in_reply_to, op: self.op@ }
    }
}

/// What an answer says.
#[derive(Debug, PartialEq, Eq)]
pub enum Body {
    InitOk,
    ReadOk { value: String },
    WriteOk,
    CasOk,
    Error { code: u64, text: String },
    /// What another node answered, as it wrote it.
    Relayed { inner: String },
}

/// What an answer stands for.
pub enum BodyView {
    InitOk,
    ReadOk { value: Seq<char> },
    WriteOk,
    CasOk,
    Error { code: u64, text: Seq<char> },
    Relayed { inner: Seq<char> },
}

impl View for Body {
    type V = BodyView;

    open spec fn view(&self) -> BodyView {
        match self {
            Body::InitOk => BodyView::InitOk,
            Body::ReadOk { value } => BodyView::ReadOk { value: value@ },
            Body::WriteOk => BodyView::WriteOk,
            Body::CasOk => BodyView::CasOk,
            Body::Error { code, text } => BodyView::Error { code: *code, text: text@ },
            Body::Relayed { inner } => BodyView::Relayed { inner: inner@ },
        }
    }
}

/// What goes out to somebody.
#[derive(Debug, PartialEq, Eq)]
pub enum What {
    Reply { in_reply_to: u64, body: Body },
    /// The answer to a request that was relayed here.
    ProxyReply { token: u64, body: Body },
    /// A client's request, relayed as it came. The key is JSON, as text.
    Proxy { token: u64, key: String, kind: Kind },
    /// A Raft message in its own encoding, as hexadecimal text.
    Raft { payload: String },
}

/// What a message says.
pub enum WhatView {
    Reply { in_reply_to: u64, body: BodyView },
    ProxyReply { token: u64, body: BodyView },
    Proxy { token: u64, key: Seq<char>, kind: KindView },
    Raft { payload: Seq<char> },
}

/// A message for somebody.
#[derive(Debug, PartialEq, Eq)]
pub struct Message {
    pub msg_id: u64,
    pub dest: String,
    pub what: What,
}

/// What a message stands for.
pub struct MessageView {
    pub msg_id: u64,
    pub dest: Seq<char>,
    pub what: WhatView,
}

impl View for What {
    type V = WhatView;

    open spec fn view(&self) -> WhatView {
        match self {
            What::Reply { in_reply_to, body } => WhatView::Reply {
                in_reply_to: *in_reply_to,
                body: body@,
            },
            What::ProxyReply { token, body } => WhatView::ProxyReply { token: *token, body: body@ },
            What::Proxy { token, key, kind } => WhatView::Proxy {
                token: *token,
                key: key@,
                kind: kind@,
            },
            What::Raft { payload } => WhatView::Raft { payload: payload@ },
        }
    }
}

impl View for Message {
    type V = MessageView;

    open spec fn view(&self) -> MessageView {
        MessageView { msg_id: self.msg_id, dest: self.dest@, what: self.what@ }
    }
}

/// What some messages stand for.
pub open spec fn message_views(all: Seq<Message>) -> Seq<MessageView> {
    all.map_values(|m: Message| m@)
}

/// What the consensus core is asked to do.
#[derive(Debug)]
pub enum Ask {
    /// Confirm that a read may be served.
    ReadIndex { ctx: u64 },
    /// Propose an operation, under a token that is carried inside the entry.
    ///
    /// Not under the index the entry is expected to land at: two requests that
    /// arrive in one batch predict the same index, and a leadership change
    /// renumbers what follows a dropped proposal.
    Propose { ctx: u64, op: Op },
}

/// What the core is asked to do.
pub enum AskView {
    ReadIndex { ctx: u64 },
    Propose { ctx: u64, op: OpView },
}

impl View for Ask {
    type V = AskView;

    open spec fn view(&self) -> AskView {
        match self {
            Ask::ReadIndex { ctx } => AskView::ReadIndex { ctx: *ctx },
            Ask::Propose { ctx, op } => AskView::Propose { ctx: *ctx, op: op@ },
        }
    }
}

/// What an entry of the log holds.
#[derive(Debug)]
pub enum Payload {
    /// A no-op or a configuration change, or bytes that are no operation.
    Other,
    /// An operation that changes nothing.
    Unknown { token: u64 },
    Write { key: String, value: String, token: u64 },
    Cas { key: String, from: String, to: String, token: u64 },
}

/// What an entry stands for.
pub enum PayloadView {
    Other,
    Unknown { token: u64 },
    Write { key: Seq<char>, value: Seq<char>, token: u64 },
    Cas { key: Seq<char>, from: Seq<char>, to: Seq<char>, token: u64 },
}

impl View for Payload {
    type V = PayloadView;

    open spec fn view(&self) -> PayloadView {
        match self {
            Payload::Other => PayloadView::Other,
            Payload::Unknown { token } => PayloadView::Unknown { token: *token },
            Payload::Write { key, value, token } => PayloadView::Write {
                key: key@,
                value: value@,
                token: *token,
            },
            Payload::Cas { key, from, to, token } => PayloadView::Cas {
                key: key@,
                from: from@,
                to: to@,
                token: *token,
            },
        }
    }
}

/// The token an entry carries.
pub open spec fn token_of(payload: PayloadView) -> Option<u64> {
    match payload {
        PayloadView::Other => None,
        PayloadView::Unknown { token } => Some(token),
        PayloadView::Write { token, .. } => Some(token),
        PayloadView::Cas { token, .. } => Some(token),
    }
}

// --------------------------------------------------------------------- store

/// The keys and values that were applied.
pub type Keyspace = Map<Seq<char>, Seq<char>>;

/// What the store holds under a key, as a JSON value.
pub open spec fn current(store: Keyspace, key: Seq<char>) -> Seq<char> {
    if store.contains_key(key) {
        store[key]
    } else {
        "null"@
    }
}

/// What the store holds after an entry.
pub open spec fn stored(store: Keyspace, payload: PayloadView) -> Keyspace {
    match payload {
        PayloadView::Write { key, value, .. } => store.insert(key, value),
        PayloadView::Cas { key, from, to, .. } => {
            let held = current(store, key);
            if held != "null"@ && json_same(held, from) {
                store.insert(key, to)
            } else {
                store
            }
        },
        _ => store,
    }
}

/// What an entry is answered with.
pub open spec fn answer_for(store: Keyspace, payload: PayloadView) -> Option<BodyView> {
    match payload {
        PayloadView::Write { .. } => Some(BodyView::WriteOk),
        PayloadView::Cas { key, from, .. } => {
            let held = current(store, key);
            Some(
                if held == "null"@ {
                    BodyView::Error { code: 20, text: "key does not exist"@ }
                } else if !json_same(held, from) {
                    BodyView::Error {
                        code: 22,
                        text: "current value is not what was expected"@,
                    }
                } else {
                    BodyView::CasOk
                },
            )
        },
        _ => None,
    }
}

/// What a read is answered with.
pub open spec fn read_answer(store: Keyspace, key: Seq<char>) -> BodyView {
    if store.contains_key(key) {
        BodyView::ReadOk { value: store[key] }
    } else {
        BodyView::Error { code: 20, text: "key does not exist"@ }
    }
}

/// The keyspace some rows stand for: a row before another wins.
pub open spec fn keyspace_of(rows: Seq<(String, String)>) -> Keyspace
    decreases rows.len(),
{
    if rows.len() == 0 {
        Map::empty()
    } else {
        keyspace_of(rows.skip(1)).insert(rows[0].0@, rows[0].1@)
    }
}

/// The first row of a key is what the keyspace holds under it.
proof fn lemma_row_found(rows: Seq<(String, String)>, i: int, key: Seq<char>)
    requires
        0 <= i <= rows.len(),
        forall|j: int| 0 <= j < i ==> (#[trigger] rows[j]).0@ != key,
        i < rows.len() ==> rows[i].0@ == key,
    ensures
        i < rows.len() ==> keyspace_of(rows).contains_key(key) && keyspace_of(rows)[key]
            == rows[i].1@,
        i == rows.len() ==> !keyspace_of(rows).contains_key(key),
    decreases rows.len(),
{
    if rows.len() > 0 && i > 0 {
        let rest = rows.skip(1);
        assert(rows[0].0@ != key);
        assert forall|j: int| 0 <= j < i - 1 implies (#[trigger] rest[j]).0@ != key by {
            assert(rest[j] == rows[j + 1]);
        }
        if i < rows.len() {
            assert(rest[i - 1] == rows[i]);
        }
        lemma_row_found(rest, i - 1, key);
    }
}

/// Without one row of a key, every other key is held as before.
proof fn lemma_row_removed(rows: Seq<(String, String)>, i: int, other: Seq<char>)
    requires
        0 <= i < rows.len(),
        rows[i].0@ != other,
    ensures
        keyspace_of(rows.remove(i)).contains_key(other) == keyspace_of(rows).contains_key(other),
        keyspace_of(rows).contains_key(other) ==> keyspace_of(rows.remove(i))[other]
            == keyspace_of(rows)[other],
    decreases rows.len(),
{
    if i == 0 {
        assert(rows.remove(0) =~= rows.skip(1));
    } else {
        let less = rows.remove(i);
        assert(less.skip(1) =~= rows.skip(1).remove(i - 1));
        assert(less[0] == rows[0]);
        lemma_row_removed(rows.skip(1), i - 1, other);
    }
}

/// The keys and values that were applied.
#[derive(Debug)]
pub struct Store {
    rows: Vec<(String, String)>,
}

impl View for Store {
    type V = Keyspace;

    closed spec fn view(&self) -> Keyspace {
        keyspace_of(self.rows@)
    }
}

impl Store {
    pub fn new() -> (r: Self)
        ensures
            r@ == Map::<Seq<char>, Seq<char>>::empty(),
    {
        Store { rows: Vec::new() }
    }

    fn find(&self, key: &str) -> (r: Option<usize>)
        ensures
            r is Some <==> self@.contains_key(key@),
            r matches Some(i) ==> i < self.rows@.len() && self.rows@[i as int].0@ == key@
                && self@[key@] == self.rows@[i as int].1@,
    {
        let mut i: usize = 0;
        while i < self.rows.len()
            invariant
                i <= self.rows@.len(),
                forall|j: int| 0 <= j < i ==> (#[trigger] self.rows@[j]).0@ != key@,
            decreases self.rows@.len() - i,
        {
            if same_text(self.rows[i].0.as_str(), key) {
                proof {
                    lemma_row_found(self.rows@, i as int, key@);
                }
                return Some(i);
            }
            i += 1;
        }
        proof {
            lemma_row_found(self.rows@, i as int, key@);
        }
        None
    }

    pub fn get(&self, key: &str) -> (r: Option<String>)
        ensures
            r is Some <==> self@.contains_key(key@),
            r matches Some(value) ==> value@ == self@[key@],
    {
        match self.find(key) {
            Some(i) => Some(self.rows[i].1.clone()),
            None => None,
        }
    }

    pub fn insert(&mut self, key: String, value: String)
        ensures
            final(self)@ == old(self)@.insert(key@, value@),
    {
        let ghost before = self.rows@;
        match self.find(key.as_str()) {
            Some(i) => {
                proof {
                    assert forall|other: Seq<char>| other != key@ implies keyspace_of(
                        before.remove(i as int),
                    ).contains_key(other) == keyspace_of(before).contains_key(other) && (
                    keyspace_of(before).contains_key(other) ==> (#[trigger] keyspace_of(
                        before.remove(i as int),
                    )[other]) == keyspace_of(before)[other]) by {
                        lemma_row_removed(before, i as int, other);
                    }
                }
                let old_row: (String, String) = self.rows.remove(i);
            },
            None => {},
        }
        let ghost rest = self.rows@;
        self.rows.insert(0, (key, value));
        proof {
            assert(self.rows@.skip(1) =~= rest);
            assert(self.rows@[0].0@ == key@ && self.rows@[0].1@ == value@);
            assert(self@ =~= keyspace_of(before).insert(key@, value@)) by {
                assert forall|k: Seq<char>| #[trigger] self@.contains_key(k) == keyspace_of(
                    before,
                ).insert(key@, value@).contains_key(k) by {
                    if k != key@ && rest.len() < before.len() {
                        let touched = keyspace_of(rest)[k];
                    }
                }
                assert forall|k: Seq<char>| #[trigger] self@.contains_key(k) implies self@[k]
                    == keyspace_of(before).insert(key@, value@)[k] by {
                    if k != key@ && rest.len() < before.len() {
                        let touched = keyspace_of(rest)[k];
                    }
                }
            }
        }
    }
}

// ---------------------------------------------------------------------- node

/// What the core says of itself.
#[derive(Debug, Clone, Copy, PartialEq, Eq, Structural)]
pub struct Status {
    /// Whether this node leads.
    pub leads: bool,
    /// Who does, as far as it knows.
    pub leader: Option<NodeId>,
}

/// What kind of request a client sent, with its operands as JSON text.
#[derive(Debug, PartialEq, Eq)]
pub enum Kind {
    Read,
    Write { value: String },
    Cas { from: String, to: String },
    Unknown,
}

/// What a kind of request stands for.
pub enum KindView {
    Read,
    Write { value: Seq<char> },
    Cas { from: Seq<char>, to: Seq<char> },
    Unknown,
}

impl View for Kind {
    type V = KindView;

    open spec fn view(&self) -> KindView {
        match self {
            Kind::Read => KindView::Read,
            Kind::Write { value } => KindView::Write { value: value@ },
            Kind::Cas { from, to } => KindView::Cas { from: from@, to: to@ },
            Kind::Unknown => KindView::Unknown,
        }
    }
}

/// The operation a kind of request asks for, on a key.
pub open spec fn operation(kind: KindView, key: Seq<char>) -> Option<OpView> {
    match kind {
        KindView::Read => Some(OpView::Read { key }),
        KindView::Write { value } => Some(OpView::Write { key, value }),
        KindView::Cas { from, to } => Some(OpView::Cas { key, from, to }),
        KindView::Unknown => None,
    }
}

/// A node under Maelstrom.
pub struct MaelstromNode {
    id: String,
    /// Maelstrom names nodes `n1`, `n2`; the core wants integers.
    numeric: NodeId,
    peers: Vec<String>,
    started: bool,
    /// The log, in memory: the index and the term of each entry.
    entries: Vec<(Index, Term)>,
    /// Applied state: the `lin-kv` keyspace.
    store: Store,
    applied: Index,
    /// Requests waiting for the entry that answers them, keyed by a token carried
    /// *inside* the entry.
    pending: HashMap<u64, Pending>,
    next_msg_id: u64,
    next_ctx: u64,
    /// Contexts handed to the core for reads, and who is waiting.
    reads: HashMap<u64, Pending>,
    confirmed_reads: Vec<(u64, Index)>,
    /// Requests this node relayed to the leader, waiting for the answer.
    proxied: HashMap<u64, Pending>,
}

/// What a node stands for.
pub struct MaelstromView {
    pub id: Seq<char>,
    pub numeric: NodeId,
    pub peers: Seq<Seq<char>>,
    pub started: bool,
    pub entries: Seq<(Index, Term)>,
    pub store: Keyspace,
    pub applied: Index,
    pub pending: Map<u64, PendingView>,
    pub next_msg_id: u64,
    pub next_ctx: u64,
    pub reads: Map<u64, PendingView>,
    pub confirmed_reads: Seq<(u64, Index)>,
    pub proxied: Map<u64, PendingView>,
}

/// What some waiting requests stand for.
pub open spec fn waiting(all: Map<u64, Pending>) -> Map<u64, PendingView> {
    all.map_values(|p: Pending| p@)
}

/// What some texts say.
pub open spec fn named(all: Seq<String>) -> Seq<Seq<char>> {
    all.map_values(|s: String| s@)
}

impl View for MaelstromNode {
    type V = MaelstromView;

    closed spec fn view(&self) -> MaelstromView {
        MaelstromView {
            id: self.id@,
            numeric: self.numeric,
            peers: named(self.peers@),
            started: self.started,
            entries: self.entries@,
            store: self.store@,
            applied: self.applied,
            pending: waiting(self.pending@),
            next_msg_id: self.next_msg_id,
            next_ctx: self.next_ctx,
            reads: waiting(self.reads@),
            confirmed_reads: self.confirmed_reads@,
            proxied: waiting(self.proxied@),
        }
    }
}

/// What a node is called.
pub open spec fn peer_name(id: NodeId) -> Seq<char> {
    "n"@ + decimal(id as nat)
}

/// What a node is called.
pub fn name_of(id: NodeId) -> (r: String)
    ensures
        r@ == peer_name(id),
{
    let mut out = String::new();
    out.append("n");
    push_decimal(&mut out, id);
    proof {
        assert(out@ =~= peer_name(id));
    }
    out
}

/// The entries below an index.
pub open spec fn below(entries: Seq<(Index, Term)>, index: Index) -> Seq<(Index, Term)>
    decreases entries.len(),
{
    if entries.len() == 0 {
        entries
    } else if entries.last().0 < index {
        below(entries.drop_last(), index).push(entries.last())
    } else {
        below(entries.drop_last(), index)
    }
}

/// The confirmed reads whose index has been applied, or the ones whose index has
/// not.
pub open spec fn due(reads: Seq<(u64, Index)>, applied: Index, served: bool) -> Seq<(u64, Index)>
    decreases reads.len(),
{
    if reads.len() == 0 {
        reads
    } else if (reads.last().1 <= applied) == served {
        due(reads.drop_last(), applied, served).push(reads.last())
    } else {
        due(reads.drop_last(), applied, served)
    }
}

impl MaelstromView {
    /// A node nobody has spoken to.
    pub open spec fn fresh() -> MaelstromView {
        MaelstromView {
            id: Seq::empty(),
            numeric: 0,
            peers: Seq::empty(),
            started: false,
            entries: Seq::empty(),
            store: Map::empty(),
            applied: 0,
            pending: Map::empty(),
            next_msg_id: 1,
            next_ctx: 1,
            reads: Map::empty(),
            confirmed_reads: Seq::empty(),
            proxied: Map::empty(),
        }
    }

    /// A message sent, under a number of its own.
    pub open spec fn sending(self, dest: Seq<char>, what: WhatView) -> (MaelstromView, MessageView) {
        (
            MaelstromView { next_msg_id: (self.next_msg_id + 1) as u64, ..self },
            MessageView { msg_id: self.next_msg_id, dest, what },
        )
    }

    /// An answer. One to a request a follower relayed goes back to that follower,
    /// under the token it used, rather than to the client, which this node cannot
    /// address.
    pub open spec fn replying(self, dest: DestView, in_reply_to: u64, body: BodyView) -> (
        MaelstromView,
        MessageView,
    ) {
        match dest {
            DestView::Client(name) => self.sending(name, WhatView::Reply { in_reply_to, body }),
            DestView::Relay { follower, token } => self.sending(
                follower,
                WhatView::ProxyReply { token, body },
            ),
        }
    }

    /// A client's request, or one that a follower relayed.
    ///
    /// A node that does not lead relays it to the one that does: a client here
    /// does not follow redirects. Where nobody is known to lead a definite failure
    /// is the honest answer. A read still goes through the core: answering it from
    /// local state would be a stale read on a leader that has been deposed and
    /// does not know it. The key is the JSON of the request's, as text: what is
    /// relayed is the request as it was asked.
    pub open spec fn asked(
        self,
        dest: DestView,
        msg_id: u64,
        key: Seq<char>,
        kind: KindView,
        status: Status,
    ) -> (MaelstromView, Option<MessageView>, Option<AskView>) {
        let ctx = self.next_ctx;
        let next = (self.next_ctx + 1) as u64;
        if !self.started {
            (self, None, None)
        } else if !status.leads {
            match status.leader {
                Some(leader) => {
                    let kept = MaelstromView {
                        next_ctx: next,
                        proxied: self.proxied.insert(
                            ctx,
                            PendingView {
                                dest,
                                in_reply_to: msg_id,
                                op: OpView::Read { key: bare_key(key) },
                            },
                        ),
                        ..self
                    };
                    let (after, message) = kept.sending(
                        peer_name(leader),
                        WhatView::Proxy { token: ctx, key, kind },
                    );
                    (after, Some(message), None)
                },
                None => {
                    let (after, message) = self.replying(
                        dest,
                        msg_id,
                        BodyView::Error { code: 11, text: "no leader yet"@ },
                    );
                    (after, Some(message), None)
                },
            }
        } else {
            match operation(kind, bare_key(key)) {
                None => (self, None, None),
                Some(op) => {
                    let pending = PendingView { dest, in_reply_to: msg_id, op };
                    if op is Read {
                        (
                            MaelstromView {
                                next_ctx: next,
                                reads: self.reads.insert(ctx, pending),
                                ..self
                            },
                            None,
                            Some(AskView::ReadIndex { ctx }),
                        )
                    } else {
                        (
                            MaelstromView {
                                next_ctx: next,
                                pending: self.pending.insert(ctx, pending),
                                ..self
                            },
                            None,
                            Some(AskView::Propose { ctx, op }),
                        )
                    }
                },
            }
        }
    }

    /// The answer to a request this node relayed.
    pub open spec fn relayed(self, token: u64, inner: Seq<char>) -> (
        MaelstromView,
        Option<MessageView>,
    ) {
        if self.proxied.contains_key(token) {
            let pending = self.proxied[token];
            let (after, message) = (MaelstromView {
                proxied: self.proxied.remove(token),
                ..self
            }).replying(pending.dest, pending.in_reply_to, BodyView::Relayed { inner });
            (after, Some(message))
        } else {
            (self, None)
        }
    }

    /// Entries taken into the log. What they replace goes.
    pub open spec fn persisted(self, entries: Seq<(Index, Term)>) -> MaelstromView {
        MaelstromView {
            entries: (if entries.len() > 0 {
                below(self.entries, entries[0].0)
            } else {
                self.entries
            }) + entries,
            ..self
        }
    }

    /// An entry applied, and whoever waits for it answered. It may have been
    /// proposed by a different node, in which case applying it is all there is to
    /// do.
    pub open spec fn applying(self, index: Index, payload: PayloadView) -> (
        MaelstromView,
        Option<MessageView>,
    ) {
        let moved = MaelstromView {
            applied: index,
            store: stored(self.store, payload),
            ..self
        };
        match token_of(payload) {
            None => (moved, None),
            Some(token) => if !self.pending.contains_key(token) {
                (moved, None)
            } else {
                let pending = self.pending[token];
                let taken = MaelstromView { pending: self.pending.remove(token), ..moved };
                match answer_for(self.store, payload) {
                    None => (taken, None),
                    Some(body) => {
                        let (after, message) = taken.replying(
                            pending.dest,
                            pending.in_reply_to,
                            body,
                        );
                        (after, Some(message))
                    },
                }
            },
        }
    }

    /// A proposal the core refused. It never becomes an entry, so nothing will
    /// ever answer it: saying so is a definite failure, which a checker can use.
    pub open spec fn failing(self, token: u64, why: Seq<char>) -> (
        MaelstromView,
        Option<MessageView>,
    ) {
        if self.pending.contains_key(token) {
            let pending = self.pending[token];
            let (after, message) = (MaelstromView {
                pending: self.pending.remove(token),
                ..self
            }).replying(
                pending.dest,
                pending.in_reply_to,
                BodyView::Error { code: 11, text: why },
            );
            (after, Some(message))
        } else {
            (self, None)
        }
    }

    /// One confirmed read answered.
    pub open spec fn serving(self, ctx: u64) -> (MaelstromView, Option<MessageView>) {
        if self.reads.contains_key(ctx) {
            let pending = self.reads[ctx];
            let taken = MaelstromView { reads: self.reads.remove(ctx), ..self };
            match pending.op {
                OpView::Read { key } => {
                    let (after, message) = taken.replying(
                        pending.dest,
                        pending.in_reply_to,
                        read_answer(self.store, key),
                    );
                    (after, Some(message))
                },
                _ => (taken, None),
            }
        } else {
            (self, None)
        }
    }
}

/// What the core is told because of a line.
#[derive(Debug)]
pub enum Told {
    /// Begin, among these voters.
    Start { voters: Vec<NodeId> },
    /// A message from a peer.
    Step { message: RaftMessage },
    /// Something to do for a client.
    Ask { ask: Ask },
}

/// What the core is told.
pub enum ToldView {
    Start { voters: Seq<NodeId> },
    Step { message: RaftMessageView },
    Ask { ask: AskView },
}

impl View for Told {
    type V = ToldView;

    open spec fn view(&self) -> ToldView {
        match self {
            Told::Start { voters } => ToldView::Start { voters: voters@ },
            Told::Step { message } => ToldView::Step { message: message@ },
            Told::Ask { ask } => ToldView::Ask { ask: ask@ },
        }
    }
}

/// The Raft message that a payload carries.
pub open spec fn carried(payload: Seq<char>) -> Option<RaftMessageView> {
    match hex_read(payload) {
        Some(bytes) => decoded::<RaftMessage>(bytes),
        None => None,
    }
}

/// An ask as the core is told it.
pub open spec fn told(ask: Option<AskView>) -> Option<ToldView> {
    match ask {
        Some(ask) => Some(ToldView::Ask { ask }),
        None => None,
    }
}

impl MaelstromView {
    /// What a line brought.
    pub open spec fn hearing(self, a: ArrivedView, status: Status) -> (
        MaelstromView,
        Option<MessageView>,
        Option<ToldView>,
    ) {
        match a {
            ArrivedView::Init { src, msg_id, node_id, node_ids } => {
                let (after, message) = (MaelstromView {
                    id: node_id,
                    numeric: number_of(node_id),
                    peers: node_ids,
                    started: true,
                    ..self
                }).replying(DestView::Client(src), msg_id, BodyView::InitOk);
                (
                    after,
                    Some(message),
                    Some(
                        ToldView::Start {
                            voters: Seq::new(node_ids.len(), |i: int| number_of(node_ids[i])),
                        },
                    ),
                )
            },
            ArrivedView::Raft { payload } => (
                self,
                None,
                if self.started && carried(payload) is Some {
                    Some(ToldView::Step { message: carried(payload)->0 })
                } else {
                    None
                },
            ),
            ArrivedView::Client { src, msg_id, key, kind } => {
                let (after, message, ask) = self.asked(
                    DestView::Client(src),
                    msg_id,
                    key,
                    kind,
                    status,
                );
                (after, message, told(ask))
            },
            ArrivedView::Proxy { src, token, key, kind } => {
                let (after, message, ask) = self.asked(
                    DestView::Relay { follower: src, token },
                    token,
                    key,
                    kind,
                    status,
                );
                (after, message, told(ask))
            },
            ArrivedView::ProxyReply { token, inner } => {
                let (after, message) = self.relayed(token, inner);
                (after, message, None)
            },
            ArrivedView::Other => (self, None, None),
        }
    }
}

/// A message, if there is one, after some others.
pub open spec fn and_then(all: Seq<MessageView>, one: Option<MessageView>) -> Seq<MessageView> {
    match one {
        Some(message) => all.push(message),
        None => all,
    }
}

impl MaelstromNode {
    pub fn new() -> (r: Self)
        ensures
            r@ == MaelstromView::fresh(),
    {
        let r = MaelstromNode {
            id: String::new(),
            numeric: 0,
            peers: Vec::new(),
            started: false,
            entries: Vec::new(),
            store: Store::new(),
            applied: 0,
            pending: HashMap::new(),
            next_msg_id: 1,
            next_ctx: 1,
            reads: HashMap::new(),
            confirmed_reads: Vec::new(),
            proxied: HashMap::new(),
        };
        proof {
            assert(r@.id =~= Seq::empty());
            assert(r@.peers =~= Seq::empty());
            assert(r@.pending =~= Map::empty());
            assert(r@.reads =~= Map::empty());
            assert(r@.proxied =~= Map::empty());
        }
        r
    }

    fn send(&mut self, dest: String, what: What) -> (r: Message)
        requires
            old(self)@.next_msg_id < u64::MAX,
        ensures
            (final(self)@, r@) == old(self)@.sending(dest@, what@),
    {
        let msg_id: u64 = self.next_msg_id;
        self.next_msg_id = self.next_msg_id + 1;
        Message { msg_id, dest, what }
    }

    fn reply(&mut self, dest: Dest, in_reply_to: u64, body: Body) -> (r: Message)
        requires
            old(self)@.next_msg_id < u64::MAX,
        ensures
            (final(self)@, r@) == old(self)@.replying(dest@, in_reply_to, body@),
    {
        match dest {
            Dest::Client(name) => self.send(name, What::Reply { in_reply_to, body }),
            Dest::Relay { follower, token } => self.send(
                follower,
                What::ProxyReply { token, body },
            ),
        }
    }

    /// The number of this node.
    pub fn numeric(&self) -> (r: NodeId)
        ensures
            r == self@.numeric,
    {
        self.numeric
    }

    /// What this node is called.
    pub fn id(&self) -> (r: &str)
        ensures
            r@ == self@.id,
    {
        self.id.as_str()
    }

    /// Maelstrom says who this node is and who its peers are. The peers' numbers
    /// are the voters.
    pub fn on_init(
        &mut self,
        src: String,
        msg_id: u64,
        node_id: String,
        node_ids: Vec<String>,
    ) -> (r: (Message, Vec<NodeId>))
        requires
            old(self)@.next_msg_id < u64::MAX,
        ensures
            (final(self)@, r.0@) == (MaelstromView {
                id: node_id@,
                numeric: number_of(node_id@),
                peers: named(node_ids@),
                started: true,
                ..old(self)@
            }).replying(DestView::Client(src@), msg_id, BodyView::InitOk),
            r.1@ == Seq::new(node_ids@.len(), |i: int| number_of(node_ids@[i]@)),
    {
        let mut voters: Vec<NodeId> = Vec::new();
        let mut i: usize = 0;
        while i < node_ids.len()
            invariant
                i <= node_ids@.len(),
                voters@ == Seq::new(i as nat, |k: int| number_of(node_ids@[k]@)),
            decreases node_ids@.len() - i,
        {
            voters.push(numeric_id(node_ids[i].as_str()));
            i += 1;
            proof {
                assert(voters@ =~= Seq::new(i as nat, |k: int| number_of(node_ids@[k]@)));
            }
        }
        self.numeric = numeric_id(node_id.as_str());
        self.id = node_id;
        self.peers = node_ids;
        self.started = true;
        let message: Message = self.reply(Dest::Client(src), msg_id, Body::InitOk);
        (message, voters)
    }

    /// A Raft message from a peer, out of its envelope. It travels in its own
    /// encoding rather than re-expressed as JSON, which would be a second wire
    /// format to keep in step with the first.
    pub fn on_raft(&self, payload: &str) -> (r: Option<RaftMessage>)
        ensures
            ({
                let read = match hex_read(payload@) {
                    Some(bytes) => decoded::<RaftMessage>(bytes),
                    None => None,
                };
                &&& r is Some <==> self@.started && read is Some
                &&& r matches Some(message) ==> message@ == read->0
            }),
    {
        if !self.started {
            return None;
        }
        match hex_decode(payload) {
            Ok(bytes) => match decode::<RaftMessage>(bytes.as_slice()) {
                Ok(message) => Some(message),
                Err(_) => None,
            },
            Err(_) => None,
        }
    }

    /// A client's request, or one that a follower relayed.
    pub fn on_client(
        &mut self,
        dest: Dest,
        msg_id: u64,
        key: &str,
        kind: Kind,
        status: Status,
    ) -> (r: (Option<Message>, Option<Ask>))
        requires
            old(self)@.next_msg_id < u64::MAX,
            old(self)@.next_ctx < u64::MAX,
        ensures
            ({
                let (after, message, ask) = old(self)@.asked(
                    dest@,
                    msg_id,
                    key@,
                    kind@,
                    status,
                );
                &&& final(self)@ == after
                &&& (r.0 is Some <==> message is Some)
                &&& r.0 is Some ==> r.0->Some_0@ == message->Some_0
                &&& (r.1 is Some <==> ask is Some)
                &&& r.1 is Some ==> r.1->Some_0@ == ask->Some_0
            }),
    {
        if !self.started {
            return (None, None);
        }
        let whole: &str = key;
        let key: String = unquoted(whole);
        let ctx: u64 = self.next_ctx;
        if !status.leads {
            match status.leader {
                Some(leader) => {
                    self.next_ctx = self.next_ctx + 1;
                    let ghost before = self.proxied@;
                    let pending = Pending { dest, in_reply_to: msg_id, op: Op::Read { key } };
                    self.proxied.insert(ctx, pending);
                    proof {
                        assert(waiting(self.proxied@) =~= waiting(before).insert(ctx, pending@));
                    }
                    let message: Message = self.send(
                        name_of(leader),
                        What::Proxy { token: ctx, key: whole.to_owned(), kind },
                    );
                    return (Some(message), None);
                },
                None => {
                    let message: Message = self.reply(
                        dest,
                        msg_id,
                        Body::Error { code: 11, text: "no leader yet".to_owned() },
                    );
                    return (Some(message), None);
                },
            }
        }
        let op: Op = match kind {
            Kind::Read => Op::Read { key },
            Kind::Write { value } => Op::Write { key, value },
            Kind::Cas { from, to } => Op::Cas { key, from, to },
            Kind::Unknown => {
                return (None, None);
            },
        };
        self.next_ctx = self.next_ctx + 1;
        let reading: bool = match &op {
            Op::Read { .. } => true,
            _ => false,
        };
        let copy: Op = op.copy();
        let pending = Pending { dest, in_reply_to: msg_id, op };
        if reading {
            let ghost before = self.reads@;
            self.reads.insert(ctx, pending);
            proof {
                assert(waiting(self.reads@) =~= waiting(before).insert(ctx, pending@));
            }
            (None, Some(Ask::ReadIndex { ctx }))
        } else {
            let ghost before = self.pending@;
            self.pending.insert(ctx, pending);
            proof {
                assert(waiting(self.pending@) =~= waiting(before).insert(ctx, pending@));
            }
            (None, Some(Ask::Propose { ctx, op: copy }))
        }
    }

    /// A follower relayed a client's request here. It is answered exactly as if
    /// the client had sent it directly, except that the reply goes back to the
    /// follower with the token it used, so it can find the connection that is
    /// waiting.
    pub fn on_proxy(
        &mut self,
        follower: String,
        token: u64,
        key: &str,
        kind: Kind,
        status: Status,
    ) -> (r: (Option<Message>, Option<Ask>))
        requires
            old(self)@.next_msg_id < u64::MAX,
            old(self)@.next_ctx < u64::MAX,
        ensures
            ({
                let (after, message, ask) = old(self)@.asked(
                    DestView::Relay { follower: follower@, token },
                    token,
                    key@,
                    kind@,
                    status,
                );
                &&& final(self)@ == after
                &&& (r.0 is Some <==> message is Some)
                &&& r.0 is Some ==> r.0->Some_0@ == message->Some_0
                &&& (r.1 is Some <==> ask is Some)
                &&& r.1 is Some ==> r.1->Some_0@ == ask->Some_0
            }),
    {
        self.on_client(Dest::Relay { follower, token }, token, key, kind, status)
    }

    /// The leader answered something this node relayed.
    pub fn on_proxy_reply(&mut self, token: u64, inner: String) -> (r: Option<Message>)
        requires
            old(self)@.next_msg_id < u64::MAX,
        ensures
            final(self)@ == old(self)@.relayed(token, inner@).0,
            r is Some <==> old(self)@.relayed(token, inner@).1 is Some,
            r is Some ==> r->Some_0@ == old(self)@.relayed(token, inner@).1->Some_0,
    {
        let ghost before = self.proxied@;
        match self.proxied.remove(&token) {
            Some(pending) => {
                proof {
                    assert(waiting(self.proxied@) =~= waiting(before).remove(token));
                }
                Some(self.reply(pending.dest, pending.in_reply_to, Body::Relayed { inner }))
            },
            None => {
                proof {
                    assert(waiting(self.proxied@) =~= waiting(before));
                }
                None
            },
        }
    }

    /// One line that arrived: what is said at once, and what the core is told.
    pub fn on_line(&mut self, line: &str, status: Status) -> (r: (Option<Message>, Option<Told>))
        requires
            old(self)@.next_msg_id < u64::MAX,
            old(self)@.next_ctx < u64::MAX,
        ensures
            arrived_in(line@) is None ==> final(self)@ == old(self)@ && r.0 is None && r.1 is None,
            arrived_in(line@) matches Some(a) ==> {
                let (after, message, told) = old(self)@.hearing(a, status);
                &&& final(self)@ == after
                &&& (r.0 is Some <==> message is Some)
                &&& r.0 is Some ==> r.0->Some_0@ == message->Some_0
                &&& (r.1 is Some <==> told is Some)
                &&& r.1 is Some ==> r.1->Some_0@ == told->Some_0
            },
    {
        match arrived(line) {
            None => (None, None),
            Some(a) => self.hear(a, status),
        }
    }

    /// What a line brought.
    pub fn hear(&mut self, a: Arrived, status: Status) -> (r: (Option<Message>, Option<Told>))
        requires
            old(self)@.next_msg_id < u64::MAX,
            old(self)@.next_ctx < u64::MAX,
        ensures
            ({
                let (after, message, told) = old(self)@.hearing(a@, status);
                &&& final(self)@ == after
                &&& (r.0 is Some <==> message is Some)
                &&& r.0 is Some ==> r.0->Some_0@ == message->Some_0
                &&& (r.1 is Some <==> told is Some)
                &&& r.1 is Some ==> r.1->Some_0@ == told->Some_0
            }),
    {
        match a {
            Arrived::Init { src, msg_id, node_id, node_ids } => {
                proof {
                    assert(Seq::new(node_ids@.len(), |i: int| number_of(node_ids@[i]@))
                        =~= Seq::new(
                        named(node_ids@).len(),
                        |i: int| number_of(named(node_ids@)[i]),
                    ));
                    assert(crate::maelstrom::json::said(node_ids@) =~= named(node_ids@));
                }
                let (message, voters) = self.on_init(src, msg_id, node_id, node_ids);
                (Some(message), Some(Told::Start { voters }))
            },
            Arrived::Raft { payload } => match self.on_raft(payload.as_str()) {
                Some(message) => (None, Some(Told::Step { message })),
                None => (None, None),
            },
            Arrived::Client { src, msg_id, key, kind } => {
                let (said, ask) = self.on_client(
                    Dest::Client(src),
                    msg_id,
                    key.as_str(),
                    kind,
                    status,
                );
                match ask {
                    Some(ask) => (said, Some(Told::Ask { ask })),
                    None => (said, None),
                }
            },
            Arrived::Proxy { src, token, key, kind } => {
                let (said, ask) = self.on_proxy(src, token, key.as_str(), kind, status);
                match ask {
                    Some(ask) => (said, Some(Told::Ask { ask })),
                    None => (said, None),
                }
            },
            Arrived::ProxyReply { token, inner } => (self.on_proxy_reply(token, inner), None),
            Arrived::Other => (None, None),
        }
    }

    /// Take entries into the log.
    fn persist(&mut self, entries: &[(Index, Term)])
        ensures
            final(self)@ == old(self)@.persisted(entries@),
    {
        if entries.len() > 0 {
            let first: Index = entries[0].0;
            let mut kept: Vec<(Index, Term)> = Vec::new();
            let mut i: usize = 0;
            let ghost all = self.entries@;
            proof {
                assert(all.take(0) =~= Seq::empty());
            }
            while i < self.entries.len()
                invariant
                    i <= self.entries@.len(),
                    self.entries@ == all,
                    kept@ == below(all.take(i as int), first),
                decreases self.entries@.len() - i,
            {
                proof {
                    assert(all.take(i + 1).drop_last() =~= all.take(i as int));
                }
                if self.entries[i].0 < first {
                    kept.push(self.entries[i]);
                }
                i += 1;
            }
            proof {
                assert(all.take(i as int) =~= all);
            }
            self.entries = kept;
        }
        let ghost base = self.entries@;
        let mut i: usize = 0;
        proof {
            assert(base + entries@.take(0) =~= base);
        }
        while i < entries.len()
            invariant
                i <= entries@.len(),
                self.entries@ == base + entries@.take(i as int),
                self@ == (MaelstromView { entries: self.entries@, ..old(self)@ }),
            decreases entries@.len() - i,
        {
            self.entries.push(entries[i]);
            i += 1;
            proof {
                assert(self.entries@ =~= base + entries@.take(i as int));
            }
        }
        proof {
            assert(entries@.take(i as int) =~= entries@);
        }
    }

    /// What an entry does to the store, and what it is answered with.
    fn change(&mut self, payload: Payload) -> (r: Option<Body>)
        ensures
            final(self)@ == (MaelstromView {
                store: stored(old(self)@.store, payload@),
                ..old(self)@
            }),
            r is Some <==> answer_for(old(self)@.store, payload@) is Some,
            r is Some ==> r->Some_0@ == answer_for(old(self)@.store, payload@)->Some_0,
    {
        match payload {
            Payload::Other => None,
            Payload::Unknown { .. } => None,
            Payload::Write { key, value, .. } => {
                self.store.insert(key, value);
                Some(Body::WriteOk)
            },
            Payload::Cas { key, from, to, .. } => {
                let held: String = match self.store.get(key.as_str()) {
                    Some(value) => value,
                    None => "null".to_owned(),
                };
                if same_text(held.as_str(), "null") {
                    return Some(
                        Body::Error { code: 20, text: "key does not exist".to_owned() },
                    );
                }
                if !same(held.as_str(), from.as_str()) {
                    return Some(
                        Body::Error {
                            code: 22,
                            text: "current value is not what was expected".to_owned(),
                        },
                    );
                }
                self.store.insert(key, to);
                Some(Body::CasOk)
            },
        }
    }

    /// Apply one entry.
    pub fn apply(&mut self, index: Index, payload: Payload) -> (r: Option<Message>)
        requires
            old(self)@.next_msg_id < u64::MAX,
        ensures
            final(self)@ == old(self)@.applying(index, payload@).0,
            r is Some <==> old(self)@.applying(index, payload@).1 is Some,
            r is Some ==> r->Some_0@ == old(self)@.applying(index, payload@).1->Some_0,
    {
        let token: Option<u64> = match &payload {
            Payload::Other => None,
            Payload::Unknown { token } => Some(*token),
            Payload::Write { token, .. } => Some(*token),
            Payload::Cas { token, .. } => Some(*token),
        };
        self.applied = index;
        let body: Option<Body> = self.change(payload);
        let token: u64 = match token {
            Some(token) => token,
            None => {
                return None;
            },
        };
        let ghost before = self.pending@;
        match self.pending.remove(&token) {
            None => {
                proof {
                    assert(waiting(self.pending@) =~= waiting(before));
                }
                None
            },
            Some(pending) => {
                proof {
                    assert(waiting(self.pending@) =~= waiting(before).remove(token));
                }
                match body {
                    None => None,
                    Some(body) => Some(self.reply(pending.dest, pending.in_reply_to, body)),
                }
            },
        }
    }

    /// Answer a proposal the core refused.
    pub fn fail_pending(&mut self, token: u64, why: &str) -> (r: Option<Message>)
        requires
            old(self)@.next_msg_id < u64::MAX,
        ensures
            final(self)@ == old(self)@.failing(token, why@).0,
            r is Some <==> old(self)@.failing(token, why@).1 is Some,
            r is Some ==> r->Some_0@ == old(self)@.failing(token, why@).1->Some_0,
    {
        let ghost before = self.pending@;
        match self.pending.remove(&token) {
            None => {
                proof {
                    assert(waiting(self.pending@) =~= waiting(before));
                }
                None
            },
            Some(pending) => {
                proof {
                    assert(waiting(self.pending@) =~= waiting(before).remove(token));
                }
                Some(
                    self.reply(
                        pending.dest,
                        pending.in_reply_to,
                        Body::Error { code: 11, text: why.to_owned() },
                    ),
                )
            },
        }
    }

    /// Answer one confirmed read.
    fn serve(&mut self, ctx: u64) -> (r: Option<Message>)
        requires
            old(self)@.next_msg_id < u64::MAX,
        ensures
            final(self)@ == old(self)@.serving(ctx).0,
            r is Some <==> old(self)@.serving(ctx).1 is Some,
            r is Some ==> r->Some_0@ == old(self)@.serving(ctx).1->Some_0,
    {
        let ghost before = self.reads@;
        match self.reads.remove(&ctx) {
            None => {
                proof {
                    assert(waiting(self.reads@) =~= waiting(before));
                }
                None
            },
            Some(pending) => {
                proof {
                    assert(waiting(self.reads@) =~= waiting(before).remove(ctx));
                }
                match pending.op {
                    Op::Read { key } => {
                        let body: Body = match self.store.get(key.as_str()) {
                            Some(value) => Body::ReadOk { value },
                            None => Body::Error {
                                code: 20,
                                text: "key does not exist".to_owned(),
                            },
                        };
                        Some(self.reply(pending.dest, pending.in_reply_to, body))
                    },
                    _ => None,
                }
            },
        }
    }

    /// A Raft message for a peer.
    pub fn send_raft(&mut self, message: &RaftMessage) -> (r: Option<Message>)
        requires
            old(self)@.next_msg_id < u64::MAX,
        ensures
            ({
                let bytes = <RaftMessage as Wire>::encoding(message@);
                if bytes.len() <= MAX_PAYLOAD_BYTES {
                    &&& r is Some
                    &&& (final(self)@, r->Some_0@) == old(self)@.sending(
                        peer_name(message.to),
                        WhatView::Raft { payload: hex(bytes) },
                    )
                } else {
                    r is None && final(self)@ == old(self)@
                }
            }),
    {
        match encode(message) {
            Ok(bytes) => Some(
                self.send(
                    name_of(message.to),
                    What::Raft { payload: hex_encode(bytes.as_slice()) },
                ),
            ),
            Err(_) => None,
        }
    }
}

// ---------------------------------------------------------------------- turn

/// A committed entry, as the log holds it.
#[derive(Debug)]
pub struct Committed {
    pub index: Index,
    pub payload: EntryPayload,
}

/// What an entry asks for. A no-op and a configuration change move the index and
/// nothing else.
pub open spec fn asked_by(payload: EntryPayloadView) -> PayloadView {
    match payload {
        EntryPayloadView::Normal(data) => payload_of(data),
        _ => PayloadView::Other,
    }
}

/// What an entry asks for.
pub fn read_entry(payload: &EntryPayload) -> (r: Payload)
    ensures
        r@ == asked_by(payload@),
{
    match payload {
        EntryPayload::Normal(data) => payload_in(data.as_slice()),
        _ => Payload::Other,
    }
}

/// What the core has ready.
pub struct Ready {
    pub number: u64,
    /// The index and the term of each entry to keep.
    pub entries: Vec<(Index, Term)>,
    pub messages: Vec<RaftMessage>,
    pub committed: Vec<Committed>,
    /// Reads that may be served once an index is applied.
    pub read_states: Vec<(u64, Index)>,
    pub proposals_dropped: Vec<u64>,
}

/// What the core is told once that is done.
#[derive(Debug, Clone, Copy, PartialEq, Eq)]
pub struct Advance {
    pub ready_number: u64,
    pub persisted: Option<(Index, Term)>,
    pub applied: Option<Index>,
}

/// What is said of a proposal that was refused.
pub open spec fn refused_text() -> Seq<char> {
    "the proposal was refused before it reached the log"@
}

/// Raft messages sent, one after the other.
pub open spec fn sent_all(v: MaelstromView, messages: Seq<RaftMessage>) -> (
    MaelstromView,
    Seq<MessageView>,
)
    decreases messages.len(),
{
    if messages.len() == 0 {
        (v, Seq::empty())
    } else {
        let (before, out) = sent_all(v, messages.drop_last());
        let message = messages.last();
        let bytes = <RaftMessage as Wire>::encoding(message@);
        if bytes.len() <= MAX_PAYLOAD_BYTES {
            let (after, one) = before.sending(
                peer_name(message.to),
                WhatView::Raft { payload: hex(bytes) },
            );
            (after, out.push(one))
        } else {
            (before, out)
        }
    }
}

/// Entries applied, one after the other.
pub open spec fn applied_all(v: MaelstromView, committed: Seq<Committed>) -> (
    MaelstromView,
    Seq<MessageView>,
)
    decreases committed.len(),
{
    if committed.len() == 0 {
        (v, Seq::empty())
    } else {
        let (before, out) = applied_all(v, committed.drop_last());
        let (after, one) = before.applying(
            committed.last().index,
            asked_by(committed.last().payload@),
        );
        (after, and_then(out, one))
    }
}

/// Refused proposals answered, one after the other.
pub open spec fn failed_all(v: MaelstromView, tokens: Seq<u64>) -> (
    MaelstromView,
    Seq<MessageView>,
)
    decreases tokens.len(),
{
    if tokens.len() == 0 {
        (v, Seq::empty())
    } else {
        let (before, out) = failed_all(v, tokens.drop_last());
        let (after, one) = before.failing(tokens.last(), refused_text());
        (after, and_then(out, one))
    }
}

/// Confirmed reads answered, one after the other.
pub open spec fn served_all(v: MaelstromView, reads: Seq<(u64, Index)>) -> (
    MaelstromView,
    Seq<MessageView>,
)
    decreases reads.len(),
{
    if reads.len() == 0 {
        (v, Seq::empty())
    } else {
        let (before, out) = served_all(v, reads.drop_last());
        let (after, one) = before.serving(reads.last().0);
        (after, and_then(out, one))
    }
}

impl MaelstromView {
    /// Every read whose index has been applied, answered.
    pub open spec fn answering(self) -> (MaelstromView, Seq<MessageView>) {
        served_all(
            MaelstromView {
                confirmed_reads: due(self.confirmed_reads, self.applied, false),
                ..self
            },
            due(self.confirmed_reads, self.applied, true),
        )
    }

    /// One turn: keep, send, apply, answer. Nothing is answered before what it
    /// depends on is applied.
    pub open spec fn pumped(self, ready: Ready) -> (MaelstromView, Seq<MessageView>) {
        let (sent, raft) = sent_all(self.persisted(ready.entries@), ready.messages@);
        let (moved, replies) = applied_all(sent, ready.committed@);
        let confirmed = MaelstromView {
            confirmed_reads: moved.confirmed_reads + ready.read_states@,
            ..moved
        };
        let (failed, failures) = failed_all(confirmed, ready.proposals_dropped@);
        let (after, reads) = failed.answering();
        (after, raft + replies + failures + reads)
    }

    /// How many messages a turn sends at the most.
    pub open spec fn most(self, ready: Ready) -> nat {
        ready.messages@.len() + ready.committed@.len() + ready.proposals_dropped@.len()
            + self.confirmed_reads.len() + ready.read_states@.len()
    }
}

proof fn lemma_due_is_shorter(reads: Seq<(u64, Index)>, applied: Index, served: bool)
    ensures
        due(reads, applied, served).len() <= reads.len(),
    decreases reads.len(),
{
    if reads.len() > 0 {
        lemma_due_is_shorter(reads.drop_last(), applied, served);
    }
}

impl MaelstromNode {
    fn send_all(&mut self, messages: &[RaftMessage]) -> (out: Vec<Message>)
        requires
            old(self)@.next_msg_id + messages@.len() < u64::MAX,
        ensures
            final(self)@ == sent_all(old(self)@, messages@).0,
            message_views(out@) == sent_all(old(self)@, messages@).1,
            final(self)@.next_msg_id <= old(self)@.next_msg_id + messages@.len(),
            final(self)@.confirmed_reads == old(self)@.confirmed_reads,
    {
        let mut out: Vec<Message> = Vec::new();
        let mut i: usize = 0;
        proof {
            assert(messages@.take(0) =~= Seq::empty());
            assert(message_views(out@) =~= Seq::empty());
        }
        while i < messages.len()
            invariant
                i <= messages@.len(),
                old(self)@.next_msg_id + messages@.len() < u64::MAX,
                self@.next_msg_id <= old(self)@.next_msg_id + i,
                self@.confirmed_reads == old(self)@.confirmed_reads,
                self@ == sent_all(old(self)@, messages@.take(i as int)).0,
                message_views(out@) == sent_all(old(self)@, messages@.take(i as int)).1,
            decreases messages@.len() - i,
        {
            proof {
                assert(messages@.take(i + 1).drop_last() =~= messages@.take(i as int));
            }
            let ghost before = message_views(out@);
            match self.send_raft(&messages[i]) {
                Some(message) => {
                    out.push(message);
                    proof {
                        assert(message_views(out@) =~= before.push(message@));
                    }
                },
                None => {},
            }
            i += 1;
        }
        proof {
            assert(messages@.take(i as int) =~= messages@);
        }
        out
    }

    fn apply_all(&mut self, committed: Vec<Committed>) -> (out: Vec<Message>)
        requires
            old(self)@.next_msg_id + committed@.len() < u64::MAX,
        ensures
            final(self)@ == applied_all(old(self)@, committed@).0,
            message_views(out@) == applied_all(old(self)@, committed@).1,
            final(self)@.next_msg_id <= old(self)@.next_msg_id + committed@.len(),
            final(self)@.confirmed_reads == old(self)@.confirmed_reads,
    {
        let mut out: Vec<Message> = Vec::new();
        let ghost all = committed@;
        let ghost mut done: int = 0;
        let mut rest: Vec<Committed> = committed;
        proof {
            assert(all.take(0) =~= Seq::empty());
            assert(rest@ =~= all.skip(0));
            assert(message_views(out@) =~= Seq::empty());
        }
        while rest.len() > 0
            invariant
                0 <= done <= all.len(),
                rest@ == all.skip(done),
                all == committed@,
                old(self)@.next_msg_id + all.len() < u64::MAX,
                self@.next_msg_id <= old(self)@.next_msg_id + done,
                self@.confirmed_reads == old(self)@.confirmed_reads,
                self@ == applied_all(old(self)@, all.take(done)).0,
                message_views(out@) == applied_all(old(self)@, all.take(done)).1,
            decreases rest@.len(),
        {
            let one: Committed = rest.remove(0);
            let ghost before = message_views(out@);
            proof {
                assert(one == all[done]);
                assert(all.take(done + 1).drop_last() =~= all.take(done));
                assert(rest@ =~= all.skip(done + 1));
            }
            match self.apply(one.index, read_entry(&one.payload)) {
                Some(message) => {
                    out.push(message);
                    proof {
                        assert(message_views(out@) =~= before.push(message@));
                    }
                },
                None => {},
            }
            proof {
                done = done + 1;
            }
        }
        proof {
            assert(all.take(done) =~= all);
        }
        out
    }

    fn fail_all(&mut self, tokens: &[u64]) -> (out: Vec<Message>)
        requires
            old(self)@.next_msg_id + tokens@.len() < u64::MAX,
        ensures
            final(self)@ == failed_all(old(self)@, tokens@).0,
            message_views(out@) == failed_all(old(self)@, tokens@).1,
            final(self)@.next_msg_id <= old(self)@.next_msg_id + tokens@.len(),
            final(self)@.confirmed_reads == old(self)@.confirmed_reads,
    {
        let mut out: Vec<Message> = Vec::new();
        let mut i: usize = 0;
        proof {
            assert(tokens@.take(0) =~= Seq::empty());
            assert(message_views(out@) =~= Seq::empty());
        }
        while i < tokens.len()
            invariant
                i <= tokens@.len(),
                old(self)@.next_msg_id + tokens@.len() < u64::MAX,
                self@.next_msg_id <= old(self)@.next_msg_id + i,
                self@.confirmed_reads == old(self)@.confirmed_reads,
                self@ == failed_all(old(self)@, tokens@.take(i as int)).0,
                message_views(out@) == failed_all(old(self)@, tokens@.take(i as int)).1,
            decreases tokens@.len() - i,
        {
            proof {
                assert(tokens@.take(i + 1).drop_last() =~= tokens@.take(i as int));
            }
            let ghost before = message_views(out@);
            match self.fail_pending(tokens[i], "the proposal was refused before it reached the log") {
                Some(message) => {
                    out.push(message);
                    proof {
                        assert(message_views(out@) =~= before.push(message@));
                    }
                },
                None => {},
            }
            i += 1;
        }
        proof {
            assert(tokens@.take(i as int) =~= tokens@);
        }
        out
    }

    /// Answer every read whose index has been applied.
    pub fn answer_reads(&mut self) -> (out: Vec<Message>)
        requires
            old(self)@.next_msg_id + old(self)@.confirmed_reads.len() < u64::MAX,
        ensures
            final(self)@ == old(self)@.answering().0,
            message_views(out@) == old(self)@.answering().1,
    {
        let mut ready: Vec<(u64, Index)> = Vec::new();
        let mut later: Vec<(u64, Index)> = Vec::new();
        let ghost all = self.confirmed_reads@;
        let applied: Index = self.applied;
        let mut i: usize = 0;
        proof {
            assert(all.take(0) =~= Seq::empty());
        }
        while i < self.confirmed_reads.len()
            invariant
                i <= self.confirmed_reads@.len(),
                self.confirmed_reads@ == all,
                ready@ == due(all.take(i as int), applied, true),
                later@ == due(all.take(i as int), applied, false),
            decreases self.confirmed_reads@.len() - i,
        {
            proof {
                assert(all.take(i + 1).drop_last() =~= all.take(i as int));
            }
            let read: (u64, Index) = self.confirmed_reads[i];
            if read.1 <= applied {
                ready.push(read);
            } else {
                later.push(read);
            }
            i += 1;
        }
        proof {
            assert(all.take(i as int) =~= all);
            lemma_due_is_shorter(all, applied, true);
        }
        self.confirmed_reads = later;
        let ghost begin = self@;
        let mut out: Vec<Message> = Vec::new();
        let mut k: usize = 0;
        proof {
            assert(ready@.take(0) =~= Seq::empty());
            assert(message_views(out@) =~= Seq::empty());
        }
        while k < ready.len()
            invariant
                k <= ready@.len(),
                begin.next_msg_id + ready@.len() < u64::MAX,
                self@.next_msg_id <= begin.next_msg_id + k,
                self@ == served_all(begin, ready@.take(k as int)).0,
                message_views(out@) == served_all(begin, ready@.take(k as int)).1,
            decreases ready@.len() - k,
        {
            proof {
                assert(ready@.take(k + 1).drop_last() =~= ready@.take(k as int));
            }
            let ghost before = message_views(out@);
            match self.serve(ready[k].0) {
                Some(message) => {
                    out.push(message);
                    proof {
                        assert(message_views(out@) =~= before.push(message@));
                    }
                },
                None => {},
            }
            k += 1;
        }
        proof {
            assert(ready@.take(k as int) =~= ready@);
        }
        out
    }

    /// One turn of the host loop: keep, send, apply, answer, and say what was
    /// done.
    pub fn pump(&mut self, ready: Ready) -> (r: (Vec<Message>, Advance))
        requires
            old(self)@.next_msg_id + old(self)@.most(ready) < u64::MAX,
        ensures
            final(self)@ == old(self)@.pumped(ready).0,
            message_views(r.0@) == old(self)@.pumped(ready).1,
            r.1 == (Advance {
                ready_number: ready.number,
                persisted: if ready.entries@.len() > 0 {
                    Some(ready.entries@.last())
                } else {
                    None
                },
                applied: if ready.committed@.len() > 0 {
                    Some(ready.committed@.last().index)
                } else {
                    None
                },
            }),
    {
        let persisted: Option<(Index, Term)> = if ready.entries.len() > 0 {
            Some(ready.entries[ready.entries.len() - 1])
        } else {
            None
        };
        let applied: Option<Index> = if ready.committed.len() > 0 {
            Some(ready.committed[ready.committed.len() - 1].index)
        } else {
            None
        };
        self.persist(ready.entries.as_slice());
        let mut out: Vec<Message> = self.send_all(ready.messages.as_slice());
        let ghost first = message_views(out@);
        let mut replies: Vec<Message> = self.apply_all(ready.committed);
        let ghost second = message_views(replies@);
        out.append(&mut replies);
        proof {
            assert(message_views(out@) =~= first + second);
        }
        let mut reads: Vec<(u64, Index)> = ready.read_states;
        self.confirmed_reads.append(&mut reads);
        let mut failures: Vec<Message> = self.fail_all(ready.proposals_dropped.as_slice());
        let ghost third = message_views(failures@);
        out.append(&mut failures);
        proof {
            assert(message_views(out@) =~= first + second + third);
        }
        let mut served: Vec<Message> = self.answer_reads();
        let ghost fourth = message_views(served@);
        out.append(&mut served);
        proof {
            assert(message_views(out@) =~= first + second + third + fourth);
        }
        (out, Advance { ready_number: ready.number, persisted, applied })
    }
}

// --------------------------------------------------------------------- laws

/// What some entries make of a store.
pub open spec fn stored_all(store: Keyspace, committed: Seq<Committed>) -> Keyspace
    decreases committed.len(),
{
    if committed.len() == 0 {
        store
    } else {
        stored(
            stored_all(store, committed.drop_last()),
            asked_by(committed.last().payload@),
        )
    }
}

/// What a node holds is what its committed entries make of it, in their order,
/// whoever proposed them: two nodes that applied the same entries hold the same.
pub proof fn law_the_store_is_what_was_committed(v: MaelstromView, committed: Seq<Committed>)
    ensures
        applied_all(v, committed).0.store == stored_all(v.store, committed),
    decreases committed.len(),
{
    if committed.len() > 0 {
        law_the_store_is_what_was_committed(v, committed.drop_last());
    }
}

/// A compare and swap takes effect exactly where the key holds a value equal to the
/// one that was expected.
pub proof fn law_a_swap_needs_what_was_expected(
    store: Keyspace,
    key: Seq<char>,
    from: Seq<char>,
    to: Seq<char>,
    token: u64,
)
    ensures
        ({
            let payload = PayloadView::Cas { key, from, to, token };
            let took = current(store, key) != "null"@ && json_same(current(store, key), from);
            &&& answer_for(store, payload) == Some(BodyView::CasOk) <==> took
            &&& took ==> stored(store, payload) == store.insert(key, to)
            &&& !took ==> stored(store, payload) == store
        }),
{
}

/// What was written is what is read, until something else is written there.
pub proof fn law_a_write_is_read_back(
    store: Keyspace,
    key: Seq<char>,
    value: Seq<char>,
    token: u64,
    other: Seq<char>,
)
    ensures
        ({
            let after = stored(store, PayloadView::Write { key, value, token });
            &&& read_answer(after, key) == (BodyView::ReadOk { value })
            &&& other != key ==> read_answer(after, other) == read_answer(store, other)
        }),
{
}

/// A read is answered only once its index has been applied, and no sooner.
pub proof fn law_a_read_waits_for_its_index(reads: Seq<(u64, Index)>, applied: Index)
    ensures
        forall|i: int|
            0 <= i < due(reads, applied, true).len() ==> (#[trigger] due(reads, applied, true)[i]).1
                <= applied,
        forall|i: int|
            0 <= i < due(reads, applied, false).len() ==> (#[trigger] due(
                reads,
                applied,
                false,
            )[i]).1 > applied,
        due(reads, applied, true).len() + due(reads, applied, false).len() == reads.len(),
    decreases reads.len(),
{
    if reads.len() > 0 {
        law_a_read_waits_for_its_index(reads.drop_last(), applied);
    }
}

/// A request is answered at most once: whoever waited under a token no longer
/// does once its entry is applied.
pub proof fn law_an_entry_is_answered_once(v: MaelstromView, index: Index, payload: PayloadView)
    ensures
        token_of(payload) matches Some(token) ==> !v.applying(index, payload).0.pending.contains_key(
            token,
        ),
{
}

/// A relayed request is answered to the follower that relayed it, under the token
/// that follower used.
pub proof fn law_a_relayed_request_is_answered_to_its_follower(
    v: MaelstromView,
    follower: Seq<char>,
    token: u64,
    in_reply_to: u64,
    body: BodyView,
)
    ensures
        v.replying(DestView::Relay { follower, token }, in_reply_to, body).1.dest == follower,
        v.replying(DestView::Relay { follower, token }, in_reply_to, body).1.what == (
        WhatView::ProxyReply { token, body }),
{
}

/// A relayed request is what was asked: the leader that is handed the key and kind
/// a follower sent on asks its core for the same operation as if the client had
/// come to it, and only who is answered differs.
pub proof fn law_a_relayed_request_is_the_request_that_was_asked(
    follower: MaelstromView,
    leader: MaelstromView,
    client: Seq<char>,
    msg_id: u64,
    key: Seq<char>,
    kind: KindView,
    status: Status,
    leads: Status,
)
    requires
        follower.started,
        !status.leads,
        status.leader is Some,
        leads.leads,
    ensures
        ({
            let (after, message, ask) = follower.asked(
                DestView::Client(client),
                msg_id,
                key,
                kind,
                status,
            );
            let token = follower.next_ctx;
            let name = follower.id;
            let direct = leader.asked(DestView::Client(client), msg_id, key, kind, leads);
            let by_relay = leader.asked(
                DestView::Relay { follower: name, token },
                token,
                key,
                kind,
                leads,
            );
            &&& ask is None
            &&& message is Some
            &&& message->0.dest == peer_name(status.leader->0)
            &&& message->0.what == (WhatView::Proxy { token, key, kind })
            &&& after.proxied.contains_key(token)
            &&& after.proxied[token].dest == DestView::Client(client)
            &&& after.proxied[token].in_reply_to == msg_id
            &&& by_relay.2 == direct.2
            &&& by_relay.1 == direct.1
        }),
{
}

} // verus!
