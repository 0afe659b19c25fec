//! What consensus hands to its host: entries, votes, snapshots, and the messages
//! nodes exchange.
//!
//! Consensus itself is not here. These are the plain values that cross the line
//! between it and everything that stores, sends or applies on its behalf.

use vstd::prelude::*;

use crate::wire::{Malformed, Wire};

verus! {

/// A member of the cluster.
pub type NodeId = u64;

/// An election's number.
pub type Term = u64;

/// A position in the log, counted from one.
pub type Index = u64;

/// What one entry carries.
#[derive(Debug, PartialEq, Eq)]
pub enum EntryPayload {
    /// What a new leader commits first, so that it knows what is committed.
    Noop,
    /// A proposal, encoded.
    Normal(Vec<u8>),
    /// A change of membership, encoded. Only consensus reads it.
    ConfChange(Vec<u8>),
}

/// What a [`EntryPayload`] stands for.
pub enum EntryPayloadView {
    Noop,
    Normal(Seq<u8>),
    ConfChange(Seq<u8>),
}

impl View for EntryPayload {
    type V = EntryPayloadView;

    open spec fn view(&self) -> EntryPayloadView {
        match self {
            EntryPayload::Noop => EntryPayloadView::Noop,
            EntryPayload::Normal(data) => EntryPayloadView::Normal(data.model()),
            EntryPayload::ConfChange(change) => EntryPayloadView::ConfChange(change.model()),
        }
    }
}

impl Clone for EntryPayload {
    fn clone(&self) -> (r: Self)
        ensures
            r@ == self@,
    {
        self.duplicate()
    }
}

impl Wire for EntryPayload {
    type Model = EntryPayloadView;

    open spec fn model(&self) -> EntryPayloadView {
        self@
    }

    open spec fn fits(m: EntryPayloadView) -> bool {
        match m {
            EntryPayloadView::Noop => true,
            EntryPayloadView::Normal(data) => <Vec<u8> as Wire>::fits(data),
            EntryPayloadView::ConfChange(change) => <Vec<u8> as Wire>::fits(change),
        }
    }

    open spec fn encoding(m: EntryPayloadView) -> Seq<u8> {
        match m {
            EntryPayloadView::Noop => u32::encoding(0),
            EntryPayloadView::Normal(data) => u32::encoding(1) + <Vec<u8> as Wire>::encoding(
                data,
            ),
            EntryPayloadView::ConfChange(change) => u32::encoding(2) + <Vec<u8> as Wire>::encoding(
                change,
            ),
        }
    }

    open spec fn parse(s: Seq<u8>) -> Option<(EntryPayloadView, Seq<u8>)> {
        match u32::parse(s) {
            Some((tag, rest)) => if tag == 0 {
                Some((EntryPayloadView::Noop, rest))
            } else if tag == 1 {
                match <Vec<u8> as Wire>::parse(rest) {
                    Some((data, rest)) => Some(
                        (EntryPayloadView::Normal(data), rest),
                    ),
                    None => None,
                }
            } else if tag == 2 {
                match <Vec<u8> as Wire>::parse(rest) {
                    Some((change, rest)) => Some(
                        (EntryPayloadView::ConfChange(change), rest),
                    ),
                    None => None,
                }
            } else {
                None
            },
            None => None,
        }
    }

    proof fn lemma_read_back(m: EntryPayloadView, tail: Seq<u8>) {
        match m {
            EntryPayloadView::Noop => {
                u32::lemma_read_back(0, tail);
            },
            EntryPayloadView::Normal(data) => {
                let fields = <Vec<u8> as Wire>::encoding(data);
                assert(Self::encoding(m) + tail =~= u32::encoding(1) + (fields + tail));
                u32::lemma_read_back(1, fields + tail);
                <Vec<u8> as Wire>::lemma_read_back(data, tail);
            },
            EntryPayloadView::ConfChange(change) => {
                let fields = <Vec<u8> as Wire>::encoding(change);
                assert(Self::encoding(m) + tail =~= u32::encoding(2) + (fields + tail));
                u32::lemma_read_back(2, fields + tail);
                <Vec<u8> as Wire>::lemma_read_back(change, tail);
            },
        }
    }

    proof fn lemma_extends(s: Seq<u8>, tail: Seq<u8>) {
        u32::lemma_extends(s, tail);
        let (tag, rest) = u32::parse(s)->0;
        if tag == 1 {
            <Vec<u8> as Wire>::lemma_extends(rest, tail);
            let left = (<Vec<u8> as Wire>::parse(rest)->0).1;
            assert(left =~= s.skip(s.len() - left.len()));
        }
        if tag == 2 {
            <Vec<u8> as Wire>::lemma_extends(rest, tail);
            let left = (<Vec<u8> as Wire>::parse(rest)->0).1;
            assert(left =~= s.skip(s.len() - left.len()));
        }
    }

    fn put(&self, out: &mut Vec<u8>) {
        match self {
            EntryPayload::Noop => {
                0u32.put(out);
            },
            EntryPayload::Normal(data) => {
                1u32.put(out);
                data.put(out);
            },
            EntryPayload::ConfChange(change) => {
                2u32.put(out);
                change.put(out);
            },
        }
        proof {
            assert(out@ =~= old(out)@ + Self::encoding(self.model()));
        }
    }

    fn take(bytes: &[u8], pos: usize) -> (r: Result<(EntryPayload, usize), Malformed>) {
        match u32::take(bytes, pos) {
            Ok((tag, next)) => match tag {
                0 => Ok((EntryPayload::Noop, next)),
                1 => match <Vec<u8> as Wire>::take(bytes, next) {
                    Ok((data, next)) => Ok((EntryPayload::Normal(data), next)),
                    Err(e) => Err(e),
                },
                2 => match <Vec<u8> as Wire>::take(bytes, next) {
                    Ok((change, next)) => Ok((EntryPayload::ConfChange(change), next)),
                    Err(e) => Err(e),
                },
                _ => Err(Malformed::Variant(tag)),
            },
            Err(e) => Err(e),
        }
    }

    fn duplicate(&self) -> (r: EntryPayload) {
        match self {
            EntryPayload::Noop => EntryPayload::Noop,
            EntryPayload::Normal(data) => EntryPayload::Normal(data.duplicate()),
            EntryPayload::ConfChange(change) => EntryPayload::ConfChange(change.duplicate()),
        }
    }
}

/// One position of the replicated log.
#[derive(Debug, PartialEq, Eq)]
pub struct Entry {
    pub term: Term,
    pub index: Index,
    pub payload: EntryPayload,
}

/// What a [`Entry`] stands for.
pub struct EntryView {
    pub term: Term,
    pub index: Index,
    pub payload: EntryPayloadView,
}

impl View for Entry {
    type V = EntryView;

    open spec fn view(&self) -> EntryView {
        EntryView {
            term: self.term.model(),
            index: self.index.model(),
            payload: self.payload.model(),
        }
    }
}

impl Clone for Entry {
    fn clone(&self) -> (r: Self)
        ensures
            r@ == self@,
    {
        self.duplicate()
    }
}

impl Wire for Entry {
    type Model = EntryView;

    open spec fn model(&self) -> EntryView {
        self@
    }

    open spec fn fits(m: EntryView) -> bool {
        Term::fits(m.term) && Index::fits(m.index) && EntryPayload::fits(m.payload)
    }

    open spec fn encoding(m: EntryView) -> Seq<u8> {
        <(Term, (Index, EntryPayload)) as Wire>::encoding((m.term, (m.index, m.payload)))
    }

    open spec fn parse(s: Seq<u8>) -> Option<(EntryView, Seq<u8>)> {
        match <(Term, (Index, EntryPayload)) as Wire>::parse(s) {
            Some(((term, (index, payload)), rest)) => Some((EntryView { term, index, payload }, rest)),
            None => None,
        }
    }

    proof fn lemma_read_back(m: EntryView, tail: Seq<u8>) {
        <(Term, (Index, EntryPayload)) as Wire>::lemma_read_back((m.term, (m.index, m.payload)), tail);
    }

    proof fn lemma_extends(s: Seq<u8>, tail: Seq<u8>) {
        <(Term, (Index, EntryPayload)) as Wire>::lemma_extends(s, tail);
    }

    fn put(&self, out: &mut Vec<u8>) {
        self.term.put(out);
        self.index.put(out);
        self.payload.put(out);
        proof {
            assert(out@ =~= old(out)@ + Self::encoding(self.model()));
        }
    }

    fn take(bytes: &[u8], pos: usize) -> (r: Result<(Entry, usize), Malformed>) {
        match <(Term, (Index, EntryPayload)) as Wire>::take(bytes, pos) {
            Ok(((term, (index, payload)), next)) => Ok((Entry { term, index, payload }, next)),
            Err(e) => Err(e),
        }
    }

    fn duplicate(&self) -> (r: Entry) {
        Entry {
            term: self.term.duplicate(),
            index: self.index.duplicate(),
            payload: self.payload.duplicate(),
        }
    }
}

impl Entry {
    pub fn new(term: Term, index: Index, payload: EntryPayload) -> (r: Self)
        ensures
            r@ == (EntryView { term, index, payload: payload@ }),
    {
        Entry { term, index, payload }
    }
}

/// What a node must remember across a crash: the term it has seen, the vote it
/// cast in it, and how far it knows the log to be committed.
#[derive(Debug, Clone, Copy, PartialEq, Eq, Structural)]
pub struct HardState {
    pub term: Term,
    pub voted_for: Option<NodeId>,
    pub commit: Index,
}

impl Wire for HardState {
    type Model = HardState;

    open spec fn model(&self) -> HardState {
        *self
    }

    open spec fn fits(m: HardState) -> bool {
        Term::fits(m.term) && <Option<NodeId> as Wire>::fits(m.voted_for) && Index::fits(m.commit)
    }

    open spec fn encoding(m: HardState) -> Seq<u8> {
        <(Term, (Option<NodeId>, Index)) as Wire>::encoding((m.term, (m.voted_for, m.commit)))
    }

    open spec fn parse(s: Seq<u8>) -> Option<(HardState, Seq<u8>)> {
        match <(Term, (Option<NodeId>, Index)) as Wire>::parse(s) {
            Some(((term, (voted_for, commit)), rest)) => Some((HardState { term, voted_for, commit }, rest)),
            None => None,
        }
    }

    proof fn lemma_read_back(m: HardState, tail: Seq<u8>) {
        <(Term, (Option<NodeId>, Index)) as Wire>::lemma_read_back((m.term, (m.voted_for, m.commit)), tail);
    }

    proof fn lemma_extends(s: Seq<u8>, tail: Seq<u8>) {
        <(Term, (Option<NodeId>, Index)) as Wire>::lemma_extends(s, tail);
    }

    fn put(&self, out: &mut Vec<u8>) {
        self.term.put(out);
        self.voted_for.put(out);
        self.commit.put(out);
        proof {
            assert(out@ =~= old(out)@ + Self::encoding(self.model()));
        }
    }

    fn take(bytes: &[u8], pos: usize) -> (r: Result<(HardState, usize), Malformed>) {
        match <(Term, (Option<NodeId>, Index)) as Wire>::take(bytes, pos) {
            Ok(((term, (voted_for, commit)), next)) => Ok((HardState { term, voted_for, commit }, next)),
            Err(e) => Err(e),
        }
    }

    fn duplicate(&self) -> (r: HardState) {
        *self
    }
}

impl Default for HardState {
    fn default() -> (r: Self)
        ensures
            r == (HardState { term: 0, voted_for: None, commit: 0 }),
    {
        HardState { term: 0, voted_for: None, commit: 0 }
    }
}

/// Who belongs to the cluster.
#[derive(Debug, PartialEq, Eq)]
pub struct ConfState {
    pub voters: Vec<NodeId>,
    pub learners: Vec<NodeId>,
}

/// What a [`ConfState`] stands for.
pub struct ConfStateView {
    pub voters: Seq<NodeId>,
    pub learners: Seq<NodeId>,
}

impl View for ConfState {
    type V = ConfStateView;

    open spec fn view(&self) -> ConfStateView {
        ConfStateView {
            voters: self.voters.model(),
            learners: self.learners.model(),
        }
    }
}

impl Clone for ConfState {
    fn clone(&self) -> (r: Self)
        ensures
            r@ == self@,
    {
        self.duplicate()
    }
}

impl Wire for ConfState {
    type Model = ConfStateView;

    open spec fn model(&self) -> ConfStateView {
        self@
    }

    open spec fn fits(m: ConfStateView) -> bool {
        <Vec<NodeId> as Wire>::fits(m.voters) && <Vec<NodeId> as Wire>::fits(m.learners)
    }

    open spec fn encoding(m: ConfStateView) -> Seq<u8> {
        <(Vec<NodeId>, Vec<NodeId>) as Wire>::encoding((m.voters, m.learners))
    }

    open spec fn parse(s: Seq<u8>) -> Option<(ConfStateView, Seq<u8>)> {
        match <(Vec<NodeId>, Vec<NodeId>) as Wire>::parse(s) {
            Some(((voters, learners), rest)) => Some((ConfStateView { voters, learners }, rest)),
            None => None,
        }
    }

    proof fn lemma_read_back(m: ConfStateView, tail: Seq<u8>) {
        <(Vec<NodeId>, Vec<NodeId>) as Wire>::lemma_read_back((m.voters, m.learners), tail);
    }

    proof fn lemma_extends(s: Seq<u8>, tail: Seq<u8>) {
        <(Vec<NodeId>, Vec<NodeId>) as Wire>::lemma_extends(s, tail);
    }

    fn put(&self, out: &mut Vec<u8>) {
        self.voters.put(out);
        self.learners.put(out);
        proof {
            assert(out@ =~= old(out)@ + Self::encoding(self.model()));
        }
    }

    fn take(bytes: &[u8], pos: usize) -> (r: Result<(ConfState, usize), Malformed>) {
        match <(Vec<NodeId>, Vec<NodeId>) as Wire>::take(bytes, pos) {
            Ok(((voters, learners), next)) => Ok((ConfState { voters, learners }, next)),
            Err(e) => Err(e),
        }
    }

    fn duplicate(&self) -> (r: ConfState) {
        ConfState {
            voters: self.voters.duplicate(),
            learners: self.learners.duplicate(),
        }
    }
}

impl ConfState {
    /// A cluster of these voters and nobody else.
    pub fn single(voters: Vec<NodeId>) -> (r: Self)
        ensures
            r@.voters =~= voters@,
            r@.learners =~= Seq::<NodeId>::empty(),
    {
        ConfState { voters, learners: Vec::new() }
    }
}

/// What a snapshot covers: everything through `index`, which was written in
/// `term`, under this membership.
#[derive(Debug, PartialEq, Eq)]
pub struct SnapshotMeta {
    pub index: Index,
    pub term: Term,
    pub conf: ConfState,
}

/// What a [`SnapshotMeta`] stands for.
pub struct SnapshotMetaView {
    pub index: Index,
    pub term: Term,
    pub conf: ConfStateView,
}

impl View for SnapshotMeta {
    type V = SnapshotMetaView;

    open spec fn view(&self) -> SnapshotMetaView {
        SnapshotMetaView {
            index: self.index.model(),
            term: self.term.model(),
            conf: self.conf.model(),
        }
    }
}

impl Clone for SnapshotMeta {
    fn clone(&self) -> (r: Self)
        ensures
            r@ == self@,
    {
        self.duplicate()
    }
}

impl Wire for SnapshotMeta {
    type Model = SnapshotMetaView;

    open spec fn model(&self) -> SnapshotMetaView {
        self@
    }

    open spec fn fits(m: SnapshotMetaView) -> bool {
        Index::fits(m.index) && Term::fits(m.term) && ConfState::fits(m.conf)
    }

    open spec fn encoding(m: SnapshotMetaView) -> Seq<u8> {
        <(Index, (Term, ConfState)) as Wire>::encoding((m.index, (m.term, m.conf)))
    }

    open spec fn parse(s: Seq<u8>) -> Option<(SnapshotMetaView, Seq<u8>)> {
        match <(Index, (Term, ConfState)) as Wire>::parse(s) {
            Some(((index, (term, conf)), rest)) => Some((SnapshotMetaView { index, term, conf }, rest)),
            None => None,
        }
    }

    proof fn lemma_read_back(m: SnapshotMetaView, tail: Seq<u8>) {
        <(Index, (Term, ConfState)) as Wire>::lemma_read_back((m.index, (m.term, m.conf)), tail);
    }

    proof fn lemma_extends(s: Seq<u8>, tail: Seq<u8>) {
        <(Index, (Term, ConfState)) as Wire>::lemma_extends(s, tail);
    }

    fn put(&self, out: &mut Vec<u8>) {
        self.index.put(out);
        self.term.put(out);
        self.conf.put(out);
        proof {
            assert(out@ =~= old(out)@ + Self::encoding(self.model()));
        }
    }

    fn take(bytes: &[u8], pos: usize) -> (r: Result<(SnapshotMeta, usize), Malformed>) {
        match <(Index, (Term, ConfState)) as Wire>::take(bytes, pos) {
            Ok(((index, (term, conf)), next)) => Ok((SnapshotMeta { index, term, conf }, next)),
            Err(e) => Err(e),
        }
    }

    fn duplicate(&self) -> (r: SnapshotMeta) {
        SnapshotMeta {
            index: self.index.duplicate(),
            term: self.term.duplicate(),
            conf: self.conf.duplicate(),
        }
    }
}

/// What one node asks or tells another.
#[derive(Debug, PartialEq, Eq)]
pub enum MessageBody {
    PreVoteReq {
        last_log_index: Index,
        last_log_term: Term,
    },
    PreVoteResp {
        granted: bool,
    },
    VoteReq {
        last_log_index: Index,
        last_log_term: Term,
        is_transfer: bool,
    },
    VoteResp {
        granted: bool,
    },
    AppendReq {
        prev_log_index: Index,
        prev_log_term: Term,
        entries: Vec<Entry>,
        leader_commit: Index,
    },
    SnapshotOffer {
        meta: SnapshotMeta,
    },
}

/// What a [`MessageBody`] stands for.
pub enum MessageBodyView {
    PreVoteReq {
        last_log_index: Index,
        last_log_term: Term,
    },
    PreVoteResp {
        granted: bool,
    },
    VoteReq {
        last_log_index: Index,
        last_log_term: Term,
        is_transfer: bool,
    },
    VoteResp {
        granted: bool,
    },
    AppendReq {
        prev_log_index: Index,
        prev_log_term: Term,
        entries: Seq<EntryView>,
        leader_commit: Index,
    },
    SnapshotOffer {
        meta: SnapshotMetaView,
    },
}

impl View for MessageBody {
    type V = MessageBodyView;

    open spec fn view(&self) -> MessageBodyView {
        match self {
            MessageBody::PreVoteReq { last_log_index, last_log_term } => MessageBodyView::PreVoteReq { last_log_index: last_log_index.model(), last_log_term: last_log_term.model() },
            MessageBody::PreVoteResp { granted } => MessageBodyView::PreVoteResp { granted: granted.model() },
            MessageBody::VoteReq { last_log_index, last_log_term, is_transfer } => MessageBodyView::VoteReq { last_log_index: last_log_index.model(), last_log_term: last_log_term.model(), is_transfer: is_transfer.model() },
            MessageBody::VoteResp { granted } => MessageBodyView::VoteResp { granted: granted.model() },
            MessageBody::AppendReq { prev_log_index, prev_log_term, entries, leader_commit } => MessageBodyView::AppendReq { prev_log_index: prev_log_index.model(), prev_log_term: prev_log_term.model(), entries: entries.model(), leader_commit: leader_commit.model() },
            MessageBody::SnapshotOffer { meta } => MessageBodyView::SnapshotOffer { meta: meta.model() },
        }
    }
}

impl Clone for MessageBody {
    fn clone(&self) -> (r: Self)
        ensures
            r@ == self@,
    {
        self.duplicate()
    }
}

impl Wire for MessageBody {
    type Model = MessageBodyView;

    open spec fn model(&self) -> MessageBodyView {
        self@
    }

    open spec fn fits(m: MessageBodyView) -> bool {
        match m {
            MessageBodyView::PreVoteReq { last_log_index, last_log_term } => Index::fits(last_log_index) && Term::fits(last_log_term),
            MessageBodyView::PreVoteResp { granted } => bool::fits(granted),
            MessageBodyView::VoteReq { last_log_index, last_log_term, is_transfer } => Index::fits(last_log_index) && Term::fits(last_log_term) && bool::fits(is_transfer),
            MessageBodyView::VoteResp { granted } => bool::fits(granted),
            MessageBodyView::AppendReq { prev_log_index, prev_log_term, entries, leader_commit } => Index::fits(prev_log_index) && Term::fits(prev_log_term) && <Vec<Entry> as Wire>::fits(entries) && Index::fits(leader_commit),
            MessageBodyView::SnapshotOffer { meta } => SnapshotMeta::fits(meta),
        }
    }

    open spec fn encoding(m: MessageBodyView) -> Seq<u8> {
        match m {
            MessageBodyView::PreVoteReq { last_log_index, last_log_term } => u32::encoding(0) + <(Index, Term) as Wire>::encoding(
                (last_log_index, last_log_term),
            ),
            MessageBodyView::PreVoteResp { granted } => u32::encoding(1) + bool::encoding(
                granted,
            ),
            MessageBodyView::VoteReq { last_log_index, last_log_term, is_transfer } => u32::encoding(2) + <(Index, (Term, bool)) as Wire>::encoding(
                (last_log_index, (last_log_term, is_transfer)),
            ),
            MessageBodyView::VoteResp { granted } => u32::encoding(3) + bool::encoding(
                granted,
            ),
            MessageBodyView::AppendReq { prev_log_index, prev_log_term, entries, leader_commit } => u32::encoding(4) + <(Index, (Term, (Vec<Entry>, Index))) as Wire>::encoding(
                (prev_log_index, (prev_log_term, (entries, leader_commit))),
            ),
            MessageBodyView::SnapshotOffer { meta } => u32::encoding(5) + SnapshotMeta::encoding(
                meta,
            ),
        }
    }

    open spec fn parse(s: Seq<u8>) -> Option<(MessageBodyView, Seq<u8>)> {
        match u32::parse(s) {
            Some((tag, rest)) => if tag == 0 {
                match <(Index, Term) as Wire>::parse(rest) {
                    Some(((last_log_index, last_log_term), rest)) => Some(
                        (MessageBodyView::PreVoteReq { last_log_index, last_log_term }, rest),
                    ),
                    None => None,
                }
            } else if tag == 1 {
                match bool::parse(rest) {
                    Some((granted, rest)) => Some(
                        (MessageBodyView::PreVoteResp { granted }, rest),
                    ),
                    None => None,
                }
            } else if tag == 2 {
                match <(Index, (Term, bool)) as Wire>::parse(rest) {
                    Some(((last_log_index, (last_log_term, is_transfer)), rest)) => Some(
                        (MessageBodyView::VoteReq { last_log_index, last_log_term, is_transfer }, rest),
                    ),
                    None => None,
                }
            } else if tag == 3 {
                match bool::parse(rest) {
                    Some((granted, rest)) => Some(
                        (MessageBodyView::VoteResp { granted }, rest),
                    ),
                    None => None,
                }
            } else if tag == 4 {
                match <(Index, (Term, (Vec<Entry>, Index))) as Wire>::parse(rest) {
                    Some(((prev_log_index, (prev_log_term, (entries, leader_commit))), rest)) => Some(
                        (MessageBodyView::AppendReq { prev_log_index, prev_log_term, entries, leader_commit }, rest),
                    ),
                    None => None,
                }
            } else if tag == 5 {
                match SnapshotMeta::parse(rest) {
                    Some((meta, rest)) => Some(
                        (MessageBodyView::SnapshotOffer { meta }, rest),
                    ),
                    None => None,
                }
            } else {
                None
            },
            None => None,
        }
    }

    proof fn lemma_read_back(m: MessageBodyView, tail: Seq<u8>) {
        match m {
            MessageBodyView::PreVoteReq { last_log_index, last_log_term } => {
                let fields = <(Index, Term) as Wire>::encoding((last_log_index, last_log_term));
                assert(Self::encoding(m) + tail =~= u32::encoding(0) + (fields + tail));
                u32::lemma_read_back(0, fields + tail);
                <(Index, Term) as Wire>::lemma_read_back((last_log_index, last_log_term), tail);
            },
            MessageBodyView::PreVoteResp { granted } => {
                let fields = bool::encoding(granted);
                assert(Self::encoding(m) + tail =~= u32::encoding(1) + (fields + tail));
                u32::lemma_read_back(1, fields + tail);
                bool::lemma_read_back(granted, tail);
            },
            MessageBodyView::VoteReq { last_log_index, last_log_term, is_transfer } => {
                let fields = <(Index, (Term, bool)) as Wire>::encoding((last_log_index, (last_log_term, is_transfer)));
                assert(Self::encoding(m) + tail =~= u32::encoding(2) + (fields + tail));
                u32::lemma_read_back(2, fields + tail);
                <(Index, (Term, bool)) as Wire>::lemma_read_back((last_log_index, (last_log_term, is_transfer)), tail);
            },
            MessageBodyView::VoteResp { granted } => {
                let fields = bool::encoding(granted);
                assert(Self::encoding(m) + tail =~= u32::encoding(3) + (fields + tail));
                u32::lemma_read_back(3, fields + tail);
                bool::lemma_read_back(granted, tail);
            },
            MessageBodyView::AppendReq { prev_log_index, prev_log_term, entries, leader_commit } => {
                let fields = <(Index, (Term, (Vec<Entry>, Index))) as Wire>::encoding((prev_log_index, (prev_log_term, (entries, leader_commit))));
                assert(Self::encoding(m) + tail =~= u32::encoding(4) + (fields + tail));
                u32::lemma_read_back(4, fields + tail);
                <(Index, (Term, (Vec<Entry>, Index))) as Wire>::lemma_read_back((prev_log_index, (prev_log_term, (entries, leader_commit))), tail);
            },
            MessageBodyView::SnapshotOffer { meta } => {
                let fields = SnapshotMeta::encoding(meta);
                assert(Self::encoding(m) + tail =~= u32::encoding(5) + (fields + tail));
                u32::lemma_read_back(5, fields + tail);
                SnapshotMeta::lemma_read_back(meta, tail);
            },
        }
    }

    proof fn lemma_extends(s: Seq<u8>, tail: Seq<u8>) {
        u32::lemma_extends(s, tail);
        let (tag, rest) = u32::parse(s)->0;
        if tag == 0 {
            <(Index, Term) as Wire>::lemma_extends(rest, tail);
            let left = (<(Index, Term) as Wire>::parse(rest)->0).1;
            assert(left =~= s.skip(s.len() - left.len()));
        }
        if tag == 1 {
            bool::lemma_extends(rest, tail);
            let left = (bool::parse(rest)->0).1;
            assert(left =~= s.skip(s.len() - left.len()));
        }
        if tag == 2 {
            <(Index, (Term, bool)) as Wire>::lemma_extends(rest, tail);
            let left = (<(Index, (Term, bool)) as Wire>::parse(rest)->0).1;
            assert(left =~= s.skip(s.len() - left.len()));
        }
        if tag == 3 {
            bool::lemma_extends(rest, tail);
            let left = (bool::parse(rest)->0).1;
            assert(left =~= s.skip(s.len() - left.len()));
        }
        if tag == 4 {
            <(Index, (Term, (Vec<Entry>, Index))) as Wire>::lemma_extends(rest, tail);
            let left = (<(Index, (Term, (Vec<Entry>, Index))) as Wire>::parse(rest)->0).1;
            assert(left =~= s.skip(s.len() - left.len()));
        }
        if tag == 5 {
            SnapshotMeta::lemma_extends(rest, tail);
            let left = (SnapshotMeta::parse(rest)->0).1;
            assert(left =~= s.skip(s.len() - left.len()));
        }
    }

    fn put(&self, out: &mut Vec<u8>) {
        match self {
            MessageBody::PreVoteReq { last_log_index, last_log_term } => {
                0u32.put(out);
                last_log_index.put(out);
                last_log_term.put(out);
            },
            MessageBody::PreVoteResp { granted } => {
                1u32.put(out);
                granted.put(out);
            },
            MessageBody::VoteReq { last_log_index, last_log_term, is_transfer } => {
                2u32.put(out);
                last_log_index.put(out);
                last_log_term.put(out);
                is_transfer.put(out);
            },
            MessageBody::VoteResp { granted } => {
                3u32.put(out);
                granted.put(out);
            },
            MessageBody::AppendReq { prev_log_index, prev_log_term, entries, leader_commit } => {
                4u32.put(out);
                prev_log_index.put(out);
                prev_log_term.put(out);
                entries.put(out);
                leader_commit.put(out);
            },
            MessageBody::SnapshotOffer { meta } => {
                5u32.put(out);
                meta.put(out);
            },
        }
        proof {
            assert(out@ =~= old(out)@ + Self::encoding(self.model()));
        }
    }

    fn take(bytes: &[u8], pos: usize) -> (r: Result<(MessageBody, usize), Malformed>) {
        match u32::take(bytes, pos) {
            Ok((tag, next)) => match tag {
                0 => match <(Index, Term) as Wire>::take(bytes, next) {
                    Ok(((last_log_index, last_log_term), next)) => Ok((MessageBody::PreVoteReq { last_log_index, last_log_term }, next)),
                    Err(e) => Err(e),
                },
                1 => match bool::take(bytes, next) {
                    Ok((granted, next)) => Ok((MessageBody::PreVoteResp { granted }, next)),
                    Err(e) => Err(e),
                },
                2 => match <(Index, (Term, bool)) as Wire>::take(bytes, next) {
                    Ok(((last_log_index, (last_log_term, is_transfer)), next)) => Ok((MessageBody::VoteReq { last_log_index, last_log_term, is_transfer }, next)),
                    Err(e) => Err(e),
                },
                3 => match bool::take(bytes, next) {
                    Ok((granted, next)) => Ok((MessageBody::VoteResp { granted }, next)),
                    Err(e) => Err(e),
                },
                4 => match <(Index, (Term, (Vec<Entry>, Index))) as Wire>::take(bytes, next) {
                    Ok(((prev_log_index, (prev_log_term, (entries, leader_commit))), next)) => Ok((MessageBody::AppendReq { prev_log_index, prev_log_term, entries, leader_commit }, next)),
                    Err(e) => Err(e),
                },
                5 => match SnapshotMeta::take(bytes, next) {
                    Ok((meta, next)) => Ok((MessageBody::SnapshotOffer { meta }, next)),
                    Err(e) => Err(e),
                },
                _ => Err(Malformed::Variant(tag)),
            },
            Err(e) => Err(e),
        }
    }

    fn duplicate(&self) -> (r: MessageBody) {
        match self {
            MessageBody::PreVoteReq { last_log_index, last_log_term } => MessageBody::PreVoteReq { last_log_index: last_log_index.duplicate(), last_log_term: last_log_term.duplicate() },
            MessageBody::PreVoteResp { granted } => MessageBody::PreVoteResp { granted: granted.duplicate() },
            MessageBody::VoteReq { last_log_index, last_log_term, is_transfer } => MessageBody::VoteReq { last_log_index: last_log_index.duplicate(), last_log_term: last_log_term.duplicate(), is_transfer: is_transfer.duplicate() },
            MessageBody::VoteResp { granted } => MessageBody::VoteResp { granted: granted.duplicate() },
            MessageBody::AppendReq { prev_log_index, prev_log_term, entries, leader_commit } => MessageBody::AppendReq { prev_log_index: prev_log_index.duplicate(), prev_log_term: prev_log_term.duplicate(), entries: entries.duplicate(), leader_commit: leader_commit.duplicate() },
            MessageBody::SnapshotOffer { meta } => MessageBody::SnapshotOffer { meta: meta.duplicate() },
        }
    }
}

/// A message between two nodes.
#[derive(Debug, PartialEq, Eq)]
pub struct Message {
    pub from: NodeId,
    pub to: NodeId,
    pub term: Term,
    pub body: MessageBody,
}

/// What a [`Message`] stands for.
pub struct MessageView {
    pub from: NodeId,
    pub to: NodeId,
    pub term: Term,
    pub body: MessageBodyView,
}

impl View for Message {
    type V = MessageView;

    open spec fn view(&self) -> MessageView {
        MessageView {
            from: self.from.model(),
            to: self.to.model(),
            term: self.term.model(),
            body: self.body.model(),
        }
    }
}

impl Clone for Message {
    fn clone(&self) -> (r: Self)
        ensures
            r@ == self@,
    {
        self.duplicate()
    }
}

impl Wire for Message {
    type Model = MessageView;

    open spec fn model(&self) -> MessageView {
        self@
    }

    open spec fn fits(m: MessageView) -> bool {
        NodeId::fits(m.from) && NodeId::fits(m.to) && Term::fits(m.term) && MessageBody::fits(m.body)
    }

    open spec fn encoding(m: MessageView) -> Seq<u8> {
        <(NodeId, (NodeId, (Term, MessageBody))) as Wire>::encoding((m.from, (m.to, (m.term, m.body))))
    }

    open spec fn parse(s: Seq<u8>) -> Option<(MessageView, Seq<u8>)> {
        match <(NodeId, (NodeId, (Term, MessageBody))) as Wire>::parse(s) {
            Some(((from, (to, (term, body))), rest)) => Some((MessageView { from, to, term, body }, rest)),
            None => None,
        }
    }

    proof fn lemma_read_back(m: MessageView, tail: Seq<u8>) {
        <(NodeId, (NodeId, (Term, MessageBody))) as Wire>::lemma_read_back((m.from, (m.to, (m.term, m.body))), tail);
    }

    proof fn lemma_extends(s: Seq<u8>, tail: Seq<u8>) {
        <(NodeId, (NodeId, (Term, MessageBody))) as Wire>::lemma_extends(s, tail);
    }

    fn put(&self, out: &mut Vec<u8>) {
        self.from.put(out);
        self.to.put(out);
        self.term.put(out);
        self.body.put(out);
        proof {
            assert(out@ =~= old(out)@ + Self::encoding(self.model()));
        }
    }

    fn take(bytes: &[u8], pos: usize) -> (r: Result<(Message, usize), Malformed>) {
        match <(NodeId, (NodeId, (Term, MessageBody))) as Wire>::take(bytes, pos) {
            Ok(((from, (to, (term, body))), next)) => Ok((Message { from, to, term, body }, next)),
            Err(e) => Err(e),
        }
    }

    fn duplicate(&self) -> (r: Message) {
        Message {
            from: self.from.duplicate(),
            to: self.to.duplicate(),
            term: self.term.duplicate(),
            body: self.body.duplicate(),
        }
    }
}

impl Message {
    pub fn new(from: NodeId, to: NodeId, term: Term, body: MessageBody) -> (r: Self)
        ensures
            r@ == (MessageView { from, to, term, body: body@ }),
    {
        Message { from, to, term, body }
    }
}

} // verus!
