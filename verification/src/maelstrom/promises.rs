//! What a node under Maelstrom promises its clients, from request to answer.

use vstd::prelude::*;

use crate::api::{law_round_trip, MAX_PAYLOAD_BYTES};
use crate::maelstrom::json::{json_same, said, Arrived, ArrivedView};
use crate::lines::{unquote_back, unquote_front};
use crate::maelstrom::names::{bare_key, law_hex_is_read_back, number_of, without_n};
use crate::maelstrom::{
    carried, due, name_of, AskView, BodyView, DestView, KindView, MaelstromNode, MaelstromView,
    Message, OpView, PayloadView, Status, Told, WhatView,
};
use crate::raft::{Index, Message as RaftMessage, MessageView as RaftMessageView, NodeId};
use crate::text::{decimal, hex, is_digit, law_a_number_is_read_back};
use crate::wire::Wire;

verus! {

/// A write that a client asks of the leader is proposed as that write. Once its entry
/// is applied the key holds the value, and that client is told so, about that very
/// request.
pub proof fn law_a_write_is_proposed_applied_and_answered(
    v: MaelstromView,
    client: Seq<char>,
    msg_id: u64,
    key: Seq<char>,
    value: Seq<char>,
    index: Index,
    status: Status,
)
    requires
        v.started,
        status.leads,
    ensures
        ({
            let kind = KindView::Write { value };
            let (asked, said, ask) = v.asked(DestView::Client(client), msg_id, key, kind, status);
            let token = v.next_ctx;
            let k = bare_key(key);
            let entry = PayloadView::Write { key: k, value, token };
            let (after, reply) = asked.applying(index, entry);
            &&& said is None
            &&& ask == Some(AskView::Propose { ctx: token, op: OpView::Write { key: k, value } })
            &&& asked.store == v.store
            &&& after.store.contains_key(k) && after.store[k] == value
            &&& forall|other: Seq<char>|
                other != k ==> after.store.contains_key(other) == v.store.contains_key(other) && (
                v.store.contains_key(other) ==> #[trigger] after.store[other] == v.store[other])
            &&& after.applied == index
            &&& reply is Some
            &&& reply->0.dest == client
            &&& reply->0.what == (WhatView::Reply { in_reply_to: msg_id, body: BodyView::WriteOk })
            &&& !after.pending.contains_key(token)
        }),
{
}

/// A compare and swap that a client asks of the leader is proposed as that. Once its
/// entry is applied it took effect exactly where the key held the value expected, and
/// the client is told which: that it did, that there is no such key, or that the
/// value is another.
pub proof fn law_a_swap_is_proposed_applied_and_answered(
    v: MaelstromView,
    client: Seq<char>,
    msg_id: u64,
    key: Seq<char>,
    from: Seq<char>,
    to: Seq<char>,
    index: Index,
    status: Status,
)
    requires
        v.started,
        status.leads,
    ensures
        ({
            let kind = KindView::Cas { from, to };
            let (asked, said, ask) = v.asked(DestView::Client(client), msg_id, key, kind, status);
            let token = v.next_ctx;
            let k = bare_key(key);
            let entry = PayloadView::Cas { key: k, from, to, token };
            let (after, reply) = asked.applying(index, entry);
            let held = v.store.contains_key(k) && v.store[k] != "null"@;
            &&& said is None
            &&& ask == Some(AskView::Propose { ctx: token, op: OpView::Cas { key: k, from, to } })
            &&& reply is Some
            &&& reply->0.dest == client
            &&& held && json_same(v.store[k], from) ==> {
                &&& after.store == v.store.insert(k, to)
                &&& reply->0.what == (WhatView::Reply {
                    in_reply_to: msg_id,
                    body: BodyView::CasOk,
                })
            }
            &&& !held ==> {
                &&& after.store == v.store
                &&& reply->0.what matches WhatView::Reply {
                    in_reply_to,
                    body: BodyView::Error { code, .. },
                } && in_reply_to == msg_id && code == 20
            }
            &&& held && !json_same(v.store[k], from) ==> {
                &&& after.store == v.store
                &&& reply->0.what matches WhatView::Reply {
                    in_reply_to,
                    body: BodyView::Error { code, .. },
                } && in_reply_to == msg_id && code == 22
            }
        }),
{
}

/// A read that a client asks of the leader is confirmed by the core before it is
/// answered, and is then answered with what the key holds, or that there is no such
/// key: to that client, about that request, once.
pub proof fn law_a_read_is_confirmed_and_answered(
    v: MaelstromView,
    client: Seq<char>,
    msg_id: u64,
    key: Seq<char>,
    status: Status,
)
    requires
        v.started,
        status.leads,
    ensures
        ({
            let (asked, said, ask) = v.asked(
                DestView::Client(client),
                msg_id,
                key,
                KindView::Read,
                status,
            );
            let ctx = v.next_ctx;
            let k = bare_key(key);
            let (after, reply) = asked.serving(ctx);
            &&& said is None
            &&& ask == Some(AskView::ReadIndex { ctx })
            &&& reply is Some
            &&& reply->0.dest == client
            &&& v.store.contains_key(k) ==> reply->0.what == (WhatView::Reply {
                in_reply_to: msg_id,
                body: BodyView::ReadOk { value: v.store[k] },
            })
            &&& !v.store.contains_key(k) ==> (reply->0.what matches WhatView::Reply {
                in_reply_to,
                body: BodyView::Error { code, .. },
            } && in_reply_to == msg_id && code == 20)
            &&& after.store == v.store
            &&& !after.reads.contains_key(ctx)
        }),
{
}

/// Where nobody is known to lead, a client is told at once that its request did not
/// happen, and nothing is asked of the core.
pub proof fn law_without_a_leader_a_request_fails(
    v: MaelstromView,
    client: Seq<char>,
    msg_id: u64,
    key: Seq<char>,
    kind: KindView,
    status: Status,
)
    requires
        v.started,
        !status.leads,
        status.leader is None,
    ensures
        ({
            let (after, said, ask) = v.asked(DestView::Client(client), msg_id, key, kind, status);
            &&& ask is None
            &&& said is Some
            &&& said->0.dest == client
            &&& said->0.what matches WhatView::Reply {
                in_reply_to,
                body: BodyView::Error { code, .. },
            } && in_reply_to == msg_id && code == 11
            &&& after.store == v.store
            &&& after.pending == v.pending
        }),
{
}

/// What a leader answers to a relayed request is passed on as it was written, to the
/// client that asked, about the request it asked, and once.
pub proof fn law_a_relayed_answer_reaches_the_client(
    v: MaelstromView,
    client: Seq<char>,
    msg_id: u64,
    key: Seq<char>,
    kind: KindView,
    status: Status,
    inner: Seq<char>,
)
    requires
        v.started,
        !status.leads,
        status.leader is Some,
    ensures
        ({
            let (asked, said, ask) = v.asked(DestView::Client(client), msg_id, key, kind, status);
            let token = v.next_ctx;
            let (after, reply) = asked.relayed(token, inner);
            &&& said is Some
            &&& said->0.what == (WhatView::Proxy { token, key, kind })
            &&& reply is Some
            &&& reply->0.dest == client
            &&& reply->0.what == (WhatView::Reply {
                in_reply_to: msg_id,
                body: BodyView::Relayed { inner },
            })
            &&& !after.proxied.contains_key(token)
            &&& after.relayed(token, inner).1 is None
        }),
{
}

/// A proposal that the core refuses is a definite failure: its client is told so,
/// about its request, and nothing else will answer it.
pub proof fn law_a_refused_proposal_is_answered(v: MaelstromView, token: u64, why: Seq<char>)
    requires
        v.pending.contains_key(token),
    ensures
        ({
            let waiting = v.pending[token];
            let (after, reply) = v.failing(token, why);
            &&& reply is Some
            &&& waiting.dest matches DestView::Client(name) ==> reply->0.dest == name
                && reply->0.what == (WhatView::Reply {
                in_reply_to: waiting.in_reply_to,
                body: BodyView::Error { code: 11, text: why },
            })
            &&& !after.pending.contains_key(token)
            &&& after.store == v.store
        }),
{
}

/// Messages are numbered, each with a number of its own.
pub proof fn law_messages_are_numbered(v: MaelstromView, dest: Seq<char>, what: WhatView)
    requires
        v.next_msg_id < u64::MAX,
    ensures
        v.sending(dest, what).1.msg_id == v.next_msg_id,
        v.sending(dest, what).0.next_msg_id == v.next_msg_id + 1,
        v.sending(dest, what).1.dest == dest,
        v.sending(dest, what).1.what == what,
{
}

/// The reads that are answered are those whose index has been applied, in order, and
/// the ones that wait are the others.
pub proof fn law_reads_are_answered_once_applied(reads: Seq<(u64, Index)>, applied: Index)
    ensures
        due(reads, applied, true) == reads.filter(|r: (u64, Index)| r.1 <= applied),
        due(reads, applied, false) == reads.filter(|r: (u64, Index)| r.1 > applied),
    decreases reads.len(),
{
    reveal(Seq::filter);
    if reads.len() > 0 {
        law_reads_are_answered_once_applied(reads.drop_last(), applied);
    }
}

/// A Raft message that one node sends is the one that another hears.
pub proof fn law_a_raft_message_is_carried(message: RaftMessageView)
    requires
        RaftMessage::fits(message),
        RaftMessage::encoding(message).len() <= MAX_PAYLOAD_BYTES,
    ensures
        carried(hex(RaftMessage::encoding(message))) == Some(message),
{
    law_round_trip::<RaftMessage>(message);
    law_hex_is_read_back(RaftMessage::encoding(message));
}

/// A key in double quotes is the key between them.
pub proof fn law_a_quoted_key_is_the_key(key: Seq<char>)
    requires
        key.len() > 0,
        key[0] != '"',
        key.last() != '"',
    ensures
        bare_key(seq!['"'] + key + seq!['"']) == key,
        bare_key(key) == key,
{
    let whole = seq!['"'] + key + seq!['"'];
    assert(whole.skip(1) =~= key + seq!['"']);
    assert(unquote_front(whole) == unquote_front(whole.skip(1)));
    assert((key + seq!['"'])[0] == key[0]);
    assert(unquote_front(key + seq!['"']) == key + seq!['"']);
    assert((key + seq!['"']).drop_last() =~= key);
    assert((key + seq!['"']).last() == '"');
    assert(unquote_back(key + seq!['"']) == unquote_back(key));
}

/// A node's name is its number with a letter before it, and is read back as that
/// number.
pub proof fn law_a_name_is_read_back(id: NodeId, name: String)
    requires
        call_ensures(name_of, (id,), name),
    ensures
        name@ == "n"@ + decimal(id as nat),
        number_of(name@) == id,
{
    reveal_strlit("n");
    law_a_number_is_read_back(id as nat);
    let digits = decimal(id as nat);
    assert(name@.skip(1) =~= digits);
    assert(is_digit(digits[0]));
    reveal_with_fuel(without_n, 2);
    assert(without_n(name@) == digits);
}

/// What a node hears of who it is: it takes the name and the peers it is given, begins
/// with every one of them as a voter, and says so to whoever told it.
pub proof fn law_a_node_is_who_it_is_told(
    a: Arrived,
    status: Status,
    r: (Option<Message>, Option<Told>),
)
    requires
        a is Init,
    ensures
        forall|node: &mut MaelstromNode| #[trigger]
            call_ensures(MaelstromNode::hear, (node, a, status), r) && node@.next_msg_id < u64::MAX
                ==> {
                let voters = r.1->0@->voters;
                &&& final(node)@.id == a->node_id@
                &&& final(node)@.numeric == number_of(a->node_id@)
                &&& final(node)@.started
                &&& final(node)@.peers.len() == a->node_ids@.len()
                &&& forall|i: int|
                    0 <= i < a->node_ids@.len() ==> final(node)@.peers[i] == (
                    #[trigger] a->node_ids@[i])@
                &&& final(node)@.store == node@.store
                &&& r.0 is Some
                &&& r.0->0@.dest == a->Init_src@
                &&& r.0->0@.what == (WhatView::Reply {
                    in_reply_to: a->Init_msg_id,
                    body: BodyView::InitOk,
                })
                &&& r.1 is Some
                &&& r.1->0@ is Start
                &&& voters.len() == a->node_ids@.len()
                &&& forall|i: int|
                    0 <= i < voters.len() ==> voters[i] == number_of(
                        (#[trigger] a->node_ids@[i])@,
                    )
            },
{
    assert forall|node: &mut MaelstromNode| #[trigger]
        call_ensures(MaelstromNode::hear, (node, a, status), r) && node@.next_msg_id
            < u64::MAX implies {
        &&& r.1 is Some
        &&& r.1->0@ is Start
        &&& r.1->0@->voters.len() == a->node_ids@.len()
    } by {
        assert(a@ == (ArrivedView::Init {
            src: a->Init_src@,
            msg_id: a->Init_msg_id,
            node_id: a->node_id@,
            node_ids: said(a->node_ids@),
        }));
    }
}

/// What a node hears that is not for it to act on changes nothing and is not answered;
/// a Raft message goes to the core, and nowhere before the node knows who it is.
pub proof fn law_a_node_acts_only_on_what_it_knows(
    a: Arrived,
    status: Status,
    r: (Option<Message>, Option<Told>),
)
    ensures
        forall|node: &mut MaelstromNode| #[trigger]
            call_ensures(MaelstromNode::hear, (node, a, status), r) && (a is Other || a is Raft)
                ==> {
                &&& final(node)@ == node@
                &&& r.0 is None
                &&& a is Other || !node@.started ==> r.1 is None
            },
{
}

} // verus!
