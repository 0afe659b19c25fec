//! What a client promises, call by call.
//!
//! Each of these speaks of calls and of what went in and came out of them.

use vstd::prelude::*;

use crate::api::{
    ApiError, ApiErrorView, ClientId, Command, Request, RequestId, RequestView, Response,
    ResponseView,
};
use crate::client::pipeline::{
    first_free, place_of, OutstandingView, Pipeline, PipelineError, PipelineView, Sending,
    Session,
};
use crate::client::{
    lemma_endpoints_fit, position_of, result_view, Client, ClientError, ClientErrorView,
    ClientView, Retry, Step, Trip, TripView,
};
use crate::raft::NodeId;

verus! {

// ---------------------------------------------------------------- redirects

/// Where a node is among the endpoints, as far as is known, is the first place that
/// is known to be it.
pub proof fn law_a_hint_names_the_first_endpoint_known_to_be_it(
    nodes: Seq<Option<NodeId>>,
    id: NodeId,
)
    ensures
        match position_of(nodes, id) {
            Some(i) => {
                &&& 0 <= i < nodes.len()
                &&& nodes[i] == Some(id)
                &&& forall|j: int| 0 <= j < i ==> #[trigger] nodes[j] != Some(id)
            },
            None => forall|j: int| 0 <= j < nodes.len() ==> #[trigger] nodes[j] != Some(id),
        },
    decreases nodes.len(),
{
    if nodes.len() > 0 {
        let head = nodes.drop_last();
        law_a_hint_names_the_first_endpoint_known_to_be_it(head, id);
        assert forall|j: int| 0 <= j < head.len() implies #[trigger] nodes[j] == head[j] by {}
        assert(nodes.last() == nodes[nodes.len() - 1]);
    }
}

/// Whether an answer sends the client elsewhere without saying where: no leader is
/// known to it, or it names one that this client has not met, or it cannot serve.
pub open spec fn sends_onward(
    nodes: Seq<Option<NodeId>>,
    result: Result<Response, ClientError>,
) -> bool {
    match result {
        Ok(Response::NotLeader { leader: None }) => true,
        Ok(Response::NotLeader { leader: Some(id) }) => forall|j: int|
            0 <= j < nodes.len() ==> #[trigger] nodes[j] != Some(id),
        Ok(Response::Error(ApiError::Unavailable)) => true,
        Err(_) => true,
        _ => false,
    }
}

/// After an answer that sends the client onward, the endpoint that is asked next is
/// the one after the one that gave it, around the cluster.
pub proof fn law_the_next_endpoint_is_asked_next(
    index: usize,
    result: Result<Response, ClientError>,
    now: u64,
    to: usize,
    id: RequestId,
)
    ensures
        forall|c: &mut Client, t: &mut Trip, then: &mut Client, on: &mut Trip|
            {
                &&& #[trigger] call_ensures(
                    Client::heard,
                    (c, t, index, result),
                    None::<Result<Response, ClientError>>,
                )
                &&& index < c@.nodes.len()
                &&& sends_onward(c@.nodes, result)
                &&& *then == *final(c) && *on == *final(t)
                &&& #[trigger] call_ensures(
                    Client::round_trip,
                    (then, on, now),
                    Step::Send { index: to, id },
                )
            } ==> to == (if index + 1 == c@.nodes.len() {
                0
            } else {
                index + 1
            }),
{
    assert forall|c: &mut Client, t: &mut Trip, then: &mut Client, on: &mut Trip|
        {
            &&& #[trigger] call_ensures(
                Client::heard,
                (c, t, index, result),
                None::<Result<Response, ClientError>>,
            )
            &&& index < c@.nodes.len()
            &&& sends_onward(c@.nodes, result)
            &&& *then == *final(c) && *on == *final(t)
            &&& #[trigger] call_ensures(
                Client::round_trip,
                (then, on, now),
                Step::Send { index: to, id },
            )
        } implies to == (if index + 1 == c@.nodes.len() {
        0
    } else {
        index + 1
    }) by {
        lemma_endpoints_fit(*c);
        if let Ok(Response::NotLeader { leader: Some(id) }) = result {
            law_a_hint_names_the_first_endpoint_known_to_be_it(c@.nodes, id);
        }
        let n = c@.nodes.len() as int;
        assert(then@.next == index + 1);
        assert(then@.nodes == c@.nodes);
        if index + 1 < n {
            vstd::arithmetic::div_mod::lemma_small_mod((index + 1) as nat, n as nat);
        } else {
            assert(n % n == 0) by {
                vstd::arithmetic::div_mod::lemma_mod_self_0(n);
            }
        }
    }
}

/// After an answer that names the leader, and where it is known which endpoint that
/// is, that endpoint is the one that is asked next.
pub proof fn law_a_known_leader_is_asked_next(
    index: usize,
    leader: NodeId,
    now: u64,
    to: usize,
    id: RequestId,
)
    ensures
        forall|c: &mut Client, t: &mut Trip, then: &mut Client, on: &mut Trip|
            {
                &&& #[trigger] call_ensures(
                    Client::heard,
                    (c, t, index, Ok::<Response, ClientError>(
                        Response::NotLeader { leader: Some(leader) },
                    )),
                    None::<Result<Response, ClientError>>,
                )
                &&& exists|j: int| 0 <= j < c@.nodes.len() && #[trigger] c@.nodes[j] == Some(leader)
                &&& *then == *final(c) && *on == *final(t)
                &&& #[trigger] call_ensures(
                    Client::round_trip,
                    (then, on, now),
                    Step::Send { index: to, id },
                )
            } ==> c@.nodes[to as int] == Some(leader),
{
    assert forall|c: &mut Client, t: &mut Trip, then: &mut Client, on: &mut Trip|
        {
            &&& #[trigger] call_ensures(
                Client::heard,
                (c, t, index, Ok::<Response, ClientError>(
                    Response::NotLeader { leader: Some(leader) },
                )),
                None::<Result<Response, ClientError>>,
            )
            &&& exists|j: int| 0 <= j < c@.nodes.len() && #[trigger] c@.nodes[j] == Some(leader)
            &&& *then == *final(c) && *on == *final(t)
            &&& #[trigger] call_ensures(
                Client::round_trip,
                (then, on, now),
                Step::Send { index: to, id },
            )
        } implies c@.nodes[to as int] == Some(leader) by {
        lemma_endpoints_fit(*c);
        law_a_hint_names_the_first_endpoint_known_to_be_it(c@.nodes, leader);
        let i = position_of(c@.nodes, leader)->0;
        assert(then@.next == i);
        vstd::arithmetic::div_mod::lemma_small_mod(i as nat, c@.nodes.len());
    }
}

/// The client after so many endpoints answered that they cannot serve.
pub open spec fn after_refusals(client: ClientView, trip: TripView, now: u64, n: nat) -> (
    ClientView,
    TripView,
)
    decreases n,
{
    if n == 0 {
        (client, trip)
    } else {
        let (c, t) = after_refusals(client, trip, now, (n - 1) as nat);
        let (c, t, step) = c.step(t, now);
        let (c, t, answer) = c.heard(
            t,
            step->index,
            Ok(ResponseView::Error(ApiErrorView::Unavailable)),
        );
        (c, t)
    }
}

/// In one pass every endpoint is asked once, from the one that is tried first and
/// around the cluster; and then the client waits.
pub proof fn law_a_pass_asks_every_endpoint_once(
    client: ClientView,
    trip: TripView,
    now: u64,
    n: nat,
)
    requires
        0 < client.nodes.len() <= usize::MAX,
        client.next_id + client.nodes.len() < u64::MAX,
        client.next < client.nodes.len(),
        trip.left is None,
        now < trip.deadline,
        n <= client.nodes.len(),
    ensures
        ({
            let count = client.nodes.len();
            let (c, t) = after_refusals(client, trip, now, n);
            &&& c.nodes == client.nodes
            &&& n < count ==> {
                let place = client.next + n;
                c.step(t, now).2 == (crate::client::StepView::Send {
                    index: if place < count {
                        place as int
                    } else {
                        place - count
                    },
                    id: (client.next_id + n) as u64,
                })
            }
            &&& n == count ==> c.step(t, now).2 is Sleep
        }),
    decreases n,
{
    lemma_pass(client, trip, now, n);
    let count = client.nodes.len() as int;
    let (c, t) = after_refusals(client, trip, now, n);
    if n < count {
        lemma_around(client.next as int, n as int, count);
    }
}

/// So many steps around a circle.
proof fn lemma_around(start: int, n: int, count: int)
    requires
        0 <= start < count,
        0 <= n <= count,
    ensures
        n < count ==> (start + n) % count == (if start + n < count {
            start + n
        } else {
            start + n - count
        }),
{
    if start + n < count {
        vstd::arithmetic::div_mod::lemma_small_mod((start + n) as nat, count as nat);
    } else if n < count {
        vstd::arithmetic::div_mod::lemma_mod_sub_multiples_vanish(start + n, count);
        vstd::arithmetic::div_mod::lemma_small_mod((start + n - count) as nat, count as nat);
    }
}

proof fn lemma_pass(client: ClientView, trip: TripView, now: u64, n: nat)
    requires
        0 < client.nodes.len() <= usize::MAX,
        client.next_id + client.nodes.len() < u64::MAX,
        client.next < client.nodes.len(),
        trip.left is None,
        now < trip.deadline,
        n <= client.nodes.len(),
    ensures
        ({
            let count = client.nodes.len() as int;
            let (c, t) = after_refusals(client, trip, now, n);
            &&& c.nodes == client.nodes
            &&& c.next_id == client.next_id + n
            &&& t.deadline == trip.deadline
            &&& n == 0 ==> t.left is None
            &&& n > 0 ==> t.left == Some((count - n) as usize)
            &&& c.turn() == (client.next + n) % count
            &&& n > 0 ==> c.next == (client.next + n - 1) % count + 1
        }),
    decreases n,
{
    let count = client.nodes.len() as int;
    if n > 0 {
        lemma_pass(client, trip, now, (n - 1) as nat);
        let (c, t) = after_refusals(client, trip, now, (n - 1) as nat);
        let at = c.turn();
        assert(0 <= at < count) by {
            vstd::arithmetic::div_mod::lemma_mod_bound(c.next as int, count);
        }
        let (d, u, step) = c.step(t, now);
        assert(step == (crate::client::StepView::Send { index: at, id: c.next_id }));
        assert((at + 1) % count == (client.next + n) % count) by {
            vstd::arithmetic::div_mod::lemma_add_mod_noop(client.next + n - 1, 1, count);
            vstd::arithmetic::div_mod::lemma_add_mod_noop(at, 1, count);
            vstd::arithmetic::div_mod::lemma_mod_twice(client.next + n - 1, count);
        }
    }
}

// ------------------------------------------------------------------ answers

/// An answer is handed back as it came: what the cluster did, or why it refused,
/// which is not a reason to try again. A session that is gone is forgotten, so that
/// the next registration asks for another.
pub proof fn law_an_answer_is_handed_back(
    index: usize,
    result: Result<Response, ClientError>,
    r: Option<Result<Response, ClientError>>,
)
    ensures
        forall|c: &mut Client, t: &mut Trip| #[trigger]
            call_ensures(Client::heard, (c, t, index, result), r) ==> {
                &&& r is None <==> match result {
                    Ok(Response::NotLeader { .. }) => true,
                    Ok(Response::Error(ApiError::Unavailable)) => true,
                    Err(_) => true,
                    _ => false,
                }
                &&& match result {
                    Ok(Response::NotLeader { .. }) => true,
                    Ok(Response::Error(e)) => !(e is Unavailable) ==> result_view(r->0) == Err::<
                        ResponseView,
                        ClientErrorView,
                    >(ClientErrorView::Refused(e@)),
                    Ok(response) => result_view(r->0) == Ok::<ResponseView, ClientErrorView>(
                        response@,
                    ),
                    Err(e) => final(t)@.last == Some(e@),
                }
                &&& final(c)@.session == (if result is Ok && result->Ok_0 is Error
                    && result->Ok_0->Error_0 is SessionExpired {
                    None
                } else {
                    c@.session
                })
                &&& r is Some ==> final(c)@.next == c@.next
                &&& final(c)@.seq == c@.seq
                &&& final(c)@.nonce == c@.nonce
                &&& final(c)@.nodes == c@.nodes
                &&& final(c)@.history == c@.history
                &&& final(t)@.deadline == t@.deadline
            },
{
}

/// A request is tried until its deadline and no longer: at the top of a pass it is
/// given up on once the deadline is there, with the last failure that was met, or as
/// a timeout; before that, an endpoint is asked. A request keeps its deadline.
pub proof fn law_a_request_keeps_to_its_deadline(now: u64, r: Step)
    ensures
        forall|c: &mut Client, t: &mut Trip| #[trigger]
            call_ensures(Client::round_trip, (c, t, now), r) ==> {
                &&& final(t)@.deadline == t@.deadline
                &&& r is Fail <==> t@.left is None && now >= t@.deadline
                &&& r is Fail ==> r->Fail_0@ == (match t@.last {
                    Some(e) => e,
                    None => ClientErrorView::Timeout,
                })
                &&& t@.left is None && now < t@.deadline && c@.nodes.len() > 0 && c@.nodes.len()
                    <= usize::MAX ==> r is Send
                &&& r matches Step::Send { index, id } ==> {
                    &&& index < c@.nodes.len()
                    &&& id == c@.next_id
                    &&& c@.next_id < u64::MAX ==> final(c)@.next_id == id + 1
                }
                &&& final(c)@.seq == c@.seq
                &&& final(c)@.session == c@.session
                &&& final(c)@.next == c@.next
            },
{
}

/// A request's deadline is as far off as the client's patience, and its first wait
/// is the shortest.
pub proof fn law_a_request_begins_with_all_its_time(client: &Client, now: u64, trip: Trip)
    requires
        call_ensures(Client::begin, (client, now), trip),
    ensures
        now + client@.retry.deadline@ <= u64::MAX ==> trip@.deadline == now
            + client@.retry.deadline@,
        now + client@.retry.deadline@ > u64::MAX ==> trip@.deadline == u64::MAX,
        trip@.wait == client@.retry.backoff@,
        trip@.left is None,
        trip@.last is None,
{
    crate::time::lemma_durations_fit(client@.retry.backoff);
}

/// Waits grow by the factor, and never past the longest: the one that is due is
/// waited, and the next is so many times as long.
pub proof fn law_waits_grow(retry: &Retry, wait: u64, r: (u64, u64))
    requires
        call_ensures(Retry::back_off, (retry, wait), r),
    ensures
        r.0 <= wait && r.0 <= retry.max_backoff@,
        r.0 == wait || r.0 == retry.max_backoff@,
        r.1 <= retry.max_backoff@,
        wait * retry.backoff_factor <= retry.max_backoff@ ==> r.1 == wait * retry.backoff_factor,
        wait * retry.backoff_factor > retry.max_backoff@ ==> r.1 == retry.max_backoff@,
{
    crate::time::lemma_durations_fit(retry.max_backoff);
}

/// A command goes out under the session it was given and a number that no command
/// of this client had before: the one after the last.
pub proof fn law_a_command_gets_the_next_number(client: ClientId, command: Command, r: Request)
    ensures
        forall|c: &mut Client| #[trigger]
            call_ensures(Client::command, (c, client, command), r) && c@.seq < u64::MAX ==> {
                &&& r matches Request::Command { client: under, seq, command: sent } && under
                    == client && seq == c@.seq + 1 && sent@ == command@
                &&& final(c)@.seq == c@.seq + 1
                &&& final(c)@.session == c@.session
                &&& final(c)@.next == c@.next
            },
{
}

/// A session is asked for under the client's nonce, the same every time, until there
/// is one; what the cluster hands out is the session from then on.
pub proof fn law_a_session_is_asked_for_under_one_nonce(
    client: &Client,
    asked: Result<ClientId, Request>,
    result: Result<Response, ClientError>,
    r: Result<ClientId, ClientError>,
)
    requires
        call_ensures(Client::register, (client,), asked),
    ensures
        client@.session is Some ==> asked is Ok && asked->Ok_0 == client@.session->0,
        client@.session is None ==> asked is Err && asked->Err_0@ == (RequestView::Register {
            nonce: client@.nonce,
        }),
        forall|c: &mut Client| #[trigger]
            call_ensures(Client::registered, (c, result), r) ==> {
                &&& final(c)@.nonce == c@.nonce
                &&& result is Ok && result->Ok_0 is Registered ==> {
                    &&& r is Ok
                    &&& final(c)@.session == Some(r->Ok_0)
                    &&& r->Ok_0 == result->Ok_0->client
                }
                &&& !(result is Ok && result->Ok_0 is Registered) ==> r is Err
                    && final(c)@.session == c@.session
            },
{
}

// ----------------------------------------------------------------- pipelines

/// The first slot that can take a request is the first that has a session and
/// holds nothing.
proof fn lemma_first_free(sessions: Seq<Session>)
    ensures
        match first_free(sessions) {
            Some(i) => {
                &&& 0 <= i < sessions.len()
                &&& !sessions[i].busy && sessions[i].client is Some
            },
            None => forall|i: int|
                0 <= i < sessions.len() ==> (#[trigger] sessions[i]).busy
                    || sessions[i].client is None,
        },
    decreases sessions.len(),
{
    if sessions.len() > 0 {
        let head = sessions.drop_last();
        lemma_first_free(head);
        assert forall|j: int| 0 <= j < head.len() implies #[trigger] sessions[j] == head[j] by {}
        assert(sessions.last() == sessions[sessions.len() - 1]);
    }
}

/// A command is taken where a slot has a session and holds nothing, and only there.
/// It goes out once, under a label that nothing had before, with that slot's
/// identity and the number after its last; every other slot is as it was.
pub proof fn law_a_command_takes_a_free_slot(
    command: Command,
    now: u64,
    r: Result<Sending, PipelineError>,
)
    ensures
        forall|p: &mut Pipeline| #[trigger]
            call_ensures(Pipeline::submit, (p, command, now), r) && p@.next_id < u64::MAX && (
            forall|i: int| 0 <= i < p@.sessions.len() ==> (#[trigger] p@.sessions[i]).seq
                < u64::MAX) ==> {
                &&& r is Err <==> forall|i: int|
                    0 <= i < p@.sessions.len() ==> (#[trigger] p@.sessions[i]).busy
                        || p@.sessions[i].client is None
                &&& r is Err ==> final(p)@ == p@
                &&& r matches Ok(sending) ==> exists|slot: int|
                    #![trigger p@.sessions[slot]]
                    {
                        let (old, new) = (p@.sessions[slot], final(p)@.sessions[slot]);
                        &&& 0 <= slot < p@.sessions.len()
                        &&& !old.busy && old.client is Some
                        &&& sending.id == p@.next_id
                        &&& sending.request@ == (RequestView::Command {
                            client: old.client->0,
                            seq: (old.seq + 1) as u64,
                            command: command@,
                        })
                        &&& new.busy && new.seq == old.seq + 1 && new.client == old.client
                            && new.nonce == old.nonce
                        &&& final(p)@.sessions == p@.sessions.update(slot, new)
                        &&& final(p)@.outstanding == p@.outstanding.push(
                            OutstandingView {
                                id: sending.id,
                                slot,
                                request: sending.request@,
                                since: now,
                                internal: false,
                            },
                        )
                        &&& final(p)@.next_id == p@.next_id + 1
                    }
            },
{
    assert forall|p: &mut Pipeline| #[trigger]
        call_ensures(Pipeline::submit, (p, command, now), r) implies {
        &&& first_free(p@.sessions) is Some ==> {
            let i = first_free(p@.sessions)->0;
            0 <= i < p@.sessions.len() && !p@.sessions[i].busy && p@.sessions[i].client is Some
        }
        &&& first_free(p@.sessions) is None ==> forall|i: int|
            #![trigger p@.sessions[i]]
            0 <= i < p@.sessions.len() ==> p@.sessions[i].busy || p@.sessions[i].client is None
    } by {
        lemma_first_free(p@.sessions);
    }
}

/// Where a request is among those that are out is the place that bears its label.
proof fn lemma_place_of(outstanding: Seq<OutstandingView>, id: RequestId)
    ensures
        place_of(outstanding, id) is Some ==> {
            let i = place_of(outstanding, id)->0;
            &&& 0 <= i < outstanding.len()
            &&& outstanding[i].id == id
            &&& forall|j: int| 0 <= j < i ==> (#[trigger] outstanding[j]).id != id
        },
        place_of(outstanding, id) is None ==> forall|j: int|
            0 <= j < outstanding.len() ==> (#[trigger] outstanding[j]).id != id,
    decreases outstanding.len(),
{
    if outstanding.len() > 0 {
        let head = outstanding.drop_last();
        lemma_place_of(head, id);
        assert forall|j: int| 0 <= j < head.len() implies #[trigger] outstanding[j] == head[j] by {}
        assert(outstanding.last() == outstanding[outstanding.len() - 1]);
    }
}

/// Whether an answer is one that a caller gets: not a redirect, and nothing that the
/// pipeline sees to itself.
pub open spec fn is_the_callers(body: ResponseView) -> bool {
    match body {
        ResponseView::NotLeader { .. } => false,
        ResponseView::Registered { .. } => false,
        ResponseView::Error(ApiErrorView::Unavailable) => false,
        ResponseView::Error(ApiErrorView::SessionExpired) => false,
        _ => true,
    }
}

/// An answer completes the request that it is labelled for, and no other: its
/// caller gets it as it came, the request is no longer out, and its slot is free
/// for the next. An answer to nothing that is out changes nothing.
pub proof fn law_an_answer_completes_its_own_request(
    p: PipelineView,
    i: int,
    body: ResponseView,
    now: u64,
)
    requires
        p.wf(),
        0 <= i < p.outstanding.len(),
        is_the_callers(body),
    ensures
        ({
            let o = p.outstanding[i];
            let meant = p.meant(o.id, body, now);
            let (old, new) = (p.sessions[o.slot], meant.after.sessions[o.slot]);
            &&& !o.internal ==> meant.told == Some(
                match body {
                    ResponseView::Error(e) => Err::<ResponseView, ClientErrorView>(
                        ClientErrorView::Refused(e),
                    ),
                    body => Ok(body),
                },
            )
            &&& o.internal ==> meant.told is None
            &&& !meant.moving
            &&& meant.after.outstanding == p.outstanding.remove(i)
            &&& !new.busy && new.client == old.client && new.seq == old.seq && new.nonce
                == old.nonce
            &&& meant.after.sessions == p.sessions.update(o.slot, new)
            &&& meant.after.next == p.next
            &&& meant.after.next_id == p.next_id
        }),
{
    let id = p.outstanding[i].id;
    lemma_place_of(p.outstanding, id);
    let k = place_of(p.outstanding, id)->0;
    if k < i {
        assert(p.outstanding[k].id < p.outstanding[i].id);
    }
}

/// An answer to nothing that is out changes nothing, and tells nobody.
pub proof fn law_an_answer_to_nothing_changes_nothing(
    p: PipelineView,
    id: RequestId,
    body: ResponseView,
    now: u64,
)
    requires
        forall|i: int| 0 <= i < p.outstanding.len() ==> (#[trigger] p.outstanding[i]).id != id,
        !(body is NotLeader),
        body != ResponseView::Error(ApiErrorView::Unavailable),
    ensures
        p.meant(id, body, now).after == p,
        p.meant(id, body, now).told is None,
        !p.meant(id, body, now).moving,
{
    lemma_place_of(p.outstanding, id);
}

/// A redirect completes nothing and loses nothing: everything that is out stays out
/// as it was, and is sent again to the leader where it is known which endpoint that
/// is, and to the next endpoint around the cluster where it is not.
pub proof fn law_a_redirect_moves_everything(
    p: PipelineView,
    id: RequestId,
    leader: Option<NodeId>,
    now: u64,
)
    requires
        0 < p.nodes.len() <= usize::MAX,
        p.next < p.nodes.len(),
    ensures
        ({
            let meant = p.meant(id, ResponseView::NotLeader { leader }, now);
            let to = meant.after.next as int % p.nodes.len() as int;
            &&& meant.told is None
            &&& meant.moving
            &&& meant.after.outstanding == p.outstanding
            &&& meant.after.sessions == p.sessions
            &&& leader is Some && (exists|j: int|
                0 <= j < p.nodes.len() && #[trigger] p.nodes[j] == leader) ==> p.nodes[to] == leader
            &&& leader is None || (forall|j: int|
                0 <= j < p.nodes.len() ==> #[trigger] p.nodes[j] != leader) ==> to == (if p.next + 1
                == p.nodes.len() {
                0
            } else {
                p.next + 1
            })
            &&& forall|i: int|
                0 <= i < p.outstanding.len() ==> (#[trigger] p.resends()[i]).0
                    == p.outstanding[i].id && p.resends()[i].1 == p.outstanding[i].request
            &&& p.resends().len() == p.outstanding.len()
        }),
{
    let n = p.nodes.len() as int;
    vstd::arithmetic::div_mod::lemma_small_mod(p.next as nat, n as nat);
    if leader is Some {
        law_a_hint_names_the_first_endpoint_known_to_be_it(p.nodes, leader->0);
        if let Some(i) = position_of(p.nodes, leader->0) {
            vstd::arithmetic::div_mod::lemma_small_mod(i as nat, n as nat);
        }
    }
    lemma_around(p.next as int, 1, n);
    if n == 1 {
        assert(1int % 1 == 0);
    }
}

/// Whether a request has been out for as long as it may be.
pub open spec fn out_too_long(p: PipelineView, o: OutstandingView, now: u64) -> bool {
    o.since <= now && now - o.since >= p.request_timeout
}

/// What has been out for too long is given up on, and nothing else: every caller is
/// told of its own, the slots are free again, and the rest stays out in its order.
pub proof fn law_only_what_is_out_too_long_is_given_up(p: PipelineView, now: u64)
    ensures
        ({
            let (after, ids) = p.given_up(0, now, false);
            &&& after.outstanding == p.outstanding.filter(
                |o: OutstandingView| !(o.since <= now && now - o.since >= p.request_timeout),
            )
            &&& forall|id: RequestId| #[trigger]
                ids.contains(id) <==> exists|i: int|
                    {
                        &&& 0 <= i < p.outstanding.len()
                        &&& (#[trigger] p.outstanding[i]).id == id
                        &&& !p.outstanding[i].internal
                        &&& out_too_long(p, p.outstanding[i], now)
                    }
            &&& after.next == p.next && after.next_id == p.next_id && after.nodes == p.nodes
        }),
{
    lemma_given_up(p, 0, now, false);
    let keep = |o: OutstandingView| !p.is_stale(o, now, false);
    let keep_too = |o: OutstandingView|
        !(o.since <= now && now - o.since >= p.request_timeout);
    assert(keep =~= keep_too);
    assert(p.outstanding.skip(0) =~= p.outstanding);
    assert(p.outstanding.take(0) + p.outstanding.filter(keep) =~= p.outstanding.filter(keep));
}

/// Where everything is given up on, nothing is left out, and every caller is told.
pub proof fn law_everything_can_be_given_up(p: PipelineView)
    ensures
        ({
            let (after, ids) = p.given_up(0, 0, true);
            &&& after.outstanding.len() == 0
            &&& forall|id: RequestId| #[trigger]
                ids.contains(id) <==> exists|i: int|
                    {
                        &&& 0 <= i < p.outstanding.len()
                        &&& (#[trigger] p.outstanding[i]).id == id
                        &&& !p.outstanding[i].internal
                    }
        }),
{
    lemma_given_up(p, 0, 0, true);
    let keep = |o: OutstandingView| !p.is_stale(o, 0, true);
    assert(p.outstanding.skip(0) =~= p.outstanding);
    let left = p.outstanding.filter(keep);
    if left.len() > 0 {
        p.outstanding.lemma_filter_pred(keep, 0);
    }
}

proof fn lemma_given_up(p: PipelineView, place: int, now: u64, all: bool)
    requires
        0 <= place <= p.outstanding.len(),
    ensures
        ({
            let (after, ids) = p.given_up(place, now, all);
            let keep = |o: OutstandingView| !p.is_stale(o, now, all);
            &&& after.outstanding == p.outstanding.take(place) + p.outstanding.skip(place).filter(
                keep,
            )
            &&& forall|id: RequestId| #[trigger]
                ids.contains(id) <==> exists|i: int|
                    {
                        &&& place <= i < p.outstanding.len()
                        &&& (#[trigger] p.outstanding[i]).id == id
                        &&& !p.outstanding[i].internal
                        &&& p.is_stale(p.outstanding[i], now, all)
                    }
            &&& after.next == p.next && after.next_id == p.next_id && after.nodes == p.nodes
        }),
    decreases p.outstanding.len() - place,
{
    let out = p.outstanding;
    let (after, ids) = p.given_up(place, now, all);
    let keep = |o: OutstandingView| !p.is_stale(o, now, all);
    if place == out.len() {
        reveal(Seq::filter);
        assert(out.skip(place) =~= Seq::empty());
        assert(out.take(place) + out.skip(place).filter(keep) =~= out);
    } else {
        let o = out[place];
        let one = seq![o];
        assert(out.skip(place) =~= one + out.skip(place + 1));
        Seq::filter_distributes_over_add(one, out.skip(place + 1), keep);
        assert(one.filter(keep) == (if keep(o) {
            one
        } else {
            Seq::empty()
        })) by {
            reveal_with_fuel(Seq::filter, 3);
            assert(one.drop_last() =~= Seq::empty());
            assert(Seq::<OutstandingView>::empty().push(o) =~= one);
        }
        if p.is_stale(o, now, all) {
            let less = p.retired(place);
            lemma_given_up(less, place, now, all);
            let rest = less.given_up(place, now, all).1;
            assert(less.outstanding.take(place) =~= out.take(place));
            assert(less.outstanding.skip(place) =~= out.skip(place + 1));
            assert((|o: OutstandingView| !less.is_stale(o, now, all)) =~= keep);
            assert(after.outstanding =~= out.take(place) + out.skip(place).filter(keep));
            assert forall|id: RequestId| #[trigger]
                ids.contains(id) <==> exists|i: int|
                    {
                        &&& place <= i < out.len()
                        &&& (#[trigger] out[i]).id == id
                        &&& !out[i].internal
                        &&& p.is_stale(out[i], now, all)
                    } by {
                if ids.contains(id) {
                    let k = choose|k: int| 0 <= k < ids.len() && ids[k] == id;
                    if !o.internal && k == 0 {
                        assert(out[place].id == id);
                    } else {
                        let m = if o.internal {
                            k
                        } else {
                            k - 1
                        };
                        assert(rest[m] == id);
                        assert(rest.contains(id));
                        let i = choose|i: int|
                            {
                                &&& place <= i < less.outstanding.len()
                                &&& (#[trigger] less.outstanding[i]).id == id
                                &&& !less.outstanding[i].internal
                                &&& less.is_stale(less.outstanding[i], now, all)
                            };
                        assert(less.outstanding[i] == out[i + 1]);
                    }
                }
                if exists|i: int|
                    {
                        &&& place <= i < out.len()
                        &&& (#[trigger] out[i]).id == id
                        &&& !out[i].internal
                        &&& p.is_stale(out[i], now, all)
                    } {
                    let i = choose|i: int|
                        {
                            &&& place <= i < out.len()
                            &&& (#[trigger] out[i]).id == id
                            &&& !out[i].internal
                            &&& p.is_stale(out[i], now, all)
                        };
                    if i == place {
                        assert(ids[0] == id);
                    } else {
                        assert(less.outstanding[i - 1] == out[i]);
                        assert(rest.contains(id));
                        let k = choose|k: int| 0 <= k < rest.len() && rest[k] == id;
                        if o.internal {
                            assert(ids[k] == id);
                        } else {
                            assert(ids[k + 1] == id);
                        }
                    }
                }
            }
        } else {
            lemma_given_up(p, place + 1, now, all);
            assert forall|id: RequestId| #[trigger]
                ids.contains(id) <==> exists|i: int|
                    {
                        &&& place <= i < out.len()
                        &&& (#[trigger] out[i]).id == id
                        &&& !out[i].internal
                        &&& p.is_stale(out[i], now, all)
                    } by {
                if exists|i: int|
                    {
                        &&& place <= i < out.len()
                        &&& (#[trigger] out[i]).id == id
                        &&& !out[i].internal
                        &&& p.is_stale(out[i], now, all)
                    } {
                    let i = choose|i: int|
                        {
                            &&& place <= i < out.len()
                            &&& (#[trigger] out[i]).id == id
                            &&& !out[i].internal
                            &&& p.is_stale(out[i], now, all)
                        };
                    assert(i != place);
                }
            }
            assert(out.take(place + 1) + out.skip(place + 1).filter(keep) =~= out.take(place)
                + out.skip(place).filter(keep));
        }
    }
}

/// A slot whose session is gone loses its request, which its caller is told was
/// refused, and asks for another session under its own nonce; its numbers start
/// again.
pub proof fn law_an_expired_session_is_asked_for_again(p: PipelineView, i: int, now: u64)
    requires
        p.wf(),
        0 <= i < p.outstanding.len(),
        p.next_id < u64::MAX,
    ensures
        ({
            let o = p.outstanding[i];
            let body = ResponseView::Error(ApiErrorView::SessionExpired);
            let meant = p.meant(o.id, body, now);
            let (old, new) = (p.sessions[o.slot], meant.after.sessions[o.slot]);
            &&& !o.internal ==> meant.told == Some(
                Err::<ResponseView, ClientErrorView>(
                    ClientErrorView::Refused(ApiErrorView::SessionExpired),
                ),
            )
            &&& meant.after.outstanding == p.outstanding.remove(i).push(
                OutstandingView {
                    id: p.next_id,
                    slot: o.slot,
                    request: RequestView::Register { nonce: old.nonce },
                    since: now,
                    internal: true,
                },
            )
            &&& new.client is None && new.seq == 0 && new.nonce == old.nonce && new.busy
            &&& p.reopening(o.id) == seq![
                (p.next_id, RequestView::Register { nonce: old.nonce }),
            ]
        }),
{
    let id = p.outstanding[i].id;
    lemma_place_of(p.outstanding, id);
    let k = place_of(p.outstanding, id)->0;
    if k < i {
        assert(p.outstanding[k].id < p.outstanding[i].id);
    }
}

/// A registration that is answered opens its slot under the identity that was handed
/// out, with no number spent, and tells no caller.
pub proof fn law_a_registration_opens_its_slot(
    p: PipelineView,
    i: int,
    client: ClientId,
    now: u64,
)
    requires
        p.wf(),
        0 <= i < p.outstanding.len(),
    ensures
        ({
            let o = p.outstanding[i];
            let meant = p.meant(o.id, ResponseView::Registered { client }, now);
            let new = meant.after.sessions[o.slot];
            &&& meant.told is None
            &&& meant.after.outstanding == p.outstanding.remove(i)
            &&& new.client == Some(client) && new.seq == 0 && !new.busy
            &&& new.nonce == p.sessions[o.slot].nonce
            &&& forall|s: int|
                0 <= s < p.sessions.len() && s != o.slot ==> #[trigger] meant.after.sessions[s]
                    == p.sessions[s]
        }),
{
    let id = p.outstanding[i].id;
    lemma_place_of(p.outstanding, id);
    let k = place_of(p.outstanding, id)->0;
    if k < i {
        assert(p.outstanding[k].id < p.outstanding[i].id);
    }
}

/// Opening asks for a session for every slot that has none and holds nothing, each
/// under its own nonce, and for no other.
pub proof fn law_every_slot_without_a_session_is_asked_for(p: PipelineView, n: nat, now: u64)
    requires
        n <= p.sessions.len(),
        p.next_id + n <= u64::MAX,
    ensures
        ({
            let after = crate::client::pipeline::registering_all(p, n, now);
            &&& after.sessions.len() == p.sessions.len()
            &&& p.next_id <= after.next_id <= p.next_id + n
            &&& after.outstanding.len() == p.outstanding.len() + (after.next_id - p.next_id)
            &&& after.outstanding.take(p.outstanding.len() as int) == p.outstanding
            &&& forall|s: int|
                0 <= s < n && (#[trigger] p.sessions[s]).client is None && !p.sessions[s].busy ==> {
                    &&& after.sessions[s].busy
                    &&& exists|k: int|
                        {
                            let o = #[trigger] after.outstanding[k];
                            &&& p.outstanding.len() <= k < after.outstanding.len()
                            &&& o.slot == s && o.internal && o.since == now
                            &&& o.request == (RequestView::Register {
                                nonce: p.sessions[s].nonce,
                            })
                        }
                }
            &&& forall|s: int|
                0 <= s < p.sessions.len() && (s >= n || (#[trigger] p.sessions[s]).client is Some
                    || p.sessions[s].busy) ==> after.sessions[s] == p.sessions[s]
            &&& forall|s: int|
                0 <= s < p.sessions.len() ==> (#[trigger] after.sessions[s]).client
                    == p.sessions[s].client && after.sessions[s].nonce == p.sessions[s].nonce
        }),
    decreases n,
{
    if n == 0 {
        assert(p.outstanding.take(p.outstanding.len() as int) =~= p.outstanding);
    } else {
        let m = (n - 1) as nat;
        law_every_slot_without_a_session_is_asked_for(p, m, now);
        let before = crate::client::pipeline::registering_all(p, m, now);
        let after = crate::client::pipeline::registering_all(p, n, now);
        let slot = n - 1;
        assert(before.sessions[slot] == p.sessions[slot]);
        let count = p.outstanding.len() as int;
        if p.sessions[slot].client is None && !p.sessions[slot].busy {
            assert(after.outstanding.take(count) =~= before.outstanding.take(count));
            let last = after.outstanding.len() - 1;
            assert(after.outstanding[last].slot == slot);
            assert forall|s: int|
                0 <= s < n && (#[trigger] p.sessions[s]).client is None
                    && !p.sessions[s].busy implies {
                &&& after.sessions[s].busy
                &&& exists|k: int|
                    {
                        let o = #[trigger] after.outstanding[k];
                        &&& count <= k < after.outstanding.len()
                        &&& o.slot == s && o.internal && o.since == now
                        &&& o.request == (RequestView::Register { nonce: p.sessions[s].nonce })
                    }
            } by {
                if s < m {
                    let k = choose|k: int|
                        {
                            let o = #[trigger] before.outstanding[k];
                            &&& count <= k < before.outstanding.len()
                            &&& o.slot == s && o.internal && o.since == now
                            &&& o.request == (RequestView::Register {
                                nonce: p.sessions[s].nonce,
                            })
                        };
                    assert(after.outstanding[k] == before.outstanding[k]);
                }
            }
        }
    }
}

} // verus!
