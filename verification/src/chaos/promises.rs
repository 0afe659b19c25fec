//! What a run of faults promises.
//!
//! What is drawn, what an action does, and what is concluded from a run.

use vstd::prelude::*;

use crate::chaos::clock::{find_library, first_existing, Observed, Place};
use crate::chaos::cluster::{
    apply, checkpoint_args, node_args, node_args_text, peer_args, traffic_of, Addresses, ClusterConfig, Effect, Mesh,
};
use crate::chaos::drive::{check_counter, observed_by, ClockCheck, Done, Outcome, Tally};
use crate::chaos::proxy::{pump, Counters, Cut, Does, Seen};
use crate::chaos::schedule::{
    event_views, events_from, fault_for, how_many, millis, pair_at, round_of, streams_of, Action,
    ActionView, At, AtView, Counts, Health, Schedule, Streams,
};
use crate::chaos::ChaosError;
use crate::order::texts;
use crate::text::decimal;
use crate::time::Duration;

verus! {

// ------------------------------------------------------------------- drawing

/// Whether a fault is one that is undone by an action.
pub open spec fn undone_by(fault: ActionView, repair: ActionView) -> bool {
    match fault {
        ActionView::Isolate { .. } => repair is Heal,
        ActionView::Split { .. } => repair is Heal,
        ActionView::Pause { node } => repair == (ActionView::Resume { node }),
        ActionView::Kill { node } => repair == (ActionView::Restart { node }),
        _ => false,
    }
}

/// Whether an action breaks something that has to be undone.
pub open spec fn breaks(action: ActionView) -> bool {
    action is Isolate || action is Split || action is Pause || action is Kill
}

/// Whether one event of many stands where it should: a fault is undone by the very next
/// event, between 0.8 and 4 seconds later, nothing is undone that was not broken just
/// before, and all of it happens before the end.
pub open spec fn in_place(events: Seq<AtView>, i: int, duration: nat) -> bool {
    &&& events[i].at < duration
    &&& breaks(events[i].action) ==> {
        &&& i + 1 < events.len()
        &&& undone_by(events[i].action, events[i + 1].action)
        &&& events[i].at + 800_000_000 <= events[i + 1].at < events[i].at + 4_000_000_000
    }
    &&& !breaks(events[i].action) && !(events[i].action is ClockJump) ==> i > 0 && undone_by(
        events[i - 1].action,
        events[i].action,
    )
}

/// Whether every event of a run stands where it should.
pub open spec fn repaired(events: Seq<AtView>, duration: nat) -> bool {
    forall|i: int| 0 <= i < events.len() ==> #[trigger] in_place(events, i, duration)
}

proof fn lemma_fault(s: Streams, nodes: usize, clocks: bool)
    ensures
        ({
            let (drawn, hold) = round_of(s, nodes, clocks);
            &&& 800_000_000 <= hold < 4_000_000_000
            &&& drawn.repair is Some ==> breaks(drawn.fault) && undone_by(
                drawn.fault,
                drawn.repair->0,
            ) && !breaks(drawn.repair->0) && !(drawn.repair->0 is ClockJump)
            &&& drawn.repair is None ==> drawn.fault is ClockJump && clocks
        }),
{
    reveal(round_of);
}

proof fn lemma_repaired(t: nat, s: Streams, nodes: usize, duration: nat, clocks: bool)
    ensures
        repaired(events_from(t, s, nodes, duration, clocks), duration),
        events_from(t, s, nodes, duration, clocks).len() > 0 ==> {
            let first = events_from(t, s, nodes, duration, clocks)[0].action;
            breaks(first) || first is ClockJump
        },
    decreases
            (if t < duration {
                duration - t
            } else {
                0
            }),
{
    if t < duration {
        lemma_fault(s, nodes, clocks);
        let (drawn, hold) = round_of(s, nodes, clocks);
        let until = t + hold;
        if until < duration {
            let calm = millis(drawn.streams.when.within(1_500, 4_000));
            let after = Streams { when: drawn.streams.when.moved(), ..drawn.streams };
            lemma_repaired(until + calm, after, nodes, duration, clocks);
            let pair = pair_at(t, until, drawn);
            let rest = events_from(until + calm, after, nodes, duration, clocks);
            let all = pair + rest;
            let n = pair.len() as int;
            assert forall|i: int| 0 <= i < all.len() implies #[trigger] in_place(
                all,
                i,
                duration,
            ) by {
                if i >= n {
                    assert(in_place(rest, i - n, duration));
                    assert(all[i] == rest[i - n]);
                    if i + 1 < all.len() {
                        assert(all[i + 1] == rest[i - n + 1]);
                    }
                    if i > n {
                        assert(all[i - 1] == rest[i - n - 1]);
                    }
                }
            }
        }
    }
}

/// A drawn schedule is one of faults and their repairs: every cut is healed, every
/// pause resumed and every kill restarted, by the very next event and within the
/// run, so that the cluster that is checked at the end is a whole one.
pub proof fn law_every_fault_is_repaired_next(
    seed: u64,
    nodes: usize,
    duration: Duration,
    clocks: bool,
    r: Schedule,
)
    requires
        call_ensures(Schedule::draw, (seed, nodes, duration, clocks), r),
    ensures
        repaired(event_views(r.events@), duration@),
{
    let s = streams_of(seed);
    lemma_repaired(
        millis(s.when.within(200, 1_200)),
        Streams { when: s.when.moved(), ..s },
        nodes,
        duration@,
        clocks,
    );
}

/// Which fault a roll asks for: of a hundred rolls thirty isolate, twenty-five split,
/// twenty-five pause, and of the rest fifteen kill and five move the clock where it
/// can be moved. The node is drawn from all of them.
pub proof fn law_faults_have_their_weights(roll: u64, s: Streams, nodes: usize, clocks: bool)
    requires
        nodes >= 2,
    ensures
        ({
            let fault = fault_for(roll, s, nodes, clocks).fault;
            let node = s.which.within(0, nodes as u64) as usize;
            &&& roll < 30 <==> fault is Isolate
            &&& 30 <= roll < 55 <==> fault is Split
            &&& 55 <= roll < 80 <==> fault is Pause
            &&& 80 <= roll < 95 || (roll >= 95 && !clocks) <==> fault is Kill
            &&& roll >= 95 && clocks <==> fault is ClockJump
            &&& fault matches ActionView::Isolate { node: n, cut } ==> n == node && !(cut is Clear)
            &&& fault matches ActionView::Pause { node: n } ==> n == node
            &&& fault matches ActionView::Kill { node: n } ==> n == node
            &&& fault matches ActionView::ClockJump { by, .. } ==> 5_000_000_000 <= by
                < 60_000_000_000
        }),
{
}

/// The counts of a schedule are how many of its events are each fault.
pub proof fn law_faults_are_counted(schedule: &Schedule, r: Counts)
    requires
        call_ensures(Schedule::counts, (schedule,), r),
    ensures
        ({
            let events = event_views(schedule.events@);
            &&& r.isolations == events.filter(|e: AtView| e.action is Isolate).len()
            &&& r.splits == events.filter(|e: AtView| e.action is Split).len()
            &&& r.pauses == events.filter(|e: AtView| e.action is Pause).len()
            &&& r.kills == events.filter(|e: AtView| e.action is Kill).len()
            &&& r.clock_jumps == events.filter(|e: AtView| e.action is ClockJump).len()
        }),
{
    let events = event_views(schedule.events@);
    lemma_counted(events, |a: ActionView| a is Isolate, |e: AtView| e.action is Isolate);
    lemma_counted(events, |a: ActionView| a is Split, |e: AtView| e.action is Split);
    lemma_counted(events, |a: ActionView| a is Pause, |e: AtView| e.action is Pause);
    lemma_counted(events, |a: ActionView| a is Kill, |e: AtView| e.action is Kill);
    lemma_counted(events, |a: ActionView| a is ClockJump, |e: AtView| e.action is ClockJump);
}

proof fn lemma_counted(
    events: Seq<AtView>,
    kind: spec_fn(ActionView) -> bool,
    pick: spec_fn(AtView) -> bool,
)
    requires
        forall|e: AtView| #[trigger] pick(e) == kind(e.action),
    ensures
        how_many(events, kind) == events.filter(pick).len(),
    decreases events.len(),
{
    reveal(Seq::filter);
    if events.len() > 0 {
        lemma_counted(events.drop_last(), kind, pick);
        assert(pick(events.last()) == kind(events.last().action));
    }
}

/// What is broken after some events: the links where the last event about them cut
/// some, and a node where the last event about it paused or killed it.
pub proof fn law_health_is_what_was_last_done(health: Health, action: ActionView, node: usize)
    ensures
        ({
            let after = health.after(action);
            &&& action is Isolate || action is Split ==> after.cut
            &&& action is Heal ==> !after.cut
            &&& !(action is Isolate || action is Split || action is Heal) ==> after.cut
                == health.cut
            &&& after.paused.contains(node) <==> action == (ActionView::Pause { node }) || (
            health.paused.contains(node) && action != (ActionView::Resume { node }))
            &&& after.down.contains(node) <==> action == (ActionView::Kill { node }) || (
            health.down.contains(node) && action != (ActionView::Restart { node }))
            &&& health.is_whole() <==> !health.cut && forall|n: usize|
                !(#[trigger] health.paused.contains(n)) && !health.down.contains(n)
        }),
{
    if !health.cut && (forall|n: usize|
        !(#[trigger] health.paused.contains(n)) && !health.down.contains(n)) {
        assert(health.paused =~= Set::empty());
        assert forall|n: usize| !health.down.contains(n) by {
            assert(!health.paused.contains(n));
        }
        assert(health.down =~= Set::empty());
    }
}

// ------------------------------------------------------------------ injecting

/// What an action does to a cluster: an isolation cuts the links of its node in the
/// directions it names, a split those across it, healing clears every one, and what
/// is aimed at a process is left to be done to that process. Nothing else is cut or
/// cleared.
pub proof fn law_an_action_does_what_it_says(
    action: &Action,
    r: Result<Effect, ChaosError>,
    from: int,
    to: int,
)
    requires
        from != to,
    ensures
        forall|mesh: &mut Mesh| #[trigger]
            call_ensures(apply, (mesh, action), r) && 0 <= from < mesh.size() && 0 <= to
                < mesh.size() ==> {
                let (before, after) = (
                    mesh.cut_between(from, to),
                    final(mesh).cut_between(from, to),
                );
                match action@ {
                    ActionView::Isolate { node, cut } => {
                        &&& r == Ok::<Effect, ChaosError>(Effect::Done)
                        &&& after == (if (from == node && (cut is Forward || cut is Both)) || (to
                            == node && (cut is Backward || cut is Both)) {
                            Cut::Both
                        } else {
                            before
                        })
                    },
                    ActionView::Split { minority } => {
                        &&& r == Ok::<Effect, ChaosError>(Effect::Done)
                        &&& after == (if minority.contains(from as usize) != minority.contains(
                            to as usize,
                        ) {
                            Cut::Both
                        } else {
                            before
                        })
                    },
                    ActionView::Heal => {
                        &&& r == Ok::<Effect, ChaosError>(Effect::Done)
                        &&& after == Cut::Clear
                    },
                    ActionView::Pause { node } => {
                        &&& after == before
                        &&& node < mesh.size() ==> r == Ok::<Effect, ChaosError>(
                            Effect::Stop { node },
                        )
                        &&& node >= mesh.size() ==> r is Err
                    },
                    ActionView::Resume { node } => {
                        &&& after == before
                        &&& node < mesh.size() ==> r == Ok::<Effect, ChaosError>(
                            Effect::Resume { node },
                        )
                    },
                    ActionView::Kill { node } => {
                        &&& after == before
                        &&& node < mesh.size() ==> r == Ok::<Effect, ChaosError>(
                            Effect::Kill { node },
                        )
                    },
                    ActionView::Restart { node } => {
                        &&& after == before
                        &&& node < mesh.size() ==> r == Ok::<Effect, ChaosError>(
                            Effect::Start { node },
                        )
                    },
                    ActionView::ClockJump { .. } => {
                        &&& after == before
                        &&& r == Ok::<Effect, ChaosError>(Effect::Done)
                    },
                }
            },
{
}

/// What a proxy does about what it sees: a connection is let in only where nothing is
/// cut, traffic is read only in a direction that is not, and whatever is refused,
/// severed or carried is counted.
pub proof fn law_a_proxy_carries_what_is_not_cut(cut: Cut, seen: Seen, r: Does)
    ensures
        forall|c: &mut Counters| #[trigger]
            call_ensures(pump, (c, cut, seen), r) ==> {
                &&& seen is Arrival && cut is Clear ==> r is Join
                &&& seen is Arrival && !(cut is Clear) ==> r is Refuse && (c.refused < u64::MAX
                    ==> final(c).refused == c.refused + 1)
                &&& seen matches Seen::Turn { forward } ==> {
                    let dropped = cut is Both || (forward && cut is Forward) || (!forward
                        && cut is Backward);
                    &&& dropped ==> r is Sever && (c.severed < u64::MAX ==> final(c).severed
                        == c.severed + 1)
                    &&& !dropped ==> r is Read && final(c).severed == c.severed
                }
                &&& seen matches Seen::Carried { forward, bytes } ==> {
                    &&& forward && c.bytes_forward + bytes <= u64::MAX ==> final(
                        c).bytes_forward == c.bytes_forward + bytes && final(c).bytes_backward
                        == c.bytes_backward
                    &&& !forward && c.bytes_backward + bytes <= u64::MAX ==> final(
                        c).bytes_backward == c.bytes_backward + bytes && final(c).bytes_forward
                        == c.bytes_forward
                }
                &&& seen is Joined && c.connections < u64::MAX ==> final(c).connections
                    == c.connections + 1
                &&& seen is Ended ==> r is Stop
            },
{
}

/// What the links carried, refused and severed in all: one link more adds its own.
pub proof fn law_traffic_adds_up(all: Seq<Counters>, one: Counters)
    ensures
        ({
            let (a, b) = (
                traffic_of(all),
                traffic_of(all.push(one)),
            );
            &&& b.0 == a.0 + one.bytes_forward + one.bytes_backward
            &&& b.1 == a.1 + one.refused
            &&& b.2 == a.2 + one.severed
            &&& traffic_of(Seq::empty()) == (0nat, 0nat, 0nat)
        }),
{
    assert(all.push(one).drop_last() =~= all);
}

/// A node is told of every node, itself too, by its number, with the address it is to
/// dial: the link's for another, so that it can be cut, and its own for itself.
pub proof fn law_a_node_is_told_of_every_other(
    addresses: Addresses,
    node: int,
    count: nat,
    to: int,
)
    requires
        0 <= to < count,
    ensures
        peer_args(addresses, node, count).len() == 2 * count,
        peer_args(addresses, node, count)[2 * to] == "--peer"@,
        peer_args(addresses, node, count)[2 * to + 1] == decimal((to + 1) as nat) + "="@ + (if node
            == to {
            addresses.peers@[node]@
        } else {
            addresses.routes@[node]@[to]@
        }),
    decreases count,
{
    lemma_peer_args_len(addresses, node, (count - 1) as nat);
    if to < count - 1 {
        law_a_node_is_told_of_every_other(addresses, node, (count - 1) as nat, to);
    }
}

proof fn lemma_peer_args_len(addresses: Addresses, node: int, count: nat)
    ensures
        peer_args(addresses, node, count).len() == 2 * count,
    decreases count,
{
    if count > 0 {
        lemma_peer_args_len(addresses, node, (count - 1) as nat);
    }
}

// ----------------------------------------------------------------- concluding

/// A run is worth checking where a fault was injected, a write acknowledged, and
/// where links were to be cut some connection was refused or severed.
pub proof fn law_a_run_that_proved_nothing_is_not_checked(
    done: &Done,
    counts: Counts,
    r: Result<(), ChaosError>,
)
    requires
        call_ensures(Done::worth_checking, (done, counts), r),
    ensures
        r is Ok <==> done.injected > 0 && done.acked > 0 && (counts.isolations + counts.splits
            > 0 ==> done.refused > 0 || done.severed > 0),
{
}

/// An acknowledged increment is never lost unnoticed: a run passes only where the
/// counter is at least what was acknowledged.
pub proof fn law_a_lost_increment_fails_the_run(
    acked: u64,
    value: i64,
    r: Result<(), ChaosError>,
)
    requires
        call_ensures(check_counter, (acked, value), r),
    ensures
        r is Ok <==> acked <= value,
        r is Err ==> r->Err_0 is Violation,
{
}

/// The clock library that is used is the one that was named, and no other where one
/// was; otherwise the first that is there.
pub proof fn law_the_first_library_that_is_there_is_used(
    explicit: Option<Place>,
    places: &[Place],
    r: Option<String>,
)
    requires
        call_ensures(find_library, (explicit, places), r),
    ensures
        explicit matches Some(place) ==> {
            &&& r is Some <==> place.exists
            &&& r is Some ==> r->0@ == place.path@
        },
        explicit is None ==> {
            &&& r is None <==> forall|i: int|
                0 <= i < places@.len() ==> !(#[trigger] places@[i]).exists
            &&& r is Some ==> exists|i: int|
                {
                    &&& 0 <= i < places@.len()
                    &&& (#[trigger] places@[i]).exists
                    &&& r->0@ == places@[i].path@
                    &&& forall|j: int| 0 <= j < i ==> !(#[trigger] places@[j]).exists
                }
        },
{
    lemma_first_existing(places@);
}

proof fn lemma_first_existing(places: Seq<Place>)
    ensures
        first_existing(places) is None <==> forall|i: int|
            0 <= i < places.len() ==> !(#[trigger] places[i]).exists,
        first_existing(places) is Some ==> exists|i: int|
            {
                &&& 0 <= i < places.len()
                &&& (#[trigger] places[i]).exists
                &&& first_existing(places)->0 == places[i].path@
                &&& forall|j: int| 0 <= j < i ==> !(#[trigger] places[j]).exists
            },
    decreases places.len(),
{
    if places.len() > 0 && !places[0].exists {
        let rest = places.skip(1);
        lemma_first_existing(rest);
        assert forall|i: int| 0 < i < places.len() implies #[trigger] places[i] == rest[i - 1] by {}
        if first_existing(rest) is Some {
            let i = choose|i: int|
                {
                    &&& 0 <= i < rest.len()
                    &&& (#[trigger] rest[i]).exists
                    &&& first_existing(rest)->0 == rest[i].path@
                    &&& forall|j: int| 0 <= j < i ==> !(#[trigger] rest[j]).exists
                };
            assert(places[i + 1] == rest[i]);
        }
    }
}

/// A node is started as itself: under its number, in its directory, on its own
/// addresses, and told of every node of the cluster.
pub proof fn law_a_node_is_started_as_itself(
    config: &ClusterConfig,
    addresses: &Addresses,
    node: usize,
    to: int,
    r: Vec<String>,
)
    requires
        call_ensures(node_args, (config, addresses, node), r),
        node < config.nodes,
        0 <= to < config.nodes,
    ensures
        r@.len() == 14 + 2 * config.nodes + (if config.checkpoint_entries is Some {
            2int
        } else {
            0
        }),
        r@[0]@ == "--id"@ && r@[1]@ == decimal((node + 1) as nat),
        r@[2]@ == "--dir"@,
        r@[4]@ == "--listen"@ && r@[5]@ == addresses.peers@[node as int]@,
        r@[6]@ == "--admin"@ && r@[7]@ == addresses.admins@[node as int]@,
        r@[8]@ == "--client"@ && r@[9]@ == addresses.clients@[node as int]@,
        r@[10]@ == "--sync"@ && r@[11]@ == config.sync@,
        r@[12]@ == "--tick-ms"@ && r@[13]@ == decimal(config.tick_ms as nat),
        r@[14 + 2 * to]@ == "--peer"@,
        r@[14 + 2 * to + 1]@ == decimal((to + 1) as nat) + "="@ + (if node == to {
            addresses.peers@[to]@
        } else {
            addresses.routes@[node as int]@[to]@
        }),
        config.checkpoint_entries matches Some(n) ==> {
            &&& r@[14 + 2 * config.nodes]@ == "--checkpoint-entries"@
            &&& r@[15 + 2 * config.nodes]@ == decimal(n as nat)
        },
{
    law_a_node_is_told_of_every_other(*addresses, node as int, config.nodes as nat, to);
    let all = texts(r@);
    let told = peer_args(*addresses, node as int, config.nodes as nat);
    assert(all == node_args_text(*config, *addresses, node as int));
    assert forall|i: int| 0 <= i < r@.len() implies all[i] == (#[trigger] r@[i])@ by {}
    let more = checkpoint_args(config.checkpoint_entries);
    let first = all.take(14);
    assert(told.len() == 2 * config.nodes);
    assert(all.len() == 14 + told.len() + more.len());
    assert(all =~= first + told + more);
    assert(all[14 + 2 * to] == told[2 * to]);
    assert(all[14 + 2 * to + 1] == told[2 * to + 1]);
    assert(r@.len() == all.len());
    assert(r@[14 + 2 * to]@ == told[2 * to]);
    assert(r@[14 + 2 * to + 1]@ == told[2 * to + 1]);
}

/// The clock is moved once, when the probe has read it ten times, and what is
/// concluded is by how much monotonic time outran real time between the first reading
/// and the last.
pub proof fn law_the_clock_is_moved_once(line: &str, r: bool)
    ensures
        forall|c: &mut ClockCheck| #[trigger]
            call_ensures(ClockCheck::read, (c, line), r) && c@.readings < u64::MAX ==> {
                &&& r ==> !c@.jumped && final(c)@.jumped && final(c)@.readings >= 10
                &&& c@.jumped ==> !r && final(c)@.jumped
                &&& final(c)@.readings == c@.readings || final(c)@.readings == c@.readings + 1
                &&& final(c)@.readings == c@.readings ==> final(c)@ == c@
                &&& final(c)@.readings > c@.readings ==> {
                    &&& !c@.jumped ==> (r <==> final(c)@.readings >= 10)
                    &&& c@.first is Some ==> final(c)@.first == c@.first
                    &&& c@.first is None ==> final(c)@.first == Some(final(c)@.last)
                }
            },
{
}

/// A jump is believed where at least nine tenths of it showed.
pub proof fn law_a_jump_has_to_show(
    c: &ClockCheck,
    by_secs: u64,
    real_delta_ms: u64,
    r: Result<Observed, ChaosError>,
)
    requires
        by_secs <= 18_000_000_000_000_000,
        call_ensures(ClockCheck::conclude, (c, by_secs, real_delta_ms), r),
    ensures
        c@.first is None ==> r is Err,
        c@.first is Some && by_secs > 0 ==> (r is Ok <==> 10 * (c@.last - c@.first->0
            - real_delta_ms) >= 9_000 * by_secs),
        r matches Ok(o) ==> o.real_delta_ms == real_delta_ms,
        r matches Ok(o) ==> c@.last >= c@.first->0 ==> o.monotonic_delta_ms == c@.last
            - c@.first->0,
{
    if let Some(first) = c@.first {
        let observed = observed_by(first, c@.last, real_delta_ms);
        assert(observed.excess() * 10 >= by_secs * 1_000 * 9 <==> r is Ok);
    }
}

/// Every fault is counted once: as injected where it was, and as skipped otherwise.
pub proof fn law_every_fault_is_tallied(event: &At, outcome: &Outcome, r: Option<String>)
    ensures
        forall|t: &mut Tally| #[trigger]
            call_ensures(Tally::note, (t, event, outcome), r) && t.injected < u64::MAX && t.skipped
                < u64::MAX ==> {
                &&& final(t).injected + final(t).skipped == t.injected + t.skipped + 1
                &&& final(t).injected == t.injected + 1 <==> outcome is Injected
                    || outcome is Moved
                &&& r is None <==> outcome is NoClock
            },
{
}

} // verus!
