//! What the pace of a run promises.
//!
//! When an operation is offered, what its latency is measured from, and which
//! numbers may be written down.

use vstd::prelude::*;

use crate::bench::campaign::{decide, numbers_among, Verdict};
use crate::bench::driver::{
    interval_of, total_of, Action, Driver, DriverView, Part, Stage,
};
use crate::bench::environment::{
    filesystem_at, tree_is_modified, Environment, Filesystem, Reported,
};
use crate::bench::histogram::{law_merging_is_recording_into_one, recorded};
use crate::bench::publishable::{Publishable, Refusal, Tier};
use crate::bench::trials::Filling;
use crate::bench::workload::{Loop, Mix, Op, PlanView};
use crate::log::fs::SyncMode;
use crate::text::{decimal, is_digit, law_a_number_is_read_back, parsed_number};
use crate::time::Duration;

verus! {

broadcast use vstd::map::group_map_axioms;

// ------------------------------------------------------------------- offering

/// A driver begins with everything ahead of it, and the whole run to do it in.
pub proof fn law_a_driver_begins_at_the_beginning(
    shape: Loop,
    mix: Mix,
    seed: u64,
    client: u64,
    key_space: u64,
    duration: Duration,
    r: Driver,
)
    requires
        duration@ + 1_000_000_000 <= u64::MAX,
        call_ensures(Driver::new, (shape, mix, seed, client, key_space, duration), r),
    ensures
        r@.shape == shape,
        r@.deadline == duration@,
        r@.due == 0,
        r@.seq == 0,
        r@.late == 0,
        r@.acknowledged == 0,
        r@.reference == Map::<u64, u64>::empty(),
        r@.latency == recorded(Seq::empty()),
        r@.plan.mix == mix,
        r@.stage == Stage::Top,
{
}

/// The requests of an open loop are spread over its senders: what one of them
/// offers in a second, at one every interval, is its share of the rate.
pub proof fn law_an_interval_is_a_share_of_a_second(rate_per_s: u64, clients: usize, depth: usize)
    requires
        clients > 0,
        rate_per_s >= clients,
    ensures
        ({
            let interval = interval_of(Loop::Open { rate_per_s, clients, depth });
            let share = rate_per_s as nat / clients as nat;
            &&& interval * share <= 1_000_000_000 < (interval + 1) * share
            &&& share * clients <= rate_per_s < (share + 1) * clients
        }),
{
    let share = rate_per_s as nat / clients as nat;
    let interval = interval_of(Loop::Open { rate_per_s, clients, depth });
    assert(share * clients <= rate_per_s < (share + 1) * clients && share >= 1)
        by (nonlinear_arith)
        requires
            share == rate_per_s as nat / clients as nat,
            clients > 0,
            rate_per_s >= clients,
    ;
    assert(interval == 1_000_000_000nat / share);
    assert(interval * share <= 1_000_000_000 < (interval + 1) * share) by (nonlinear_arith)
        requires
            interval == 1_000_000_000nat / share,
            share >= 1,
    ;
}

/// A closed loop offers the next operation whenever there is room, until the run is
/// over; operations are numbered from one up and drawn from the plan in turn.
pub proof fn law_a_closed_loop_keeps_its_pipeline_full(
    now: u64,
    inflight: usize,
    capacity: usize,
    r: Action,
)
    ensures
        forall|d: &mut Driver| #[trigger]
            call_ensures(Driver::next, (d, now, inflight, capacity), r) && d@.shape is Closed
                && d@.seq < u64::MAX && d@.stage is Top ==> {
                let allowed = d@.shape->Closed_depth;
                let room = inflight < capacity && (inflight < allowed || (allowed == 0 && inflight
                    == 0));
                &&& now < d@.deadline && room <==> r is Submit
                &&& now < d@.deadline && !room ==> r is Poll
                &&& r matches Action::Submit { op, seq } ==> {
                    &&& seq == d@.seq + 1
                    &&& final(d)@.seq == seq
                    &&& op == d@.plan.op()
                    &&& final(d)@.plan == d@.plan.drawn()
                }
                &&& now >= d@.deadline ==> (r is Finished <==> d@.reference.dom().len() == 0 || now
                    >= u64::MAX)
                &&& final(d)@.late == d@.late
                &&& final(d)@.reference == d@.reference
                &&& final(d)@.latency == d@.latency
            },
{
}

/// An open loop offers a request when it is due and not before. One that comes more
/// than an interval after that is late, and what was due and never offered when the
/// run is over is late too.
pub proof fn law_an_open_loop_keeps_its_schedule(
    now: u64,
    inflight: usize,
    capacity: usize,
    r: Action,
)
    ensures
        forall|d: &mut Driver| #[trigger]
            call_ensures(Driver::next, (d, now, inflight, capacity), r) && d@.shape is Open
                && d@.seq < u64::MAX && d@.stage is Top ==> {
                let interval = interval_of(d@.shape);
                &&& now < d@.due < d@.deadline ==> {
                    &&& r == (Action::Sleep { nanos: (d@.due - now) as u64 })
                    &&& final(d)@.late == d@.late
                }
                &&& r is Submit ==> d@.due <= now < d@.deadline && inflight < capacity
                &&& d@.due <= now < d@.deadline ==> {
                    &&& r is Submit || r is Poll
                    &&& final(d)@.due == d@.due
                    &&& d@.late < u64::MAX ==> final(d)@.late == d@.late + (if now > d@.due
                        + interval {
                        1int
                    } else {
                        0
                    })
                }
                &&& d@.due >= d@.deadline ==> final(d)@.late == d@.late && !(r is Submit)
                &&& r matches Action::Submit { op, seq } ==> {
                    &&& seq == d@.seq + 1
                    &&& final(d)@.seq == seq
                    &&& op == d@.plan.op()
                }
                &&& d@.due < d@.deadline <= now && interval > 0 && d@.late == 0 ==> {
                    let missed = final(d)@.late;
                    &&& !(r is Submit)
                    &&& missed * interval <= d@.deadline - d@.due < (missed + 1) * interval
                }
                &&& final(d)@.reference == d@.reference
                &&& final(d)@.latency == d@.latency
            },
{
    assert forall|d: &mut Driver| #[trigger]
        call_ensures(Driver::next, (d, now, inflight, capacity), r) && d@.shape is Open && d@.seq
            < u64::MAX && d@.stage is Top && d@.due < d@.deadline <= now && interval_of(d@.shape)
            > 0 && d@.late == 0 implies {
        let interval = interval_of(d@.shape);
        let missed = final(d)@.late;
        missed * interval <= d@.deadline - d@.due < (missed + 1) * interval
    } by {
        let interval = interval_of(d@.shape);
        let left = d@.deadline - d@.due;
        let missed = left / interval as int;
        assert(missed * interval <= left < (missed + 1) * interval && 0 <= missed <= left)
            by (nonlinear_arith)
            requires
                missed == left / interval as int,
                interval > 0,
                left > 0,
        ;
        assert(final(d)@.late == missed);
    }
}

/// Once a request of an open loop has been offered, the next one is due an interval
/// later, however long the collecting took.
pub proof fn law_requests_are_due_an_interval_apart(finished: &[(u64, bool)], now: u64)
    ensures
        forall|d: &mut Driver| #[trigger]
            call_ensures(Driver::collected, (d, finished, now), ()) && d@.stage is Sent && d@.due
                + interval_of(d@.shape) <= u64::MAX ==> {
                &&& final(d)@.due == d@.due + interval_of(d@.shape)
                &&& final(d)@.stage == Stage::Top
            },
{
    assert forall|d: &mut Driver| #[trigger]
        call_ensures(Driver::collected, (d, finished, now), ()) && d@.stage is Sent && d@.due
            + interval_of(d@.shape) <= u64::MAX implies {
        &&& final(d)@.due == d@.due + interval_of(d@.shape)
        &&& final(d)@.stage == Stage::Top
    } by {
        lemma_charging_keeps(d@, finished@, now);
    }
}

proof fn lemma_charging_keeps(
    d: DriverView,
    finished: Seq<(u64, bool)>,
    now: u64,
)
    ensures
        ({
            let after = d.charged_all(finished, now);
            &&& after.due == d.due
            &&& after.stage == d.stage
            &&& after.shape == d.shape
            &&& after.seq == d.seq
            &&& after.late == d.late
        }),
    decreases finished.len(),
{
    if finished.len() > 0 {
        lemma_charging_keeps(d, finished.drop_last(), now);
    }
}

// ------------------------------------------------------------------ measuring

/// What an operation's latency is measured from: a closed loop's from when it was
/// sent, and an open loop's from when it was *due*, so that a request that waited
/// for its turn is charged for the wait.
pub proof fn law_latency_is_measured_from_when_it_was_due(
    samples: Seq<(u64, nat)>,
    token: u64,
    sent: u64,
    finished: &[(u64, bool)],
    now: u64,
)
    requires
        finished@ == seq![(token, true)],
    ensures
        forall|d: &mut Driver, then: &mut Driver|
            #![trigger call_ensures(Driver::submitted, (d, Some(token), sent), ()), call_ensures(Driver::collected, (then, finished, now), ())]
            {
                &&& call_ensures(Driver::submitted, (d, Some(token), sent), ())
                &&& *then == *final(d)
                &&& call_ensures(Driver::collected, (then, finished, now), ())
                &&& d@.latency == recorded(samples)
                &&& d@.acknowledged < u64::MAX
            } ==> {
                let from = if d@.shape is Open {
                    d@.due
                } else {
                    sent
                };
                &&& now >= from ==> final(then)@.latency == recorded(
                    samples.push(((now - from) as u64, 1)),
                )
                &&& now < from ==> final(then)@.latency == recorded(samples.push((0, 1)))
                &&& final(then)@.acknowledged == d@.acknowledged + 1
                &&& !final(then)@.reference.contains_key(token)
                &&& forall|other: u64|
                    other != token ==> {
                        &&& final(then)@.reference.contains_key(other)
                            <==> #[trigger] d@.reference.contains_key(other)
                        &&& d@.reference.contains_key(other) ==> final(then)@.reference[other]
                            == d@.reference[other]
                    }
            },
{
    reveal_with_fuel(DriverView::charged_all, 2);
    assert(finished@.drop_last() =~= Seq::<(u64, bool)>::empty());
    assert forall|x: (u64, nat)| #[trigger] samples.push(x).drop_last() =~= samples by {}
    assert forall|d: &mut Driver, then: &mut Driver|
        #![trigger call_ensures(Driver::submitted, (d, Some(token), sent), ()), call_ensures(Driver::collected, (then, finished, now), ())]
        {
            &&& call_ensures(Driver::submitted, (d, Some(token), sent), ())
            &&& *then == *final(d)
            &&& call_ensures(Driver::collected, (then, finished, now), ())
            &&& d@.latency == recorded(samples)
            &&& d@.acknowledged < u64::MAX
        } implies {
        let from = if d@.shape is Open {
            d@.due
        } else {
            sent
        };
        &&& now >= from ==> final(then)@.latency == recorded(
            samples.push(((now - from) as u64, 1)),
        )
        &&& now < from ==> final(then)@.latency == recorded(samples.push((0, 1)))
    } by {
        let from = if d@.shape is Open {
            d@.due
        } else {
            sent
        };
        let took: u64 = if now >= from {
            (now - from) as u64
        } else {
            0
        };
        assert(samples.push((took, 1)).drop_last() =~= samples);
        assert(final(d)@.reference[token] == from);
        assert(final(then)@.latency == recorded(samples).with(took, 1));
    }
}

/// An operation that was refused, or that nobody knows of, is no measurement.
pub proof fn law_what_failed_is_not_measured(finished: &[(u64, bool)], now: u64)
    ensures
        forall|d: &mut Driver| #[trigger]
            call_ensures(Driver::collected, (d, finished, now), ()) && (forall|i: int|
                0 <= i < finished@.len() ==> !(#[trigger] finished@[i]).1
                    || !d@.reference.contains_key(finished@[i].0)) ==> {
                &&& final(d)@.latency == d@.latency
                &&& final(d)@.acknowledged == d@.acknowledged
            },
{
    assert forall|d: &mut Driver| #[trigger]
        call_ensures(Driver::collected, (d, finished, now), ()) && (forall|i: int|
            0 <= i < finished@.len() ==> !(#[trigger] finished@[i]).1
                || !d@.reference.contains_key(finished@[i].0)) implies {
        &&& final(d)@.latency == d@.latency
        &&& final(d)@.acknowledged == d@.acknowledged
    } by {
        lemma_failures_change_nothing(d@, finished@, now);
    }
}

proof fn lemma_failures_change_nothing(
    d: DriverView,
    finished: Seq<(u64, bool)>,
    now: u64,
)
    requires
        forall|i: int|
            0 <= i < finished.len() ==> !(#[trigger] finished[i]).1 || !d.reference.contains_key(
                finished[i].0,
            ),
    ensures
        d.charged_all(finished, now).latency == d.latency,
        d.charged_all(finished, now).acknowledged == d.acknowledged,
        forall|t: u64|
            d.charged_all(finished, now).reference.contains_key(t)
                ==> #[trigger] d.reference.contains_key(t),
    decreases finished.len(),
{
    if finished.len() > 0 {
        let head = finished.drop_last();
        assert forall|i: int| 0 <= i < head.len() implies !(#[trigger] head[i]).1
            || !d.reference.contains_key(head[i].0) by {
            assert(head[i] == finished[i]);
        }
        lemma_failures_change_nothing(d, head, now);
        let last = finished[finished.len() - 1];
        assert(!last.1 || !d.reference.contains_key(last.0));
    }
}

/// What the senders of a run did is added up, and their measurements are put
/// together as if one of them had made them all.
pub proof fn law_senders_add_up(
    parts: Seq<Part>,
    part: Part,
    samples: Seq<(u64, nat)>,
    more: Seq<(u64, nat)>,
)
    requires
        total_of(parts).latency == recorded(samples),
        part.latency@ == recorded(more),
    ensures
        total_of(parts.push(part)).acknowledged == total_of(parts).acknowledged
            + part.acknowledged,
        total_of(parts.push(part)).attempted == total_of(parts).attempted + part.attempted,
        total_of(parts.push(part)).late == total_of(parts).late + part.late,
        total_of(parts.push(part)).latency == recorded(samples + more),
        total_of(Seq::empty()).acknowledged == 0,
        total_of(Seq::empty()).attempted == 0,
        total_of(Seq::empty()).late == 0,
        total_of(Seq::empty()).latency == recorded(Seq::empty()),
{
    assert(parts.push(part).drop_last() =~= parts);
    law_merging_is_recording_into_one(samples, more);
}

/// A mix reads as many operations in a hundred as it is named for, by the second of
/// the two numbers that are drawn for an operation; the first is the key.
pub proof fn law_a_mix_reads_its_share(plan: PlanView)
    requires
        plan.key_space > 0,
    ensures
        ({
            let reads = match plan.mix {
                Mix::A => 50int,
                Mix::B => 95,
                Mix::C => 100,
                Mix::Writes => 0,
            };
            let key = (plan.rng.number() as int % plan.key_space as int) as u64;
            &&& plan.op() == (if plan.rng.moved().number() as int % 100 < reads {
                Op::Read { key }
            } else {
                Op::Write { key }
            })
        }),
{
}

// ----------------------------------------------------------------- publishing

/// A number may be published where the machine is described, the data was on a real
/// filesystem and written durably, the commit is known and the tree was that
/// commit's, and it was measured at least three times. Otherwise the refusal is for
/// a reason that is there.
pub proof fn law_only_a_reproducible_number_is_published(
    environment: &Environment,
    tier: Tier,
    sync_mode: SyncMode,
    runs: usize,
    r: Result<Publishable, Refusal>,
)
    requires
        call_ensures(Publishable::check_with_sync, (environment, tier, sync_mode, runs), r),
    ensures
        r is Ok <==> {
            &&& environment.cpu@.len() > 0
            &&& environment.cores > 0
            &&& environment.memory_gib > 0
            &&& environment.os@.len() > 0
            &&& environment.arch@.len() > 0
            &&& environment.filesystem is Durable
            &&& environment.commit@.len() > 0
            &&& !environment.tree_modified
            &&& sync_mode is Durable
            &&& runs >= 3
        },
        r matches Ok(p) ==> p@.tier == tier && p@.runs == runs && p@.environment == *environment,
        r matches Err(Refusal::FilesystemIsMemory(name)) ==> environment.filesystem is Memory
            && name@ == environment.filesystem->Memory_0@,
        r matches Err(Refusal::FilesystemUnknown) ==> environment.filesystem is Unknown,
        r matches Err(Refusal::SyncNotDurable(_, _)) ==> !(sync_mode is Durable),
        r matches Err(Refusal::TooFewRuns(n)) ==> n == runs && runs < 3,
        r matches Err(Refusal::TreeModified) ==> environment.tree_modified,
        r matches Err(Refusal::CommitUnknown) ==> environment.commit@.len() == 0,
        r matches Err(Refusal::HardwareNotStated) ==> {
            ||| environment.cpu@.len() == 0
            ||| environment.cores == 0
            ||| environment.memory_gib == 0
            ||| environment.os@.len() == 0
            ||| environment.arch@.len() == 0
            ||| environment.filesystem is Unknown
        },
{
}

/// What is said of a filesystem is what was reported of it, and one of those that keep
/// their files in memory is never taken for a durable one.
pub proof fn law_memory_is_not_taken_for_a_disk(name: String, r: Filesystem)
    requires
        call_ensures(filesystem_at, (Some(Reported::Name(name)),), r),
    ensures
        name@ == "tmpfs"@ || name@ == "ramfs"@ || name@ == "devtmpfs"@ || name@ == "hugetlbfs"@
            ==> r is Memory,
        name@.len() > 9 ==> r is Durable,
        !(r is Unknown),
        r matches Filesystem::Memory(n) ==> n@ == name@,
        r matches Filesystem::Durable(n) ==> n@ == name@,
{
    reveal_strlit("tmpfs");
    reveal_strlit("ramfs");
    reveal_strlit("devtmpfs");
    reveal_strlit("hugetlbfs");
}

/// A tree is the commit's own only where nothing is staged, changed or left out of it.
pub proof fn law_a_modified_tree_is_noticed(
    staged_clean: bool,
    unstaged_clean: bool,
    untracked: &str,
    r: bool,
)
    requires
        call_ensures(tree_is_modified, (staged_clean, unstaged_clean, untracked), r),
    ensures
        !staged_clean || !unstaged_clean ==> r,
        staged_clean && unstaged_clean && untracked@.len() == 0 ==> !r,
{
}

/// A state is filled with values that make it up, and with none that it does not need.
pub proof fn law_a_state_is_filled_and_not_overfilled(
    state_bytes: usize,
    value_bytes: usize,
    r: Filling,
)
    requires
        call_ensures(Filling::of, (state_bytes, value_bytes), r),
    ensures
        16 <= r.value_len <= 8_388_608,
        16 <= value_bytes <= 8_388_608 ==> r.value_len == value_bytes,
        r.values >= 1,
        r.values * r.value_len >= state_bytes,
        r.values > 1 ==> (r.values - 1) * r.value_len < state_bytes,
{
    let (n, len, bytes) = (r.values as int, r.value_len as int, state_bytes as int);
    if bytes > 0 {
        assert(n == (bytes + len - 1) / len);
        assert(n >= 1 && (n - 1) * len < bytes) by (nonlinear_arith)
            requires
                n == (bytes + len - 1) / len,
                len >= 16,
                bytes > 0,
        ;
    }
}

/// A number that may not be published is recorded only for a purpose that was stated,
/// and then with why it may not; otherwise it is refused.
pub proof fn law_an_unpublishable_number_needs_a_purpose(
    env: &Environment,
    tier: Tier,
    sync: SyncMode,
    runs: usize,
    purpose: Option<&str>,
    check: Result<Publishable, Refusal>,
    r: Verdict,
)
    requires
        call_ensures(Publishable::check_with_sync, (env, tier, sync, runs), check),
        call_ensures(decide, (env, tier, sync, runs, purpose), r),
    ensures
        r is Publish <==> check is Ok,
        r is Admit <==> check is Err && purpose is Some,
        r is Refuse <==> check is Err && purpose is None,
        r is Publish ==> r->Publish_0@ == check->Ok_0@,
        r is Admit ==> r->Admit_0@.purpose == purpose->0@ && r->Admit_0@.environment == *env,
{
}

/// The rates of a list are its numbers, in the order they are listed; what is no
/// number is left out.
pub proof fn law_rates_keep_their_order(texts: Seq<Seq<char>>, more: Seq<Seq<char>>, n: u64)
    ensures
        numbers_among(texts + more) == numbers_among(texts) + numbers_among(more),
        numbers_among(Seq::empty()) == Seq::<u64>::empty(),
        numbers_among(seq![decimal(n as nat)]) == seq![n],
    decreases more.len(),
{
    reveal_with_fuel(numbers_among, 2);
    if more.len() == 0 {
        assert(texts + more =~= texts);
        assert(numbers_among(texts) + numbers_among(more) =~= numbers_among(texts));
    } else {
        assert((texts + more).drop_last() =~= texts + more.drop_last());
        law_rates_keep_their_order(texts, more.drop_last(), n);
        assert(numbers_among(texts + more) =~= numbers_among(texts) + numbers_among(more));
    }
    law_a_number_is_read_back(n as nat);
    let one = seq![decimal(n as nat)];
    assert(is_digit(decimal(n as nat)[0]));
    assert(one.drop_last() =~= Seq::empty());
    assert(parsed_number(decimal(n as nat)) == Some(n));
    assert(numbers_among(one) =~= seq![n]);
}

} // verus!
