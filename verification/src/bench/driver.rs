//! Driving one sender through a run.
//!
//! A [`Driver`] decides; whoever runs it holds the clock and the sender. It is
//! told the time and how full the sender is, and says what to do next: offer an
//! operation, collect what has finished, sleep until the next one is due, or
//! stop. Every instant is a number of nanoseconds since the run began.

use std::collections::HashMap;

use vstd::prelude::*;

use crate::bench::histogram::{Histogram, HistogramView};
use crate::bench::workload::{
    at_least_one, depth_of, senders_of, Loop, Mix, Op, Plan, PlanView, Run,
};
use crate::time::{capped, Duration};

verus! {

broadcast use {vstd::std_specs::hash::group_hash_axioms, vstd::map::group_map_axioms};

/// How long the driver waits on a poll that finds nothing, in nanoseconds.
///
/// Short enough that an open-loop sender's schedule is not distorted by it, and
/// long enough that a sender waiting on a commit is not spinning a core.
pub const POLL_WAIT: u64 = 200_000;

/// How long what is still on the wire is waited for when the run is over, in
/// nanoseconds.
pub const DRAIN: u64 = 2_000_000_000;

/// The thing under test, as the driver needs to see it.
///
/// A sender takes operations and gives back outcomes, and the two are not
/// required to happen together. That separation is the whole of what lets one
/// driver measure both a client that waits for every answer and one with
/// sixteen requests on the wire.
pub trait Sender {
    /// How many operations this sender may hold at once. One is a closed client.
    fn capacity(&self) -> usize;

    /// How many it is holding now.
    fn inflight(&self) -> usize;

    /// Offer an operation. `None` means it could not be taken; the driver polls
    /// and tries again, which is backpressure rather than an error.
    fn submit(&mut self, op: Op, seq: u64) -> Option<u64>;

    /// Collect whatever has finished, waiting up to `timeout` for the first of
    /// it. An empty result is the ordinary state of a sender still waiting.
    fn poll(&mut self, timeout: Duration) -> Vec<(u64, bool)>;
}

/// What a sender whose operations are complete before they are handed over has
/// to remember.
///
/// Its capacity is one, by construction: the answer is there when the operation
/// has been offered.
#[derive(Debug)]
pub struct Blocking {
    client: usize,
    next: u64,
    finished: Vec<(u64, bool)>,
}

impl Blocking {
    pub closed spec fn client_of(&self) -> usize {
        self.client
    }

    /// The token the next operation gets.
    pub closed spec fn next_of(&self) -> u64 {
        self.next
    }

    /// What has finished and was not collected.
    pub closed spec fn finished_of(&self) -> Seq<(u64, bool)> {
        self.finished@
    }

    pub fn new(client: usize) -> (r: Self)
        ensures
            r.client_of() == client,
            r.next_of() == 0,
            r.finished_of().len() == 0,
    {
        Blocking { client, next: 0, finished: Vec::new() }
    }

    /// Whose operations these are.
    pub fn client(&self) -> (r: usize)
        ensures
            r == self.client_of(),
    {
        self.client
    }

    pub fn capacity(&self) -> (r: usize)
        ensures
            r == 1,
    {
        1
    }

    pub fn inflight(&self) -> (r: usize)
        ensures
            r == self.finished_of().len(),
    {
        self.finished.len()
    }

    /// An operation that was performed, and whether it went well.
    pub fn submit(&mut self, ok: bool) -> (r: Option<u64>)
        requires
            old(self).next_of() < u64::MAX,
        ensures
            r == Some(old(self).next_of()),
            final(self).client_of() == old(self).client_of(),
            final(self).next_of() == old(self).next_of() + 1,
            final(self).finished_of() == old(self).finished_of().push((old(self).next_of(), ok)),
    {
        let token: u64 = self.next;
        self.next = self.next + 1;
        self.finished.push((token, ok));
        Some(token)
    }

    /// Everything that finished since this was last asked.
    pub fn poll(&mut self) -> (r: Vec<(u64, bool)>)
        ensures
            r@ == old(self).finished_of(),
            final(self).client_of() == old(self).client_of(),
            final(self).next_of() == old(self).next_of(),
            final(self).finished_of().len() == 0,
    {
        let mut taken: Vec<(u64, bool)> = Vec::new();
        std::mem::swap(&mut taken, &mut self.finished);
        taken
    }
}

/// What to do next.
#[derive(Debug, Clone, Copy, PartialEq, Eq, Structural)]
pub enum Action {
    /// Offer this operation to the sender, and say what it answered.
    Submit { op: Op, seq: u64 },
    /// Collect what has finished, waiting this many nanoseconds for the first of
    /// it.
    Poll { wait: u64 },
    /// Nothing is due for this many nanoseconds.
    Sleep { nanos: u64 },
    /// The run is over.
    Finished,
}

/// Where a driver stands.
#[derive(Debug, Clone, Copy, PartialEq, Eq, Structural)]
pub enum Stage {
    /// At the top: is there anything left to offer?
    Top,
    /// A closed loop filling its pipeline.
    Fill,
    /// A closed loop whose pipeline took no more.
    Full,
    /// An open loop that waits for room for the request that is due.
    Room,
    /// An operation was handed out, and the sender has not answered.
    Offered,
    /// An open loop that has offered the request that was due.
    Sent,
    /// The run is over, and what is on the wire has until this instant.
    Drain { until: u64 },
    Done,
}

/// How far apart an open-loop sender's requests are due: its share of the
/// offered rate.
pub open spec fn interval_of(shape: Loop) -> nat {
    match shape {
        Loop::Closed { .. } => 0,
        Loop::Open { rate_per_s, .. } => 1_000_000_000nat / at_least_one(
            rate_per_s as nat / senders_of(shape),
        ),
    }
}

/// Drives one sender.
pub struct Driver {
    shape: Loop,
    plan: Plan,
    interval: u64,
    deadline: u64,
    due: u64,
    seq: u64,
    late: u64,
    acknowledged: u64,
    /// What each outstanding operation's latency is measured from. For a closed
    /// loop that is when it was sent; for an open loop it is when it was *due*,
    /// which is the line that makes the tail honest.
    reference: HashMap<u64, u64>,
    latency: Histogram,
    stage: Stage,
}

/// What a driver knows.
pub struct DriverView {
    pub shape: Loop,
    pub plan: PlanView,
    /// When the run is over.
    pub deadline: u64,
    /// When the next request of an open loop is due.
    pub due: u64,
    /// How many operations were handed out.
    pub seq: u64,
    pub late: u64,
    pub acknowledged: u64,
    /// What each outstanding operation's latency is measured from.
    pub reference: Map<u64, u64>,
    pub latency: HistogramView,
    pub stage: Stage,
}

/// Whether a sender this full may be given another operation.
pub open spec fn has_room(shape: Loop, inflight: nat, capacity: nat) -> bool {
    inflight < depth_of(shape) && inflight < capacity
}

impl DriverView {
    /// A driver that has not begun.
    pub open spec fn fresh(
        shape: Loop,
        mix: Mix,
        seed: u64,
        client: u64,
        key_space: u64,
        deadline: u64,
    ) -> DriverView {
        DriverView {
            shape,
            plan: PlanView::fresh(seed.wrapping_add(client), mix, key_space),
            deadline,
            due: 0,
            seq: 0,
            late: 0,
            acknowledged: 0,
            reference: Map::empty(),
            latency: HistogramView::empty(),
            stage: Stage::Top,
        }
    }

    /// How far apart this sender's requests are due.
    pub open spec fn interval(self) -> nat {
        interval_of(self.shape)
    }

    pub open spec fn at(self, stage: Stage) -> DriverView {
        DriverView { stage, ..self }
    }

    /// The next operation, handed out.
    pub open spec fn offering(self) -> (DriverView, Action) {
        (
            DriverView {
                plan: self.plan.drawn(),
                seq: (self.seq + 1) as u64,
                stage: Stage::Offered,
                ..self
            },
            Action::Submit { op: self.plan.op(), seq: (self.seq + 1) as u64 },
        )
    }

    /// The end of the run, at the moment it is noticed.
    pub open spec fn over(self, now: u64) -> (DriverView, Action) {
        self.at(Stage::Drain { until: capped((now + DRAIN) as nat) as u64 }).draining(now)
    }

    /// What is still on the wire is waited for until its time is up.
    pub open spec fn draining(self, now: u64) -> (DriverView, Action) {
        if self.reference.dom().len() == 0 || now >= self.stage->until {
            (self.at(Stage::Done), Action::Finished)
        } else {
            (self, Action::Poll { wait: POLL_WAIT })
        }
    }

    /// A closed loop fills its pipeline, and then collects.
    pub open spec fn filling(self, room: bool) -> (DriverView, Action) {
        if room {
            self.offering()
        } else {
            (self.at(Stage::Full), Action::Poll { wait: POLL_WAIT })
        }
    }

    /// An open loop whose request is due offers it once there is room, and at
    /// the end of the run in any case.
    pub open spec fn making_room(self, now: u64, room: bool) -> (DriverView, Action) {
        if !room && now < self.deadline {
            (self.at(Stage::Room), Action::Poll { wait: POLL_WAIT })
        } else {
            self.offering()
        }
    }

    /// How many requests were due before the deadline and never offered, at the
    /// moment the run ends.
    pub open spec fn owed(self) -> nat {
        ((self.deadline - self.due) / at_least_one(self.interval()) as int) as nat
    }

    /// More requests that were not offered on time.
    pub open spec fn falling_behind(self, by: nat) -> DriverView {
        DriverView { late: capped(self.late as nat + by) as u64, ..self }
    }

    /// What a driver does next, told the time and whether there is room.
    pub open spec fn next(self, now: u64, room: bool) -> (DriverView, Action) {
        match self.stage {
            Stage::Top => if self.shape is Closed {
                if now < self.deadline {
                    self.filling(room)
                } else {
                    self.over(now)
                }
            } else if self.due >= self.deadline {
                self.over(now)
            } else if now >= self.deadline {
                self.falling_behind(self.owed()).over(now)
            } else if now < self.due {
                (self.at(Stage::Room), Action::Sleep { nanos: (self.due - now) as u64 })
            } else if now - self.due > self.interval() {
                self.falling_behind(1).making_room(now, room)
            } else {
                self.making_room(now, room)
            },
            Stage::Fill => self.filling(room),
            Stage::Full => (self, Action::Poll { wait: POLL_WAIT }),
            Stage::Room => self.making_room(now, room),
            Stage::Offered => (self, Action::Poll { wait: 0 }),
            Stage::Sent => (self, Action::Poll { wait: 0 }),
            Stage::Drain { .. } => self.draining(now),
            Stage::Done => (self, Action::Finished),
        }
    }

    /// What the sender answered to an operation, sent at some instant.
    pub open spec fn submitted(self, token: Option<u64>, sent: u64) -> DriverView {
        let from = if self.shape is Closed {
            sent
        } else {
            self.due
        };
        DriverView {
            reference: match token {
                Some(token) => self.reference.insert(token, from),
                None => self.reference,
            },
            stage: if self.shape is Open {
                Stage::Sent
            } else if token is Some {
                Stage::Fill
            } else {
                Stage::Full
            },
            ..self
        }
    }

    /// One finished operation, charged to its own reference instant. One the
    /// driver is not waiting for is not counted.
    pub open spec fn charged(self, token: u64, ok: bool, now: u64) -> DriverView {
        if !self.reference.contains_key(token) {
            self
        } else if !ok {
            DriverView { reference: self.reference.remove(token), ..self }
        } else {
            let from = self.reference[token];
            DriverView {
                reference: self.reference.remove(token),
                acknowledged: (self.acknowledged + 1) as u64,
                latency: self.latency.with(
                    if now > from {
                        (now - from) as u64
                    } else {
                        0
                    },
                    1,
                ),
                ..self
            }
        }
    }

    /// Finished operations, one after the other.
    pub open spec fn charged_all(self, finished: Seq<(u64, bool)>, now: u64) -> DriverView
        decreases finished.len(),
    {
        if finished.len() == 0 {
            self
        } else {
            let before = self.charged_all(finished.drop_last(), now);
            before.charged(finished.last().0, finished.last().1, now)
        }
    }

    /// Where a driver stands once it has collected.
    pub open spec fn after_collecting(self) -> DriverView {
        match self.stage {
            Stage::Full => self.at(Stage::Top),
            Stage::Sent => DriverView {
                due: (self.due + self.interval()) as u64,
                stage: Stage::Top,
                ..self
            },
            _ => self,
        }
    }

    /// What has finished, collected at some instant.
    pub open spec fn collected(self, finished: Seq<(u64, bool)>, now: u64) -> DriverView {
        self.charged_all(finished, now).after_collecting()
    }

    /// What holds of every driver.
    pub open spec fn wf(self) -> bool {
        &&& self.plan.key_space > 0
        &&& self.latency.wf()
        &&& self.latency.count == self.acknowledged
        &&& self.reference.dom().finite()
        &&& self.acknowledged + self.reference.dom().len() + (if self.stage is Offered {
            1int
        } else {
            0
        }) <= self.seq
        &&& self.deadline + 1_000_000_000 <= u64::MAX
        &&& (self.stage is Fill || self.stage is Full) ==> self.shape is Closed
        &&& (self.stage is Room || self.stage is Sent) ==> self.shape is Open
        &&& self.shape is Open ==> self.on_schedule()
    }

    /// An open loop's requests are due one interval apart, and none is offered
    /// that is due at or after the deadline.
    pub open spec fn on_schedule(self) -> bool {
        match self.stage {
            Stage::Top => self.due == self.seq * self.interval() && (self.due < self.deadline
                || self.due <= self.deadline + self.interval()),
            Stage::Room => self.due == self.seq * self.interval() && self.due < self.deadline,
            Stage::Offered | Stage::Sent => self.seq >= 1 && self.due == (self.seq - 1)
                * self.interval() && self.due < self.deadline,
            _ => true,
        }
    }
}

impl View for Driver {
    type V = DriverView;

    closed spec fn view(&self) -> DriverView {
        DriverView {
            shape: self.shape,
            plan: self.plan@,
            deadline: self.deadline,
            due: self.due,
            seq: self.seq,
            late: self.late,
            acknowledged: self.acknowledged,
            reference: self.reference@,
            latency: self.latency@,
            stage: self.stage,
        }
    }
}

impl Driver {
    /// The interval kept is the one the shape asks for.
    pub closed spec fn in_step(&self) -> bool {
        self.interval == interval_of(self.shape)
    }

    pub open spec fn wf(&self) -> bool {
        &&& self@.wf()
        &&& self.in_step()
    }

    /// A driver for one sender of a run.
    pub fn new(
        shape: Loop,
        mix: Mix,
        seed: u64,
        client: u64,
        key_space: u64,
        duration: Duration,
    ) -> (r: Self)
        requires
            duration@ + 1_000_000_000 <= u64::MAX,
        ensures
            r@ == DriverView::fresh(shape, mix, seed, client, key_space, duration@ as u64),
            r.wf(),
    {
        let interval: u64 = match shape {
            Loop::Closed { .. } => 0,
            Loop::Open { rate_per_s, .. } => {
                let share: u64 = rate_per_s / shape.clients() as u64;
                if share == 0 {
                    1_000_000_000
                } else {
                    1_000_000_000 / share
                }
            },
        };
        let r = Driver {
            shape,
            plan: Plan::new(seed.wrapping_add(client), mix, key_space),
            interval,
            deadline: duration.as_nanos(),
            due: 0,
            seq: 0,
            late: 0,
            acknowledged: 0,
            reference: HashMap::new(),
            latency: Histogram::new(),
            stage: Stage::Top,
        };
        proof {
            assert(r.reference@ =~= Map::<u64, u64>::empty());
        }
        r
    }

    /// How many operations were handed out.
    pub fn attempted(&self) -> (r: u64)
        ensures
            r == self@.seq,
    {
        self.seq
    }

    fn offer(&mut self) -> (r: Action)
        requires
            old(self)@.plan.key_space > 0,
            old(self)@.seq < u64::MAX,
        ensures
            (final(self)@, r) == old(self)@.offering(),
            final(self).interval == old(self).interval,
    {
        let op: Op = self.plan.draw();
        self.seq = self.seq + 1;
        self.stage = Stage::Offered;
        Action::Submit { op, seq: self.seq }
    }

    fn drain(&mut self, now: u64, until: u64) -> (r: Action)
        ensures
            (final(self)@, r) == old(self)@.at(Stage::Drain { until }).draining(now),
            final(self).interval == old(self).interval,
    {
        if self.reference.len() == 0 || now >= until {
            self.stage = Stage::Done;
            Action::Finished
        } else {
            self.stage = Stage::Drain { until };
            Action::Poll { wait: POLL_WAIT }
        }
    }

    fn make_room(&mut self, now: u64, room: bool) -> (r: Action)
        requires
            old(self)@.plan.key_space > 0,
            old(self)@.seq < u64::MAX,
        ensures
            (final(self)@, r) == old(self)@.making_room(now, room),
            final(self).interval == old(self).interval,
    {
        if !room && now < self.deadline {
            self.stage = Stage::Room;
            Action::Poll { wait: POLL_WAIT }
        } else {
            self.offer()
        }
    }

    fn fill(&mut self, room: bool) -> (r: Action)
        requires
            old(self)@.plan.key_space > 0,
            old(self)@.seq < u64::MAX,
        ensures
            (final(self)@, r) == old(self)@.filling(room),
            final(self).interval == old(self).interval,
    {
        if room {
            self.offer()
        } else {
            self.stage = Stage::Full;
            Action::Poll { wait: POLL_WAIT }
        }
    }

    fn top(&mut self, now: u64, room: bool) -> (r: Action)
        requires
            old(self).wf(),
            old(self)@.stage == Stage::Top,
            old(self)@.seq < u64::MAX,
        ensures
            (final(self)@, r) == old(self)@.next(now, room),
            final(self).interval == old(self).interval,
    {
        let closed: bool = match self.shape {
            Loop::Closed { .. } => true,
            Loop::Open { .. } => false,
        };
        if closed {
            if now < self.deadline {
                return self.fill(room);
            }
            return self.drain(now, now.saturating_add(DRAIN));
        }
        if self.due >= self.deadline {
            return self.drain(now, now.saturating_add(DRAIN));
        }
        if now >= self.deadline {
            let least: u64 = if self.interval == 0 {
                1
            } else {
                self.interval
            };
            let owed: u64 = (self.deadline - self.due) / least;
            self.late = self.late.saturating_add(owed);
            return self.drain(now, now.saturating_add(DRAIN));
        }
        if now < self.due {
            self.stage = Stage::Room;
            return Action::Sleep { nanos: self.due - now };
        }
        if now - self.due > self.interval {
            self.late = self.late.saturating_add(1);
        }
        self.make_room(now, room)
    }

    /// What to do next, told the time and how full the sender is.
    ///
    /// A request is only offered to a closed loop's sender that has room for it.
    pub fn next(&mut self, now: u64, inflight: usize, capacity: usize) -> (r: Action)
        requires
            old(self).wf(),
            old(self)@.seq < u64::MAX,
        ensures
            (final(self)@, r) == old(self)@.next(
                now,
                has_room(old(self)@.shape, inflight as nat, capacity as nat),
            ),
            final(self).wf(),
    {
        let depth: usize = self.shape.depth();
        let room: bool = inflight < depth && inflight < capacity;
        proof {
            lemma_next_wf(self@, now, room);
        }
        match self.stage {
            Stage::Top => self.top(now, room),
            Stage::Fill => self.fill(room),
            Stage::Full => Action::Poll { wait: POLL_WAIT },
            Stage::Room => self.make_room(now, room),
            Stage::Offered => Action::Poll { wait: 0 },
            Stage::Sent => Action::Poll { wait: 0 },
            Stage::Drain { until } => self.drain(now, until),
            Stage::Done => Action::Finished,
        }
    }

    /// What the sender answered to the operation it was offered at `sent`.
    pub fn submitted(&mut self, token: Option<u64>, sent: u64)
        requires
            old(self).wf(),
            old(self)@.stage == Stage::Offered,
        ensures
            final(self)@ == old(self)@.submitted(token, sent),
            final(self).wf(),
    {
        let closed: bool = match self.shape {
            Loop::Closed { .. } => true,
            Loop::Open { .. } => false,
        };
        let from: u64 = if closed {
            sent
        } else {
            self.due
        };
        match token {
            Some(token) => {
                self.reference.insert(token, from);
                self.stage = if closed {
                    Stage::Fill
                } else {
                    Stage::Sent
                };
            },
            None => {
                self.stage = if closed {
                    Stage::Full
                } else {
                    Stage::Sent
                };
            },
        }
    }

    /// What has finished, collected at `now`. Each operation is charged to its
    /// own reference instant.
    pub fn collected(&mut self, finished: &[(u64, bool)], now: u64)
        requires
            old(self).wf(),
        ensures
            final(self)@ == old(self)@.collected(finished@, now),
            final(self).wf(),
    {
        let mut i: usize = 0;
        while i < finished.len()
            invariant
                i <= finished@.len(),
                self@ == old(self)@.charged_all(finished@.take(i as int), now),
                self.wf(),
                self@.stage == old(self)@.stage,
            decreases finished@.len() - i,
        {
            let (token, ok) = finished[i];
            proof {
                assert(finished@.take(i + 1).drop_last() =~= finished@.take(i as int));
            }
            let ghost before = self@;
            match self.reference.remove(&token) {
                Some(from) => {
                    if ok {
                        self.acknowledged = self.acknowledged + 1;
                        self.latency.record(now.saturating_sub(from));
                    }
                },
                None => {},
            }
            proof {
                if before.reference.contains_key(token) {
                    assert(self.reference@ =~= before.reference.remove(token));
                } else {
                    assert(self.reference@ =~= before.reference);
                }
                assert(self@ == before.charged(token, ok, now));
            }
            i += 1;
        }
        proof {
            assert(finished@.take(i as int) =~= finished@);
        }
        match self.stage {
            Stage::Full => {
                self.stage = Stage::Top;
            },
            Stage::Sent => {
                proof {
                    let n = self.seq as int;
                    let step = self.interval as int;
                    assert((n - 1) * step + step == n * step) by (nonlinear_arith);
                }
                self.due = self.due + self.interval;
                self.stage = Stage::Top;
            },
            _ => {},
        }
    }
}

/// Give a driver its turn on a sender: what it decides, and what the sender
/// answers if that was an operation. What it decided is handed back for whoever
/// holds the clock.
pub fn attend<S: Sender>(driver: &mut Driver, sender: &mut S, now: u64) -> (r: Action)
    requires
        old(driver).wf(),
        old(driver)@.seq < u64::MAX,
    ensures
        final(driver).wf(),
        exists|inflight: usize, capacity: usize|
            #![trigger call_ensures(S::inflight, (&*old(sender),), inflight), call_ensures(S::capacity, (&*old(sender),), capacity)]
            {
                let room = has_room(old(driver)@.shape, inflight as nat, capacity as nat);
                let (decided, action) = old(driver)@.next(now, room);
                &&& call_ensures(S::inflight, (&*old(sender),), inflight)
                &&& call_ensures(S::capacity, (&*old(sender),), capacity)
                &&& r == action
                &&& match action {
                    Action::Submit { op, seq } => exists|s: &mut S, token: Option<u64>|
                        {
                            &&& *s == *old(sender)
                            &&& *final(s) == *final(sender)
                            &&& #[trigger] call_ensures(S::submit, (s, op, seq), token)
                            &&& final(driver)@ == decided.submitted(token, now)
                        },
                    _ => final(driver)@ == decided && *final(sender) == *old(sender),
                }
            },
{
    let inflight: usize = sender.inflight();
    let capacity: usize = sender.capacity();
    let ghost before = *sender;
    proof {
        assert(call_ensures(S::inflight, (&before,), inflight));
        assert(call_ensures(S::capacity, (&before,), capacity));
    }
    let action: Action = driver.next(now, inflight, capacity);
    if let Action::Submit { op, seq } = action {
        let token: Option<u64> = sender.submit(op, seq);
        driver.submitted(token, now);
    }
    action
}

/// What one sender did.
#[derive(Debug)]
pub struct Part {
    pub acknowledged: u64,
    pub attempted: u64,
    pub late: u64,
    pub latency: Histogram,
}

impl Driver {
    /// What this sender did.
    pub fn finish(self) -> (r: Part)
        requires
            self.wf(),
        ensures
            r.acknowledged == self@.acknowledged,
            r.attempted == self@.seq,
            r.late == self@.late,
            r.latency@ == self@.latency,
            r.latency@.wf(),
            r.latency@.count == r.acknowledged,
            r.acknowledged <= r.attempted,
    {
        Part {
            acknowledged: self.acknowledged,
            attempted: self.seq,
            late: self.late,
            latency: self.latency,
        }
    }
}

/// What some senders did, taken together.
pub struct Total {
    pub acknowledged: nat,
    pub attempted: nat,
    pub late: nat,
    pub latency: HistogramView,
}

/// What some senders did, taken together.
pub open spec fn total_of(parts: Seq<Part>) -> Total
    decreases parts.len(),
{
    if parts.len() == 0 {
        Total { acknowledged: 0, attempted: 0, late: 0, latency: HistogramView::empty() }
    } else {
        let before = total_of(parts.drop_last());
        let part = parts.last();
        Total {
            acknowledged: before.acknowledged + part.acknowledged as nat,
            attempted: before.attempted + part.attempted as nat,
            late: before.late + part.late as nat,
            latency: before.latency.merged(part.latency@),
        }
    }
}

impl Total {
    /// Whether every count fits.
    pub open spec fn fits(self) -> bool {
        &&& self.acknowledged <= u64::MAX
        &&& self.attempted <= u64::MAX
        &&& self.late <= u64::MAX
        &&& self.latency.count <= u64::MAX
    }
}

proof fn lemma_total_of_a_prefix(parts: Seq<Part>, n: int)
    requires
        0 <= n <= parts.len(),
        total_of(parts).fits(),
    ensures
        total_of(parts.take(n)).fits(),
    decreases parts.len() - n,
{
    if n == parts.len() {
        assert(parts.take(n) =~= parts);
    } else {
        lemma_total_of_a_prefix(parts, n + 1);
        assert(parts.take(n + 1).drop_last() =~= parts.take(n));
    }
}

/// The result of a run, from what each of its senders did.
pub fn gather(
    mix: Mix,
    shape: Loop,
    value_bytes: usize,
    key_space: u64,
    duration: Duration,
    parts: &[Part],
) -> (r: Run)
    requires
        forall|i: int| 0 <= i < parts@.len() ==> (#[trigger] parts@[i]).latency@.wf(),
        total_of(parts@).fits(),
    ensures
        r.mix == mix,
        r.shape == shape,
        r.value_bytes == value_bytes,
        r.key_space == key_space,
        r.duration == duration,
        r.acknowledged == total_of(parts@).acknowledged,
        r.attempted == total_of(parts@).attempted,
        r.late == total_of(parts@).late,
        r.latency@ == total_of(parts@).latency,
        r.latency@.wf(),
{
    let mut acknowledged: u64 = 0;
    let mut attempted: u64 = 0;
    let mut late: u64 = 0;
    let mut latency = Histogram::new();
    let mut i: usize = 0;
    proof {
        assert(parts@.take(0) =~= Seq::empty());
    }
    while i < parts.len()
        invariant
            i <= parts@.len(),
            forall|j: int| 0 <= j < parts@.len() ==> (#[trigger] parts@[j]).latency@.wf(),
            total_of(parts@).fits(),
            acknowledged == total_of(parts@.take(i as int)).acknowledged,
            attempted == total_of(parts@.take(i as int)).attempted,
            late == total_of(parts@.take(i as int)).late,
            latency@ == total_of(parts@.take(i as int)).latency,
            latency@.wf(),
        decreases parts@.len() - i,
    {
        let part: &Part = &parts[i];
        proof {
            lemma_total_of_a_prefix(parts@, i + 1);
            assert(parts@.take(i + 1).drop_last() =~= parts@.take(i as int));
        }
        acknowledged = acknowledged + part.acknowledged;
        attempted = attempted + part.attempted;
        late = late + part.late;
        latency.merge(&part.latency);
        i += 1;
    }
    proof {
        assert(parts@.take(i as int) =~= parts@);
    }
    Run { mix, shape, value_bytes, key_space, duration, acknowledged, attempted, latency, late }
}

// --------------------------------------------------------------------- laws

/// An open loop charges a stall to every request it delayed: the request offered
/// as number *n* is measured from *n - 1* intervals after the start, whenever it
/// was sent, so one answered late is recorded as late as it was due.
pub proof fn law_an_open_loop_measures_from_the_schedule(
    driver: DriverView,
    token: u64,
    sent: u64,
    now: u64,
)
    requires
        driver.wf(),
        driver.shape is Open,
        driver.stage == Stage::Offered,
        now >= driver.due,
    ensures
        driver.due == (driver.seq - 1) * driver.interval(),
        driver.submitted(Some(token), sent).charged(token, true, now).latency
            == driver.latency.with((now - (driver.seq - 1) * driver.interval()) as u64, 1),
{
}

/// A closed loop never has more requests outstanding than its depth, nor more
/// than its sender holds.
pub proof fn law_a_closed_loop_keeps_to_its_depth(
    driver: DriverView,
    now: u64,
    inflight: nat,
    capacity: nat,
)
    requires
        driver.wf(),
        driver.shape is Closed,
    ensures
        driver.next(now, has_room(driver.shape, inflight, capacity)).1 is Submit ==> inflight
            < depth_of(driver.shape) && inflight < capacity,
{
}

/// What was due and never offered when the run ends is counted as late.
pub proof fn law_what_was_never_offered_is_late(driver: DriverView, now: u64, room: bool)
    requires
        driver.wf(),
        driver.shape is Open,
        driver.stage == Stage::Top,
        driver.due < driver.deadline,
        now >= driver.deadline,
    ensures
        driver.next(now, room).0.late == capped(
            driver.late as nat + (driver.deadline - driver.due) as nat / at_least_one(
                driver.interval(),
            ),
        ),
{
}

/// Every acknowledged operation has one sample, and nothing else has: whatever
/// is decided, offered or collected.
pub proof fn law_every_acknowledged_operation_is_measured_once(driver: DriverView)
    requires
        driver.wf(),
    ensures
        driver.latency.count == driver.acknowledged,
        driver.acknowledged + driver.reference.dom().len() <= driver.seq,
{
}

/// Deciding keeps a driver's invariant.
proof fn lemma_next_wf(d: DriverView, now: u64, room: bool)
    requires
        d.wf(),
        d.seq < u64::MAX,
    ensures
        d.next(now, room).0.wf(),
{
}

} // verus!
