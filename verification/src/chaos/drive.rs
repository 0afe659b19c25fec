//! What a chaos run concludes.
//!
//! Counted acknowledgements are the only thing a chaos run can assert against
//! afterwards. An unacknowledged write may or may not have applied — that is not
//! a bug, it is what a timeout means — so the property is one-sided: the final
//! value may exceed the acknowledgements, and may never fall short.

use vstd::prelude::*;
use vstd::string::*;

use crate::chaos::clock::Observed;
use crate::chaos::schedule::{
    action_text, event_views, moment, push_moment, Action, ActionView, At, Counts, Health,
    Schedule,
};
use crate::chaos::ChaosError;
use crate::lines::{begins, starts_with, trim, trimmed};
use crate::text::{
    characters, debug_text, decimal, parse_number, parse_signed, parsed_number, parsed_signed,
    plus_decimal, push_decimal, push_plus, push_signed, quoted, signed_decimal, text_of,
};
use crate::time::Duration;

verus! {

// --------------------------------------------------------------- clock check

/// The reading a line of the probe holds.
pub open spec fn reading_in(line: Seq<char>) -> Option<u64> {
    if begins(line, "t="@) {
        parsed_number(line.skip(2))
    } else {
        None
    }
}

/// The reading a line of the probe holds.
pub fn parse_reading(line: &str) -> (r: Option<u64>)
    ensures
        r == reading_in(line@),
{
    let chars: Vec<char> = characters(line);
    let prefix: Vec<char> = characters("t=");
    if !starts_with(chars.as_slice(), prefix.as_slice()) {
        return None;
    }
    proof {
        reveal_strlit("t=");
    }
    let rest: &[char] = vstd::slice::slice_subrange(chars.as_slice(), 2, chars.len());
    proof {
        assert(rest@ =~= line@.skip(2));
    }
    parse_number(rest)
}

/// What a probe under the preload has read.
#[derive(Debug)]
pub struct ClockCheck {
    first: Option<u64>,
    last: u64,
    readings: u64,
    jumped: bool,
}

/// What a probe has read.
pub struct ClockCheckView {
    pub first: Option<u64>,
    /// The latest reading.
    pub last: u64,
    pub readings: u64,
    pub jumped: bool,
}

impl View for ClockCheck {
    type V = ClockCheckView;

    closed spec fn view(&self) -> ClockCheckView {
        ClockCheckView {
            first: self.first,
            last: self.last,
            readings: self.readings,
            jumped: self.jumped,
        }
    }
}

impl ClockCheckView {
    /// Late enough that the probe has a baseline, early enough that it keeps
    /// reading afterwards.
    pub open spec fn is_time_to_jump(self) -> bool {
        !self.jumped && self.readings >= 10
    }

    /// What the probe has read after one more line.
    pub open spec fn with(self, line: Seq<char>) -> ClockCheckView {
        match reading_in(line) {
            None => self,
            Some(value) => {
                let read = ClockCheckView {
                    first: match self.first {
                        Some(first) => Some(first),
                        None => Some(value),
                    },
                    last: value,
                    readings: (self.readings + 1) as u64,
                    jumped: self.jumped,
                };
                ClockCheckView { jumped: read.jumped || read.is_time_to_jump(), ..read }
            },
        }
    }
}

/// What a probe that was given so long concluded.
pub open spec fn observed_by(first: u64, last: u64, real_delta_ms: u64) -> Observed {
    Observed {
        monotonic_delta_ms: if last > first {
            (last - first) as u64
        } else {
            0
        },
        real_delta_ms,
    }
}

/// What is said of a jump that did not land.
pub open spec fn no_jump_text(asked_ms: nat, observed: Observed) -> Seq<char> {
    "the clock jump did not reach CLOCK_MONOTONIC: asked for "@ + decimal(asked_ms)
        + " ms, the probe saw "@ + decimal(observed.monotonic_delta_ms as nat)
        + " ms of monotonic time in "@ + decimal(observed.real_delta_ms as nat)
        + " ms of real time"@
}

impl ClockCheck {
    pub fn new() -> (r: Self)
        ensures
            r@ == (ClockCheckView { first: None, last: 0, readings: 0, jumped: false }),
    {
        ClockCheck { first: None, last: 0, readings: 0, jumped: false }
    }

    /// One more line of the probe, and whether the clock is to be moved now. It
    /// is moved once.
    pub fn read(&mut self, line: &str) -> (r: bool)
        requires
            old(self)@.readings < u64::MAX,
        ensures
            final(self)@ == old(self)@.with(line@),
            r == (!old(self)@.jumped && final(self)@.jumped),
    {
        match parse_reading(line) {
            None => false,
            Some(value) => {
                if self.first.is_none() {
                    self.first = Some(value);
                }
                self.last = value;
                self.readings = self.readings + 1;
                if !self.jumped && self.readings >= 10 {
                    self.jumped = true;
                    true
                } else {
                    false
                }
            },
        }
    }

    /// Whether what the probe saw is a discontinuity rather than elapsed time.
    pub fn conclude(&self, by_secs: u64, real_delta_ms: u64) -> (r: Result<Observed, ChaosError>)
        requires
            by_secs <= 18_000_000_000_000_000,
        ensures
            self@.first is None ==> r is Err && r->Err_0 is Violation
                && r->Err_0->Violation_0@ == "the probe produced no readings"@,
            self@.first matches Some(first) ==> {
                let observed = observed_by(first, self@.last, real_delta_ms);
                if observed.excess() * 10 >= by_secs * 1_000 * 9 {
                    r == Ok::<Observed, ChaosError>(observed)
                } else {
                    &&& r is Err
                    &&& r->Err_0 is Violation
                    &&& r->Err_0->Violation_0@ == no_jump_text((by_secs * 1_000) as nat, observed)
                }
            },
    {
        let first: u64 = match self.first {
            Some(first) => first,
            None => {
                return Err(ChaosError::Violation("the probe produced no readings".to_owned()));
            },
        };
        let observed = Observed {
            monotonic_delta_ms: self.last.saturating_sub(first),
            real_delta_ms,
        };
        let asked: u64 = by_secs * 1_000;
        if observed.confirms(asked) {
            return Ok(observed);
        }
        let mut out = String::new();
        out.append("the clock jump did not reach CLOCK_MONOTONIC: asked for ");
        push_decimal(&mut out, asked);
        out.append(" ms, the probe saw ");
        push_decimal(&mut out, observed.monotonic_delta_ms);
        out.append(" ms of monotonic time in ");
        push_decimal(&mut out, observed.real_delta_ms);
        out.append(" ms of real time");
        proof {
            assert(out@ =~= no_jump_text(asked as nat, observed));
        }
        Err(ChaosError::Violation(out))
    }

    /// What the probe saw, for a person.
    pub fn summary(&self, observed: Observed) -> (r: String)
        ensures
            r@ == "probe: "@ + decimal(self@.readings as nat)
                + " readings, CLOCK_MONOTONIC advanced "@ + decimal(
                observed.monotonic_delta_ms as nat,
            ) + " ms in "@ + decimal(observed.real_delta_ms as nat) + " ms of real time"@,
    {
        let mut out = String::new();
        out.append("probe: ");
        push_decimal(&mut out, self.readings);
        out.append(" readings, CLOCK_MONOTONIC advanced ");
        push_decimal(&mut out, observed.monotonic_delta_ms);
        out.append(" ms in ");
        push_decimal(&mut out, observed.real_delta_ms);
        out.append(" ms of real time");
        proof {
            assert(out@ =~= "probe: "@ + decimal(self@.readings as nat)
                + " readings, CLOCK_MONOTONIC advanced "@ + decimal(
                observed.monotonic_delta_ms as nat,
            ) + " ms in "@ + decimal(observed.real_delta_ms as nat) + " ms of real time"@);
        }
        out
    }
}

// ----------------------------------------------------------------- injecting

/// How a schedule's fault is injected.
#[derive(Debug, Clone, Copy, PartialEq, Eq, Structural)]
pub enum Inject {
    /// By moving the clock.
    Clock { forward: bool, by: Duration },
    /// By the cluster.
    Cluster,
    /// Not at all: there is no clock to move.
    Skip,
}

/// How a fault is injected.
pub fn injection(action: &Action, has_clock: bool) -> (r: Inject)
    ensures
        match action@ {
            ActionView::ClockJump { forward, by } => if has_clock {
                r matches Inject::Clock { forward: f, by: b } && f == forward && b@ == by
            } else {
                r == Inject::Skip
            },
            _ => r == Inject::Cluster,
        },
{
    match action {
        Action::ClockJump { forward, by } => if has_clock {
            Inject::Clock { forward: *forward, by: *by }
        } else {
            Inject::Skip
        },
        _ => Inject::Cluster,
    }
}

/// What came of a fault.
pub enum Outcome {
    Injected,
    /// Every faked clock is now this many seconds off.
    Moved { offset: i64 },
    /// There was no clock to move.
    NoClock,
    /// It failed, for instance because its target was already down.
    Failed(ChaosError),
}

/// How many faults were injected, and how many were not.
#[derive(Debug, Clone, Copy, PartialEq, Eq, Structural)]
pub struct Tally {
    pub injected: u64,
    pub skipped: u64,
}

/// What a fault that was injected says of itself.
pub open spec fn injected_line(at: nat, action: ActionView) -> Seq<char> {
    "  "@ + moment(at) + "s  "@ + action_text(action)
}

/// What is said of a fault, if anything.
pub open spec fn outcome_line(at: nat, action: ActionView, outcome: Outcome) -> Option<Seq<char>> {
    match outcome {
        Outcome::Injected => Some(injected_line(at, action)),
        Outcome::Moved { offset } => Some(
            injected_line(at, action) + " (offset now "@ + plus_decimal(offset as int) + "s)"@,
        ),
        Outcome::NoClock => None,
        Outcome::Failed(e) => Some(
            injected_line(at, action) + " skipped: "@ + crate::chaos::chaos_error_text(e),
        ),
    }
}

impl Tally {
    pub fn new() -> (r: Self)
        ensures
            r == (Tally { injected: 0, skipped: 0 }),
    {
        Tally { injected: 0, skipped: 0 }
    }

    /// Count what came of a fault, and say it. A fault that fails is recorded
    /// rather than fatal: a schedule drawn before the run cannot know that a node
    /// it wants to pause is one the previous fault killed.
    pub fn note(&mut self, event: &At, outcome: &Outcome) -> (r: Option<String>)
        requires
            old(self).injected < u64::MAX,
            old(self).skipped < u64::MAX,
        ensures
            *final(self) == (if outcome is Injected || outcome is Moved {
                Tally { injected: (old(self).injected + 1) as u64, skipped: old(self).skipped }
            } else {
                Tally { injected: old(self).injected, skipped: (old(self).skipped + 1) as u64 }
            }),
            r is Some <==> outcome_line(event@.at, event@.action, *outcome) is Some,
            r matches Some(line) ==> line@ == outcome_line(event@.at, event@.action, *outcome)->0,
    {
        let mut out = String::new();
        out.append("  ");
        push_moment(&mut out, event.at.as_nanos());
        out.append("s  ");
        out.append(event.action.message().as_str());
        proof {
            assert(out@ =~= injected_line(event@.at, event@.action));
        }
        match outcome {
            Outcome::Injected => {
                self.injected = self.injected + 1;
                Some(out)
            },
            Outcome::Moved { offset } => {
                self.injected = self.injected + 1;
                out.append(" (offset now ");
                push_plus(&mut out, *offset);
                out.append("s)");
                proof {
                    assert(out@ =~= injected_line(event@.at, event@.action) + " (offset now "@
                        + plus_decimal(*offset as int) + "s)"@);
                }
                Some(out)
            },
            Outcome::NoClock => {
                self.skipped = self.skipped + 1;
                None
            },
            Outcome::Failed(e) => {
                self.skipped = self.skipped + 1;
                out.append(" skipped: ");
                out.append(e.message().as_str());
                proof {
                    assert(out@ =~= injected_line(event@.at, event@.action) + " skipped: "@
                        + crate::chaos::chaos_error_text(*e));
                }
                Some(out)
            },
        }
    }
}

/// Whether a schedule may be run: one that does not end with a healthy cluster
/// would have the final check measure the harness.
pub fn may_run(schedule: &Schedule) -> (r: Result<(), ChaosError>)
    ensures
        r is Ok <==> Health::whole().after_all(event_views(schedule.events@)).is_whole(),
        r matches Err(e) ==> e is Violation && e->Violation_0@
            == "the schedule does not end with a healthy cluster; the final check would be measuring the harness"@,
{
    if schedule.ends_healthy() {
        Ok(())
    } else {
        Err(
            ChaosError::Violation(
                "the schedule does not end with a healthy cluster; the final check would be measuring the harness".to_owned(),
            ),
        )
    }
}

// ----------------------------------------------------------------- workload

/// A counter, incremented as fast as one client can, with the acknowledgements
/// counted.
///
/// A fresh nonce per attempt: reusing one would reopen the same session with the
/// sequence number back at one, and the answer would come from the cache — an
/// acknowledgement for a write that never happened.
#[derive(Debug)]
pub struct Workload {
    nonce: u64,
    attempted: u64,
    acked: u64,
}

/// What a workload has done.
pub struct WorkloadView {
    pub nonce: u64,
    pub attempted: u64,
    pub acked: u64,
}

impl View for Workload {
    type V = WorkloadView;

    closed spec fn view(&self) -> WorkloadView {
        WorkloadView { nonce: self.nonce, attempted: self.attempted, acked: self.acked }
    }
}

impl WorkloadView {
    pub open spec fn wf(self) -> bool {
        &&& self.acked <= self.attempted
        &&& self.nonce == self.attempted + 1
    }
}

impl Workload {
    pub fn new() -> (r: Self)
        ensures
            r@ == (WorkloadView { nonce: 1, attempted: 0, acked: 0 }),
            r@.wf(),
    {
        Workload { nonce: 1, attempted: 0, acked: 0 }
    }

    /// The nonce of the next attempt. No two attempts share one.
    pub fn attempt(&mut self) -> (r: u64)
        requires
            old(self)@.wf(),
            old(self)@.nonce < u64::MAX,
        ensures
            final(self)@.wf(),
            final(self)@ == (WorkloadView {
                nonce: (old(self)@.nonce + 1) as u64,
                attempted: (old(self)@.attempted + 1) as u64,
                acked: old(self)@.acked,
            }),
            r == final(self)@.nonce,
    {
        self.nonce = self.nonce + 1;
        self.attempted = self.attempted + 1;
        self.nonce
    }

    /// The latest attempt ended, well or not.
    pub fn answered(&mut self, ok: bool)
        requires
            old(self)@.wf(),
            old(self)@.acked < old(self)@.attempted,
        ensures
            final(self)@.wf(),
            final(self)@ == (WorkloadView {
                acked: (old(self)@.acked + (if ok {
                    1int
                } else {
                    0
                })) as u64,
                ..old(self)@
            }),
    {
        if ok {
            self.acked = self.acked + 1;
        }
    }

    pub fn attempted(&self) -> (r: u64)
        ensures
            r == self@.attempted,
    {
        self.attempted
    }

    pub fn acked(&self) -> (r: u64)
        ensures
            r == self@.acked,
    {
        self.acked
    }
}

// ---------------------------------------------------------------- concluding

/// What a run did.
#[derive(Debug, Clone, Copy, PartialEq, Eq, Structural)]
pub struct Done {
    pub injected: u64,
    pub skipped: u64,
    pub attempted: u64,
    pub acked: u64,
    pub carried: u64,
    pub refused: u64,
    pub severed: u64,
}

impl Done {
    /// What a run did, for a person.
    pub open spec fn line(self) -> Seq<char> {
        "faults injected "@ + decimal(self.injected as nat) + ", skipped "@ + decimal(
            self.skipped as nat,
        ) + "; workload attempted "@ + decimal(self.attempted as nat) + ", acknowledged "@
            + decimal(self.acked as nat) + "; proxy carried "@ + decimal(self.carried as nat)
            + " bytes, refused "@ + decimal(self.refused as nat) + " connections, severed "@
            + decimal(self.severed as nat)
    }

    /// What a run did, for a person.
    pub fn message(&self) -> (r: String)
        ensures
            r@ == self.line(),
    {
        let mut out = String::new();
        out.append("faults injected ");
        push_decimal(&mut out, self.injected);
        out.append(", skipped ");
        push_decimal(&mut out, self.skipped);
        out.append("; workload attempted ");
        push_decimal(&mut out, self.attempted);
        out.append(", acknowledged ");
        push_decimal(&mut out, self.acked);
        out.append("; proxy carried ");
        push_decimal(&mut out, self.carried);
        out.append(" bytes, refused ");
        push_decimal(&mut out, self.refused);
        out.append(" connections, severed ");
        push_decimal(&mut out, self.severed);
        proof {
            assert(out@ =~= self.line());
        }
        out
    }

    /// Why a run proved nothing, if it did not.
    pub open spec fn proved_nothing(self, partitions: nat) -> Option<Seq<char>> {
        if self.injected == 0 {
            Some("no fault was successfully injected"@)
        } else if self.acked == 0 {
            Some("the workload never got an acknowledgement, so there is nothing to check"@)
        } else if self.refused == 0 && self.severed == 0 && partitions > 0 {
            Some("the schedule contained partitions but the proxy never dropped a connection; the nodes are not talking through the mesh"@)
        } else {
            None
        }
    }

    /// Whether a run proved something: that it injected, that it was answered,
    /// and that where links were to be cut some were.
    pub fn worth_checking(&self, counts: Counts) -> (r: Result<(), ChaosError>)
        ensures
            r is Ok <==> self.proved_nothing(
                (counts.isolations + counts.splits) as nat,
            ) is None,
            r matches Err(e) ==> e is Violation && e->Violation_0@ == self.proved_nothing(
                (counts.isolations + counts.splits) as nat,
            )->0,
    {
        if self.injected == 0 {
            return Err(ChaosError::Violation("no fault was successfully injected".to_owned()));
        }
        if self.acked == 0 {
            return Err(
                ChaosError::Violation(
                    "the workload never got an acknowledgement, so there is nothing to check".to_owned(),
                ),
            );
        }
        if self.refused == 0 && self.severed == 0 && (counts.isolations > 0 || counts.splits > 0) {
            return Err(
                ChaosError::Violation(
                    "the schedule contained partitions but the proxy never dropped a connection; the nodes are not talking through the mesh".to_owned(),
                ),
            );
        }
        Ok(())
    }
}

/// How many acknowledged increments a counter does not hold.
pub open spec fn lost(acked: u64, value: i64) -> nat {
    if value < 0 {
        acked as nat
    } else if value < acked {
        (acked - value) as nat
    } else {
        0
    }
}

/// Whether no acknowledged write was lost.
///
/// The counter is signed because an increment is; a negative one would mean that
/// something was applied that this workload never proposed.
pub fn check_counter(acked: u64, value: i64) -> (r: Result<(), ChaosError>)
    ensures
        r is Ok <==> value >= 0 && value >= acked,
        r matches Err(e) ==> e is Violation && e->Violation_0@ == decimal(lost(acked, value))
            + " acknowledged increments were lost: the counter reads "@ + signed_decimal(
            value as int,
        ),
{
    if value >= 0 && value as u64 >= acked {
        return Ok(());
    }
    let held: u64 = if value > 0 {
        value as u64
    } else {
        0
    };
    let mut out = String::new();
    push_decimal(&mut out, acked.saturating_sub(held));
    out.append(" acknowledged increments were lost: the counter reads ");
    push_signed(&mut out, value);
    proof {
        assert(out@ =~= decimal(lost(acked, value))
            + " acknowledged increments were lost: the counter reads "@ + signed_decimal(
            value as int,
        ));
    }
    Err(ChaosError::Violation(out))
}

/// A counter may exceed the acknowledgements, and may never fall short.
pub proof fn law_a_lost_write_is_reported(acked: u64, value: i64)
    ensures
        (value >= 0 && value >= acked) <==> (lost(acked, value) == 0 && value >= 0),
        value >= 0 && value < acked ==> lost(acked, value) == acked - value,
{
}

// ------------------------------------------------------------------- reading

/// How often a counter is asked for.
pub const READS: u64 = 20;

/// What one attempt at reading the counter printed.
pub struct Printed {
    pub ok: bool,
    pub out: String,
    pub err: String,
}

/// The counter, read as often as it takes: the first reads after a heal can land
/// during an election.
#[derive(Debug)]
pub struct CounterRead {
    nonce: u64,
    asked: u64,
    last: String,
}

/// What reading a counter takes next.
#[derive(Debug)]
pub enum ReadStep {
    /// Ask again, with this nonce.
    Ask { nonce: u64 },
    /// This is why it cannot be read.
    GiveUp(ChaosError),
}

/// What a counter read knows.
pub struct CounterReadView {
    pub nonce: u64,
    pub asked: u64,
    /// The latest reply that was no number.
    pub last: Seq<char>,
}

impl View for CounterRead {
    type V = CounterReadView;

    closed spec fn view(&self) -> CounterReadView {
        CounterReadView { nonce: self.nonce, asked: self.asked, last: self.last@ }
    }
}

impl CounterReadView {
    pub open spec fn wf(self) -> bool {
        &&& self.asked <= READS
        &&& self.nonce == u64::MAX / 2 + self.asked
    }
}

/// What an attempt says, without the blanks around it.
pub open spec fn reply_in(printed: Printed) -> Seq<char> {
    if printed.ok {
        trimmed(printed.out@)
    } else {
        trimmed(printed.err@)
    }
}

/// The number an attempt gave.
pub open spec fn number_in(printed: Printed) -> Option<i64> {
    if printed.ok {
        parsed_signed(trimmed(printed.out@))
    } else {
        None
    }
}

impl CounterRead {
    pub fn new() -> (r: Self)
        ensures
            r@.nonce == u64::MAX / 2,
            r@.asked == 0,
            r@.last.len() == 0,
            r@.wf(),
    {
        let r = CounterRead { nonce: u64::MAX / 2, asked: 0, last: String::new() };
        proof {
            assert(r.last@.len() == 0);
        }
        r
    }

    /// What to do next.
    pub fn next(&mut self) -> (r: ReadStep)
        requires
            old(self)@.wf(),
        ensures
            final(self)@.wf(),
            final(self)@.last == old(self)@.last,
            old(self)@.asked < READS ==> {
                &&& final(self)@.asked == old(self)@.asked + 1
                &&& r matches ReadStep::Ask { nonce }
                &&& nonce == old(self)@.nonce + 1
            },
            old(self)@.asked >= READS ==> {
                &&& final(self)@ == old(self)@
                &&& r matches ReadStep::GiveUp(e)
                &&& e is Violation
                &&& e->Violation_0@
                    == "the cluster never answered a read after healing; last reply: "@
                    + debug_text(old(self)@.last)
            },
    {
        if self.asked < READS {
            self.asked = self.asked + 1;
            self.nonce = self.nonce + 1;
            return ReadStep::Ask { nonce: self.nonce };
        }
        let mut out = String::new();
        out.append("the cluster never answered a read after healing; last reply: ");
        out.append(quoted(self.last.as_str()).as_str());
        proof {
            assert(out@ =~= "the cluster never answered a read after healing; last reply: "@
                + debug_text(self.last@));
        }
        ReadStep::GiveUp(ChaosError::Violation(out))
    }

    /// What an attempt printed: the counter, or a reply to remember.
    pub fn answered(&mut self, printed: &Printed) -> (r: Option<i64>)
        requires
            old(self)@.wf(),
        ensures
            final(self)@.wf(),
            final(self)@.asked == old(self)@.asked,
            r == number_in(*printed),
            r is None ==> final(self)@.last == reply_in(*printed),
            r is Some ==> final(self)@.last == old(self)@.last,
    {
        let text: &str = if printed.ok {
            printed.out.as_str()
        } else {
            printed.err.as_str()
        };
        let chars: Vec<char> = characters(text);
        let reply: &[char] = trim(chars.as_slice());
        if printed.ok {
            match parse_signed(reply) {
                Some(n) => {
                    return Some(n);
                },
                None => {},
            }
        }
        self.last = text_of(reply);
        None
    }
}

} // verus!
