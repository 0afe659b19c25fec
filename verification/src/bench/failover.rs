//! How long a cluster takes to serve a write again after its leader dies.
//!
//! Failover time is dominated by a randomised election timeout, so a single
//! trial samples one draw from a distribution whose whole purpose is to be wide.
//!
//! **What is measured, precisely.** The clock starts when the kill signal is
//! sent and stops when a client's write is acknowledged, not when a new leader
//! is elected: election is an internal event a client cannot observe.
//!
//! **The trial is discarded if the cluster was not healthy when it started.** A
//! trial that kills a node during an election it was already having measures
//! that election, not this one.

use vstd::prelude::*;
use vstd::string::*;

use crate::bench::histogram::{quantile_of, recorded, Histogram};
use crate::order::{sort, sorted};
use crate::text::{decimal, fixed, push_decimal, push_fixed, round, rounded};
use crate::time::Duration;

verus! {

/// One trial's outcome.
#[derive(Debug, Clone, Copy, PartialEq, Eq, Structural)]
pub enum Trial {
    /// The cluster served a write again after this long.
    Recovered(Duration),
    /// The cluster was not serving writes when the trial began, so what followed
    /// is not attributable to the kill.
    NotHealthyBefore,
    /// No write succeeded within the budget.
    TimedOut,
}

/// What a campaign of trials found.
#[derive(Debug)]
pub struct Failover {
    pub trials: usize,
    pub recovered: usize,
    pub not_healthy: usize,
    pub timed_out: usize,
    pub latency: Histogram,
    /// Every recovery, in the order the trials ran.
    ///
    /// Kept as well as the histogram so the median can be checked against
    /// itself. The histogram cannot answer "is this number stable"; a list can.
    pub recoveries: Vec<Duration>,
}

/// How long some recoveries took, in nanoseconds.
pub open spec fn lengths(recoveries: Seq<Duration>) -> Seq<u64> {
    recoveries.map_values(|d: Duration| d@ as u64)
}

/// The median of some lengths of time, in nanoseconds: the upper one of the two
/// in the middle, where there are two.
pub open spec fn median_length(recoveries: Seq<Duration>) -> u64 {
    sorted(lengths(recoveries))[(recoveries.len() / 2) as int]
}

/// A length of time in milliseconds, to the nearest tenth of one.
pub open spec fn tenths_of_ms(nanos: nat) -> Seq<char> {
    fixed(rounded(nanos, 100_000, 5), 10, 1)
}

/// Append a length of time in milliseconds, to the nearest tenth of one.
pub fn push_tenths_of_ms(out: &mut String, nanos: u64)
    ensures
        final(out)@ == old(out)@ + tenths_of_ms(nanos as nat),
{
    let tenths: u64 = round(nanos as u128, 100_000, 5);
    push_fixed(out, tenths, 10, 1);
}

impl Failover {
    /// Whether the histogram is one.
    pub open spec fn wf(self) -> bool {
        self.latency@.wf()
    }

    /// The medians of the two halves of the trials, where there are enough of
    /// them to have halves.
    pub open spec fn halves(self) -> Option<(nat, nat)> {
        let n = self.recoveries@.len() as int;
        if n < 4 {
            None
        } else {
            Some(
                (
                    median_length(self.recoveries@.take(n / 2)) as nat,
                    median_length(self.recoveries@.skip(n / 2)) as nat,
                ),
            )
        }
    }

    /// Whether the two halves agree to within a tenth of the smaller one.
    pub open spec fn stable(self) -> bool {
        match self.halves() {
            Some((first, second)) => {
                let (lo, hi) = if first <= second {
                    (first, second)
                } else {
                    (second, first)
                };
                hi * 10 <= lo * 11
            },
            None => false,
        }
    }

    pub fn median(&self) -> (r: Duration)
        requires
            self.wf(),
        ensures
            r@ == quantile_of(self.latency@, 1, 2),
    {
        Duration::from_nanos(self.latency.quantile(1, 2))
    }

    pub fn p99(&self) -> (r: Duration)
        requires
            self.wf(),
        ensures
            r@ == quantile_of(self.latency@, 99, 100),
    {
        Duration::from_nanos(self.latency.quantile(99, 100))
    }

    /// The time within which a share of the recoveries happened.
    pub fn quantile(&self, num: u64, den: u64) -> (r: Duration)
        requires
            self.wf(),
            den > 0,
        ensures
            r@ == quantile_of(self.latency@, num as nat, den as nat),
    {
        Duration::from_nanos(self.latency.quantile(num, den))
    }

    /// The median of the first half of the trials and of the second half.
    ///
    /// Two independent samples of the same distribution, which is the cheapest
    /// honest check on whether the median is a number or a coincidence.
    pub fn median_halves(&self) -> (r: Option<(Duration, Duration)>)
        ensures
            match r {
                Some((first, second)) => self.halves() == Some((first@, second@)),
                None => self.halves() is None,
            },
    {
        let n: usize = self.recoveries.len();
        if n < 4 {
            return None;
        }
        let mid: usize = n / 2;
        let all = self.recoveries.as_slice();
        let first = vstd::slice::slice_subrange(all, 0, mid);
        let second = vstd::slice::slice_subrange(all, mid, n);
        proof {
            assert(first@ =~= self.recoveries@.take(n as int / 2));
            assert(second@ =~= self.recoveries@.skip(n as int / 2));
        }
        Some((median_of(first), median_of(second)))
    }

    /// Whether the two halves agree closely enough for the median to be worth
    /// quoting.
    ///
    /// Failover time is bimodal: which of two nodes campaigns first decides
    /// which mode a trial lands in, so the median sits on the fence between them
    /// and a hundred trials can put it on either side. A trial count cannot tell.
    pub fn median_is_stable(&self) -> (r: bool)
        ensures
            r == self.stable(),
    {
        match self.median_halves() {
            Some((first, second)) => {
                let (a, b) = (first.as_nanos(), second.as_nanos());
                let (lo, hi) = if a <= b {
                    (a, b)
                } else {
                    (b, a)
                };
                hi as u128 * 10 <= lo as u128 * 11
            },
            None => false,
        }
    }

    /// Whether enough trials produced a measurement for the percentiles to be
    /// worth quoting.
    ///
    /// A p99 over eleven usable trials is the maximum wearing a percentile's
    /// clothes. The count is necessary and nothing like sufficient.
    pub fn has_enough_trials(&self) -> (r: bool)
        ensures
            r == (self.recovered >= 100),
    {
        self.recovered >= 100
    }

    /// What is wrong with these numbers, if anything.
    pub open spec fn caveat_text(self) -> Seq<char> {
        if self.recovered < 100 {
            "\n** fewer than 100 usable trials: failover time is dominated by a\n** randomised election timeout, so these percentiles describe the\n** draw rather than the system.\n"@
        } else {
            match self.halves() {
                Some((first, second)) => if !self.stable() {
                    "\n** the median is not stable at this trial count: the first half of\n** the trials says "@ + tenths_of_ms(first as nat) + " ms and the second says "@ + tenths_of_ms(second as nat) + " ms. Failover time\n** here is bimodal, so a median between the modes moves with the draw.\n** Run more trials; the number above is not one to quote.\n"@
                } else {
                    "\nthe median is stable: "@ + tenths_of_ms(first as nat) + " ms over the first half of the trials and\n"@ + tenths_of_ms(second as nat) + " ms over the second. That check is here because the count alone was\nnot enough — this distribution is bimodal and a hundred trials put the\nmedian on either side of the fence.\n"@
                },
                None => ""@,
            }
        }
    }

    /// What is wrong with these numbers, if anything.
    fn caveat(&self) -> (r: String)
        ensures
            r@ == self.caveat_text(),
    {
        let mut out = String::new();
        if !self.has_enough_trials() {
            out.append("\n** fewer than 100 usable trials: failover time is dominated by a\n** randomised election timeout, so these percentiles describe the\n** draw rather than the system.\n");
            proof {
                assert(out@ =~= self.caveat_text());
            }
            return out;
        }
        match self.median_halves() {
            Some((first, second)) => {
                if !self.median_is_stable() {
                    out.append("\n** the median is not stable at this trial count: the first half of\n** the trials says ");
                    push_tenths_of_ms(&mut out, first.as_nanos());
                    out.append(" ms and the second says ");
                    push_tenths_of_ms(&mut out, second.as_nanos());
                    out.append(" ms. Failover time\n** here is bimodal, so a median between the modes moves with the draw.\n** Run more trials; the number above is not one to quote.\n");
                } else {
                    out.append("\nthe median is stable: ");
                    push_tenths_of_ms(&mut out, first.as_nanos());
                    out.append(" ms over the first half of the trials and\n");
                    push_tenths_of_ms(&mut out, second.as_nanos());
                    out.append(" ms over the second. That check is here because the count alone was\nnot enough — this distribution is bimodal and a hundred trials put the\nmedian on either side of the fence.\n");
                }
            },
            None => {
                out.append("");
            },
        }
        proof {
            assert(out@ =~= self.caveat_text());
        }
        out
    }

    /// The report.
    pub open spec fn report(self) -> Seq<char> {
        "trials       "@
            + decimal(self.trials as nat)
            + "\nrecovered    "@
            + decimal(self.recovered as nat)
            + "\nnot healthy  "@
            + decimal(self.not_healthy as nat)
            + " (discarded: the cluster was not serving writes when the trial began)\ntimed out    "@
            + decimal(self.timed_out as nat)
            + "\n\ntime to the first acknowledged write after the leader was killed\np10     "@
            + tenths_of_ms(quantile_of(self.latency@, 10, 100) as nat)
            + " ms\np50     "@
            + tenths_of_ms(quantile_of(self.latency@, 1, 2) as nat)
            + " ms\np90     "@
            + tenths_of_ms(quantile_of(self.latency@, 90, 100) as nat)
            + " ms\np99     "@
            + tenths_of_ms(quantile_of(self.latency@, 99, 100) as nat)
            + " ms\nmax     "@
            + tenths_of_ms(self.latency@.max as nat)
            + " ms\n\nThe spread is the measurement, not noise around one. Failover here is\nbimodal — which node campaigns first decides which mode a trial lands\nin — so p10 and p90 say more about what a client sees than p50 does,\nand p50 is the one statistic that sits between the modes.\n"@
            + self.caveat_text()
    }

    pub fn render(&self) -> (r: String)
        requires
            self.wf(),
        ensures
            r@ == self.report(),
    {
        let mut out = String::new();
        out.append("trials       ");
        push_decimal(&mut out, self.trials as u64);
        out.append("\nrecovered    ");
        push_decimal(&mut out, self.recovered as u64);
        out.append("\nnot healthy  ");
        push_decimal(&mut out, self.not_healthy as u64);
        out.append(" (discarded: the cluster was not serving writes when the trial began)\ntimed out    ");
        push_decimal(&mut out, self.timed_out as u64);
        out.append("\n\ntime to the first acknowledged write after the leader was killed\np10     ");
        push_tenths_of_ms(&mut out, self.latency.quantile(10, 100));
        out.append(" ms\np50     ");
        push_tenths_of_ms(&mut out, self.latency.quantile(1, 2));
        out.append(" ms\np90     ");
        push_tenths_of_ms(&mut out, self.latency.quantile(90, 100));
        out.append(" ms\np99     ");
        push_tenths_of_ms(&mut out, self.latency.quantile(99, 100));
        out.append(" ms\nmax     ");
        push_tenths_of_ms(&mut out, self.latency.max());
        out.append(" ms\n\nThe spread is the measurement, not noise around one. Failover here is\nbimodal — which node campaigns first decides which mode a trial lands\nin — so p10 and p90 say more about what a client sees than p50 does,\nand p50 is the one statistic that sits between the modes.\n");
        out.append(self.caveat().as_str());
        proof {
            assert(out@ =~= self.report());
        }
        out
    }
}

/// The median of a slice, without disturbing it.
fn median_of(values: &[Duration]) -> (r: Duration)
    requires
        values@.len() > 0,
    ensures
        r@ == median_length(values@),
{
    let mut nanos: Vec<u64> = Vec::new();
    let mut i: usize = 0;
    while i < values.len()
        invariant
            i <= values@.len(),
            nanos@ =~= lengths(values@).take(i as int),
        decreases values@.len() - i,
    {
        nanos.push(values[i].as_nanos());
        i += 1;
    }
    proof {
        assert(nanos@ =~= lengths(values@));
        crate::order::law_sorting_keeps_the_numbers(nanos@);
    }
    let ordered = sort(nanos.as_slice());
    Duration::from_nanos(ordered[values.len() / 2])
}

/// The recoveries among some trials, in order.
pub open spec fn recoveries_of(trials: Seq<Trial>) -> Seq<Duration>
    decreases trials.len(),
{
    if trials.len() == 0 {
        Seq::empty()
    } else {
        let before = recoveries_of(trials.drop_last());
        match trials.last() {
            Trial::Recovered(d) => before.push(d),
            _ => before,
        }
    }
}

/// How many of some trials had an outcome.
pub open spec fn outcomes(trials: Seq<Trial>, outcome: Trial) -> nat
    decreases trials.len(),
{
    if trials.len() == 0 {
        0
    } else {
        let before = outcomes(trials.drop_last(), outcome);
        if trials.last() == outcome {
            before + 1
        } else {
            before
        }
    }
}

/// The samples that some recoveries are.
pub open spec fn samples_of(recoveries: Seq<Duration>) -> Seq<(u64, nat)> {
    recoveries.map_values(|d: Duration| (d@ as u64, 1nat))
}

/// Fold trials into a report.
pub fn summarise(trials: &[Trial]) -> (r: Failover)
    ensures
        r.wf(),
        r.trials == trials@.len(),
        r.recoveries@ == recoveries_of(trials@),
        r.recovered == r.recoveries@.len(),
        r.not_healthy == outcomes(trials@, Trial::NotHealthyBefore),
        r.timed_out == outcomes(trials@, Trial::TimedOut),
        r.recovered + r.not_healthy + r.timed_out == r.trials,
        r.latency@ == recorded(samples_of(recoveries_of(trials@))),
{
    let mut latency = Histogram::new();
    let mut recoveries: Vec<Duration> = Vec::new();
    let mut not_healthy: usize = 0;
    let mut timed_out: usize = 0;
    let mut i: usize = 0;
    proof {
        assert(trials@.take(0) =~= Seq::empty());
        assert(samples_of(Seq::empty()) =~= Seq::empty());
    }
    while i < trials.len()
        invariant
            i <= trials@.len(),
            latency@.wf(),
            latency@.count == recoveries@.len(),
            recoveries@ == recoveries_of(trials@.take(i as int)),
            latency@ == recorded(samples_of(recoveries@)),
            not_healthy == outcomes(trials@.take(i as int), Trial::NotHealthyBefore),
            timed_out == outcomes(trials@.take(i as int), Trial::TimedOut),
            recoveries@.len() + not_healthy + timed_out == i,
        decreases trials@.len() - i,
    {
        let t = trials[i];
        let ghost next = trials@.take(i + 1);
        proof {
            assert(next.drop_last() =~= trials@.take(i as int));
            assert(next.last() == t);
        }
        match t {
            Trial::Recovered(d) => {
                let ghost before = recoveries@;
                recoveries.push(d);
                latency.record(d.as_nanos());
                proof {
                    let after = samples_of(recoveries@);
                    assert(after.drop_last() =~= samples_of(before));
                    assert(after.last() == (d@ as u64, 1nat));
                }
            },
            Trial::NotHealthyBefore => {
                not_healthy += 1;
            },
            Trial::TimedOut => {
                timed_out += 1;
            },
        }
        i += 1;
    }
    proof {
        assert(trials@.take(trials@.len() as int) =~= trials@);
    }
    let recovered: usize = recoveries.len();
    Failover { trials: trials.len(), recovered, not_healthy, timed_out, latency, recoveries }
}

// --------------------------------------------------------------- one trial

/// Where a trial stands.
#[derive(Debug, Clone, Copy, PartialEq, Eq, Structural)]
pub enum Stage {
    /// Asking whether the cluster serves writes, which it has to before anything
    /// is killed.
    Probing,
    /// The leader is to be killed.
    Killing,
    /// The leader was killed, so many nanoseconds ago at the last look.
    Waiting,
    Over(Trial),
}

/// What happened in a trial.
#[derive(Debug, Clone, Copy, PartialEq, Eq, Structural)]
pub enum Seen {
    /// A write was acknowledged, so long after the stage began.
    Served(Duration),
    /// A write was not, and so long after the stage began there is still none.
    NotServed(Duration),
    /// Whether anything was killed.
    Killed(bool),
}

/// Where a trial stands after something happened. A trial where nothing was
/// killed is not a trial, and one whose cluster was not serving before is not
/// attributable to the kill.
pub fn advance(stage: Stage, seen: Seen, patience: Duration, budget: Duration) -> (r: Stage)
    ensures
        r == (match (stage, seen) {
            (Stage::Probing, Seen::Served(_)) => Stage::Killing,
            (Stage::Probing, Seen::NotServed(after)) => if after@ < patience@ {
                Stage::Probing
            } else {
                Stage::Over(Trial::NotHealthyBefore)
            },
            (Stage::Killing, Seen::Killed(true)) => Stage::Waiting,
            (Stage::Killing, Seen::Killed(false)) => Stage::Over(Trial::NotHealthyBefore),
            (Stage::Waiting, Seen::Served(after)) => Stage::Over(Trial::Recovered(after)),
            (Stage::Waiting, Seen::NotServed(after)) => if after@ < budget@ {
                Stage::Waiting
            } else {
                Stage::Over(Trial::TimedOut)
            },
            _ => stage,
        }),
{
    match (stage, seen) {
        (Stage::Probing, Seen::Served(_)) => Stage::Killing,
        (Stage::Probing, Seen::NotServed(after)) => if after.as_nanos() < patience.as_nanos() {
            Stage::Probing
        } else {
            Stage::Over(Trial::NotHealthyBefore)
        },
        (Stage::Killing, Seen::Killed(killed)) => if killed {
            Stage::Waiting
        } else {
            Stage::Over(Trial::NotHealthyBefore)
        },
        (Stage::Waiting, Seen::Served(after)) => Stage::Over(Trial::Recovered(after)),
        (Stage::Waiting, Seen::NotServed(after)) => if after.as_nanos() < budget.as_nanos() {
            Stage::Waiting
        } else {
            Stage::Over(Trial::TimedOut)
        },
        _ => stage,
    }
}

} // verus!
