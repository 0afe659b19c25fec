//! A sweep of offered rates, and the curve it makes.
//!
//! A single throughput figure is a claim about a saturation point whose latency
//! nobody quoted, so a campaign measures several rates, each several times, and
//! reports the median. What it reports, and what the bar says of it, is decided
//! here; the cluster and the clock are somebody else's.

use vstd::prelude::*;
use vstd::string::*;

use crate::bench::environment::Environment;
use crate::bench::histogram::quantile_of;
use crate::bench::plot::{
    first_short, picture, series_views, throughput_vs_latency, PlotError, AXIS_LIMIT,
    lemma_one_curve_is_drawable, Point, Series, SeriesView,
};
use crate::bench::publishable::{
    may_be_published, refusal_text, refused, Admitted, Publishable, PublishableView, Refusal, Tier,
};
use crate::bench::record::{result_text, written_result};
use crate::bench::workload::{
    entries, keeps_up, kept_up, listed, mix_name, per_second, shape_name, Loop, Mix, Run,
};
use crate::lines::char_views;
use crate::log::fs::SyncMode;
use crate::order::{law_sorting_keeps_the_numbers, sort, sorted};
use crate::text::{
    decimal, fixed, padded, parse_number, parsed_number, push_decimal, push_fixed, push_padded,
    round, rounded, same_text,
};
use crate::time::capped;

verus! {

// -------------------------------------------------------------- shared parts

/// The sync mode a name asks for.
pub open spec fn sync_named(name: Seq<char>) -> Option<SyncMode> {
    if name == "durable"@ {
        Some(SyncMode::Durable)
    } else if name == "barrier"@ {
        Some(SyncMode::Barrier)
    } else if name == "none"@ {
        Some(SyncMode::Off)
    } else {
        None
    }
}

pub fn parse_sync(name: &str) -> (r: Option<SyncMode>)
    ensures
        r == sync_named(name@),
{
    if same_text(name, "durable") {
        Some(SyncMode::Durable)
    } else if same_text(name, "barrier") {
        Some(SyncMode::Barrier)
    } else if same_text(name, "none") {
        Some(SyncMode::Off)
    } else {
        None
    }
}

/// What the bar says of a run before anything is measured.
pub enum Verdict {
    /// The run may be published.
    Publish(Publishable),
    /// It may not, and is recorded with the reason stamped into it.
    Admit(Admitted),
    /// It may not, and nobody said what it is for: nothing is measured.
    Refuse(Refusal),
}

/// The bar, applied before anything is measured.
///
/// A campaign that is going to be refused should be refused in the second it
/// starts rather than in the hour it finishes.
pub fn decide(
    env: &Environment,
    tier: Tier,
    sync: SyncMode,
    runs: usize,
    purpose: Option<&str>,
) -> (r: Verdict)
    ensures
        may_be_published(*env, sync, runs) ==> r is Publish && r->Publish_0@ == (
        PublishableView { environment: *env, tier, sync_mode: sync, runs }),
        !may_be_published(*env, sync, runs) ==> match purpose {
            Some(purpose) => {
                &&& r is Admit
                &&& refused(*env, sync, runs, r->Admit_0@.refusal)
                &&& r->Admit_0@.environment == *env
                &&& r->Admit_0@.purpose == purpose@
            },
            None => r is Refuse && refused(*env, sync, runs, r->Refuse_0),
        },
{
    match Publishable::check_with_sync(env, tier, sync, runs) {
        Ok(p) => Verdict::Publish(p),
        Err(why) => match purpose {
            Some(purpose) => Verdict::Admit(Admitted::new(env, why, purpose)),
            None => Verdict::Refuse(why),
        },
    }
}

/// What a result file holds, given what the bar said.
pub open spec fn recorded_result(verdict: Verdict, body: Seq<char>) -> Option<Seq<char>> {
    match verdict {
        Verdict::Publish(p) => Some(
            written_result(p@.header_text(), p@.tier == Tier::Reference, body),
        ),
        Verdict::Admit(a) => Some(written_result(a@.header_text(), false, body)),
        Verdict::Refuse(_) => None,
    }
}

/// What a result file holds, given what the bar said. A refused run has none.
pub fn record(verdict: &Verdict, body: &str) -> (r: Option<String>)
    ensures
        r is Some <==> recorded_result(*verdict, body@) is Some,
        r is Some ==> r->Some_0@ == recorded_result(*verdict, body@)->Some_0,
{
    match verdict {
        Verdict::Publish(p) => Some(result_text(p, body)),
        Verdict::Admit(a) => Some(result_text(a, body)),
        Verdict::Refuse(_) => None,
    }
}

/// The median of some numbers: the upper one of the two in the middle, where
/// there are two, and nothing where there are none.
pub open spec fn median_of(values: Seq<u64>) -> u64 {
    if values.len() == 0 {
        0
    } else {
        sorted(values)[(values.len() / 2) as int]
    }
}

pub fn median(values: &[u64]) -> (r: u64)
    ensures
        r == median_of(values@),
{
    if values.len() == 0 {
        return 0;
    }
    let ordered: Vec<u64> = sort(values);
    proof {
        law_sorting_keeps_the_numbers(values@);
    }
    ordered[values.len() / 2]
}

/// A rate of zero asks for a closed loop.
pub fn shape_for(rate: u64, clients: usize, depth: usize) -> (r: Loop)
    ensures
        r == (if rate == 0 {
            Loop::Closed { clients, depth }
        } else {
            Loop::Open { rate_per_s: rate, clients, depth }
        }),
{
    if rate == 0 {
        Loop::Closed { clients, depth }
    } else {
        Loop::Open { rate_per_s: rate, clients, depth }
    }
}

/// Session nonces nothing else in this process will use.
///
/// Not hygiene: the same nonce reopens the *same session*, and a fresh client
/// starts its sequence numbers at one, so a client built with a nonce some
/// earlier run used is refused every one of its writes as stale.
#[derive(Debug)]
pub struct Nonces {
    next: u64,
}

impl Nonces {
    /// The nonce that is handed out next.
    pub closed spec fn next_of(&self) -> u64 {
        self.next
    }

    pub fn new() -> (r: Self)
        ensures
            r.next_of() == 900_000,
    {
        Nonces { next: 900_000 }
    }

    /// Reserve `count` consecutive nonces, and one in any case: from the one that
    /// is returned. No two reservations share a nonce until the numbers go round.
    pub fn reserve(&mut self, count: u64) -> (r: u64)
        ensures
            r == old(self).next_of(),
            final(self).next_of() == old(self).next_of().wrapping_add(if count == 0 {
                1
            } else {
                count
            }),
    {
        let first: u64 = self.next;
        let taken: u64 = if count == 0 {
            1
        } else {
            count
        };
        self.next = self.next.wrapping_add(taken);
        first
    }
}

// ---------------------------------------------------------------- numbers

/// A length of time in milliseconds, to the nearest thousandth of one.
pub open spec fn thousandths_of_ms(nanos: nat) -> Seq<char> {
    fixed(rounded(nanos, 1_000, 125), 1_000, 3)
}

pub fn push_thousandths_of_ms(out: &mut String, nanos: u64)
    ensures
        final(out)@ == old(out)@ + thousandths_of_ms(nanos as nat),
{
    let parts: u64 = round(nanos as u128, 1_000, 125);
    push_fixed(out, parts, 1_000, 3);
}

/// A length of time in seconds, to the nearest tenth of one.
pub open spec fn tenths_of_s(nanos: nat) -> Seq<char> {
    fixed(rounded(nanos, 100_000_000, 5), 10, 1)
}

pub fn push_tenths_of_s(out: &mut String, nanos: u64)
    ensures
        final(out)@ == old(out)@ + tenths_of_s(nanos as nat),
{
    let parts: u64 = round(nanos as u128, 100_000_000, 5);
    push_fixed(out, parts, 10, 1);
}

/// How many in a hundred, to the nearest tenth.
pub open spec fn percent(part: nat, whole: nat) -> Seq<char> {
    fixed(
        if whole == 0 {
            0
        } else {
            capped(rounded(part * 1_000, whole, 5))
        },
        10,
        1,
    )
}

fn push_percent(out: &mut String, part: u64, whole: u64)
    ensures
        final(out)@ == old(out)@ + padded(percent(part as nat, whole as nat), ' ', 7),
{
    let parts: u64 = if whole == 0 {
        0
    } else {
        round(part as u128 * 1_000, whole, 5)
    };
    let mut text = String::new();
    push_fixed(&mut text, parts, 10, 1);
    proof {
        assert(text@ =~= percent(part as nat, whole as nat));
    }
    push_padded(out, text.as_str(), ' ', 7);
}

fn push_number(out: &mut String, n: u64, width: usize)
    ensures
        final(out)@ == old(out)@ + padded(decimal(n as nat), ' ', width as nat),
{
    let mut text = String::new();
    push_decimal(&mut text, n);
    proof {
        assert(text@ =~= decimal(n as nat));
    }
    push_padded(out, text.as_str(), ' ', width);
}

fn push_ms(out: &mut String, nanos: u64, width: usize)
    ensures
        final(out)@ == old(out)@ + padded(thousandths_of_ms(nanos as nat), ' ', width as nat),
{
    let mut text = String::new();
    push_thousandths_of_ms(&mut text, nanos);
    proof {
        assert(text@ =~= thousandths_of_ms(nanos as nat));
    }
    push_padded(out, text.as_str(), ' ', width);
}

// ------------------------------------------------------------------ one run

/// What is said of a run that did not offer its rate.
pub open spec fn harness_note(run: Run) -> Seq<char> {
    if run.shape is Closed || kept_up(run.late as nat, run.attempted as nat) {
        ""@
    } else {
        "\n** the load generator could not offer this rate; the throughput above is a statement about the harness **"@
    }
}

/// What a run offered and what came back.
pub open spec fn offered_text(run: Run) -> Seq<char> {
    "mix "@
            + mix_name(run.mix)
            + "\nshape "@
            + shape_name(run.shape)
            + "\nvalue "@
            + decimal(run.value_bytes as nat)
            + " B, key space "@
            + decimal(run.key_space as nat)
            + "\nacknowledged "@
            + decimal(run.acknowledged as nat)
            + " of "@
            + decimal(run.attempted as nat)
            + " attempted in "@
            + tenths_of_s(run.duration@)
            + "s -> "@
            + decimal(per_second(run.acknowledged as nat, run.duration@) as nat)
            + " ops/s\n"@
}

/// How long it took.
pub open spec fn latency_text(run: Run) -> Seq<char> {
    "latency ms  p50 "@
            + thousandths_of_ms(quantile_of(run.latency@, 1, 2) as nat)
            + "  p90 "@
            + thousandths_of_ms(quantile_of(run.latency@, 9, 10) as nat)
            + "  p99 "@
            + thousandths_of_ms(quantile_of(run.latency@, 99, 100) as nat)
            + "  p999 "@
            + thousandths_of_ms(quantile_of(run.latency@, 999, 1000) as nat)
            + "  max "@
            + thousandths_of_ms(run.latency@.max as nat)
            + "\nlate "@
            + decimal(run.late as nat)
            + harness_note(run)
}

fn push_offered(text: &mut String, run: &Run)
    ensures
        final(text)@ == old(text)@ + offered_text(*run),
{
    let mut out = String::new();
    out.append("mix ");
    out.append(run.mix.name());
    out.append("\nshape ");
    out.append(run.shape.name().as_str());
    out.append("\nvalue ");
    push_decimal(&mut out, run.value_bytes as u64);
    out.append(" B, key space ");
    push_decimal(&mut out, run.key_space);
    out.append("\nacknowledged ");
    push_decimal(&mut out, run.acknowledged);
    out.append(" of ");
    push_decimal(&mut out, run.attempted);
    out.append(" attempted in ");
    push_tenths_of_s(&mut out, run.duration.as_nanos());
    out.append("s -> ");
    push_decimal(&mut out, run.throughput());
    out.append(" ops/s\n");
    proof {
        assert(out@ =~= offered_text(*run));
    }
    text.append(out.as_str());
}

fn push_latency(text: &mut String, run: &Run)
    requires
        run.latency@.wf(),
    ensures
        final(text)@ == old(text)@ + latency_text(*run),
{
    let mut out = String::new();
    out.append("latency ms  p50 ");
    push_thousandths_of_ms(&mut out, run.latency.quantile(1, 2));
    out.append("  p90 ");
    push_thousandths_of_ms(&mut out, run.latency.quantile(9, 10));
    out.append("  p99 ");
    push_thousandths_of_ms(&mut out, run.latency.quantile(99, 100));
    out.append("  p999 ");
    push_thousandths_of_ms(&mut out, run.latency.quantile(999, 1000));
    out.append("  max ");
    push_thousandths_of_ms(&mut out, run.latency.max());
    out.append("\nlate ");
    push_decimal(&mut out, run.late);
    out.append(if run.offered_what_it_claimed() {
            ""
        } else {
            "\n** the load generator could not offer this rate; the throughput above is a statement about the harness **"
        });
    proof {
        assert(out@ =~= latency_text(*run));
    }
    text.append(out.as_str());
}

/// One run, for a person.
pub fn render_run(run: &Run) -> (r: String)
    requires
        run.latency@.wf(),
    ensures
        r@ == offered_text(*run) + latency_text(*run),
{
    let mut out = String::new();
    push_offered(&mut out, run);
    push_latency(&mut out, run);
    proof {
        assert(out@ =~= offered_text(*run) + latency_text(*run));
    }
    out
}

// ----------------------------------------------------------------- campaign

/// The numbers among some texts, in order. What is not a number is left out.
pub open spec fn numbers_among(texts: Seq<Seq<char>>) -> Seq<u64>
    decreases texts.len(),
{
    if texts.len() == 0 {
        Seq::empty()
    } else {
        let before = numbers_among(texts.drop_last());
        match parsed_number(texts.last()) {
            Some(n) => before.push(n),
            None => before,
        }
    }
}

/// The offered rates of a comma-separated list.
pub fn parse_rates(list: &str) -> (r: Vec<u64>)
    ensures
        r@ == numbers_among(listed(list@)),
{
    let texts: Vec<Vec<char>> = entries(list);
    let mut r: Vec<u64> = Vec::new();
    let mut i: usize = 0;
    proof {
        assert(listed(list@).take(0) =~= Seq::empty());
    }
    while i < texts.len()
        invariant
            i <= texts@.len(),
            char_views(texts@) == listed(list@),
            r@ == numbers_among(listed(list@).take(i as int)),
        decreases texts@.len() - i,
    {
        proof {
            assert(char_views(texts@)[i as int] == texts@[i as int]@);
            assert(listed(list@).take(i + 1).drop_last() =~= listed(list@).take(i as int));
        }
        match parse_number(texts[i].as_slice()) {
            Some(n) => {
                r.push(n);
            },
            None => {},
        }
        i += 1;
    }
    proof {
        assert(char_views(texts@).len() == texts@.len());
        assert(listed(list@).take(i as int) =~= listed(list@));
    }
    r
}

/// Whether there are rates enough for a curve. A single point is not one.
pub fn is_a_curve(rates: &[u64]) -> (r: bool)
    ensures
        r == (rates@.len() >= 2),
{
    rates.len() >= 2
}

/// How often a rate is measured: once in any case.
pub fn repetitions(runs: usize) -> (r: usize)
    ensures
        r == (if runs == 0 {
            1
        } else {
            runs
        }),
{
    if runs == 0 {
        1
    } else {
        runs
    }
}

/// The numbers of some senders or runs, added up.
pub open spec fn added(values: Seq<u64>) -> nat
    decreases values.len(),
{
    if values.len() == 0 {
        0
    } else {
        added(values.drop_last()) + values.last() as nat
    }
}

proof fn lemma_added_grows(values: Seq<u64>, n: int)
    requires
        0 <= n <= values.len(),
    ensures
        added(values.take(n)) <= added(values),
    decreases values.len() - n,
{
    if n == values.len() {
        assert(values.take(n) =~= values);
    } else {
        lemma_added_grows(values, n + 1);
        assert(values.take(n + 1).drop_last() =~= values.take(n));
    }
}

/// One figure of each of some runs.
pub open spec fn throughputs_of(runs: Seq<Run>) -> Seq<u64> {
    Seq::new(
        runs.len(),
        |i: int| per_second(runs[i].acknowledged as nat, runs[i].duration@) as u64,
    )
}

pub open spec fn quantiles_of(runs: Seq<Run>, num: nat, den: nat) -> Seq<u64> {
    Seq::new(runs.len(), |i: int| quantile_of(runs[i].latency@, num, den) as u64)
}

pub open spec fn longest_of(runs: Seq<Run>) -> Seq<u64> {
    Seq::new(runs.len(), |i: int| runs[i].latency@.max)
}

pub open spec fn lates_of(runs: Seq<Run>) -> Seq<u64> {
    Seq::new(runs.len(), |i: int| runs[i].late)
}

pub open spec fn attempts_of(runs: Seq<Run>) -> Seq<u64> {
    Seq::new(runs.len(), |i: int| runs[i].attempted)
}

pub open spec fn acknowledgements_of(runs: Seq<Run>) -> Seq<u64> {
    Seq::new(runs.len(), |i: int| runs[i].acknowledged)
}

/// What a rate was measured at: the *median* of its repetitions rather than the
/// best. The best of three is a number about luck.
#[derive(Debug, Clone, Copy, PartialEq, Eq, Structural)]
pub struct Row {
    pub rate: u64,
    pub achieved: u64,
    pub p50: u64,
    pub p99: u64,
    pub p999: u64,
    pub max: u64,
    pub late: u64,
    pub attempted: u64,
    pub acknowledged: u64,
}

/// Whether what the runs of a rate add up to can be written down.
pub open spec fn adds_up(runs: Seq<Run>) -> bool {
    &&& forall|i: int| 0 <= i < runs.len() ==> (#[trigger] runs[i]).latency@.wf()
    &&& added(lates_of(runs)) <= u64::MAX
    &&& added(attempts_of(runs)) <= u64::MAX
    &&& added(acknowledgements_of(runs)) <= u64::MAX
}

/// A rate and its runs, as one row.
pub open spec fn row_of(rate: u64, runs: Seq<Run>) -> Row {
    Row {
        rate,
        achieved: median_of(throughputs_of(runs)),
        p50: median_of(quantiles_of(runs, 1, 2)),
        p99: median_of(quantiles_of(runs, 99, 100)),
        p999: median_of(quantiles_of(runs, 999, 1000)),
        max: median_of(longest_of(runs)),
        late: added(lates_of(runs)) as u64,
        attempted: added(attempts_of(runs)) as u64,
        acknowledged: added(acknowledgements_of(runs)) as u64,
    }
}

/// Add up one count of some runs.
fn add_counts(runs: &[Run]) -> (r: (u64, u64, u64))
    requires
        adds_up(runs@),
    ensures
        r.0 == added(lates_of(runs@)),
        r.1 == added(attempts_of(runs@)),
        r.2 == added(acknowledgements_of(runs@)),
{
    let mut late: u64 = 0;
    let mut attempted: u64 = 0;
    let mut acknowledged: u64 = 0;
    let mut i: usize = 0;
    while i < runs.len()
        invariant
            i <= runs@.len(),
            adds_up(runs@),
            late == added(lates_of(runs@).take(i as int)),
            attempted == added(attempts_of(runs@).take(i as int)),
            acknowledged == added(acknowledgements_of(runs@).take(i as int)),
        decreases runs@.len() - i,
    {
        proof {
            lemma_added_grows(lates_of(runs@), i + 1);
            lemma_added_grows(attempts_of(runs@), i + 1);
            lemma_added_grows(acknowledgements_of(runs@), i + 1);
            assert(lates_of(runs@).take(i + 1).drop_last() =~= lates_of(runs@).take(i as int));
            assert(attempts_of(runs@).take(i + 1).drop_last() =~= attempts_of(runs@).take(
                i as int,
            ));
            assert(acknowledgements_of(runs@).take(i + 1).drop_last() =~= acknowledgements_of(
                runs@,
            ).take(i as int));
        }
        late = late + runs[i].late;
        attempted = attempted + runs[i].attempted;
        acknowledged = acknowledged + runs[i].acknowledged;
        i += 1;
    }
    proof {
        assert(lates_of(runs@).take(i as int) =~= lates_of(runs@));
        assert(attempts_of(runs@).take(i as int) =~= attempts_of(runs@));
        assert(acknowledgements_of(runs@).take(i as int) =~= acknowledgements_of(runs@));
    }
    (late, attempted, acknowledged)
}

/// One quantile of each run.
fn collect_quantiles(runs: &[Run], num: u64, den: u64) -> (r: Vec<u64>)
    requires
        forall|i: int| 0 <= i < runs@.len() ==> (#[trigger] runs@[i]).latency@.wf(),
        den > 0,
    ensures
        r@ == quantiles_of(runs@, num as nat, den as nat),
{
    let mut r: Vec<u64> = Vec::new();
    let mut i: usize = 0;
    while i < runs.len()
        invariant
            i <= runs@.len(),
            den > 0,
            forall|j: int| 0 <= j < runs@.len() ==> (#[trigger] runs@[j]).latency@.wf(),
            r@ == quantiles_of(runs@, num as nat, den as nat).take(i as int),
        decreases runs@.len() - i,
    {
        r.push(runs[i].latency.quantile(num, den));
        i += 1;
        proof {
            assert(r@ =~= quantiles_of(runs@, num as nat, den as nat).take(i as int));
        }
    }
    proof {
        assert(r@ =~= quantiles_of(runs@, num as nat, den as nat));
    }
    r
}

impl Row {
    /// A rate and its runs, as one row.
    pub fn of(rate: u64, runs: &[Run]) -> (r: Self)
        requires
            adds_up(runs@),
        ensures
            r == row_of(rate, runs@),
    {
        let mut achieved: Vec<u64> = Vec::new();
        let mut max: Vec<u64> = Vec::new();
        let mut i: usize = 0;
        while i < runs.len()
            invariant
                i <= runs@.len(),
                achieved@ == throughputs_of(runs@).take(i as int),
                max@ == longest_of(runs@).take(i as int),
            decreases runs@.len() - i,
        {
            achieved.push(runs[i].throughput());
            max.push(runs[i].latency.max());
            i += 1;
            proof {
                assert(achieved@ =~= throughputs_of(runs@).take(i as int));
                assert(max@ =~= longest_of(runs@).take(i as int));
            }
        }
        proof {
            assert(achieved@ =~= throughputs_of(runs@));
            assert(max@ =~= longest_of(runs@));
        }
        let p50: Vec<u64> = collect_quantiles(runs, 1, 2);
        let p99: Vec<u64> = collect_quantiles(runs, 99, 100);
        let p999: Vec<u64> = collect_quantiles(runs, 999, 1000);
        let (late, attempted, acknowledged) = add_counts(runs);
        Row {
            rate,
            achieved: median(achieved.as_slice()),
            p50: median(p50.as_slice()),
            p99: median(p99.as_slice()),
            p999: median(p999.as_slice()),
            max: median(max.as_slice()),
            late,
            attempted,
            acknowledged,
        }
    }

    /// Whether the senders could not keep to this rate's schedule. Its offered
    /// column is then a request rather than a fact.
    pub open spec fn behind(self) -> bool {
        !kept_up(self.late as nat, self.attempted as nat)
    }

    pub fn is_behind(&self) -> (r: bool)
        ensures
            r == self.behind(),
    {
        !keeps_up(self.late, self.attempted)
    }

    /// The row as a line of the table.
    pub open spec fn line(self) -> Seq<char> {
        padded(decimal(self.rate as nat), ' ', 7)
            + "  "@
            + padded(decimal(self.achieved as nat), ' ', 9)
            + "  "@
            + padded(percent(self.acknowledged as nat, self.attempted as nat), ' ', 7)
            + "%  "@
            + padded(thousandths_of_ms(self.p50 as nat), ' ', 8)
            + "  "@
            + padded(thousandths_of_ms(self.p99 as nat), ' ', 8)
            + "  "@
            + padded(thousandths_of_ms(self.p999 as nat), ' ', 8)
            + "  "@
            + padded(thousandths_of_ms(self.max as nat), ' ', 8)
            + "  "@
            + padded(decimal(self.late as nat), ' ', 5)
            + (if self.behind() {
                "  *"@
            } else {
                ""@
            })
            + "\n"@
    }

    /// The row as a line of the table.
    pub fn render(&self) -> (r: String)
        ensures
            r@ == self.line(),
    {
        let mut out = String::new();
        push_number(&mut out, self.rate, 7);
        out.append("  ");
        push_number(&mut out, self.achieved, 9);
        out.append("  ");
        push_percent(&mut out, self.acknowledged, self.attempted);
        out.append("%  ");
        push_ms(&mut out, self.p50, 8);
        out.append("  ");
        push_ms(&mut out, self.p99, 8);
        out.append("  ");
        push_ms(&mut out, self.p999, 8);
        out.append("  ");
        push_ms(&mut out, self.max, 8);
        out.append("  ");
        push_number(&mut out, self.late, 5);
        out.append(if self.is_behind() {
            "  *"
        } else {
            ""
        });
        out.append("\n");
        proof {
            assert(out@ =~= self.line());
        }
        out
    }
}

/// What a campaign is asked to do.
pub struct Setup {
    pub mix: Mix,
    pub clients: usize,
    pub secs: u64,
    pub value_len: usize,
    pub keys: u64,
    pub runs: usize,
    pub cluster_nodes: usize,
    pub tick_ms: u64,
    /// The file name of the drawing.
    pub svg: String,
}

/// The lines of a table, one after the other.
pub open spec fn lines_for(rows: Seq<Row>) -> Seq<char>
    decreases rows.len(),
{
    if rows.len() == 0 {
        Seq::empty()
    } else {
        lines_for(rows.drop_last()) + rows.last().line()
    }
}

/// Whether any row could not keep to its schedule.
pub open spec fn any_behind(rows: Seq<Row>) -> bool {
    exists|i: int| 0 <= i < rows.len() && (#[trigger] rows[i]).behind()
}

/// What is said where a row is marked.
pub open spec fn late_note(rows: Seq<Row>) -> Seq<char> {
    if any_behind(rows) {
        "\n*  the senders could not keep to this rate's schedule. The offered\n             *  column is a request rather than a fact on those rows, and the\n             *  achieved throughput says as much about the load generator as about\n             *  the cluster. They are printed rather than dropped because where a\n             *  harness stops keeping up is itself worth knowing.\n"@
    } else {
        ""@
    }
}

impl Setup {
    /// What was measured, and the head of the table.
    pub open spec fn heading(self) -> Seq<char> {
        "mix          "@
            + mix_name(self.mix)
            + "\nvalue        "@
            + decimal(self.value_len as nat)
            + " B\nkey space    "@
            + decimal(self.keys as nat)
            + "\nclients      "@
            + decimal(self.clients as nat)
            + "\nnodes        "@
            + decimal(self.cluster_nodes as nat)
            + "\ntick         "@
            + decimal(self.tick_ms as nat)
            + " ms\nseconds      "@
            + decimal(self.secs as nat)
            + " per run\nrepetitions  "@
            + decimal(self.runs as nat)
            + " per rate, median reported\n\noffered   achieved      acked       p50       p99      p999       max   late\n  ops/s      ops/s  /attempt        ms        ms        ms        ms\n"@
    }

    fn head(&self) -> (r: String)
        ensures
            r@ == self.heading(),
    {
        let mut out = String::new();
        out.append("mix          ");
        out.append(self.mix.name());
        out.append("\nvalue        ");
        push_decimal(&mut out, self.value_len as u64);
        out.append(" B\nkey space    ");
        push_decimal(&mut out, self.keys);
        out.append("\nclients      ");
        push_decimal(&mut out, self.clients as u64);
        out.append("\nnodes        ");
        push_decimal(&mut out, self.cluster_nodes as u64);
        out.append("\ntick         ");
        push_decimal(&mut out, self.tick_ms);
        out.append(" ms\nseconds      ");
        push_decimal(&mut out, self.secs);
        out.append(" per run\nrepetitions  ");
        push_decimal(&mut out, self.runs as u64);
        out.append(" per rate, median reported\n\noffered   achieved      acked       p50       p99      p999       max   late\n  ops/s      ops/s  /attempt        ms        ms        ms        ms\n");
        proof {
            assert(out@ =~= self.heading());
        }
        out
    }

    /// A campaign's report.
    pub open spec fn report(self, rows: Seq<Row>) -> Seq<char> {
        self.heading() + lines_for(rows) + late_note(rows)
            + "\nPercentiles are the upper edge of the histogram bucket a sample fell in,\n         so they are never optimistic — and so a p99 can read slightly above the\n         max, which is the one raw value in the table.\n"@
            + "\ncurve: results/bench/"@ + self.svg@ + "\n"@
    }

    /// A campaign's report.
    pub fn render(&self, rows: &[Row]) -> (r: String)
        ensures
            r@ == self.report(rows@),
    {
        let mut out = self.head();
        let mut marked: bool = false;
        let mut i: usize = 0;
        proof {
            assert(rows@.take(0) =~= Seq::empty());
            assert(out@ =~= self.heading() + lines_for(rows@.take(0)));
        }
        while i < rows.len()
            invariant
                i <= rows@.len(),
                out@ == self.heading() + lines_for(rows@.take(i as int)),
                marked == any_behind(rows@.take(i as int)),
            decreases rows@.len() - i,
        {
            out.append(rows[i].render().as_str());
            proof {
                let before = rows@.take(i as int);
                let now = rows@.take(i + 1);
                assert(now.drop_last() =~= before);
                assert(out@ =~= self.heading() + lines_for(now));
                assert(now[i as int] == rows@[i as int]);
                if any_behind(before) {
                    let j = choose|j: int| 0 <= j < before.len() && (#[trigger] before[j]).behind();
                    assert(now[j].behind());
                }
                if any_behind(now) {
                    let j = choose|j: int| 0 <= j < now.len() && (#[trigger] now[j]).behind();
                    if j < i {
                        assert(before[j].behind());
                    }
                }
            }
            if rows[i].is_behind() {
                marked = true;
            }
            i += 1;
        }
        proof {
            assert(rows@.take(i as int) =~= rows@);
        }
        if marked {
            out.append(
                "\n*  the senders could not keep to this rate's schedule. The offered\n             *  column is a request rather than a fact on those rows, and the\n             *  achieved throughput says as much about the load generator as about\n             *  the cluster. They are printed rather than dropped because where a\n             *  harness stops keeping up is itself worth knowing.\n",
            );
        } else {
            out.append("");
        }
        out.append(
            "\nPercentiles are the upper edge of the histogram bucket a sample fell in,\n         so they are never optimistic — and so a p99 can read slightly above the\n         max, which is the one raw value in the table.\n",
        );
        out.append("\ncurve: results/bench/");
        out.append(self.svg.as_str());
        out.append("\n");
        proof {
            assert(out@ =~= self.report(rows@));
        }
        out
    }

    /// What the curve is called.
    pub open spec fn curve_name(self) -> Seq<char> {
        decimal(self.cluster_nodes as nat) + " nodes, "@ + mix_name(self.mix)
    }

    /// The curve a table makes: achieved throughput against the tail.
    pub open spec fn curve(self, rows: Seq<Row>) -> SeriesView {
        SeriesView {
            name: self.curve_name(),
            points: Seq::new(
                rows.len(),
                |i: int| Point { throughput: rows[i].achieved, latency_ns: rows[i].p99 },
            ),
        }
    }

    fn series(&self, rows: &[Row]) -> (r: Series)
        ensures
            r@ == self.curve(rows@),
    {
        let mut points: Vec<Point> = Vec::new();
        let mut i: usize = 0;
        while i < rows.len()
            invariant
                i <= rows@.len(),
                points@ == self.curve(rows@).points.take(i as int),
            decreases rows@.len() - i,
        {
            points.push(Point { throughput: rows[i].achieved, latency_ns: rows[i].p99 });
            i += 1;
            proof {
                assert(points@ =~= self.curve(rows@).points.take(i as int));
            }
        }
        let mut name = String::new();
        push_decimal(&mut name, self.cluster_nodes as u64);
        name.append(" nodes, ");
        name.append(self.mix.name());
        proof {
            assert(name@ =~= self.curve_name());
            assert(points@ =~= self.curve(rows@).points);
        }
        Series { name, points }
    }
}

/// What is written under the drawing.
pub open spec fn caption_text(verdict: Verdict, env: Environment) -> Seq<char> {
    match verdict {
        Verdict::Publish(p) => p@.tier.called() + " tier — "@ + env.cpu@ + ", "@
            + env.filesystem.called() + " — not a claim about how fast Keel is in general"@,
        Verdict::Admit(a) => "NOT PUBLISHABLE — "@ + refusal_text(a@.refusal),
        Verdict::Refuse(why) => "NOT PUBLISHABLE — "@ + refusal_text(why),
    }
}

/// What is written under the drawing: a picture travels further than the file it
/// came from.
pub fn caption(verdict: &Verdict, env: &Environment) -> (r: String)
    ensures
        r@ == caption_text(*verdict, *env),
{
    let mut out = String::new();
    match verdict {
        Verdict::Publish(p) => {
            out.append(p.tier().name());
            out.append(" tier — ");
            out.append(env.cpu.as_str());
            out.append(", ");
            out.append(env.filesystem.name());
            out.append(" — not a claim about how fast Keel is in general");
        },
        Verdict::Admit(a) => {
            out.append("NOT PUBLISHABLE — ");
            out.append(a.refusal().message().as_str());
        },
        Verdict::Refuse(why) => {
            out.append("NOT PUBLISHABLE — ");
            out.append(why.message().as_str());
        },
    }
    proof {
        assert(out@ =~= caption_text(*verdict, *env));
    }
    out
}

/// The runs of each rate, as rows.
pub open spec fn rows_of(rates: Seq<u64>, runs: Seq<Vec<Run>>) -> Seq<Row> {
    Seq::new(rates.len(), |i: int| row_of(rates[i], runs[i]@))
}

/// What a campaign writes down: its report and its drawing, or why the drawing
/// could not be made.
///
/// `runs` holds the repetitions of each rate, in the order of `rates`.
pub fn campaign(
    setup: &Setup,
    verdict: &Verdict,
    env: &Environment,
    rates: &[u64],
    runs: &[Vec<Run>],
) -> (r: Result<(String, String), PlotError>)
    requires
        rates@.len() == runs@.len(),
        forall|i: int| 0 <= i < runs@.len() ==> adds_up(#[trigger] runs@[i]@),
        forall|i: int|
            0 <= i < rates@.len() ==> (#[trigger] rows_of(rates@, runs@)[i]).achieved
                <= AXIS_LIMIT && rows_of(rates@, runs@)[i].p99 <= AXIS_LIMIT,
    ensures
        r is Ok <==> rates@.len() >= 2,
        match r {
            Ok((report, drawing)) => {
                &&& report@ == setup.report(rows_of(rates@, runs@))
                &&& drawing@ == picture(
                    "Throughput versus p99 latency"@,
                    caption_text(*verdict, *env),
                    seq![setup.curve(rows_of(rates@, runs@))],
                )
            },
            Err(e) => e is NotACurve && e->NotACurve_0@ == setup.curve_name() && e->NotACurve_1
                == rates@.len(),
        },
{
    let mut rows: Vec<Row> = Vec::new();
    let mut i: usize = 0;
    while i < rates.len()
        invariant
            i <= rates@.len(),
            rates@.len() == runs@.len(),
            forall|j: int| 0 <= j < runs@.len() ==> adds_up(#[trigger] runs@[j]@),
            rows@ == rows_of(rates@, runs@).take(i as int),
        decreases rates@.len() - i,
    {
        let measured: &Vec<Run> = &runs[i];
        rows.push(Row::of(rates[i], measured.as_slice()));
        i += 1;
        proof {
            assert(rows@ =~= rows_of(rates@, runs@).take(i as int));
        }
    }
    proof {
        assert(rows@ =~= rows_of(rates@, runs@));
    }
    let words = caption(verdict, env);
    let mut series: Vec<Series> = Vec::new();
    series.push(setup.series(rows.as_slice()));
    proof {
        let views = seq![setup.curve(rows_of(rates@, runs@))];
        assert(series_views(series@) =~= views);
        reveal_with_fuel(first_short, 2);
        assert(views.skip(1) =~= Seq::empty());
        lemma_one_curve_is_drawable(views[0]);
        assert(views =~= seq![views[0]]);
    }
    match throughput_vs_latency("Throughput versus p99 latency", words.as_str(), series.as_slice()) {
        Ok(drawing) => Ok((setup.render(rows.as_slice()), drawing)),
        Err(e) => Err(e),
    }
}

} // verus!
