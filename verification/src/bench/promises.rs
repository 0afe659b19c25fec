//! What a measurement promises, call by call.
//!
//! Each of these speaks of calls and of what went in and came out of them.

use vstd::prelude::*;

use crate::bench::campaign::{
    median, quantiles_of, render_run, row_of, thousandths_of_ms, throughputs_of, Row, Setup,
};
use crate::bench::failover::{
    advance, outcomes, recoveries_of, samples_of, summarise, tenths_of_ms, Failover, Seen, Stage,
    Trial,
};
use crate::bench::histogram::{
    at_or_below, bucket_edge, law_a_percentile_is_the_least_that_covers_its_share, quantile_of,
    recorded, Histogram, BUCKETS,
};
use crate::bench::workload::{per_second, Run};
use crate::order::{inserted, sorted};
use crate::text::{decimal, padded};
use crate::time::Duration;

verus! {

// ------------------------------------------------------------------ samples

/// A value that is recorded is one more sample.
pub proof fn law_a_recorded_value_is_one_more_sample(samples: Seq<(u64, nat)>, value: u64)
    ensures
        forall|h: &mut Histogram| #[trigger]
            call_ensures(Histogram::record, (h, value), ()) && h@ == recorded(samples)
                ==> final(h)@ == recorded(samples.push((value, 1))),
{
    assert(samples.push((value, 1)).drop_last() =~= samples);
}

/// Whether a number is a percentile of some samples: the least bucket edge that the
/// share `num` in `den` of them is at or below.
pub open spec fn is_percentile(samples: Seq<(u64, nat)>, num: nat, den: nat, q: nat) -> bool {
    let all = at_or_below(samples, u64::MAX as nat);
    &&& at_or_below(samples, q) * den >= all * num
    &&& exists|b: nat| b < BUCKETS && #[trigger] bucket_edge(b) == q
    &&& forall|b: nat|
        b < BUCKETS && #[trigger] bucket_edge(b) < q ==> at_or_below(samples, bucket_edge(b)) * den
            < all * num
}

/// A quantile that is asked for is that percentile of what was recorded.
pub proof fn law_a_quantile_is_the_percentile_asked_for(
    h: &Histogram,
    samples: Seq<(u64, nat)>,
    num: u64,
    den: u64,
    r: u64,
)
    requires
        call_ensures(Histogram::quantile, (h, num, den), r),
        h@ == recorded(samples),
        0 < num <= den,
        at_or_below(samples, u64::MAX as nat) > 0,
    ensures
        is_percentile(samples, num as nat, den as nat, r as nat),
{
    law_a_percentile_is_the_least_that_covers_its_share(samples, num as nat, den as nat);
}

// ------------------------------------------------------------------ medians

/// How many numbers are at or below another.
pub open spec fn how_many_at_most(values: Seq<u64>, x: u64) -> nat
    decreases values.len(),
{
    if values.len() == 0 {
        0
    } else {
        how_many_at_most(values.drop_last(), x) + (if values.last() <= x {
            1nat
        } else {
            0
        })
    }
}

/// How many numbers are below another.
pub open spec fn how_many_below(values: Seq<u64>, x: u64) -> nat
    decreases values.len(),
{
    if values.len() == 0 {
        0
    } else {
        how_many_below(values.drop_last(), x) + (if values.last() < x {
            1nat
        } else {
            0
        })
    }
}

proof fn lemma_inserting_counts(s: Seq<u64>, one: u64, x: u64)
    ensures
        how_many_at_most(inserted(s, one), x) == how_many_at_most(s.push(one), x),
        how_many_below(inserted(s, one), x) == how_many_below(s.push(one), x),
    decreases s.len(),
{
    reveal_with_fuel(how_many_at_most, 3);
    reveal_with_fuel(how_many_below, 3);
    assert(s.push(one).drop_last() =~= s);
    if s.len() > 0 && s.last() > one {
        let head = s.drop_last();
        lemma_inserting_counts(head, one, x);
        assert(head.push(one).drop_last() =~= head);
        let body = inserted(head, one);
        assert(body.push(s.last()).drop_last() =~= body);
    }
}

proof fn lemma_sorting_counts(values: Seq<u64>, x: u64)
    ensures
        how_many_at_most(sorted(values), x) == how_many_at_most(values, x),
        how_many_below(sorted(values), x) == how_many_below(values, x),
    decreases values.len(),
{
    if values.len() > 0 {
        let head = sorted(values.drop_last());
        lemma_sorting_counts(values.drop_last(), x);
        lemma_inserting_counts(head, values.last(), x);
        assert(head.push(values.last()).drop_last() =~= head);
    }
}

/// In ascending numbers, those up to a place are at or below the one there, and
/// those from it on are not below it.
proof fn lemma_ascending_counts(s: Seq<u64>, k: int, n: int)
    requires
        crate::order::ascends(s),
        0 <= k < s.len(),
        0 <= n <= s.len(),
    ensures
        n > k ==> how_many_at_most(s.take(n), s[k]) >= k + 1,
        n <= k + 1 ==> how_many_at_most(s.take(n), s[k]) == n,
        how_many_below(s.take(n), s[k]) <= k,
        n <= k ==> how_many_below(s.take(n), s[k]) <= n,
    decreases n,
{
    if n > 0 {
        lemma_ascending_counts(s, k, n - 1);
        assert(s.take(n).drop_last() =~= s.take(n - 1));
        assert(s.take(n).last() == s[n - 1]);
        if n - 1 <= k {
            assert(s[n - 1] <= s[k]);
        } else {
            assert(s[k] <= s[n - 1]);
        }
    }
}

/// A median is one of the numbers, with more than half of them at or below it and no
/// more than half of them below it.
pub proof fn law_a_median_is_in_the_middle(values: &[u64], r: u64)
    requires
        call_ensures(median, (values,), r),
        values@.len() > 0,
    ensures
        values@.contains(r),
        2 * how_many_at_most(values@, r) > values@.len(),
        2 * how_many_below(values@, r) <= values@.len(),
{
    lemma_median(values@);
}

proof fn lemma_median(values: Seq<u64>)
    requires
        values.len() > 0,
    ensures
        ({
            let r = crate::bench::campaign::median_of(values);
            &&& values.contains(r)
            &&& 2 * how_many_at_most(values, r) > values.len()
            &&& 2 * how_many_below(values, r) <= values.len()
        }),
{
    broadcast use vstd::seq_lib::group_to_multiset_ensures;

    let s = sorted(values);
    let k = (values.len() / 2) as int;
    crate::order::law_sorting_keeps_the_numbers(values);
    lemma_ascending_counts(s, k, s.len() as int);
    assert(s.take(s.len() as int) =~= s);
    lemma_sorting_counts(values, s[k]);
    assert(s.contains(s[k]));
    assert(s.to_multiset().count(s[k]) > 0);
    assert(values.to_multiset().count(s[k]) > 0);
}

/// Whether a number is the middle one of some: one of them, with more than half of
/// them at or below it and no more than half below.
pub open spec fn is_middle(values: Seq<u64>, r: u64) -> bool {
    &&& values.contains(r)
    &&& 2 * how_many_at_most(values, r) > values.len()
    &&& 2 * how_many_below(values, r) <= values.len()
}

// --------------------------------------------------------------------- rows

/// What a row says of a rate is what its runs measured. The figures are the middle
/// ones of those of its runs, each of which is a percentile of that run's samples:
/// half of them, ninety-nine in a hundred, and nine hundred and ninety-nine in a
/// thousand are at or below it. The counts are those of all runs.
pub proof fn law_a_row_quotes_what_was_measured(
    rate: u64,
    runs: &[Run],
    samples: Seq<Seq<(u64, nat)>>,
    r: Row,
)
    requires
        call_ensures(Row::of, (rate, runs), r),
        runs@.len() > 0,
        samples.len() == runs@.len(),
        forall|i: int|
            0 <= i < runs@.len() ==> (#[trigger] runs@[i]).latency@ == recorded(samples[i])
                && at_or_below(samples[i], u64::MAX as nat) > 0,
    ensures
        r.rate == rate,
        exists|p50: Seq<u64>|
            {
                &&& #[trigger] is_middle(p50, r.p50)
                &&& p50.len() == runs@.len()
                &&& forall|i: int|
                    0 <= i < p50.len() ==> is_percentile(samples[i], 1, 2, #[trigger] p50[i] as nat)
            },
        exists|p99: Seq<u64>|
            {
                &&& #[trigger] is_middle(p99, r.p99)
                &&& p99.len() == runs@.len()
                &&& forall|i: int|
                    0 <= i < p99.len() ==> is_percentile(
                        samples[i],
                        99,
                        100,
                        #[trigger] p99[i] as nat,
                    )
            },
        exists|p999: Seq<u64>|
            {
                &&& #[trigger] is_middle(p999, r.p999)
                &&& p999.len() == runs@.len()
                &&& forall|i: int|
                    0 <= i < p999.len() ==> is_percentile(
                        samples[i],
                        999,
                        1000,
                        #[trigger] p999[i] as nat,
                    )
            },
        is_middle(Seq::new(runs@.len(), |i: int| runs@[i].latency@.max), r.max),
        is_middle(
            Seq::new(
                runs@.len(),
                |i: int| per_second(runs@[i].acknowledged as nat, runs@[i].duration@) as u64,
            ),
            r.achieved,
        ),
{
    let runs = runs@;
    assert forall|num: nat, den: nat|
        0 < num <= den && den <= 1000 implies #[trigger] row_percentiles(runs, samples, num, den) by {
        assert forall|i: int| 0 <= i < runs.len() implies is_percentile(
            samples[i],
            num,
            den,
            #[trigger] quantiles_of(runs, num, den)[i] as nat,
        ) by {
            assert(runs[i].latency@ == recorded(samples[i]));
            crate::bench::histogram::lemma_recorded_is_wf(samples[i]);
            law_a_percentile_is_the_least_that_covers_its_share(samples[i], num, den);
            crate::bench::histogram::lemma_quantiles_fit(runs[i].latency, num, den);
        }
    }
    assert(row_percentiles(runs, samples, 1, 2));
    assert(row_percentiles(runs, samples, 99, 100));
    assert(row_percentiles(runs, samples, 999, 1000));
    lemma_median(quantiles_of(runs, 1, 2));
    lemma_median(quantiles_of(runs, 99, 100));
    lemma_median(quantiles_of(runs, 999, 1000));
    lemma_median(crate::bench::campaign::longest_of(runs));
    lemma_median(throughputs_of(runs));
    assert(is_middle(quantiles_of(runs, 1, 2), r.p50));
    assert(is_middle(quantiles_of(runs, 99, 100), r.p99));
    assert(is_middle(quantiles_of(runs, 999, 1000), r.p999));
    assert(Seq::new(runs.len(), |i: int| runs[i].latency@.max)
        =~= crate::bench::campaign::longest_of(runs));
    assert(Seq::new(
        runs.len(),
        |i: int| per_second(runs[i].acknowledged as nat, runs[i].duration@) as u64,
    ) =~= throughputs_of(runs));
}

spec fn row_percentiles(
    runs: Seq<Run>,
    samples: Seq<Seq<(u64, nat)>>,
    num: nat,
    den: nat,
) -> bool {
    forall|i: int|
        0 <= i < runs.len() ==> is_percentile(
            samples[i],
            num,
            den,
            #[trigger] quantiles_of(runs, num, den)[i] as nat,
        )
}

/// What a row counts is what its runs counted, added up: one run more adds its own.
pub proof fn law_a_row_counts_every_run(rate: u64, runs: Seq<Run>, one: Run)
    requires
        crate::bench::campaign::adds_up(runs.push(one)),
    ensures
        ({
            let (a, b) = (row_of(rate, runs), row_of(rate, runs.push(one)));
            &&& b.late == a.late + one.late
            &&& b.attempted == a.attempted + one.attempted
            &&& b.acknowledged == a.acknowledged + one.acknowledged
            &&& row_of(rate, Seq::empty()).late == 0
            &&& row_of(rate, Seq::empty()).attempted == 0
            &&& row_of(rate, Seq::empty()).acknowledged == 0
        }),
{
    let more = runs.push(one);
    let (l, t, k) = (
        crate::bench::campaign::lates_of(more),
        crate::bench::campaign::attempts_of(more),
        crate::bench::campaign::acknowledgements_of(more),
    );
    assert(l.drop_last() =~= crate::bench::campaign::lates_of(runs));
    assert(t.drop_last() =~= crate::bench::campaign::attempts_of(runs));
    assert(k.drop_last() =~= crate::bench::campaign::acknowledgements_of(runs));
    assert(l.last() == one.late && t.last() == one.attempted && k.last() == one.acknowledged);
}

/// Operations a second are as many as were acknowledged, over the seconds they took:
/// the largest whole number that is not above it.
pub proof fn law_throughput_is_acknowledged_over_time(operations: nat, nanos: nat)
    requires
        nanos > 0,
        operations * 1_000_000_000 / nanos <= u64::MAX,
    ensures
        per_second(operations, nanos) * nanos <= operations * 1_000_000_000,
        operations * 1_000_000_000 < (per_second(operations, nanos) + 1) * nanos,
{
    let x = operations * 1_000_000_000;
    let q = x / nanos;
    assert(q * nanos <= x && x < (q + 1) * nanos) by (nonlinear_arith)
        requires
            q == x / nanos,
            nanos > 0,
    ;
}

// ------------------------------------------------------------------ reports

/// Whether a text says a part somewhere.
pub open spec fn says(text: Seq<char>, part: Seq<char>) -> bool {
    exists|before: Seq<char>, after: Seq<char>| text == #[trigger] (before + part + after)
}

/// What a text ends with, it says.
proof fn lemma_says_at_end(x: Seq<char>, p: Seq<char>, q: Seq<char>, r: Seq<char>)
    ensures
        says(x + p + q + r, p + q + r),
{
    assert(x + p + q + r =~= x + (p + q + r) + Seq::empty());
}

/// What a text says, it still says where more follows.
pub proof fn lemma_says_on(text: Seq<char>, part: Seq<char>, more: Seq<char>)
    requires
        says(text, part),
    ensures
        says(text + more, part),
{
    let (before, after) = choose|before: Seq<char>, after: Seq<char>|
        text == #[trigger] (before + part + after);
    assert(text + more =~= before + part + (after + more));
}

/// What a text says, it still says where something comes before it.
pub proof fn lemma_says_behind(before: Seq<char>, text: Seq<char>, part: Seq<char>)
    requires
        says(text, part),
    ensures
        says(before + text, part),
{
    let (b, a) = choose|b: Seq<char>, a: Seq<char>| text == #[trigger] (b + part + a);
    assert(before + text =~= (before + b) + part + a);
}

/// What a text says of it all, it says.
pub proof fn lemma_says_itself(text: Seq<char>)
    ensures
        says(text, text),
{
    assert(text =~= Seq::empty() + text + Seq::empty());
}

/// What is reported of a run is what it measured: each figure stands under its own
/// name, and is that percentile of its samples.
pub proof fn law_a_run_reports_its_percentiles(
    run: &Run,
    samples: Seq<(u64, nat)>,
    text: String,
)
    requires
        call_ensures(render_run, (run,), text),
        run.latency@ == recorded(samples),
        at_or_below(samples, u64::MAX as nat) > 0,
    ensures
        exists|q: nat| #[trigger]
            is_percentile(samples, 1, 2, q) && says(
                text@,
                "latency ms  p50 "@ + thousandths_of_ms(q) + "  p90 "@,
            ),
        exists|q: nat| #[trigger]
            is_percentile(samples, 9, 10, q) && says(
                text@,
                "  p90 "@ + thousandths_of_ms(q) + "  p99 "@,
            ),
        exists|q: nat| #[trigger]
            is_percentile(samples, 99, 100, q) && says(
                text@,
                "  p99 "@ + thousandths_of_ms(q) + "  p999 "@,
            ),
        exists|q: nat| #[trigger]
            is_percentile(samples, 999, 1000, q) && says(
                text@,
                "  p999 "@ + thousandths_of_ms(q) + "  max "@,
            ),
        says(text@, "  max "@ + thousandths_of_ms(run.latency@.max as nat) + "\nlate "@),
        says(
            text@,
            "\nacknowledged "@ + decimal(run.acknowledged as nat) + " of "@ + decimal(
                run.attempted as nat,
            ) + " attempted in "@,
        ),
{
    law_a_percentile_is_the_least_that_covers_its_share(samples, 1, 2);
    law_a_percentile_is_the_least_that_covers_its_share(samples, 9, 10);
    law_a_percentile_is_the_least_that_covers_its_share(samples, 99, 100);
    law_a_percentile_is_the_least_that_covers_its_share(samples, 999, 1000);
    let h = run.latency@;
    let (a, b, c, d, e) = (
        thousandths_of_ms(quantile_of(h, 1, 2)),
        thousandths_of_ms(quantile_of(h, 9, 10)),
        thousandths_of_ms(quantile_of(h, 99, 100)),
        thousandths_of_ms(quantile_of(h, 999, 1000)),
        thousandths_of_ms(h.max as nat),
    );
    let head = crate::bench::campaign::offered_text(*run);
    let (l50, l90, l99, l999, lmax, llate) = (
        "latency ms  p50 "@,
        "  p90 "@,
        "  p99 "@,
        "  p999 "@,
        "  max "@,
        "\nlate "@,
    );
    let t1 = l50 + a + l90;
    let t2 = t1 + b + l99;
    let t3 = t2 + c + l999;
    let t4 = t3 + d + lmax;
    let t5 = t4 + e + llate;
    let t6 = t5 + decimal(run.late as nat);
    let t7 = t6 + crate::bench::campaign::harness_note(*run);
    assert(t7 == crate::bench::campaign::latency_text(*run));
    let (p1, p2, p3, p4, p5) = (
        l50 + a + l90,
        l90 + b + l99,
        l99 + c + l999,
        l999 + d + lmax,
        lmax + e + llate,
    );
    lemma_says_itself(t1);
    lemma_says_on(t1, p1, b);
    lemma_says_on(t1 + b, p1, l99);
    lemma_says_at_end(l50 + a, l90, b, l99);
    lemma_says_at_end(t1 + b, l99, c, l999);
    lemma_says_at_end(t2 + c, l999, d, lmax);
    lemma_says_at_end(t3 + d, lmax, e, llate);
    lemma_says_twice_on(t2, p1, c, l999);
    lemma_says_twice_on(t3, p1, d, lmax);
    lemma_says_twice_on(t4, p1, e, llate);
    lemma_says_twice_on(t2, p2, c, l999);
    lemma_says_twice_on(t3, p2, d, lmax);
    lemma_says_twice_on(t4, p2, e, llate);
    lemma_says_twice_on(t3, p3, d, lmax);
    lemma_says_twice_on(t4, p3, e, llate);
    lemma_says_twice_on(t4, p4, e, llate);
    lemma_says_in_the_end(head, t5, t6, t7, p1);
    lemma_says_in_the_end(head, t5, t6, t7, p2);
    lemma_says_in_the_end(head, t5, t6, t7, p3);
    lemma_says_in_the_end(head, t5, t6, t7, p4);
    lemma_says_in_the_end(head, t5, t6, t7, p5);
    assert(is_percentile(samples, 1, 2, quantile_of(h, 1, 2)));
    assert(is_percentile(samples, 9, 10, quantile_of(h, 9, 10)));
    assert(is_percentile(samples, 99, 100, quantile_of(h, 99, 100)));
    assert(is_percentile(samples, 999, 1000, quantile_of(h, 999, 1000)));
    lemma_offered_says_what_was_acknowledged(*run);
    lemma_says_on(
        head,
        "\nacknowledged "@ + decimal(run.acknowledged as nat) + " of "@ + decimal(
            run.attempted as nat,
        ) + " attempted in "@,
        t7,
    );
}

proof fn lemma_says_twice_on(text: Seq<char>, part: Seq<char>, a: Seq<char>, b: Seq<char>)
    requires
        says(text, part),
    ensures
        says(text + a + b, part),
{
    lemma_says_on(text, part, a);
    lemma_says_on(text + a, part, b);
}

proof fn lemma_says_in_the_end(
    head: Seq<char>,
    t5: Seq<char>,
    t6: Seq<char>,
    t7: Seq<char>,
    part: Seq<char>,
)
    requires
        says(t5, part),
        exists|x: Seq<char>| t6 == #[trigger] (t5 + x),
        exists|x: Seq<char>| t7 == #[trigger] (t6 + x),
    ensures
        says(head + t7, part),
{
    let x = choose|x: Seq<char>| t6 == #[trigger] (t5 + x);
    let y = choose|x: Seq<char>| t7 == #[trigger] (t6 + x);
    lemma_says_twice_on(t5, part, x, y);
    lemma_says_behind(head, t7, part);
}

/// What was offered is said with what came back of it.
proof fn lemma_offered_says_what_was_acknowledged(run: Run)
    ensures
        says(
            crate::bench::campaign::offered_text(run),
            "\nacknowledged "@ + decimal(run.acknowledged as nat) + " of "@ + decimal(
                run.attempted as nat,
            ) + " attempted in "@,
        ),
{
    let (l, a, m, b, r) = (
        "\nacknowledged "@,
        decimal(run.acknowledged as nat),
        " of "@,
        decimal(run.attempted as nat),
        " attempted in "@,
    );
    let head = "mix "@ + crate::bench::workload::mix_name(run.mix) + "\nshape "@
        + crate::bench::workload::shape_name(run.shape) + "\nvalue "@ + decimal(
        run.value_bytes as nat,
    ) + " B, key space "@ + decimal(run.key_space as nat);
    let text = head + l + a + m + b + r;
    assert(text =~= head + (l + a + m + b + r) + Seq::empty());
    assert(says(text, l + a + m + b + r));
    let s = crate::bench::campaign::tenths_of_s(run.duration@);
    lemma_says_twice_on(text, l + a + m + b + r, s, "s -> "@);
    lemma_says_twice_on(
        text + s + "s -> "@,
        l + a + m + b + r,
        decimal(per_second(run.acknowledged as nat, run.duration@) as nat),
        " ops/s\n"@,
    );
}

/// A row of the table has its figures in the order of the columns: what was
/// acknowledged of what was attempted, and then the median, the ninety-ninth
/// percentile, the one beyond it and the longest.
pub proof fn law_a_row_is_printed_in_its_columns(row: &Row, text: String)
    requires
        call_ensures(Row::render, (row,), text),
    ensures
        says(
            text@,
            padded(thousandths_of_ms(row.p50 as nat), ' ', 8) + "  "@ + padded(
                thousandths_of_ms(row.p99 as nat),
                ' ',
                8,
            ) + "  "@ + padded(thousandths_of_ms(row.p999 as nat), ' ', 8) + "  "@ + padded(
                thousandths_of_ms(row.max as nat),
                ' ',
                8,
            ) + "  "@ + padded(decimal(row.late as nat), ' ', 5),
        ),
        says(
            text@,
            padded(decimal(row.rate as nat), ' ', 7) + "  "@ + padded(
                decimal(row.achieved as nat),
                ' ',
                9,
            ) + "  "@,
        ),
{
    let (a, b, c, d, e) = (
        padded(thousandths_of_ms(row.p50 as nat), ' ', 8),
        padded(thousandths_of_ms(row.p99 as nat), ' ', 8),
        padded(thousandths_of_ms(row.p999 as nat), ' ', 8),
        padded(thousandths_of_ms(row.max as nat), ' ', 8),
        padded(decimal(row.late as nat), ' ', 5),
    );
    let two = "  "@;
    let head = padded(decimal(row.rate as nat), ' ', 7) + two + padded(
        decimal(row.achieved as nat),
        ' ',
        9,
    ) + two;
    let acked = head + padded(
        crate::bench::campaign::percent(row.acknowledged as nat, row.attempted as nat),
        ' ',
        7,
    ) + "%  "@;
    let mark = if row.behind() {
        "  *"@
    } else {
        ""@
    };
    let figures = a + two + b + two + c + two + d + two + e;
    let line = acked + a + two + b + two + c + two + d + two + e;
    assert(line =~= acked + figures + Seq::empty());
    assert(says(line, figures));
    lemma_says_twice_on(line, figures, mark, "\n"@);
    lemma_says_itself(head);
    lemma_says_twice_on(
        head,
        head,
        padded(
            crate::bench::campaign::percent(row.acknowledged as nat, row.attempted as nat),
            ' ',
            7,
        ),
        "%  "@,
    );
    lemma_says_on(acked, head, figures);
    assert(acked + figures =~= line);
    lemma_says_twice_on(line, head, mark, "\n"@);
    assert(text@ == line + mark + "\n"@);
}

/// The curve of a campaign is its table: for each row, in order, the throughput that
/// was achieved against the tail.
pub proof fn law_the_curve_is_the_table(setup: Setup, rows: Seq<Row>)
    ensures
        setup.curve(rows).points.len() == rows.len(),
        forall|i: int|
            0 <= i < rows.len() ==> (#[trigger] setup.curve(rows).points[i]).throughput
                == rows[i].achieved && setup.curve(rows).points[i].latency_ns == rows[i].p99,
{
}

// ---------------------------------------------------------------- failovers

/// How many of the first trials recovered.
pub open spec fn recovered_before(trials: Seq<Trial>, n: int) -> nat
    decreases n,
{
    if n <= 0 {
        0
    } else {
        recovered_before(trials, n - 1) + (if trials[n - 1] is Recovered {
            1nat
        } else {
            0
        })
    }
}

/// How many of the first trials timed out.
pub open spec fn timed_out_before(trials: Seq<Trial>, n: int) -> nat
    decreases n,
{
    if n <= 0 {
        0
    } else {
        timed_out_before(trials, n - 1) + (if trials[n - 1] is TimedOut {
            1nat
        } else {
            0
        })
    }
}

proof fn lemma_recoveries(trials: Seq<Trial>, n: int)
    requires
        0 <= n <= trials.len(),
    ensures
        ({
            let all = recoveries_of(trials.take(n));
            &&& all.len() == recovered_before(trials, n)
            &&& outcomes(trials.take(n), Trial::TimedOut) == timed_out_before(trials, n)
            &&& forall|i: int|
                0 <= i < n && (#[trigger] trials[i]) is Recovered ==> {
                    let k = recovered_before(trials, i) as int;
                    k < all.len() && all[k] == trials[i]->Recovered_0
                }
        }),
    decreases n,
{
    if n > 0 {
        lemma_recoveries(trials, n - 1);
        assert(trials.take(n).drop_last() =~= trials.take(n - 1));
        assert(trials.take(n).last() == trials[n - 1]);
    }
}

/// A report on failovers counts every trial once, and its percentiles are those of
/// the recoveries, and of nothing else: a trial that was no measurement is no
/// sample.
pub proof fn law_every_trial_is_counted_once(trials: &[Trial], r: Failover)
    requires
        call_ensures(summarise, (trials,), r),
    ensures
        r.trials == trials@.len(),
        r.recovered == recovered_before(trials@, trials@.len() as int),
        r.timed_out == timed_out_before(trials@, trials@.len() as int),
        r.not_healthy == r.trials - r.recovered - r.timed_out,
        r.recoveries@.len() == r.recovered,
        forall|i: int|
            0 <= i < trials@.len() && (#[trigger] trials@[i]) is Recovered
                ==> r.recoveries@[recovered_before(trials@, i) as int]
                == trials@[i]->Recovered_0,
        r.latency@ == recorded(
            Seq::new(r.recoveries@.len(), |i: int| (r.recoveries@[i]@ as u64, 1nat)),
        ),
{
    lemma_recoveries(trials@, trials@.len() as int);
    assert(trials@.take(trials@.len() as int) =~= trials@);
    assert(samples_of(r.recoveries@) =~= Seq::new(
        r.recoveries@.len(),
        |i: int| (r.recoveries@[i]@ as u64, 1nat),
    ));
}

/// The medians of the two halves are the middle ones of the recoveries in each half,
/// in the order the trials ran; fewer than four recoveries have no halves. The median
/// is stable where the larger is within a tenth of the smaller.
pub proof fn law_halves_are_compared(
    report: &Failover,
    halves: Option<(Duration, Duration)>,
    stable: bool,
)
    requires
        call_ensures(Failover::median_halves, (report,), halves),
        call_ensures(Failover::median_is_stable, (report,), stable),
    ensures
        halves is None <==> report.recoveries@.len() < 4,
        halves is None ==> !stable,
        halves matches Some((first, second)) ==> {
            let n = report.recoveries@.len() as int;
            &&& is_middle(
                Seq::new((n / 2) as nat, |i: int| report.recoveries@[i]@ as u64),
                first@ as u64,
            )
            &&& is_middle(
                Seq::new((n - n / 2) as nat, |i: int| report.recoveries@[n / 2 + i]@ as u64),
                second@ as u64,
            )
            &&& stable <==> first@ * 10 <= second@ * 11 && second@ * 10 <= first@ * 11
        },
{
    let n = report.recoveries@.len() as int;
    if n >= 4 {
        let (a, b) = (report.recoveries@.take(n / 2), report.recoveries@.skip(n / 2));
        let (x, y) = (
            crate::bench::failover::lengths(a),
            crate::bench::failover::lengths(b),
        );
        lemma_median(x);
        lemma_median(y);
        assert(x =~= Seq::new((n / 2) as nat, |i: int| report.recoveries@[i]@ as u64));
        assert(y =~= Seq::new(
            (n - n / 2) as nat,
            |i: int| report.recoveries@[n / 2 + i]@ as u64,
        ));
    }
}

/// A trial is a recovery only where the cluster served before, something was killed
/// and a write was then acknowledged; and it took as long as that.
pub proof fn law_a_recovery_follows_a_kill(
    stage: Stage,
    seen: Seen,
    patience: Duration,
    budget: Duration,
    r: Stage,
)
    requires
        call_ensures(advance, (stage, seen, patience, budget), r),
        !(stage is Over),
    ensures
        r matches Stage::Over(Trial::Recovered(took)) ==> stage is Waiting && seen
            == Seen::Served(took),
        stage is Waiting && seen is Served ==> r == Stage::Over(
            Trial::Recovered(seen->Served_0),
        ),
        r is Waiting && !(stage is Waiting) ==> stage is Killing && seen == Seen::Killed(true),
        r is Killing && !(stage is Killing) ==> stage is Probing && seen is Served,
        r == Stage::Over(Trial::TimedOut) ==> stage is Waiting && seen is NotServed
            && seen->NotServed_0@ >= budget@,
        stage is Waiting && seen is NotServed && seen->NotServed_0@ >= budget@ ==> r
            == Stage::Over(Trial::TimedOut),
        stage is Probing && seen is NotServed && seen->NotServed_0@ >= patience@ ==> r
            == Stage::Over(Trial::NotHealthyBefore),
        stage is Killing && seen == Seen::Killed(false) ==> r == Stage::Over(
            Trial::NotHealthyBefore,
        ),
{
}

/// A report on failovers quotes each percentile under its own name.
pub proof fn law_a_failover_report_quotes_its_percentiles(
    report: &Failover,
    samples: Seq<(u64, nat)>,
    text: String,
)
    requires
        call_ensures(Failover::render, (report,), text),
        report.latency@ == recorded(samples),
        at_or_below(samples, u64::MAX as nat) > 0,
    ensures
        exists|q: nat| #[trigger]
            is_percentile(samples, 1, 2, q) && says(
                text@,
                " ms\np50     "@ + tenths_of_ms(q) + " ms\np90     "@,
            ),
        exists|q: nat| #[trigger]
            is_percentile(samples, 90, 100, q) && says(
                text@,
                " ms\np90     "@ + tenths_of_ms(q) + " ms\np99     "@,
            ),
        exists|q: nat| #[trigger]
            is_percentile(samples, 99, 100, q) && says(
                text@,
                " ms\np99     "@ + tenths_of_ms(q) + " ms\nmax     "@,
            ),
        exists|q: nat| #[trigger]
            is_percentile(samples, 10, 100, q) && says(
                text@,
                "\n\ntime to the first acknowledged write after the leader was killed\np10     "@
                    + tenths_of_ms(q) + " ms\np50     "@,
            ),
{
    law_a_percentile_is_the_least_that_covers_its_share(samples, 10, 100);
    law_a_percentile_is_the_least_that_covers_its_share(samples, 1, 2);
    law_a_percentile_is_the_least_that_covers_its_share(samples, 90, 100);
    law_a_percentile_is_the_least_that_covers_its_share(samples, 99, 100);
    let h = report.latency@;
    let (a, b, c, d, e) = (
        tenths_of_ms(quantile_of(h, 10, 100)),
        tenths_of_ms(quantile_of(h, 1, 2)),
        tenths_of_ms(quantile_of(h, 90, 100)),
        tenths_of_ms(quantile_of(h, 99, 100)),
        tenths_of_ms(h.max as nat),
    );
    let (l10, l50, l90, l99, lmax) = (
        "\n\ntime to the first acknowledged write after the leader was killed\np10     "@,
        " ms\np50     "@,
        " ms\np90     "@,
        " ms\np99     "@,
        " ms\nmax     "@,
    );
    let head = "trials       "@ + decimal(report.trials as nat) + "\nrecovered    "@ + decimal(
        report.recovered as nat,
    ) + "\nnot healthy  "@ + decimal(report.not_healthy as nat)
        + " (discarded: the cluster was not serving writes when the trial began)\ntimed out    "@
        + decimal(report.timed_out as nat);
    let t1 = head + l10 + a + l50;
    let t2 = t1 + b + l90;
    let t3 = t2 + c + l99;
    let t4 = t3 + d + lmax;
    let t5 = t4 + e
        + " ms\n\nThe spread is the measurement, not noise around one. Failover here is\nbimodal — which node campaigns first decides which mode a trial lands\nin — so p10 and p90 say more about what a client sees than p50 does,\nand p50 is the one statistic that sits between the modes.\n"@;
    let t6 = t5 + report.caveat_text();
    assert(text@ == t6);
    let last = " ms\n\nThe spread is the measurement, not noise around one. Failover here is\nbimodal — which node campaigns first decides which mode a trial lands\nin — so p10 and p90 say more about what a client sees than p50 does,\nand p50 is the one statistic that sits between the modes.\n"@;
    let (p1, p2, p3, p4) = (l10 + a + l50, l50 + b + l90, l90 + c + l99, l99 + d + lmax);
    lemma_says_at_end(head, l10, a, l50);
    lemma_says_at_end(head + l10 + a, l50, b, l90);
    lemma_says_at_end(t1 + b, l90, c, l99);
    lemma_says_at_end(t2 + c, l99, d, lmax);
    lemma_says_twice_on(t1, p1, b, l90);
    lemma_says_twice_on(t2, p1, c, l99);
    lemma_says_twice_on(t3, p1, d, lmax);
    lemma_says_twice_on(t4, p1, e, last);
    lemma_says_twice_on(t2, p2, c, l99);
    lemma_says_twice_on(t3, p2, d, lmax);
    lemma_says_twice_on(t4, p2, e, last);
    lemma_says_twice_on(t3, p3, d, lmax);
    lemma_says_twice_on(t4, p3, e, last);
    lemma_says_twice_on(t4, p4, e, last);
    lemma_says_on(t5, p1, report.caveat_text());
    lemma_says_on(t5, p2, report.caveat_text());
    lemma_says_on(t5, p3, report.caveat_text());
    lemma_says_on(t5, p4, report.caveat_text());
    assert(is_percentile(samples, 10, 100, quantile_of(h, 10, 100)));
    assert(is_percentile(samples, 1, 2, quantile_of(h, 1, 2)));
    assert(is_percentile(samples, 90, 100, quantile_of(h, 90, 100)));
    assert(is_percentile(samples, 99, 100, quantile_of(h, 99, 100)));
}

} // verus!
