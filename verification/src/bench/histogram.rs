//! A latency histogram with bounded error.
//!
//! Bucket by magnitude, so that the relative error is bounded everywhere rather
//! than the absolute error being bounded near zero and useless at the tail. A
//! fixed-width bucket array that resolves microseconds at 100 µs resolves
//! nothing at 10 s, and the tail is the whole reason to record latency at all.
//!
//! Each power of two is divided into 128 linear buckets, so a value is recorded
//! to within 1/128 of itself. Reported percentiles are the upper edge of the
//! bucket, so a quoted p99 is never optimistic.

use vstd::prelude::*;

verus! {

/// Sub-buckets per power of two. Values below twice this are recorded exactly,
/// because the bucketing scheme has nothing to divide.
pub const SUB_BUCKETS: usize = 128;

/// Enough buckets for every 64-bit value.
pub const BUCKETS: usize = 7424;

/// Which bucket a value falls in: itself, where it is small, and otherwise the
/// bucket of its half, one power of two further up.
pub open spec fn bucket_index(value: nat) -> nat
    decreases value,
{
    if value < 256 {
        value
    } else {
        128 + bucket_index(value / 2)
    }
}

/// The largest value that falls in a bucket.
pub open spec fn bucket_edge(index: nat) -> nat
    decreases index,
{
    if index < 256 {
        index
    } else {
        2 * bucket_edge((index - 128) as nat) + 1
    }
}

/// How many values fall in the bucket of a value.
pub open spec fn bucket_width(value: nat) -> nat
    decreases value,
{
    if value < 256 {
        1
    } else {
        2 * bucket_width(value / 2)
    }
}

/// Which bucket a value falls in.
///
/// Small latencies are exact: the value is the index. Above that, the index is
/// the magnitude followed by the position within it.
pub fn bucket_of(value: u64) -> (r: usize)
    ensures
        r == bucket_index(value as nat),
        r < BUCKETS,
{
    let mut rest: u64 = value;
    let mut above: usize = 0;
    let ghost mut left: nat = 56;
    proof {
        lemma_edge_bound(0);
        lemma_edge_bound_of_all();
    }
    while rest >= 256
        invariant
            bucket_index(value as nat) == above + bucket_index(rest as nat),
            above == 128 * (56 - left),
            left <= 56,
            rest < edge_bound(left),
        decreases rest,
    {
        proof {
            lemma_edge_bound(0);
            lemma_edge_bound((left - 1) as nat);
            left = (left - 1) as nat;
        }
        rest = rest / 2;
        above += 128;
    }
    above + rest as usize
}

/// The largest value that falls in a bucket: the upper edge.
///
/// Percentiles report this rather than the lower edge or the midpoint, so a
/// quoted p99 is an upper bound on the real one and never flatters the result.
pub fn upper_edge(index: usize) -> (r: u64)
    requires
        index < BUCKETS,
    ensures
        r == bucket_edge(index as nat),
{
    let mut above: usize = 0;
    let mut rest: usize = index;
    while rest >= 256
        invariant
            rest + 128 * above == index,
            above > 0 ==> rest >= 128,
            index < BUCKETS,
        decreases rest,
    {
        rest -= 128;
        above += 1;
    }
    let mut edge: u64 = rest as u64;
    let ghost mut shown: nat = rest as nat;
    let ghost mut k: nat = 0;
    proof {
        assert(above <= 56);
        lemma_edge_bound(0);
    }
    while above > 0
        invariant
            shown + 128 * above == index,
            index < BUCKETS,
            edge == bucket_edge(shown),
            above > 0 ==> shown >= 128,
            shown < 256 + 128 * k,
            edge < edge_bound(k),
            k + above <= 56,
        decreases above,
    {
        proof {
            lemma_edge_bound(k);
            lemma_edge_bound_fits(k + 1);
            assert(bucket_edge(shown + 128) == 2 * bucket_edge(shown) + 1);
            shown = shown + 128;
            k = k + 1;
        }
        edge = edge * 2 + 1;
        above -= 1;
    }
    edge
}

/// What an edge is below, so many powers of two up.
spec fn edge_bound(k: nat) -> nat
    decreases k,
{
    if k == 0 {
        256
    } else {
        2 * edge_bound((k - 1) as nat)
    }
}

proof fn lemma_edge_bound(k: nat)
    ensures
        edge_bound(k + 1) == 2 * edge_bound(k),
        edge_bound(0) == 256,
{
}

proof fn lemma_edge_bound_of_all()
    ensures
        edge_bound(56) == 0x1_0000_0000_0000_0000,
{
    reveal_with_fuel(edge_bound, 57);
}

proof fn lemma_edge_bound_fits(k: nat)
    requires
        k <= 56,
    ensures
        edge_bound(k) <= 0x1_0000_0000_0000_0000,
    decreases 56 - k,
{
    if k == 56 {
        lemma_edge_bound_of_all();
    } else {
        lemma_edge_bound_fits(k + 1);
        lemma_edge_bound(k);
    }
}

// -------------------------------------------------------------------- laws

/// The edge of the bucket a value falls in is never below the value, and never
/// more than a hundred and twenty-eighth of it away.
pub proof fn law_the_relative_error_is_bounded(value: nat)
    ensures
        value <= bucket_edge(bucket_index(value)),
        128 * (bucket_edge(bucket_index(value)) - value) <= value,
{
    lemma_edge_is_near(value);
}

proof fn lemma_edge_is_near(value: nat)
    ensures
        value <= bucket_edge(bucket_index(value)),
        bucket_edge(bucket_index(value)) - value < bucket_width(value),
        value >= 128 ==> value >= 128 * bucket_width(value),
        value >= 128 ==> bucket_index(value) >= 128,
    decreases value,
{
    if value >= 256 {
        lemma_edge_is_near(value / 2);
    }
}

/// A bucket's edge falls in that bucket.
pub proof fn law_an_edge_falls_in_its_bucket(index: nat)
    ensures
        bucket_index(bucket_edge(index)) == index,
    decreases index,
{
    if index >= 256 {
        law_an_edge_falls_in_its_bucket((index - 128) as nat);
        lemma_edge_grows((index - 128) as nat);
        assert((2 * bucket_edge((index - 128) as nat) + 1) / 2 == bucket_edge(
            (index - 128) as nat,
        ));
    }
}

proof fn lemma_edge_grows(index: nat)
    ensures
        bucket_edge(index) >= index,
    decreases index,
{
    if index >= 256 {
        lemma_edge_grows((index - 128) as nat);
    }
}

/// Edges are in the order of their buckets.
proof fn lemma_edges_ascend(a: nat, b: nat)
    requires
        a <= b,
    ensures
        bucket_edge(a) <= bucket_edge(b),
    decreases b,
{
    if b >= 256 {
        if a >= 256 {
            lemma_edges_ascend((a - 128) as nat, (b - 128) as nat);
        } else {
            lemma_edge_grows(b);
        }
    }
}

// --------------------------------------------------------------- histograms

/// Latency samples, in nanoseconds.
#[derive(Debug, Clone, PartialEq, Eq)]
pub struct Histogram {
    /// One counter per bucket, indexed by [`bucket_of`].
    counts: Vec<u64>,
    count: u64,
    min: u64,
    max: u64,
    /// Wide, because a long open-loop run at microsecond latencies overflows a
    /// 64-bit sum in about five hours, and a mean that silently wrapped would be
    /// worse than no mean.
    total: u128,
}

/// What a [`Histogram`] stands for.
pub struct HistogramView {
    /// How many samples fell in each bucket.
    pub counts: Seq<nat>,
    /// How many samples there are.
    pub count: nat,
    pub min: u64,
    pub max: u64,
    /// What the samples add up to.
    pub total: nat,
}

impl View for Histogram {
    type V = HistogramView;

    closed spec fn view(&self) -> HistogramView {
        HistogramView {
            counts: Seq::new(self.counts@.len(), |i: int| self.counts@[i] as nat),
            count: self.count as nat,
            min: self.min,
            max: self.max,
            total: self.total as nat,
        }
    }
}

/// What some counters add up to.
pub open spec fn added_up(counts: Seq<nat>) -> nat
    decreases counts.len(),
{
    if counts.len() == 0 {
        0
    } else {
        added_up(counts.drop_last()) + counts.last()
    }
}

impl HistogramView {
    /// No samples.
    pub open spec fn empty() -> HistogramView {
        HistogramView {
            counts: Seq::new(BUCKETS as nat, |i: int| 0nat),
            count: 0,
            min: u64::MAX,
            max: 0,
            total: 0,
        }
    }

    /// Whether the counters are the samples', the sum is one they can have, and the
    /// extremes are those of no sample or of some.
    pub open spec fn wf(self) -> bool {
        &&& self.counts.len() == BUCKETS
        &&& added_up(self.counts) == self.count
        &&& self.total <= self.count * u64::MAX
        &&& self.count == 0 ==> self.min == u64::MAX && self.max == 0
        &&& self.count > 0 ==> self.min <= self.max
    }

    /// A sample that stands for so many operations.
    pub open spec fn with(self, value: u64, weight: nat) -> HistogramView {
        if weight == 0 {
            self
        } else {
            let index = bucket_index(value as nat) as int;
            HistogramView {
                counts: self.counts.update(index, self.counts[index] + weight),
                count: self.count + weight,
                min: if value < self.min {
                    value
                } else {
                    self.min
                },
                max: if value > self.max {
                    value
                } else {
                    self.max
                },
                total: self.total + value as nat * weight,
            }
        }
    }

    /// Another histogram's samples taken in.
    pub open spec fn merged(self, other: HistogramView) -> HistogramView {
        HistogramView {
            counts: Seq::new(self.counts.len(), |i: int| self.counts[i] + other.counts[i]),
            count: self.count + other.count,
            min: if other.count > 0 && other.min < self.min {
                other.min
            } else {
                self.min
            },
            max: if other.count > 0 && other.max > self.max {
                other.max
            } else {
                self.max
            },
            total: self.total + other.total,
        }
    }

    /// How many samples there are up to and including a bucket.
    pub open spec fn seen_through(self, index: int) -> nat {
        added_up(self.counts.take(index + 1))
    }
}

/// A counter changed in a sum.
proof fn lemma_added_up_update(counts: Seq<nat>, index: int, more: nat)
    requires
        0 <= index < counts.len(),
    ensures
        added_up(counts.update(index, counts[index] + more)) == added_up(counts) + more,
        counts[index] <= added_up(counts),
    decreases counts.len(),
{
    let after = counts.update(index, counts[index] + more);
    if index == counts.len() - 1 {
        assert(after.drop_last() =~= counts.drop_last());
    } else {
        assert(after.drop_last() =~= counts.drop_last().update(
            index,
            counts.drop_last()[index] + more,
        ));
        lemma_added_up_update(counts.drop_last(), index, more);
    }
}

proof fn lemma_added_up_sum(a: Seq<nat>, b: Seq<nat>)
    requires
        a.len() == b.len(),
    ensures
        added_up(Seq::new(a.len(), |i: int| a[i] + b[i])) == added_up(a) + added_up(b),
    decreases a.len(),
{
    let sum = Seq::new(a.len(), |i: int| a[i] + b[i]);
    if a.len() > 0 {
        let (ha, hb) = (a.drop_last(), b.drop_last());
        assert(sum.drop_last() =~= Seq::new(ha.len(), |i: int| ha[i] + hb[i]));
        lemma_added_up_sum(ha, hb);
    }
}

proof fn lemma_added_up_empty(n: nat)
    ensures
        added_up(Seq::new(n, |i: int| 0nat)) == 0,
    decreases n,
{
    if n > 0 {
        let all = Seq::new(n, |i: int| 0nat);
        assert(all.drop_last() =~= Seq::new((n - 1) as nat, |i: int| 0nat));
        lemma_added_up_empty((n - 1) as nat);
    }
}

/// What is added up grows with what is added.
proof fn lemma_added_up_prefix(counts: Seq<nat>, n: int)
    requires
        0 <= n <= counts.len(),
    ensures
        added_up(counts.take(n)) <= added_up(counts),
    decreases counts.len(),
{
    if n < counts.len() {
        assert(counts.drop_last().take(n) =~= counts.take(n));
        lemma_added_up_prefix(counts.drop_last(), n);
    } else {
        assert(counts.take(n) =~= counts);
    }
}

/// The rank that a share of the samples ends at: the share of them, rounded up,
/// and the first at least.
pub open spec fn rank(count: nat, num: nat, den: nat) -> nat {
    let exact = if num >= den {
        count
    } else {
        (count * num + den - 1) as nat / den
    };
    if exact == 0 {
        1
    } else {
        exact
    }
}

/// The first bucket at which so many samples have been seen.
pub open spec fn first_reaching(h: HistogramView, target: nat, from: int) -> Option<int>
    decreases h.counts.len() - from,
{
    if from < 0 || from >= h.counts.len() {
        None
    } else if h.counts[from] > 0 && h.seen_through(from) >= target {
        Some(from)
    } else {
        first_reaching(h, target, from + 1)
    }
}

/// The value at a share of the samples.
pub open spec fn quantile_of(h: HistogramView, num: nat, den: nat) -> nat {
    if h.count == 0 {
        0
    } else {
        match first_reaching(h, rank(h.count, num, den), 0) {
            Some(index) => bucket_edge(index as nat),
            None => h.max as nat,
        }
    }
}

/// The buckets that are not empty, from the first so many.
pub open spec fn filled(h: HistogramView, n: int) -> Seq<(u64, u64)>
    decreases n,
{
    if n <= 0 {
        Seq::empty()
    } else {
        let before = filled(h, n - 1);
        if h.counts[n - 1] > 0 {
            before.push((bucket_edge((n - 1) as nat) as u64, h.counts[n - 1] as u64))
        } else {
            before
        }
    }
}

impl Default for Histogram {
    fn default() -> (r: Self)
        ensures
            r@ == HistogramView::empty(),
            r@.wf(),
    {
        Self::new()
    }
}

impl Histogram {
    pub fn new() -> (r: Self)
        ensures
            r@ == HistogramView::empty(),
            r@.wf(),
    {
        let mut counts: Vec<u64> = Vec::new();
        while counts.len() < BUCKETS
            invariant
                counts@.len() <= BUCKETS,
                forall|i: int| 0 <= i < counts@.len() ==> counts@[i] == 0,
            decreases BUCKETS - counts@.len(),
        {
            counts.push(0);
        }
        let r = Histogram { counts, count: 0, min: u64::MAX, max: 0, total: 0 };
        proof {
            assert(r@.counts =~= HistogramView::empty().counts);
            lemma_added_up_empty(BUCKETS as nat);
        }
        r
    }

    pub fn record(&mut self, value_ns: u64)
        requires
            old(self)@.wf(),
            old(self)@.count < u64::MAX,
        ensures
            final(self)@ == old(self)@.with(value_ns, 1),
            final(self)@.wf(),
    {
        self.record_weighted(value_ns, 1);
    }

    /// Record a sample that stands for `weight` operations.
    ///
    /// The coordinated-omission correction uses this: when an open-loop client
    /// falls behind its schedule, the requests it did not get to send are not
    /// missing at random. They are missing because the system was slow, and
    /// dropping them makes the tail look better the worse the system behaves.
    pub fn record_weighted(&mut self, value_ns: u64, weight: u64)
        requires
            old(self)@.wf(),
            old(self)@.count + weight <= u64::MAX,
        ensures
            final(self)@ == old(self)@.with(value_ns, weight as nat),
            final(self)@.wf(),
    {
        if weight == 0 {
            return;
        }
        let index: usize = bucket_of(value_ns);
        let ghost before = self@;
        proof {
            lemma_added_up_update(before.counts, index as int, weight as nat);
            assert(before.counts[index as int] == self.counts@[index as int]);
            assert(value_ns as nat * weight as nat <= u64::MAX * weight) by (nonlinear_arith)
                requires
                    value_ns <= u64::MAX,
            ;
            assert((before.count + weight) * u64::MAX == before.count * u64::MAX + weight
                * u64::MAX) by (nonlinear_arith);
            assert((before.count + weight) * u64::MAX <= u64::MAX * u64::MAX)
                by (nonlinear_arith)
                requires
                    before.count + weight <= u64::MAX,
            ;
        }
        let product: u128 = value_ns as u128 * weight as u128;
        let held: u64 = self.counts[index];
        self.counts.set(index, held + weight);
        self.count = self.count + weight;
        if value_ns < self.min {
            self.min = value_ns;
        }
        if value_ns > self.max {
            self.max = value_ns;
        }
        self.total = self.total + product;
        proof {
            assert(self@.counts =~= before.with(value_ns, weight as nat).counts);
        }
    }

    pub fn count(&self) -> (r: u64)
        ensures
            r == self@.count,
    {
        self.count
    }

    pub fn min(&self) -> (r: u64)
        ensures
            r == (if self@.count == 0 {
                0
            } else {
                self@.min
            }),
    {
        if self.count == 0 {
            0
        } else {
            self.min
        }
    }

    pub fn max(&self) -> (r: u64)
        ensures
            r == self@.max,
    {
        self.max
    }

    /// What the samples add up to.
    pub fn total(&self) -> (r: u128)
        ensures
            r == self@.total,
    {
        self.total
    }

    /// The mean, in whole nanoseconds.
    pub fn mean(&self) -> (r: u64)
        requires
            self@.wf(),
        ensures
            r == (if self@.count == 0 {
                0
            } else {
                self@.total / self@.count
            }),
    {
        if self.count == 0 {
            return 0;
        }
        let mean: u128 = self.total / self.count as u128;
        proof {
            let (total, count) = (self@.total, self@.count);
            assert(total / count <= u64::MAX) by (nonlinear_arith)
                requires
                    total <= count * u64::MAX,
                    count > 0,
            ;
        }
        mean as u64
    }

    /// The value at a share of the samples, such as ninety-nine in a hundred, as
    /// the upper edge of the bucket it falls in.
    pub fn quantile(&self, num: u64, den: u64) -> (r: u64)
        requires
            self@.wf(),
            den > 0,
        ensures
            r == quantile_of(self@, num as nat, den as nat),
    {
        if self.count == 0 {
            return 0;
        }
        // Rounded up, so that the median of two samples is the larger rather
        // than the smaller.
        let target: u64 = if num >= den {
            self.count
        } else {
            proof {
                let (c, n, d) = (self@.count, num as nat, den as nat);
                assert(c * n + d - 1 < 0x1_0000_0000_0000_0000 * 0x1_0000_0000_0000_0000)
                    by (nonlinear_arith)
                    requires
                        c <= u64::MAX,
                        n <= u64::MAX,
                        d <= u64::MAX,
                ;
                assert((c * n + d - 1) / d as int <= c) by (nonlinear_arith)
                    requires
                        n < d,
                        d > 0,
                ;
                assert(c * n <= u64::MAX * u64::MAX) by (nonlinear_arith)
                    requires
                        c <= u64::MAX,
                        n <= u64::MAX,
                ;
            }
            let exact: u128 = (self.count as u128 * num as u128 + den as u128 - 1) / den as u128;
            exact as u64
        };
        let target: u64 = if target == 0 {
            1
        } else {
            target
        };
        let ghost h = self@;
        let mut seen: u64 = 0;
        let mut index: usize = 0;
        proof {
            assert(h.counts.take(0) =~= Seq::empty());
        }
        while index < self.counts.len()
            invariant
                h == self@,
                h.wf(),
                index <= BUCKETS,
                self.counts@.len() == BUCKETS,
                seen == added_up(h.counts.take(index as int)),
                target == rank(h.count, num as nat, den as nat),
                h.count > 0,
                h.count <= u64::MAX,
                first_reaching(h, target as nat, 0) == first_reaching(
                    h,
                    target as nat,
                    index as int,
                ),
            decreases BUCKETS - index,
        {
            let n: u64 = self.counts[index];
            proof {
                let next = h.counts.take(index + 1);
                assert(next.drop_last() =~= h.counts.take(index as int));
                assert(next.last() == n);
                lemma_added_up_prefix(h.counts, index + 1);
            }
            if n > 0 {
                seen += n;
                if seen >= target {
                    return upper_edge(index);
                }
            }
            index += 1;
        }
        self.max
    }

    /// Merge another histogram into this one, for combining repetitions.
    pub fn merge(&mut self, other: &Histogram)
        requires
            old(self)@.wf(),
            other@.wf(),
            old(self)@.count + other@.count <= u64::MAX,
        ensures
            final(self)@ == old(self)@.merged(other@),
            final(self)@.wf(),
    {
        let ghost before = self@;
        proof {
            lemma_added_up_sum(before.counts, other@.counts);
            assert((before.count + other@.count) * u64::MAX == before.count * u64::MAX
                + other@.count * u64::MAX) by (nonlinear_arith);
            assert((before.count + other@.count) * u64::MAX <= u64::MAX * u64::MAX)
                by (nonlinear_arith)
                requires
                    before.count + other@.count <= u64::MAX,
            ;
        }
        let mut index: usize = 0;
        while index < other.counts.len()
            invariant
                index <= BUCKETS,
                before == old(self)@,
                before.wf(),
                other@.wf(),
                before.count + other@.count <= u64::MAX,
                self.counts@.len() == BUCKETS,
                other.counts@.len() == BUCKETS,
                self.count == before.count,
                self.min == before.min,
                self.max == before.max,
                self.total == before.total,
                forall|i: int|
                    0 <= i < index ==> self.counts@[i] == before.counts[i] + other@.counts[i],
                forall|i: int| index <= i < BUCKETS ==> self.counts@[i] == before.counts[i],
            decreases BUCKETS - index,
        {
            let n: u64 = other.counts[index];
            let held: u64 = self.counts[index];
            proof {
                assert(other@.counts[index as int] == n);
                lemma_added_up_update(before.counts, index as int, 0);
                lemma_added_up_update(other@.counts, index as int, 0);
            }
            self.counts.set(index, held + n);
            index += 1;
        }
        self.count = self.count + other.count;
        if other.count > 0 {
            if other.min < self.min {
                self.min = other.min;
            }
            if other.max > self.max {
                self.max = other.max;
            }
        }
        self.total = self.total + other.total;
        proof {
            assert(self@.counts =~= before.merged(other@).counts);
        }
    }

    /// Every non-empty bucket, as `(upper edge, count)`: the serialisation that
    /// a committed interval log needs, stable so that a plot regenerates byte
    /// for byte.
    pub fn buckets(&self) -> (r: Vec<(u64, u64)>)
        requires
            self@.wf(),
        ensures
            r@ == filled(self@, BUCKETS as int),
    {
        let mut r: Vec<(u64, u64)> = Vec::new();
        let mut index: usize = 0;
        while index < self.counts.len()
            invariant
                index <= BUCKETS,
                self@.wf(),
                self.counts@.len() == BUCKETS,
                r@ == filled(self@, index as int),
            decreases BUCKETS - index,
        {
            proof {
                assert(self@.counts[index as int] == self.counts@[index as int]);
            }
            if self.counts[index] > 0 {
                r.push((upper_edge(index), self.counts[index]));
            }
            index += 1;
        }
        r
    }
}

// ---------------------------------------------------------- laws of samples

/// A histogram of samples, each with what it stands for.
pub open spec fn recorded(samples: Seq<(u64, nat)>) -> HistogramView
    decreases samples.len(),
{
    if samples.len() == 0 {
        HistogramView::empty()
    } else {
        recorded(samples.drop_last()).with(samples.last().0, samples.last().1)
    }
}

proof fn lemma_bucket_in_range(value: u64)
    ensures
        bucket_index(value as nat) < BUCKETS,
{
    lemma_edge_bound_of_all();
    lemma_bucket_bound(value as nat, 56);
}

/// A value below so many powers of two falls in a bucket below so many.
proof fn lemma_bucket_bound(value: nat, k: nat)
    requires
        value < edge_bound(k),
    ensures
        bucket_index(value) < 128 * k + 256,
    decreases k,
{
    if value >= 256 {
        if k == 0 {
            lemma_edge_bound(0);
        } else {
            lemma_edge_bound((k - 1) as nat);
            lemma_bucket_bound(value / 2, (k - 1) as nat);
        }
    }
}

/// A histogram of samples is one.
pub proof fn lemma_recorded_is_wf(samples: Seq<(u64, nat)>)
    ensures
        recorded(samples).wf(),
    decreases samples.len(),
{
    if samples.len() == 0 {
        lemma_added_up_empty(BUCKETS as nat);
    } else {
        let (value, weight) = samples.last();
        let h = recorded(samples.drop_last());
        lemma_recorded_is_wf(samples.drop_last());
        lemma_bucket_in_range(value);
        lemma_added_up_update(h.counts, bucket_index(value as nat) as int, weight);
        assert(value as nat * weight <= u64::MAX * weight) by (nonlinear_arith)
            requires
                value <= u64::MAX,
        ;
        assert((h.count + weight) * u64::MAX == h.count * u64::MAX + weight * u64::MAX)
            by (nonlinear_arith);
    }
}

/// Merging two histograms is the same as recording all their samples into one.
pub proof fn law_merging_is_recording_into_one(a: Seq<(u64, nat)>, b: Seq<(u64, nat)>)
    ensures
        recorded(a).merged(recorded(b)) == recorded(a + b),
    decreases b.len(),
{
    lemma_recorded_is_wf(a);
    lemma_recorded_is_wf(b);
    let x = recorded(a);
    if b.len() == 0 {
        assert(a + b =~= a);
        assert(x.merged(HistogramView::empty()).counts =~= x.counts);
    } else {
        let head = b.drop_last();
        let (value, weight) = b.last();
        assert((a + b).drop_last() =~= a + head);
        law_merging_is_recording_into_one(a, head);
        lemma_recorded_is_wf(head);
        lemma_bucket_in_range(value);
        let y = recorded(head);
        assert(x.merged(y.with(value, weight)).counts =~= x.merged(y).with(value, weight).counts);
    }
}

/// How many of some samples are at or below a value, each counted for what it
/// stands for.
pub open spec fn at_or_below(samples: Seq<(u64, nat)>, value: nat) -> nat
    decreases samples.len(),
{
    if samples.len() == 0 {
        0
    } else {
        let before = at_or_below(samples.drop_last(), value);
        if samples.last().0 <= value {
            before + samples.last().1
        } else {
            before
        }
    }
}

/// A quoted percentile is never optimistic: at least the share of the samples
/// that it speaks of are at or below it.
pub proof fn law_a_percentile_is_never_optimistic(samples: Seq<(u64, nat)>, num: nat, den: nat)
    requires
        0 < num <= den,
        recorded(samples).count > 0,
    ensures
        at_or_below(samples, quantile_of(recorded(samples), num, den)) >= rank(
            recorded(samples).count,
            num,
            den,
        ),
{
    let h = recorded(samples);
    let target = rank(h.count, num, den);
    lemma_recorded_is_wf(samples);
    assert(target <= h.count) by {
        let c = h.count;
        if num < den {
            assert((c * num + den - 1) / den as int <= c) by (nonlinear_arith)
                requires
                    num < den,
                    den > 0,
            ;
            assert((c * num + den - 1) as nat / den == (c * num + den - 1) / den as int);
        }
    }
    lemma_first_reaching(h, target, 0);
    match first_reaching(h, target, 0) {
        Some(index) => {
            lemma_seen_is_below(samples, index);
        },
        None => {
            assert(h.counts.take(BUCKETS as int) =~= h.counts);
            lemma_seen_stays_below(h, target, BUCKETS as int);
        },
    }
}

/// Where a bucket is found, so many samples have been seen by it.
proof fn lemma_first_reaching(h: HistogramView, target: nat, from: int)
    requires
        0 <= from,
    ensures
        match first_reaching(h, target, from) {
            Some(index) => {
                &&& from <= index < h.counts.len()
                &&& h.seen_through(index) >= target
            },
            None => forall|i: int|
                from <= i < h.counts.len() ==> h.counts[i] == 0 || #[trigger] h.seen_through(i)
                    < target,
        },
    decreases h.counts.len() - from,
{
    if from < h.counts.len() && !(h.counts[from] > 0 && h.seen_through(from) >= target) {
        lemma_first_reaching(h, target, from + 1);
    }
}

/// Where no bucket is found, fewer samples than that were ever seen.
proof fn lemma_seen_stays_below(h: HistogramView, target: nat, n: int)
    requires
        0 < target,
        0 <= n <= h.counts.len(),
        forall|i: int|
            0 <= i < h.counts.len() ==> h.counts[i] == 0 || #[trigger] h.seen_through(i) < target,
    ensures
        added_up(h.counts.take(n)) < target,
    decreases n,
{
    if n > 0 {
        lemma_seen_stays_below(h, target, n - 1);
        assert(h.seen_through(n - 1) == added_up(h.counts.take(n)));
        assert(h.counts.take(n).drop_last() =~= h.counts.take(n - 1));
    } else {
        assert(h.counts.take(0) =~= Seq::empty());
    }
}

/// What was seen up to a bucket is at or below its edge.
proof fn lemma_seen_is_below(samples: Seq<(u64, nat)>, index: int)
    requires
        0 <= index < BUCKETS,
    ensures
        recorded(samples).seen_through(index) <= at_or_below(samples, bucket_edge(index as nat)),
    decreases samples.len(),
{
    let h = recorded(samples);
    if samples.len() == 0 {
        let all = HistogramView::empty().counts;
        assert(all.take(index + 1) =~= Seq::new((index + 1) as nat, |i: int| 0nat));
        lemma_added_up_empty((index + 1) as nat);
    } else {
        let (value, weight) = samples.last();
        let before = recorded(samples.drop_last());
        lemma_recorded_is_wf(samples.drop_last());
        lemma_seen_is_below(samples.drop_last(), index);
        lemma_bucket_in_range(value);
        let b = bucket_index(value as nat) as int;
        if weight > 0 {
            if b <= index {
                law_the_relative_error_is_bounded(value as nat);
                lemma_edges_ascend(b as nat, index as nat);
                let part = before.counts.take(index + 1);
                assert(h.counts.take(index + 1) =~= part.update(b, part[b] + weight));
                lemma_added_up_update(part, b, weight);
            } else {
                assert(h.counts.take(index + 1) =~= before.counts.take(index + 1));
            }
        }
    }
}

/// A larger value does not fall in an earlier bucket.
proof fn lemma_buckets_ascend(a: nat, b: nat)
    requires
        a <= b,
    ensures
        bucket_index(a) <= bucket_index(b),
        b >= 128 ==> bucket_index(b) >= 128,
        b >= 256 ==> bucket_index(b) >= 256,
    decreases b,
{
    if b >= 256 {
        lemma_buckets_ascend(if a >= 256 {
            a / 2
        } else {
            0
        }, b / 2);
        lemma_buckets_ascend(0, b / 2);
    }
}

/// What was seen up to a bucket is exactly what is at or below its edge.
proof fn lemma_seen_is_at_or_below(samples: Seq<(u64, nat)>, index: int)
    requires
        0 <= index < BUCKETS,
    ensures
        recorded(samples).seen_through(index) == at_or_below(samples, bucket_edge(index as nat)),
    decreases samples.len(),
{
    let h = recorded(samples);
    if samples.len() == 0 {
        let all = HistogramView::empty().counts;
        assert(all.take(index + 1) =~= Seq::new((index + 1) as nat, |i: int| 0nat));
        lemma_added_up_empty((index + 1) as nat);
    } else {
        let (value, weight) = samples.last();
        let before = recorded(samples.drop_last());
        lemma_recorded_is_wf(samples.drop_last());
        lemma_seen_is_at_or_below(samples.drop_last(), index);
        lemma_bucket_in_range(value);
        let b = bucket_index(value as nat) as int;
        law_the_relative_error_is_bounded(value as nat);
        law_an_edge_falls_in_its_bucket(index as nat);
        if b <= index {
            lemma_edges_ascend(b as nat, index as nat);
        } else if value <= bucket_edge(index as nat) {
            lemma_buckets_ascend(value as nat, bucket_edge(index as nat));
        }
        if weight > 0 {
            if b <= index {
                let part = before.counts.take(index + 1);
                assert(h.counts.take(index + 1) =~= part.update(b, part[b] + weight));
                lemma_added_up_update(part, b, weight);
            } else {
                assert(h.counts.take(index + 1) =~= before.counts.take(index + 1));
            }
        }
    }
}

/// Every sample is at or below the largest number there is.
proof fn lemma_all_are_counted(samples: Seq<(u64, nat)>)
    ensures
        at_or_below(samples, u64::MAX as nat) == recorded(samples).count,
    decreases samples.len(),
{
    if samples.len() > 0 {
        lemma_all_are_counted(samples.drop_last());
    }
}

/// Where a bucket is found, no bucket before it would do.
proof fn lemma_first_reaching_is_first(h: HistogramView, target: nat, from: int, at: int)
    requires
        0 <= from <= at,
        first_reaching(h, target, from) is None || at < first_reaching(h, target, from)->0,
        at < h.counts.len(),
        h.counts[at] > 0,
    ensures
        h.seen_through(at) < target,
    decreases h.counts.len() - from,
{
    if from < at {
        lemma_first_reaching_is_first(h, target, from + 1, at);
    }
}

/// What is seen up to a bucket before the one that is found is too little.
proof fn lemma_seen_before(h: HistogramView, target: nat, at: int)
    requires
        0 < target,
        0 <= at < h.counts.len(),
        first_reaching(h, target, 0) is None || at < first_reaching(h, target, 0)->0,
    ensures
        h.seen_through(at) < target,
    decreases at,
{
    if h.counts[at] > 0 {
        lemma_first_reaching_is_first(h, target, 0, at);
    } else if at == 0 {
        reveal_with_fuel(added_up, 2);
        assert(h.counts.take(1).drop_last() =~= Seq::empty());
        assert(h.counts.take(1).last() == h.counts[0]);
    } else {
        lemma_seen_before(h, target, at - 1);
        assert(h.counts.take(at + 1).drop_last() =~= h.counts.take(at));
        assert(h.counts.take(at + 1).last() == h.counts[at]);
    }
}

/// A quoted percentile is the least edge of a bucket that so large a share of the
/// samples is at or below: of all samples, the share `num` in `den` at least is, and
/// at any lower edge it is not.
pub proof fn law_a_percentile_is_the_least_that_covers_its_share(
    samples: Seq<(u64, nat)>,
    num: nat,
    den: nat,
)
    requires
        0 < num <= den,
        at_or_below(samples, u64::MAX as nat) > 0,
    ensures
        ({
            let q = quantile_of(recorded(samples), num, den);
            let all = at_or_below(samples, u64::MAX as nat);
            &&& at_or_below(samples, q) * den >= all * num
            &&& exists|b: nat| b < BUCKETS && #[trigger] bucket_edge(b) == q
            &&& forall|b: nat|
                b < BUCKETS && #[trigger] bucket_edge(b) < q ==> at_or_below(
                    samples,
                    bucket_edge(b),
                ) * den < all * num
        }),
{
    let h = recorded(samples);
    lemma_all_are_counted(samples);
    lemma_recorded_is_wf(samples);
    let c = h.count;
    let target = rank(c, num, den);
    assert(target * den >= c * num && (target - 1) * den < c * num && target <= c) by {
        if num < den {
            let exact = (c * num + den - 1) as nat / den;
            assert(exact * den >= c * num && (exact - 1) * den < c * num && exact <= c)
                by (nonlinear_arith)
                requires
                    exact == (c * num + den - 1) as nat / den,
                    0 < num,
                    num < den,
                    c > 0,
            ;
            assert(c * num > 0) by (nonlinear_arith)
                requires
                    c > 0,
                    num > 0,
            ;
            assert(exact > 0) by (nonlinear_arith)
                requires
                    exact * den >= c * num,
                    c * num > 0,
            ;
        } else {
            assert(c * den >= c * num && (c - 1) * den < c * num) by (nonlinear_arith)
                requires
                    num == den,
                    den > 0,
                    c > 0,
            ;
        }
    }
    lemma_first_reaching(h, target, 0);
    match first_reaching(h, target, 0) {
        Some(index) => {
            lemma_seen_is_at_or_below(samples, index);
            let q = bucket_edge(index as nat);
            assert(at_or_below(samples, q) * den >= c * num) by (nonlinear_arith)
                requires
                    at_or_below(samples, q) >= target,
                    target * den >= c * num,
            ;
            assert forall|b: nat| b < BUCKETS && #[trigger] bucket_edge(b) < q implies at_or_below(
                samples,
                bucket_edge(b),
            ) * den < c * num by {
                if b >= index {
                    lemma_edges_ascend(index as nat, b);
                } else {
                    lemma_seen_before(h, target, b as int);
                    lemma_seen_is_at_or_below(samples, b as int);
                    let n = at_or_below(samples, bucket_edge(b));
                    assert(n * den < c * num) by (nonlinear_arith)
                        requires
                            n <= target - 1,
                            (target - 1) * den < c * num,
                            den > 0,
                    ;
                }
            }
        },
        None => {
            assert(h.counts.take(BUCKETS as int) =~= h.counts);
            lemma_seen_stays_below(h, target, BUCKETS as int);
        },
    }
}

/// What a histogram says of its samples as a whole is so: how many there are, what
/// they add up to, and the least and the largest of them.
pub proof fn law_a_histogram_knows_its_samples(samples: Seq<(u64, nat)>)
    ensures
        ({
            let h = recorded(samples);
            &&& h.count == at_or_below(samples, u64::MAX as nat)
            &&& forall|i: int|
                0 <= i < samples.len() && (#[trigger] samples[i]).1 > 0 ==> h.min <= samples[i].0
                    <= h.max
            &&& h.count > 0 ==> {
                &&& exists|i: int|
                    0 <= i < samples.len() && (#[trigger] samples[i]).1 > 0 && samples[i].0 == h.min
                &&& exists|i: int|
                    0 <= i < samples.len() && (#[trigger] samples[i]).1 > 0 && samples[i].0 == h.max
            }
            &&& h.total == weighed(samples)
        }),
    decreases samples.len(),
{
    lemma_all_are_counted(samples);
    if samples.len() > 0 {
        let head = samples.drop_last();
        law_a_histogram_knows_its_samples(head);
        lemma_recorded_is_wf(head);
        let n = samples.len() - 1;
        assert(samples.last() == samples[n]);
        let (g, h) = (recorded(head), recorded(samples));
        assert forall|i: int| 0 <= i < n implies #[trigger] samples[i] == head[i] by {}
        if samples[n].1 == 0 {
            if h.count > 0 {
                let i = choose|i: int|
                    0 <= i < head.len() && (#[trigger] head[i]).1 > 0 && head[i].0 == g.min;
                let j = choose|j: int|
                    0 <= j < head.len() && (#[trigger] head[j]).1 > 0 && head[j].0 == g.max;
                assert(samples[i] == head[i] && samples[j] == head[j]);
            }
        } else {
            if h.min != samples[n].0 {
                let i = choose|i: int|
                    0 <= i < head.len() && (#[trigger] head[i]).1 > 0 && head[i].0 == g.min;
                assert(samples[i] == head[i]);
            }
            if h.max != samples[n].0 {
                let j = choose|j: int|
                    0 <= j < head.len() && (#[trigger] head[j]).1 > 0 && head[j].0 == g.max;
                assert(samples[j] == head[j]);
            }
        }
    }
}

/// What samples add up to, each as often as it stands for.
pub open spec fn weighed(samples: Seq<(u64, nat)>) -> nat
    decreases samples.len(),
{
    if samples.len() == 0 {
        0
    } else {
        weighed(samples.drop_last()) + samples.last().0 as nat * samples.last().1
    }
}

/// A bucket below so many has an edge below so many powers of two.
proof fn lemma_edge_within(index: nat, k: nat)
    requires
        index < 128 * k + 256,
    ensures
        bucket_edge(index) < edge_bound(k),
    decreases k,
{
    lemma_edge_bound(0);
    if k > 0 {
        lemma_edge_bound((k - 1) as nat);
        if index >= 256 {
            lemma_edge_within((index - 128) as nat, (k - 1) as nat);
        } else {
            lemma_edge_bound_grows(k);
        }
    }
}

proof fn lemma_edge_bound_grows(k: nat)
    ensures
        edge_bound(k) >= 256,
    decreases k,
{
    lemma_edge_bound(0);
    if k > 0 {
        lemma_edge_bound((k - 1) as nat);
        lemma_edge_bound_grows((k - 1) as nat);
    }
}

/// A percentile is a number that can be written down.
pub proof fn lemma_quantiles_fit(h: Histogram, num: nat, den: nat)
    ensures
        quantile_of(h@, num, den) <= u64::MAX || h@.counts.len() > BUCKETS,
{
    if h@.count > 0 && h@.counts.len() <= BUCKETS {
        let target = rank(h@.count, num, den);
        lemma_first_reaching(h@, target, 0);
        if let Some(index) = first_reaching(h@, target, 0) {
            lemma_edge_bound_of_all();
            lemma_edge_within(index as nat, 56);
        }
    }
}

} // verus!
