//! The load a benchmark offers, and the one measurement decision that matters.
//!
//! **Open-loop, with the latency measured from the moment the request was
//! *due*.** A closed-loop client sends less when the server slows down, so the
//! slow period produces fewer samples than the fast one and the tail is
//! under-sampled. The correction is to fix the schedule in advance: request *i*
//! is due at `start + i / rate` whatever the server is doing, and a stall then
//! shows up in every request that was due during it.
//!
//! The second decision is the pipeline depth: how many requests one sender may
//! have outstanding. It is carried in the shape's name and into every result
//! header, and a depth of one is a client that waits for each answer.

use vstd::prelude::*;
use vstd::string::*;

use crate::bench::histogram::Histogram;
use crate::lines::{char_views, fields_of, split_fields, trim, trimmed};
use crate::order::{bytes_below, lemma_bytes_below_one_way};
use crate::rng::{Rng, RngView};
use crate::text::{
    characters, decimal, lemma_digits_of_a_word, lemma_zero_padded_order, plain_bytes,
    push_decimal, push_zero_padded, same_text, ten_to, to_plain_bytes, zero_padded,
};
use crate::time::{capped, Duration};

verus! {

/// What mix of operations to run.
///
/// The names are YCSB's, because the point of using its mixes is that a reader
/// already knows what they mean.
#[derive(Debug, Clone, Copy, PartialEq, Eq, Structural)]
pub enum Mix {
    /// 50% read, 50% update.
    A,
    /// 95% read, 5% update.
    B,
    /// 100% read.
    C,
    /// 100% update. Not a YCSB mix; the write path on its own, which is what
    /// the durability argument is about.
    Writes,
}

/// What a mix is called.
pub open spec fn mix_name(mix: Mix) -> Seq<char> {
    match mix {
        Mix::A => "A (50/50 read/update)"@,
        Mix::B => "B (95/5 read/update)"@,
        Mix::C => "C (100% read)"@,
        Mix::Writes => "writes (100% update)"@,
    }
}

/// How many operations in a hundred a mix reads.
pub open spec fn reads_in_a_hundred(mix: Mix) -> u32 {
    match mix {
        Mix::A => 50,
        Mix::B => 95,
        Mix::C => 100,
        Mix::Writes => 0,
    }
}

/// The mix a name asks for.
pub open spec fn mix_named(name: Seq<char>) -> Option<Mix> {
    if name == "a"@ || name == "A"@ {
        Some(Mix::A)
    } else if name == "b"@ || name == "B"@ {
        Some(Mix::B)
    } else if name == "c"@ || name == "C"@ {
        Some(Mix::C)
    } else if name == "writes"@ {
        Some(Mix::Writes)
    } else {
        None
    }
}

impl Mix {
    pub fn name(self) -> (r: &'static str)
        ensures
            r@ == mix_name(self),
    {
        match self {
            Mix::A => "A (50/50 read/update)",
            Mix::B => "B (95/5 read/update)",
            Mix::C => "C (100% read)",
            Mix::Writes => "writes (100% update)",
        }
    }

    pub fn read_pct(self) -> (r: u32)
        ensures
            r == reads_in_a_hundred(self),
    {
        match self {
            Mix::A => 50,
            Mix::B => 95,
            Mix::C => 100,
            Mix::Writes => 0,
        }
    }

    pub fn parse(name: &str) -> (r: Option<Self>)
        ensures
            r == mix_named(name@),
    {
        if same_text(name, "a") || same_text(name, "A") {
            Some(Mix::A)
        } else if same_text(name, "b") || same_text(name, "B") {
            Some(Mix::B)
        } else if same_text(name, "c") || same_text(name, "C") {
            Some(Mix::C)
        } else if same_text(name, "writes") {
            Some(Mix::Writes)
        } else {
            None
        }
    }
}

/// How load is offered.
#[derive(Debug, Clone, Copy, PartialEq, Eq, Structural)]
pub enum Loop {
    /// A fixed number of senders, each keeping up to `depth` requests
    /// outstanding. Measures what those senders get.
    Closed { clients: usize, depth: usize },
    /// A fixed offered rate, with latency measured from when each request was
    /// due. Measures what that rate costs.
    Open { rate_per_s: u64, clients: usize, depth: usize },
}

/// A count, or one.
pub open spec fn at_least_one(n: nat) -> nat {
    if n == 0 {
        1
    } else {
        n
    }
}

/// How many senders a shape has.
pub open spec fn senders_of(shape: Loop) -> nat {
    match shape {
        Loop::Closed { clients, .. } => at_least_one(clients as nat),
        Loop::Open { clients, .. } => at_least_one(clients as nat),
    }
}

/// How many requests a shape lets one sender have outstanding.
pub open spec fn depth_of(shape: Loop) -> nat {
    match shape {
        Loop::Closed { depth, .. } => at_least_one(depth as nat),
        Loop::Open { depth, .. } => at_least_one(depth as nat),
    }
}

/// What a shape is called.
pub open spec fn shape_name(shape: Loop) -> Seq<char> {
    match shape {
        Loop::Closed { clients, .. } => "closed-loop, "@ + decimal(clients as nat)
            + " senders, depth "@ + decimal(depth_of(shape)),
        Loop::Open { rate_per_s, clients, .. } => "open-loop, "@ + decimal(rate_per_s as nat)
            + " ops/s offered, "@ + decimal(clients as nat) + " senders, depth "@ + decimal(
            depth_of(shape),
        ),
    }
}

impl Loop {
    pub fn name(self) -> (r: String)
        ensures
            r@ == shape_name(self),
    {
        let depth: usize = self.depth();
        let mut out = String::new();
        match self {
            Loop::Closed { clients, .. } => {
                out.append("closed-loop, ");
                push_decimal(&mut out, clients as u64);
                out.append(" senders, depth ");
                push_decimal(&mut out, depth as u64);
            },
            Loop::Open { rate_per_s, clients, .. } => {
                out.append("open-loop, ");
                push_decimal(&mut out, rate_per_s);
                out.append(" ops/s offered, ");
                push_decimal(&mut out, clients as u64);
                out.append(" senders, depth ");
                push_decimal(&mut out, depth as u64);
            },
        }
        proof {
            assert(out@ =~= shape_name(self));
        }
        out
    }

    pub fn clients(self) -> (r: usize)
        ensures
            r == senders_of(self),
    {
        match self {
            Loop::Closed { clients, .. } => if clients == 0 {
                1
            } else {
                clients
            },
            Loop::Open { clients, .. } => if clients == 0 {
                1
            } else {
                clients
            },
        }
    }

    /// How many requests one sender may have outstanding. One is a closed
    /// client: send, wait, send again.
    pub fn depth(self) -> (r: usize)
        ensures
            r == depth_of(self),
    {
        match self {
            Loop::Closed { depth, .. } => if depth == 0 {
                1
            } else {
                depth
            },
            Loop::Open { depth, .. } => if depth == 0 {
                1
            } else {
                depth
            },
        }
    }
}

/// What one run of the workload did.
#[derive(Debug)]
pub struct Run {
    pub mix: Mix,
    pub shape: Loop,
    pub value_bytes: usize,
    pub key_space: u64,
    pub duration: Duration,
    /// Operations the cluster acknowledged.
    pub acknowledged: u64,
    /// Operations attempted, including the ones that failed.
    pub attempted: u64,
    pub latency: Histogram,
    /// Requests an open-loop sender could not issue on time.
    ///
    /// Reported rather than hidden, because a run where this is large did not
    /// offer the rate it says it offered, and its "achieved throughput" is a
    /// statement about the load generator.
    pub late: u64,
}

/// So many operations in so many nanoseconds, as whole operations per second.
pub open spec fn per_second(operations: nat, nanos: nat) -> nat {
    if nanos == 0 {
        0
    } else {
        capped(operations * 1_000_000_000 / nanos)
    }
}

/// Whether so few requests were late that the offered rate means something: at
/// most a twentieth.
pub open spec fn kept_up(late: nat, attempted: nat) -> bool {
    late * 20 <= at_least_one(attempted)
}

/// Whether so few requests were late that the offered rate means something.
pub fn keeps_up(late: u64, attempted: u64) -> (r: bool)
    ensures
        r == kept_up(late as nat, attempted as nat),
{
    let least: u64 = if attempted == 0 {
        1
    } else {
        attempted
    };
    late as u128 * 20 <= least as u128
}

impl Run {
    /// Achieved throughput, in operations per second.
    pub fn throughput(&self) -> (r: u64)
        ensures
            r == per_second(self.acknowledged as nat, self.duration@),
    {
        let nanos: u64 = self.duration.as_nanos();
        if nanos == 0 {
            return 0;
        }
        let rate: u128 = self.acknowledged as u128 * 1_000_000_000 / nanos as u128;
        if rate > u64::MAX as u128 {
            u64::MAX
        } else {
            rate as u64
        }
    }

    /// Whether the load generator kept up well enough for the offered rate to
    /// mean anything.
    ///
    /// A run that was late on a tenth of its requests is measuring the harness,
    /// and quoting its throughput as the system's is the same error as quoting
    /// a closed-loop p99.
    pub fn offered_what_it_claimed(&self) -> (r: bool)
        ensures
            r == (self.shape is Closed || kept_up(self.late as nat, self.attempted as nat)),
    {
        match self.shape {
            Loop::Closed { .. } => true,
            Loop::Open { .. } => keeps_up(self.late, self.attempted),
        }
    }
}

/// One operation a client should perform.
#[derive(Debug, Clone, Copy, PartialEq, Eq, Structural)]
pub enum Op {
    Read { key: u64 },
    Write { key: u64 },
}

/// Draws the operation sequence.
///
/// Seeded, so two runs at the same rate offer the same keys in the same order
/// and a difference between them is the system rather than the load.
#[derive(Debug)]
pub struct Plan {
    rng: Rng,
    mix: Mix,
    key_space: u64,
}

/// What a plan draws from.
pub struct PlanView {
    pub rng: RngView,
    pub mix: Mix,
    pub key_space: u64,
}

impl View for Plan {
    type V = PlanView;

    closed spec fn view(&self) -> PlanView {
        PlanView { rng: self.rng@, mix: self.mix, key_space: self.key_space }
    }
}

impl PlanView {
    /// A plan nothing has been drawn from.
    pub open spec fn fresh(seed: u64, mix: Mix, key_space: u64) -> PlanView {
        PlanView {
            rng: RngView::fresh(seed),
            mix,
            key_space: if key_space == 0 {
                1
            } else {
                key_space
            },
        }
    }

    /// The operation the next draw gives: a key, and then whether it is read.
    pub open spec fn op(self) -> Op {
        let key = self.rng.within(0, self.key_space);
        if self.rng.moved().lands(reads_in_a_hundred(self.mix)) {
            Op::Read { key }
        } else {
            Op::Write { key }
        }
    }

    /// The plan after one draw.
    pub open spec fn drawn(self) -> PlanView {
        PlanView { rng: self.rng.moved().moved(), mix: self.mix, key_space: self.key_space }
    }
}

impl Plan {
    pub fn new(seed: u64, mix: Mix, key_space: u64) -> (r: Self)
        ensures
            r@ == PlanView::fresh(seed, mix, key_space),
            r@.key_space > 0,
    {
        Plan {
            rng: Rng::new(seed),
            mix,
            key_space: if key_space == 0 {
                1
            } else {
                key_space
            },
        }
    }

    /// Draw the next operation.
    ///
    /// Named `draw` rather than `next` so it cannot be mistaken for an
    /// iterator: a plan is consumed against a clock rather than against a count.
    pub fn draw(&mut self) -> (r: Op)
        requires
            old(self)@.key_space > 0,
        ensures
            r == old(self)@.op(),
            final(self)@ == old(self)@.drawn(),
    {
        let key: u64 = self.rng.range(0, self.key_space);
        if self.rng.chance(self.mix.read_pct()) {
            Op::Read { key }
        } else {
            Op::Write { key }
        }
    }
}

/// A mix that reads nothing writes everything, and the other way round; and a
/// key is always one of the key space.
pub proof fn law_a_pure_mix_draws_one_kind(plan: PlanView)
    requires
        plan.key_space > 0,
    ensures
        plan.mix == Mix::Writes ==> plan.op() is Write,
        plan.mix == Mix::C ==> plan.op() is Read,
        plan.op() matches Op::Read { key } ==> key < plan.key_space,
        plan.op() matches Op::Write { key } ==> key < plan.key_space,
{
}

/// The text of the key an operation names.
pub open spec fn key_text(key: nat) -> Seq<char> {
    "bench-"@ + zero_padded(key, 20)
}

/// The key a plan's operation names, as bytes.
///
/// Twenty digits, because that is how many the largest key has: a benchmark
/// whose record size depends on which key was drawn is measuring the key
/// distribution as well as the system.
pub fn key_bytes(key: u64) -> (r: Vec<u8>)
    ensures
        r@ == plain_bytes(key_text(key as nat)),
{
    let mut out = String::new();
    out.append("bench-");
    push_zero_padded(&mut out, key, 20);
    proof {
        assert(out@ =~= key_text(key as nat));
    }
    to_plain_bytes(out.as_str())
}

/// Every key has the same length.
pub proof fn law_keys_are_fixed_width(key: u64)
    ensures
        plain_bytes(key_text(key as nat)).len() == 26,
{
    reveal_strlit("bench-");
    lemma_digits_of_a_word(key);
}

/// Keys come in the order of their numbers.
pub proof fn law_keys_keep_their_order(a: u64, b: u64)
    ensures
        a < b <==> bytes_below(
            plain_bytes(key_text(a as nat)),
            plain_bytes(key_text(b as nat)),
        ),
{
    if a < b {
        lemma_keys_in_order(a, b);
    } else {
        law_keys_are_fixed_width(a);
        law_keys_are_fixed_width(b);
        if b < a {
            lemma_keys_in_order(b, a);
            lemma_bytes_below_one_way(
                plain_bytes(key_text(b as nat)),
                plain_bytes(key_text(a as nat)),
            );
        }
    }
}

proof fn lemma_keys_in_order(a: u64, b: u64)
    requires
        a < b,
    ensures
        bytes_below(plain_bytes(key_text(a as nat)), plain_bytes(key_text(b as nat))),
{
    reveal_with_fuel(ten_to, 21);
    lemma_zero_padded_order(a as nat, b as nat, 20);
    let (x, y) = (plain_bytes(key_text(a as nat)), plain_bytes(key_text(b as nat)));
    let (p, q) = (
        plain_bytes(zero_padded(a as nat, 20)),
        plain_bytes(zero_padded(b as nat, 20)),
    );
    let head = plain_bytes("bench-"@);
    let n = head.len() as int;
    assert(x =~= head + p);
    assert(y =~= head + q);
    let k = choose|k: int|
        #![trigger p[k], q[k]]
        0 <= k < p.len() && k < q.len() && p[k] < q[k] && p.take(k) == q.take(k);
    assert(x[n + k] == p[k] && y[n + k] == q[k]);
    assert(x.take(n + k) =~= head + p.take(k));
    assert(y.take(n + k) =~= head + q.take(k));
}

/// The bytes of a value: its number, and then dots up to the size asked for.
pub open spec fn value_of(size: nat, seq: nat) -> Seq<u8> {
    let number = plain_bytes(zero_padded(seq, 16));
    number + Seq::new(
        if size > number.len() {
            (size - number.len()) as nat
        } else {
            0
        },
        |i: int| 0x2eu8,
    )
}

/// A value of the requested size.
pub fn value_bytes(size: usize, seq: u64) -> (r: Vec<u8>)
    ensures
        r@ == value_of(size as nat, seq as nat),
{
    let mut number = String::new();
    push_zero_padded(&mut number, seq, 16);
    proof {
        assert(number@ =~= zero_padded(seq as nat, 16));
    }
    let mut out: Vec<u8> = to_plain_bytes(number.as_str());
    let ghost head = out@;
    while out.len() < size
        invariant
            out@.len() <= (if size > head.len() {
                size as nat
            } else {
                head.len()
            }),
            out@.len() >= head.len(),
            out@ == head + Seq::new((out@.len() - head.len()) as nat, |i: int| 0x2eu8),
        decreases size - out@.len(),
    {
        let ghost before = out@;
        out.push(0x2e);
        proof {
            assert(out@ =~= head + Seq::new((out@.len() - head.len()) as nat, |i: int| 0x2eu8));
        }
    }
    proof {
        assert(out@ =~= value_of(size as nat, seq as nat));
    }
    out
}

/// A value is the size asked for, and never shorter than the number it carries,
/// so a value can always be attributed.
pub proof fn law_values_are_the_size_asked_for(size: nat, seq: u64)
    ensures
        value_of(size, seq as nat).len() >= 16,
        size >= 20 ==> value_of(size, seq as nat).len() == size,
        value_of(size, seq as nat).len() >= size,
{
    lemma_digits_of_a_word(seq);
}

/// The entries of a comma-separated list, without the blanks around them.
pub open spec fn listed(list: Seq<char>) -> Seq<Seq<char>> {
    fields_of(list, ',').map_values(|s: Seq<char>| trimmed(s))
}

/// The entries of a comma-separated list, without the blanks around them.
pub fn entries(list: &str) -> (r: Vec<Vec<char>>)
    ensures
        char_views(r@) == listed(list@),
{
    let chars: Vec<char> = characters(list);
    let fields: Vec<Vec<char>> = split_fields(chars.as_slice(), ',');
    let mut r: Vec<Vec<char>> = Vec::new();
    let mut i: usize = 0;
    while i < fields.len()
        invariant
            i <= fields@.len(),
            char_views(fields@) == fields_of(list@, ','),
            char_views(r@) == listed(list@).take(i as int),
        decreases fields@.len() - i,
    {
        let field: &[char] = trim(fields[i].as_slice());
        let ghost before = char_views(r@);
        let mut copy: Vec<char> = Vec::new();
        let mut j: usize = 0;
        while j < field.len()
            invariant
                j <= field@.len(),
                copy@ == field@.take(j as int),
            decreases field@.len() - j,
        {
            copy.push(field[j]);
            j += 1;
            proof {
                assert(copy@ =~= field@.take(j as int));
            }
        }
        proof {
            assert(copy@ =~= field@);
            assert(field@ == trimmed(fields_of(list@, ',')[i as int])) by {
                assert(char_views(fields@)[i as int] == fields@[i as int]@);
            }
        }
        r.push(copy);
        proof {
            assert(char_views(r@) =~= listed(list@).take(i + 1)) by {
                assert(char_views(r@) =~= before.push(copy@));
            }
        }
        i += 1;
    }
    proof {
        assert(listed(list@).take(i as int) =~= listed(list@)) by {
            assert(char_views(fields@).len() == fields@.len());
        }
    }
    r
}

} // verus!
