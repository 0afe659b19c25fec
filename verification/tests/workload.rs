use keel::bench::driver::{attend, gather, Action, Blocking, Driver, Part, Sender};
use keel::bench::histogram::Histogram;
use keel::bench::workload::{
    entries, keeps_up, key_bytes, value_bytes, Loop, Mix, Op, Plan, Run,
};
use keel::time::Duration;

#[test]
fn a_mix_draws_the_proportion_it_names() {
    for mix in [Mix::A, Mix::B, Mix::C, Mix::Writes] {
        let mut plan = Plan::new(1, mix, 1000);
        let reads = (0..10_000).filter(|_| matches!(plan.draw(), Op::Read { .. })).count();
        let expected = mix.read_pct() as usize * 100;
        assert!(
            reads.abs_diff(expected) < 200,
            "{} drew {reads} reads in 10000, expected about {expected}",
            mix.name()
        );
    }
}

#[test]
fn a_plan_is_a_pure_function_of_its_seed() {
    let draw = |seed| {
        let mut p = Plan::new(seed, Mix::A, 64);
        (0..100).map(|_| p.draw()).collect::<Vec<_>>()
    };
    assert_eq!(draw(4), draw(4));
    assert_ne!(draw(4), draw(5));
}

#[test]
fn keys_are_fixed_width_and_values_are_the_size_asked_for() {
    assert_eq!(key_bytes(1).len(), key_bytes(u64::MAX).len());
    let numbers = [0, 1, 9, 10, 99, 100, 12_345, u64::MAX - 1, u64::MAX];
    for a in numbers {
        for b in numbers {
            assert_eq!(a < b, key_bytes(a) < key_bytes(b), "{a} {b}");
        }
    }
    assert_eq!(value_bytes(1024, 7).len(), 1024);
    // Never shorter than the sequence number it carries, so a value can always
    // be attributed.
    assert!(value_bytes(4, 7).len() >= 16);
}

/// The load generator is measured too. A run that could not offer the rate it
/// claims must say so rather than reporting a lower "achieved throughput" as
/// though the system were the limit.
#[test]
fn a_run_that_fell_behind_its_schedule_says_so() {
    let mut run = Run {
        mix: Mix::A,
        shape: Loop::Open { rate_per_s: 1000, clients: 1, depth: 1 },
        value_bytes: 128,
        key_space: 1,
        duration: Duration::from_secs(1),
        acknowledged: 900,
        attempted: 1000,
        latency: Histogram::new(),
        late: 0,
    };
    assert!(run.offered_what_it_claimed());
    run.late = 200;
    assert!(!run.offered_what_it_claimed());
    // A closed loop has no schedule to fall behind.
    run.shape = Loop::Closed { clients: 4, depth: 1 };
    assert!(run.offered_what_it_claimed());
}

// ------------------------------------------------------- driving, on a clock of ours

/// A sender on a clock that only moves when it or the driver says so.
struct Simulated {
    now: u64,
    capacity: usize,
    /// How long the operation with a number takes to be answered.
    latency: fn(u64) -> u64,
    /// How long offering the operation with a number takes.
    stall: fn(u64) -> u64,
    outstanding: Vec<(u64, u64)>,
    next: u64,
    deepest: usize,
}

impl Simulated {
    fn new(capacity: usize, latency: fn(u64) -> u64, stall: fn(u64) -> u64) -> Self {
        Simulated { now: 0, capacity, latency, stall, outstanding: Vec::new(), next: 0, deepest: 0 }
    }
}

impl Sender for Simulated {
    fn capacity(&self) -> usize {
        self.capacity
    }

    fn inflight(&self) -> usize {
        self.outstanding.len()
    }

    fn submit(&mut self, _op: Op, seq: u64) -> Option<u64> {
        if self.outstanding.len() >= self.capacity {
            return None;
        }
        self.now += (self.stall)(seq);
        let token = self.next;
        self.next += 1;
        self.outstanding.push((token, self.now + (self.latency)(seq)));
        self.deepest = self.deepest.max(self.outstanding.len());
        Some(token)
    }

    fn poll(&mut self, timeout: Duration) -> Vec<(u64, bool)> {
        let until = self.now + timeout.as_nanos();
        let first = self.outstanding.iter().map(|(_, due)| *due).min();
        match first {
            Some(due) if due <= until => self.now = self.now.max(due),
            _ => self.now = until,
        }
        let now = self.now;
        let ready: Vec<u64> =
            self.outstanding.iter().filter(|(_, due)| *due <= now).map(|(t, _)| *t).collect();
        self.outstanding.retain(|(t, _)| !ready.contains(t));
        ready.into_iter().map(|t| (t, true)).collect()
    }
}

fn run_on(shape: Loop, mix: Mix, duration: Duration, sender: &mut Simulated) -> Run {
    let mut driver = Driver::new(shape, mix, 1, 0, 8, duration);
    loop {
        let now = sender.now;
        match attend(&mut driver, sender, now) {
            Action::Submit { .. } => {}
            Action::Poll { wait } => {
                let finished = sender.poll(Duration::from_nanos(wait));
                driver.collected(&finished, sender.now);
            }
            Action::Sleep { nanos } => sender.now += nanos,
            Action::Finished => break,
        }
    }
    let part = driver.finish();
    gather(mix, shape, 16, 8, duration, &[part])
}

/// The open loop's latency is measured from when a request was due, so a stall
/// shows up in everything that was due during it. A closed loop would have
/// reported one slow sample and moved on.
#[test]
fn an_open_loop_charges_a_stall_to_every_request_it_delayed() {
    let mut sender = Simulated::new(
        1,
        |_| 0,
        // One stall, early, long enough to matter.
        |seq| if seq == 20 { 120_000_000 } else { 1_000 },
    );
    let run = run_on(
        Loop::Open { rate_per_s: 500, clients: 1, depth: 1 },
        Mix::Writes,
        Duration::from_millis(400),
        &mut sender,
    );
    assert!(run.acknowledged > 50, "{run:?}");
    assert!(
        run.latency.quantile(99, 100) > 20_000_000,
        "a 120 ms stall left a p99 of {} ns, so it was charged to one request \
         rather than to every request it delayed",
        run.latency.quantile(99, 100)
    );
}

#[test]
fn a_closed_loop_run_reports_throughput_and_a_latency_distribution() {
    let mut sender = Simulated::new(1, |_| 0, |_| 50_000);
    let run = run_on(
        Loop::Closed { clients: 2, depth: 1 },
        Mix::C,
        Duration::from_millis(200),
        &mut sender,
    );
    assert!(run.acknowledged > 0);
    assert!(run.throughput() > 0);
    assert_eq!(run.latency.count(), run.acknowledged);
}

fn delayed_run(depth: usize) -> (Run, usize) {
    let mut sender = Simulated::new(depth, |_| 2_000_000, |_| 1_000);
    let run = run_on(
        Loop::Closed { clients: 1, depth },
        Mix::Writes,
        Duration::from_millis(400),
        &mut sender,
    );
    (run, sender.deepest)
}

/// The ceiling depth exists to lift. Against a sender whose latency does not
/// change with load, depth 8 must beat depth 1 by something close to eight, and
/// a driver that quietly serialised would report the same number twice.
#[test]
fn depth_lifts_the_throughput_ceiling_a_closed_client_imposes() {
    let (shallow, shallow_depth) = delayed_run(1);
    let (deep, deep_depth) = delayed_run(8);
    assert_eq!(shallow_depth, 1, "depth 1 kept more than one request in flight");
    assert!(
        deep_depth > 1,
        "depth 8 never had more than one request in flight, so the driver \
         serialised what it was told to pipeline"
    );
    assert!(
        deep.throughput() > shallow.throughput() * 3,
        "depth 8 managed {} ops/s against depth 1's {}, so the ceiling is still \
         the driver's rather than the sender's",
        deep.throughput(),
        shallow.throughput()
    );
}

/// Every acknowledged operation is charged to its own reference instant, so a
/// deep pipeline reports the latency each request actually saw rather than the
/// time the whole batch took.
#[test]
fn a_deep_pipeline_charges_each_operation_its_own_latency() {
    let (deep, _) = delayed_run(8);
    assert_eq!(deep.latency.count(), deep.acknowledged);
    let p50 = deep.latency.quantile(1, 2);
    assert!(
        (1_000_000..20_000_000).contains(&p50),
        "a 2 ms sender reported a p50 of {p50} ns, so latency is being charged \
         to the wrong instant"
    );
}

/// What an address list falls apart into before each piece is read as an
/// address.
#[test]
fn node_lists_fall_apart_at_their_commas() {
    let pieces: Vec<String> = entries("127.0.0.1:1, 127.0.0.1:2 ,nonsense")
        .into_iter()
        .map(|piece| piece.into_iter().collect())
        .collect();
    assert_eq!(pieces, vec!["127.0.0.1:1", "127.0.0.1:2", "nonsense"]);
}

// ------------------------------------------------------------------ exact values

#[test]
fn keys_and_values_are_what_they_are_worked_out_to_be() {
    assert_eq!(key_bytes(7), b"bench-00000000000000000007".to_vec());
    assert_eq!(value_bytes(20, 7), b"0000000000000007....".to_vec());
    assert_eq!(value_bytes(4, 7), b"0000000000000007".to_vec());
}

#[test]
fn a_mix_is_known_by_its_letter() {
    for mix in [Mix::A, Mix::B, Mix::C, Mix::Writes] {
        assert!(mix.read_pct() <= 100);
    }
    assert_eq!(Mix::A.read_pct(), 50);
    assert_eq!(Mix::B.read_pct(), 95);
    assert_eq!(Mix::C.read_pct(), 100);
    assert_eq!(Mix::Writes.read_pct(), 0);
    assert_eq!(Mix::parse("a"), Some(Mix::A));
    assert_eq!(Mix::parse("writes"), Some(Mix::Writes));
    assert_eq!(Mix::parse("nonsense"), None);
}

#[test]
fn a_run_may_be_late_with_one_request_in_twenty() {
    assert!(keeps_up(0, 0));
    assert!(!keeps_up(1, 0));
    assert!(keeps_up(50, 1_000));
    assert!(!keeps_up(51, 1_000));
}

#[test]
fn a_blocking_sender_holds_one_answer_at_a_time() {
    let mut sender = Blocking::new(3);
    assert_eq!(sender.client(), 3);
    assert_eq!(sender.capacity(), 1);
    let token = sender.submit(true).unwrap();
    assert_eq!(sender.poll(), vec![(token, true)]);
    assert!(sender.poll().is_empty());
    let next = sender.submit(false).unwrap();
    assert_ne!(next, token);
    assert_eq!(sender.poll(), vec![(next, false)]);
}

#[test]
fn the_parts_of_a_run_are_added_up() {
    let part = |acknowledged, late| {
        let mut latency = Histogram::new();
        latency.record_weighted(1_000, acknowledged);
        Part { acknowledged, attempted: acknowledged + late, late, latency }
    };
    let shape = Loop::Closed { clients: 2, depth: 1 };
    let run = gather(Mix::A, shape, 16, 8, Duration::from_secs(2), &[part(300, 1), part(101, 2)]);
    assert_eq!((run.acknowledged, run.attempted, run.late), (401, 404, 3));
    assert_eq!(run.latency.count(), 401);
    // Whole operations a second.
    assert_eq!(run.throughput(), 200);
}

#[test]
fn a_shape_says_what_it_is() {
    let closed = Loop::Closed { clients: 4, depth: 2 };
    assert_eq!((closed.clients(), closed.depth()), (4, 2));
    let open = Loop::Open { rate_per_s: 1000, clients: 3, depth: 1 };
    assert_eq!((open.clients(), open.depth()), (3, 1));
    assert!(open.name().contains("1000"), "{}", open.name());
    assert_ne!(open.name(), closed.name());
}
