use keel::chaos::clock::{
    candidates, find_library, reading_ms, Faketime, Observed, Place, Unavailable,
};
use keel::chaos::cluster::{
    apply, link_name, node_args, node_dir, node_name, ready_file, traffic, Addresses,
    ClusterConfig, Effect, Mesh,
};
use keel::chaos::drive::{
    check_counter, injection, may_run, parse_reading, ClockCheck, CounterRead, Done, Inject,
    Outcome, Printed, ReadStep, Tally, Workload,
};
use keel::chaos::nemesis::{Process, Sent, Signal, Take};
use keel::chaos::proxy::{pump, Counters, Cut, Does, Seen};
use keel::chaos::schedule::{Action, At, Counts, Schedule};
use keel::chaos::ChaosError;
use keel::time::Duration;

// --------------------------------------------------------------------- schedule

fn minute() -> Duration {
    Duration::from_secs(60)
}

#[test]
fn a_seed_determines_the_whole_schedule() {
    let a = Schedule::draw(7, 3, minute(), true);
    let b = Schedule::draw(7, 3, minute(), true);
    assert_eq!(a, b);
    assert_ne!(a.events, Schedule::draw(8, 3, minute(), true).events);
}

#[test]
fn every_fault_is_repaired_and_the_cluster_ends_healthy() {
    for seed in 0..200 {
        let s = Schedule::draw(seed, 3, minute(), true);
        assert!(
            s.ends_healthy(),
            "seed {seed} leaves the cluster broken:\n{}",
            s.render()
        );
    }
}

#[test]
fn events_are_in_time_order() {
    for seed in 0..100 {
        let s = Schedule::draw(seed, 5, minute(), true);
        let mut last = Duration::from_nanos(0);
        for e in &s.events {
            assert!(e.at >= last, "seed {seed} goes backwards at {e:?}");
            assert!(e.at < s.duration, "seed {seed} runs past the end at {e:?}");
            last = e.at;
        }
    }
}

/// A split that isolates a majority leaves nobody who can commit, and the
/// run measures nothing but election timeouts.
#[test]
fn a_split_never_puts_a_majority_on_the_wrong_side() {
    for nodes in [3usize, 5] {
        for seed in 0..200 {
            let s = Schedule::draw(seed, nodes, minute(), true);
            for e in &s.events {
                if let Action::Split { minority } = &e.action {
                    assert!(
                        minority.len() * 2 < nodes,
                        "seed {seed}: {:?} is not a minority of {nodes}",
                        minority
                    );
                    let mut sorted = minority.clone();
                    sorted.dedup();
                    assert_eq!(sorted.len(), minority.len(), "a node twice in one side");
                }
            }
        }
    }
}

/// An even number of nodes has no two halves that are both a majority: fewer than
/// half of them are split off.
#[test]
fn a_split_of_an_even_number_of_nodes_leaves_a_majority() {
    for nodes in [4usize, 6, 8] {
        let mut sizes = [0usize; 8];
        for seed in 0..200 {
            for e in &Schedule::draw(seed, nodes, minute(), true).events {
                if let Action::Split { minority } = &e.action {
                    assert!(!minority.is_empty() && minority.len() * 2 < nodes, "seed {seed}");
                    assert!(minority.windows(2).all(|w| w[0] < w[1]), "seed {seed}");
                    assert!(minority.iter().all(|n| *n < nodes), "seed {seed}");
                    sizes[minority.len()] += 1;
                }
            }
        }
        assert!((1..=(nodes - 1) / 2).all(|n| sizes[n] > 0), "{nodes}: {sizes:?}");
    }
}

#[test]
fn every_node_named_is_a_node_that_exists() {
    for seed in 0..200 {
        let s = Schedule::draw(seed, 3, minute(), true);
        for e in &s.events {
            let named: Vec<usize> = match &e.action {
                Action::Isolate { node, .. }
                | Action::Pause { node }
                | Action::Resume { node }
                | Action::Kill { node }
                | Action::Restart { node } => vec![*node],
                Action::Split { minority } => minority.clone(),
                Action::Heal | Action::ClockJump { .. } => vec![],
            };
            assert!(named.iter().all(|n| *n < 3), "seed {seed}: {e:?}");
        }
    }
}

/// A schedule drawn on a host that cannot move clocks must not contain a
/// clock jump: the driver would skip it, and the printed plan would then
/// describe a run that did not happen.
#[test]
fn a_host_without_clock_control_gets_a_schedule_without_clock_jumps() {
    for seed in 0..100 {
        let s = Schedule::draw(seed, 3, minute(), false);
        assert_eq!(s.counts().clock_jumps, 0, "seed {seed}");
    }
}

/// The other half of the same property: where clocks *can* be moved, they
/// are moved. A weight that rounded to never would make the nemesis exist
/// only in the source.
#[test]
fn clock_jumps_do_occur_when_the_host_allows_them() {
    let total: u64 = (0..100)
        .map(|seed| {
            Schedule::draw(seed, 3, Duration::from_secs(300), true)
                .counts()
                .clock_jumps
        })
        .sum();
    assert!(total > 0, "no seed in 100 ever moved a clock");
}

/// Every fault kind is reachable. A weight table with a dead branch is a
/// nemesis that was written and never runs.
#[test]
fn a_hundred_seeds_reach_every_kind_of_fault() {
    let mut total = Counts::new();
    for seed in 0..100 {
        let c = Schedule::draw(seed, 3, Duration::from_secs(300), true).counts();
        total.isolations += c.isolations;
        total.splits += c.splits;
        total.pauses += c.pauses;
        total.kills += c.kills;
        total.clock_jumps += c.clock_jumps;
    }
    assert!(total.isolations > 0, "{}", total.message());
    assert!(total.splits > 0, "{}", total.message());
    assert!(total.pauses > 0, "{}", total.message());
    assert!(total.kills > 0, "{}", total.message());
    assert!(total.clock_jumps > 0, "{}", total.message());
}

#[test]
fn the_plan_is_printed_before_it_is_injected() {
    let s = Schedule::draw(1, 3, minute(), true);
    let rendered = s.render();
    assert!(rendered.starts_with("seed 1, 3 nodes, 60s,"));
    assert_eq!(
        rendered.lines().count(),
        s.events.len() + 1,
        "one line per event, plus the header"
    );
}

// ------------------------------------------------------------------------- links

#[test]
fn every_ordered_pair_gets_its_own_link() {
    let c = Mesh::new(3);
    let mut names = c.names();
    names.sort();
    assert_eq!(
        names,
        vec!["n0->n1", "n0->n2", "n1->n0", "n1->n2", "n2->n0", "n2->n1"]
    );
}

/// Links are named in the order of their names, which is not that of their numbers.
#[test]
fn links_are_named_in_the_order_of_their_names() {
    for nodes in [2usize, 3, 12] {
        let names = Mesh::new(nodes).names();
        let mut ordered = names.clone();
        ordered.sort();
        ordered.dedup();
        assert_eq!(names, ordered);
        assert_eq!(names.len(), nodes * (nodes - 1));
    }
    assert_eq!(Mesh::new(12).names()[1..3], ["n0->n10".to_string(), "n0->n11".to_string()]);
}

/// The property the per-node peer map exists for: cutting one node's
/// outbound traffic must leave every other pair alone.
#[test]
fn isolating_one_node_leaves_the_rest_of_the_cluster_connected() {
    let mut c = Mesh::new(3);
    c.isolate(1, Cut::Both);
    assert!(c.link_is_cut(1, 0) && c.link_is_cut(1, 2));
    assert!(c.link_is_cut(0, 1) && c.link_is_cut(2, 1));
    assert!(
        !c.link_is_cut(0, 2) && !c.link_is_cut(2, 0),
        "isolating n1 also cut the link between n0 and n2"
    );
}

/// The asymmetric case, which is the one that produces a node whose term
/// climbs while it is deposed by nobody.
#[test]
fn a_one_way_isolation_cuts_one_direction_only() {
    let mut c = Mesh::new(3);
    c.isolate(0, Cut::Backward); // can send, cannot receive
    assert!(
        c.link_is_cut(1, 0) && c.link_is_cut(2, 0),
        "inbound survived"
    );
    assert!(
        !c.link_is_cut(0, 1) && !c.link_is_cut(0, 2),
        "outbound was cut too, which makes it symmetric"
    );
}

#[test]
fn a_split_cuts_across_and_not_within() {
    let mut c = Mesh::new(5);
    c.split(&[3, 4]);
    // Across, both ways.
    assert!(c.link_is_cut(0, 3) && c.link_is_cut(3, 0));
    // Within the majority.
    assert!(!c.link_is_cut(0, 1) && !c.link_is_cut(1, 2));
    // Within the minority: they can still talk to each other, which is what
    // lets them elect nobody and prove they cannot.
    assert!(!c.link_is_cut(3, 4) && !c.link_is_cut(4, 3));
}

#[test]
fn healing_restores_every_link() {
    let mut c = Mesh::new(3);
    c.split(&[2]);
    assert!(c.link_is_cut(0, 2));
    c.heal();
    for from in 0..3 {
        for to in 0..3 {
            if from != to {
                assert!(!c.link_is_cut(from, to), "n{from}->n{to} stayed cut");
            }
        }
    }
}

#[test]
fn a_link_is_named_by_both_its_ends() {
    assert_eq!(node_name(2), "n2");
    assert_eq!(link_name(0, 2), "n0->n2");
    let mut mesh = Mesh::new(2);
    assert_eq!(mesh.nodes(), 2);
    mesh.set(0, 1, Cut::Forward);
    assert_eq!(mesh.get(0, 1), Some(Cut::Forward));
    assert_eq!(mesh.get(1, 0), Some(Cut::Clear));
    assert_eq!(mesh.get(0, 0), None);
    assert_eq!(mesh.get(0, 9), None);
}

#[test]
fn links_are_cut_by_name() {
    let mut mesh = Mesh::new(3);
    mesh.cut_matching(Cut::Forward, |name| name.starts_with("n1->"));
    assert_eq!(mesh.get(1, 0), Some(Cut::Forward));
    assert_eq!(mesh.get(1, 2), Some(Cut::Forward));
    assert_eq!(mesh.get(0, 1), Some(Cut::Clear));
    assert_eq!(mesh.get(2, 0), Some(Cut::Clear));
}

#[test]
fn an_action_is_a_change_of_links_or_something_done_to_a_node() {
    let mut mesh = Mesh::new(3);
    assert_eq!(apply(&mut mesh, &Action::Split { minority: vec![2] }), Ok(Effect::Done));
    assert!(mesh.link_is_cut(0, 2));
    assert_eq!(apply(&mut mesh, &Action::Pause { node: 1 }), Ok(Effect::Stop { node: 1 }));
    assert_eq!(apply(&mut mesh, &Action::Resume { node: 1 }), Ok(Effect::Resume { node: 1 }));
    assert_eq!(apply(&mut mesh, &Action::Kill { node: 1 }), Ok(Effect::Kill { node: 1 }));
    assert_eq!(apply(&mut mesh, &Action::Restart { node: 1 }), Ok(Effect::Start { node: 1 }));
    assert!(mesh.link_is_cut(0, 2));
    assert_eq!(apply(&mut mesh, &Action::Heal), Ok(Effect::Done));
    assert!(!mesh.link_is_cut(0, 2));
    // The clock is the driver's to move.
    assert_eq!(
        apply(&mut mesh, &Action::ClockJump { forward: true, by: Duration::from_secs(1) }),
        Ok(Effect::Done)
    );
    assert!(apply(&mut mesh, &Action::Kill { node: 9 }).is_err());
}

#[test]
fn a_node_is_told_where_everyone_is() {
    let config = ClusterConfig::new(2, "/run", "/bin/keel-server");
    let addresses = Addresses {
        peers: vec!["127.0.0.1:1".into(), "127.0.0.1:2".into()],
        clients: vec!["127.0.0.1:3".into(), "127.0.0.1:4".into()],
        admins: vec!["127.0.0.1:5".into(), "127.0.0.1:6".into()],
        routes: vec![
            vec![String::new(), "127.0.0.1:7".into()],
            vec!["127.0.0.1:8".into(), String::new()],
        ],
    };
    let args = node_args(&config, &addresses, 0);
    assert!(args.contains(&"127.0.0.1:1".to_string()), "{args:?}");
    assert!(args.contains(&"127.0.0.1:3".to_string()), "{args:?}");
    assert!(args.contains(&"127.0.0.1:5".to_string()), "{args:?}");
    // The other node is reached through the link, not directly.
    assert!(args.iter().any(|a| a.contains("127.0.0.1:7")), "{args:?}");
    assert!(!args.iter().any(|a| a.contains("127.0.0.1:2")), "{args:?}");
    assert!(!args.contains(&"--checkpoint-entries".to_string()), "{args:?}");
    let config = ClusterConfig { checkpoint_entries: Some(10_040), ..config };
    let more = node_args(&config, &addresses, 0);
    assert_eq!(more[..args.len()], args[..]);
    assert_eq!(more[args.len()..], ["--checkpoint-entries".to_string(), "10040".to_string()]);
    assert_eq!(node_dir("/run", 1), "/run/n1");
    assert!(ready_file("/run", 1).starts_with("/run/"));
}

// ------------------------------------------------------------------------- proxy

#[test]
fn a_cut_blocks_the_direction_it_names_and_not_the_other() {
    assert!(!Cut::Clear.blocks_forward() && !Cut::Clear.blocks_backward());
    assert!(Cut::Forward.blocks_forward() && !Cut::Forward.blocks_backward());
    assert!(!Cut::Backward.blocks_forward() && Cut::Backward.blocks_backward());
    assert!(Cut::Both.blocks_forward() && Cut::Both.blocks_backward());
}

#[test]
fn a_proxy_counts_what_it_lets_through_and_what_it_does_not() {
    let mut counters = Counters::new();
    assert_eq!(pump(&mut counters, Cut::Both, Seen::Arrival), Does::Refuse);
    assert_eq!(pump(&mut counters, Cut::Clear, Seen::Arrival), Does::Join);
    assert_eq!(pump(&mut counters, Cut::Clear, Seen::Joined), Does::Again);
    assert_eq!(pump(&mut counters, Cut::Backward, Seen::Turn { forward: true }), Does::Read);
    assert_eq!(
        pump(&mut counters, Cut::Clear, Seen::Carried { forward: true, bytes: 10 }),
        Does::Again
    );
    assert_eq!(
        pump(&mut counters, Cut::Clear, Seen::Carried { forward: false, bytes: 4 }),
        Does::Again
    );
    assert_eq!(pump(&mut counters, Cut::Forward, Seen::Turn { forward: true }), Does::Sever);
    assert_eq!(pump(&mut counters, Cut::Clear, Seen::Ended), Does::Stop);
    assert_eq!(counters.snapshot(), (1, 10, 4, 1, 1));
    assert_eq!(traffic(&[counters, counters]), (28, 2, 2));
}

// ------------------------------------------------------------------------- clock

#[test]
fn a_later_reading_is_not_smaller() {
    let a = reading_ms(12, 999_999_999);
    let b = reading_ms(13, 0);
    assert!(b >= a, "{b} < {a}");
    assert_eq!((a, b), (12_999, 13_000));
}

/// The point of [`Observed::confirms`]: elapsed time is not evidence.
#[test]
fn a_probe_that_merely_waited_does_not_count_as_a_jump() {
    let waited = Observed { monotonic_delta_ms: 10_000, real_delta_ms: 10_000 };
    assert!(!waited.confirms(10_000));

    let jumped = Observed { monotonic_delta_ms: 10_120, real_delta_ms: 120 };
    assert!(jumped.confirms(10_000));

    // A jump that mostly did not happen is refused: a library that faked only
    // one of the clocks would show up here.
    let half = Observed { monotonic_delta_ms: 5_100, real_delta_ms: 100 };
    assert!(!half.confirms(10_000));
}

#[test]
fn availability_either_finds_a_library_or_says_why_not() {
    assert_eq!(Faketime::available(false, Some("/lib/x.so".into())), Ok("/lib/x.so".into()));
    for why in [Faketime::available(true, Some("/lib/x.so".into())), Faketime::available(false, None)] {
        assert!(!why.unwrap_err().message().is_empty());
    }
    assert!(!candidates().is_empty());
    let places = |first: bool| {
        vec![
            Place { path: "/a".into(), exists: first },
            Place { path: "/b".into(), exists: true },
        ]
    };
    assert_eq!(find_library(None, &places(true)), Some("/a".into()));
    assert_eq!(find_library(None, &places(false)), Some("/b".into()));
    assert_eq!(find_library(None, &[]), None);
    let explicit = Place { path: "/mine".into(), exists: true };
    assert_eq!(find_library(Some(explicit), &places(true)), Some("/mine".into()));
}

#[test]
fn a_clock_is_moved_by_rewriting_a_file() {
    let mut clock = match Faketime::new("/run", Ok("/lib/x.so".into())) {
        Ok(clock) => clock,
        Err(e) => panic!("{}", e.message()),
    };
    assert!(clock.file().starts_with("/run/"));
    assert_eq!(clock.offset_secs(), 0);
    assert_eq!(clock.jump(Duration::from_secs(30), true), 30);
    assert_eq!(clock.contents(), "+30\n");
    assert_eq!(clock.jump(Duration::from_secs(50), false), -20);
    assert_eq!(clock.contents(), "-20\n");
    // Forward and back by the same restores the offset, however far it is.
    assert_eq!(clock.jump(Duration::from_secs(9_000_000_000), true), 8_999_999_980);
    assert_eq!(clock.contents(), "+8999999980\n");
    assert_eq!(clock.jump(Duration::from_secs(9_000_000_000), false), -20);
    assert!(clock.env().iter().any(|(_, v)| v == "/lib/x.so"));
    assert!(Faketime::new("/run", Err(Unavailable::LibraryMissing)).is_err());
}

#[test]
fn a_jump_is_believed_only_when_a_child_saw_it() {
    assert_eq!(parse_reading("t=1234"), Some(1234));
    assert_eq!(parse_reading("not a reading"), None);
    let mut check = ClockCheck::new();
    let _ = check.read("t=1000");
    for i in 1..10 {
        let _ = check.read(&format!("t={}", 1000 + i * 100));
    }
    let _ = check.read("t=62000");
    assert!(check.conclude(60, 1_100).is_ok());
    let mut still = ClockCheck::new();
    let _ = still.read("t=1000");
    let _ = still.read("t=2000");
    assert!(still.conclude(60, 1_000).is_err());
    assert!(ClockCheck::new().conclude(60, 1_000).is_err());
}

// ----------------------------------------------------------------------- nemesis

/// What carrying out a decision comes to when every signal arrives.
fn carry_out(process: &mut Process, take: Take) {
    let signals = match take {
        Take::Nothing => vec![],
        Take::One(a) => vec![a],
        Take::Both(a, b) => vec![a, b],
    };
    for signal in signals {
        process.signalled(signal, Sent::Delivered).unwrap();
    }
}

#[test]
fn a_killed_process_is_reaped_and_can_be_restarted() {
    let mut p = Process::new("a");
    assert!(p.needs_spawn(false));
    p.spawned();
    assert!(!p.needs_spawn(true));

    let take = p.kill(true).unwrap();
    carry_out(&mut p, take);
    assert_eq!(p.kills, 1);

    assert!(p.needs_spawn(false));
    p.spawned();
    assert_eq!(p.starts, 2, "a restart is a second lifetime, not the first");
}

/// The deadlock this guards: a stopped process never reports its exit, so
/// killing one without resuming it first waits forever.
#[test]
fn a_stopped_process_can_still_be_killed() {
    let mut p = Process::new("b");
    p.spawned();
    let take = p.stop(true).unwrap();
    carry_out(&mut p, take);
    assert!(p.stopped);

    let take = p.kill(true).unwrap();
    assert_eq!(take, Take::Both(Signal::Continue, Signal::Kill));
    carry_out(&mut p, take);
    assert!(!p.stopped);
}

#[test]
fn a_stopped_process_stays_alive_until_it_is_resumed() {
    let mut p = Process::new("c");
    p.spawned();
    let take = p.stop(true).unwrap();
    carry_out(&mut p, take);
    // Still a process: this is a pause, not a crash.
    assert!(!p.needs_spawn(true));
    let take = p.resume();
    assert_eq!(take, Take::One(Signal::Continue));
    carry_out(&mut p, take);
    assert!(!p.stopped);
    assert_eq!(p.resume(), Take::Nothing);
}

#[test]
fn signalling_something_that_is_not_running_is_an_error_rather_than_a_silent_no_op() {
    let mut p = Process::new("d");
    assert!(matches!(p.kill(false), Err(ChaosError::NotRunning(_))));
    assert!(matches!(p.stop(false), Err(ChaosError::NotRunning(_))));
    assert!(matches!(
        p.signalled(Signal::Kill, Sent::Nobody),
        Err(ChaosError::NotRunning(_))
    ));
    assert!(matches!(
        p.signalled(Signal::Stop, Sent::Failed("no permission".into())),
        Err(ChaosError::Io(_))
    ));
}

#[test]
fn a_process_that_never_gets_ready_is_reported_rather_than_waited_on_forever() {
    let mut p = Process::new("e");
    p.spawned();
    assert_eq!(p.waited(false, true, true), None);
    assert!(matches!(p.waited(false, true, false), Some(Err(ChaosError::NeverReady(_)))));
    assert_eq!(p.waited(true, true, true), Some(Ok(())));
}

/// A node that exits during startup is a different failure from one that is
/// slow, and waiting the full timeout on it wastes the run's budget.
#[test]
fn a_process_that_dies_during_startup_is_noticed_immediately() {
    let mut p = Process::new("f");
    p.spawned();
    let outcome = p.waited(false, false, true);
    assert!(matches!(outcome, Some(Err(ChaosError::DiedDuringStartup(_)))));
}

// ------------------------------------------------------------------------- drive

#[test]
fn a_run_tallies_what_it_injected() {
    let jump = Action::ClockJump { forward: true, by: Duration::from_secs(9) };
    assert_eq!(injection(&jump, true), Inject::Clock { forward: true, by: Duration::from_secs(9) });
    assert_eq!(injection(&jump, false), Inject::Skip);
    assert_eq!(injection(&Action::Heal, false), Inject::Cluster);
    let mut tally = Tally::new();
    let event = At { at: Duration::from_millis(1500), action: Action::Heal };
    let _ = tally.note(&event, &Outcome::Injected);
    let _ = tally.note(&event, &Outcome::NoClock);
    let failed = tally.note(&event, &Outcome::Failed(ChaosError::Io("no".into())));
    assert!(failed.unwrap().contains("no"));
    assert_eq!(tally, Tally { injected: 1, skipped: 2 });
}

#[test]
fn a_schedule_that_leaves_the_cluster_broken_is_not_run() {
    let s = Schedule::draw(3, 3, minute(), false);
    assert!(may_run(&s).is_ok());
    let broken = Schedule {
        seed: 3,
        nodes: 3,
        duration: minute(),
        events: vec![At { at: Duration::from_secs(1), action: Action::Kill { node: 0 } }],
    };
    assert!(!broken.ends_healthy());
    assert!(may_run(&broken).is_err());
}

#[test]
fn every_acknowledged_increment_is_in_the_counter() {
    assert!(check_counter(5, 5).is_ok());
    // One more may have been applied without its answer arriving.
    assert!(check_counter(5, 9).is_ok());
    assert!(matches!(check_counter(5, 4), Err(ChaosError::Violation(_))));
    let mut w = Workload::new();
    let first = w.attempt();
    w.answered(true);
    let second = w.attempt();
    w.answered(false);
    assert_ne!(first, second);
    assert_eq!((w.attempted(), w.acked()), (2, 1));
}

#[test]
fn a_run_that_tested_nothing_says_so() {
    let done = Done {
        injected: 4,
        skipped: 0,
        attempted: 100,
        acked: 90,
        carried: 1_000,
        refused: 3,
        severed: 1,
    };
    let mut counts = Counts::new();
    counts.isolations = 2;
    assert!(done.worth_checking(counts).is_ok());
    assert!(Done { acked: 0, ..done }.worth_checking(counts).is_err());
    assert!(Done { injected: 0, ..done }.worth_checking(counts).is_err());
    assert!(Done { refused: 0, severed: 0, ..done }.worth_checking(counts).is_err());
    assert!(Done { refused: 0, severed: 0, ..done }.worth_checking(Counts::new()).is_ok());
    assert!(done.message().contains("90"), "{}", done.message());
}

#[test]
fn a_counter_is_read_until_somebody_answers() {
    let mut read = CounterRead::new();
    let first = match read.next() {
        ReadStep::Ask { nonce } => nonce,
        other => panic!("{other:?}"),
    };
    let refused = Printed { ok: false, out: String::new(), err: "no leader".into() };
    assert_eq!(read.answered(&refused), None);
    match read.next() {
        ReadStep::Ask { nonce } => assert_ne!(nonce, first),
        other => panic!("{other:?}"),
    }
    let answer = Printed { ok: true, out: "17\n".into(), err: String::new() };
    assert_eq!(read.answered(&answer), Some(17));
    let mut tired = CounterRead::new();
    let last = loop {
        match tired.next() {
            ReadStep::Ask { .. } => {
                let _ = tired.answered(&refused);
            }
            ReadStep::GiveUp(e) => break e,
        }
    };
    assert!(last.message().contains("no leader"), "{}", last.message());
}

#[test]
fn errors_name_what_they_are_about() {
    assert!(ChaosError::NotRunning("n1".into()).message().contains("n1"));
    assert!(ChaosError::NoBinary("/bin/x".into()).message().contains("/bin/x"));
}
