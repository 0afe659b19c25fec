use keel::bench::campaign::{
    campaign, caption, decide, is_a_curve, median, parse_rates, parse_sync, record, render_run,
    repetitions, shape_for, Nonces, Row, Setup, Verdict,
};
use keel::bench::environment::{Environment, Filesystem};
use keel::bench::failover::{summarise, Trial};
use keel::bench::histogram::Histogram;
use keel::bench::plot::PlotError;
use keel::bench::publishable::{Refusal, Tier};
use keel::bench::trials::{
    admin_reply, admin_request, failover_outcome, failover_progress, failover_report, is_published,
    laggard, says_leader, snapshot_key, snapshot_value, trial_nonce, Fill, FillStep, Filling,
};
use keel::bench::workload::{Loop, Mix, Run};
use keel::log::fs::SyncMode;
use keel::time::Duration;

fn host() -> Environment {
    Environment {
        cpu: "Test CPU".into(),
        cores: 8,
        memory_gib: 16,
        os: "TestOS".into(),
        kernel: "1.0".into(),
        arch: "aarch64".into(),
        filesystem: Filesystem::Durable("apfs".into()),
        data_dir: "/data".into(),
        commit: "abc1234".into(),
        tree_modified: false,
        date: "2026-01-01T00:00:00Z".into(),
    }
}

fn one_run(rate: u64, acknowledged: u64, latency_ns: u64, late: u64) -> Run {
    let mut latency = Histogram::new();
    latency.record_weighted(latency_ns, acknowledged);
    Run {
        mix: Mix::A,
        shape: Loop::Open { rate_per_s: rate, clients: 1, depth: 1 },
        value_bytes: 128,
        key_space: 10,
        duration: Duration::from_secs(1),
        acknowledged,
        attempted: acknowledged + late,
        latency,
        late,
    }
}

#[test]
fn a_sync_mode_is_known_by_its_name() {
    assert_eq!(parse_sync("durable"), Some(SyncMode::Durable));
    assert_eq!(parse_sync("barrier"), Some(SyncMode::Barrier));
    assert_eq!(parse_sync("none"), Some(SyncMode::Off));
    assert_eq!(parse_sync("fast"), None);
}

#[test]
fn a_run_is_decided_on_before_it_is_measured() {
    let good = decide(&host(), Tier::Exploratory, SyncMode::Durable, 3, None);
    assert!(matches!(good, Verdict::Publish(_)));
    assert!(record(&good, "body").unwrap().contains("body"));

    let refused = decide(&host(), Tier::Exploratory, SyncMode::Off, 3, None);
    assert!(matches!(&refused, Verdict::Refuse(Refusal::SyncNotDurable(_, _))));
    assert_eq!(record(&refused, "body"), None);

    let admitted = decide(&host(), Tier::Exploratory, SyncMode::Off, 3, Some("an ablation"));
    assert!(matches!(&admitted, Verdict::Admit(_)));
    let text = record(&admitted, "body").unwrap();
    assert!(text.contains("NOT PUBLISHABLE") && text.contains("an ablation"), "{text}");
    assert!(caption(&admitted, &host()).starts_with("NOT PUBLISHABLE"));
    assert!(caption(&good, &host()).contains("Test CPU, apfs"));
}

#[test]
fn the_middle_of_some_numbers() {
    assert_eq!(median(&[]), 0);
    assert_eq!(median(&[7]), 7);
    assert_eq!(median(&[9, 1, 5]), 5);
    assert_eq!(median(&[4, 1, 3, 2]), 3);
}

#[test]
fn a_rate_of_nothing_is_a_closed_loop() {
    assert_eq!(shape_for(0, 4, 2), Loop::Closed { clients: 4, depth: 2 });
    assert_eq!(shape_for(9, 4, 2), Loop::Open { rate_per_s: 9, clients: 4, depth: 2 });
}

#[test]
fn no_two_reservations_share_a_nonce() {
    let mut nonces = Nonces::new();
    let first = nonces.reserve(8);
    let second = nonces.reserve(1);
    assert!(second >= first + 8);
    // Reservations go round past the last number rather than stop there.
    let far = nonces.reserve(u64::MAX);
    let near = nonces.reserve(1);
    assert_eq!(near, far.wrapping_add(u64::MAX));
}

#[test]
fn rates_are_read_from_a_list() {
    assert_eq!(parse_rates("1000, 2000,nonsense,,3000"), vec![1000, 2000, 3000]);
    assert!(!is_a_curve(&[1000]));
    assert!(is_a_curve(&[1000, 2000]));
    assert_eq!(repetitions(0), 1);
    assert_eq!(repetitions(5), 5);
}

#[test]
fn a_row_quotes_the_median_run() {
    let runs = vec![
        one_run(1000, 900, 2_000_000, 0),
        one_run(1000, 1000, 1_000_000, 0),
        one_run(1000, 800, 4_000_000, 0),
    ];
    let row = Row::of(1000, &runs);
    assert_eq!(row.rate, 1000);
    assert_eq!(row.achieved, 900);
    assert_eq!(row.acknowledged, 2700);
    assert_eq!(row.attempted, 2700);
    assert!(!row.is_behind());
    assert!(row.render().contains("1000"), "{}", row.render());
    let behind = Row::of(1000, &[one_run(1000, 500, 1_000_000, 500)]);
    assert!(behind.is_behind());
    assert_ne!(behind.render(), row.render());
}

#[test]
fn a_campaign_is_a_report_and_a_drawing() {
    let setup = Setup {
        mix: Mix::A,
        clients: 4,
        secs: 1,
        value_len: 128,
        keys: 10,
        runs: 1,
        cluster_nodes: 3,
        tick_ms: 50,
        svg: "curve.svg".into(),
    };
    let verdict = decide(&host(), Tier::Exploratory, SyncMode::Durable, 3, None);
    let runs = vec![
        vec![one_run(1000, 1000, 1_000_000, 0)],
        vec![one_run(2000, 1900, 3_000_000, 0)],
    ];
    let (report, drawing) =
        campaign(&setup, &verdict, &host(), &[1000, 2000], &runs).unwrap();
    assert!(report.contains("1900"), "{report}");
    assert!(report.contains("curve.svg"), "{report}");
    assert!(drawing.starts_with("<svg") && drawing.contains("Exploratory tier"), "{drawing}");

    let one = campaign(&setup, &verdict, &host(), &[1000], &runs[..1]);
    assert!(matches!(one, Err(PlotError::NotACurve(_, 1))), "{one:?}");
    let run = render_run(&runs[0][0]);
    assert!(run.contains("1000"), "{run}");
}

// ---------------------------------------------------------------------- trials

#[test]
fn a_failover_campaign_says_what_it_found() {
    let trials: Vec<Trial> = (0..20)
        .map(|i| {
            if i == 0 {
                Trial::TimedOut
            } else {
                Trial::Recovered(Duration::from_millis(100))
            }
        })
        .collect();
    assert_eq!(failover_progress(&trials[..19]), None);
    let progress = failover_progress(&trials).unwrap();
    assert!(progress.starts_with("  20 trials, 19 recovered, median 10"), "{progress}");
    let report = summarise(&trials);
    let text = failover_report(3, 50, "durable", &report);
    assert!(text.contains("durable"), "{text}");
    assert_eq!(failover_outcome(&report, 20), Err("only 19 usable trials of 20".to_string()));
    let many = summarise(&vec![Trial::Recovered(Duration::from_millis(100)); 100]);
    assert!(failover_outcome(&many, 100).is_ok());
    assert_eq!(trial_nonce(2), 2_000_194);
}

#[test]
fn a_state_of_a_size_takes_as_many_values_as_it_takes() {
    let filling = Filling::of(1000, 300);
    assert_eq!((filling.value_len, filling.values), (300, 4));
    assert_eq!(filling.checkpoint_entries(), 10_004);
    assert_eq!(Filling::of(100, 1).value_len, 16);
    assert_eq!(Filling::of(100, usize::MAX).value_len, 8_388_608);
    let report = filling.report("durable", 3, &[10, 12, 11], &[100, 90, 95], &[1100, 1100, 1100]);
    assert!(report.contains("11") && report.contains("95"), "{report}");
}

#[test]
fn the_node_that_falls_behind_is_not_the_leader() {
    assert_eq!(laggard(0), 1);
    assert_eq!(laggard(2), 0);
}

#[test]
fn the_values_of_a_snapshot_do_not_repeat() {
    assert_eq!(snapshot_key(7), b"snapshot-0000000007".to_vec());
    let value = snapshot_value(20, 1);
    assert_eq!(value.len(), 20);
    assert_eq!(value, snapshot_value(20, 1));
    assert_ne!(value, snapshot_value(20, 2));
    assert_eq!(snapshot_value(0, 1), Vec::<u8>::new());
}

#[test]
fn filling_waits_for_what_it_offered() {
    let mut fill = Fill::new(2);
    assert_eq!(fill.next(false, true), FillStep::Submit { n: 0 });
    assert_eq!(fill.next(true, true), FillStep::Poll);
    fill.completed_one();
    let mut steps = 0;
    let last = loop {
        match fill.next(false, true) {
            FillStep::Submit { n } => assert_eq!(n, 1),
            FillStep::Poll => fill.completed_one(),
            done => break done,
        }
        steps += 1;
        assert!(steps < 10);
    };
    assert_eq!(last, FillStep::Filled);
    let mut late = Fill::new(2);
    let _ = late.next(false, true);
    // What was begun in time is offered to the end.
    assert_eq!(late.next(true, false), FillStep::Poll);
    assert_eq!(
        late.next(true, false),
        FillStep::GaveUp("only 0 of 2 writes completed".to_string())
    );
}

#[test]
fn what_an_admin_port_is_asked_and_answers() {
    assert!(admin_request("/checkpoint").starts_with("POST /checkpoint HTTP/1.1\r\n"));
    assert!(admin_reply("HTTP/1.1 202 Accepted\r\n\r\n").is_ok());
    assert_eq!(
        admin_reply("HTTP/1.1 503 Busy\r\nX: y\r\n"),
        Err("HTTP/1.1 503 Busy".to_string())
    );
    assert_eq!(admin_reply(""), Err("no response".to_string()));
    assert!(is_published("0000000123"));
    assert!(!is_published("staging"));
    assert!(says_leader("{\"role\": \"leader\"}"));
    assert!(!says_leader("{\"role\": \"follower\", \"hint\": \"leader\"}"));
}
