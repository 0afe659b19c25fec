use keel::bench::failover::{advance, summarise, Seen, Stage, Trial};
use keel::time::Duration;

/// The check that replaced a trial count.
///
/// A hundred trials of a bimodal distribution can put the median on either
/// side of the fence, and the count cannot tell. Two halves that disagree
/// can.
#[test]
fn a_median_that_moves_between_the_halves_is_reported_as_unstable() {
    let bimodal: Vec<Trial> = (0..200)
        .map(|i| {
            // The first half mostly lands in the low mode, the second half
            // mostly in the high one — which is what a draw that happens to
            // favour one node early looks like.
            let ms = if (i < 100) == (i % 3 != 0) { 600 } else { 900 };
            Trial::Recovered(Duration::from_millis(ms))
        })
        .collect();
    let summary = summarise(&bimodal);
    assert!(summary.has_enough_trials(), "the count says it is fine");
    assert!(
        !summary.median_is_stable(),
        "a median that moves between the halves was called stable"
    );
    assert!(summary.render().contains("not stable"));
}

/// And a distribution that is not bimodal reports stable, with both halves
/// printed so a reader can see the check happened rather than trust it.
#[test]
fn a_median_that_holds_across_the_halves_is_reported_as_stable() {
    let steady: Vec<Trial> = (0..200)
        .map(|i| Trial::Recovered(Duration::from_millis(800 + (i % 7) as u64)))
        .collect();
    let summary = summarise(&steady);
    assert!(summary.median_is_stable());
    let rendered = summary.render();
    assert!(rendered.contains("the median is stable"));
    assert!(!rendered.contains("not stable"));
}

#[test]
fn a_summary_counts_each_outcome_and_only_times_the_recoveries() {
    let trials = vec![
        Trial::Recovered(Duration::from_millis(100)),
        Trial::Recovered(Duration::from_millis(300)),
        Trial::NotHealthyBefore,
        Trial::TimedOut,
    ];
    let s = summarise(&trials);
    assert_eq!(s.trials, 4);
    assert_eq!(s.recovered, 2);
    assert_eq!(s.not_healthy, 1);
    assert_eq!(s.timed_out, 1);
    assert_eq!(s.latency.count(), 2);
    assert!(s.median() >= Duration::from_millis(100));
}

/// A percentile over a handful of trials is the maximum with a decimal
/// point, and the report has to say so rather than printing it plainly.
#[test]
fn a_report_with_too_few_trials_says_its_percentiles_describe_the_draw() {
    let few = summarise(&[Trial::Recovered(Duration::from_millis(1))]);
    assert!(!few.has_enough_trials());
    assert!(few.render().contains("fewer than 100 usable trials"));

    let many = summarise(
        &(0..100)
            .map(|i| Trial::Recovered(Duration::from_millis(100 + i)))
            .collect::<Vec<_>>(),
    );
    assert!(many.has_enough_trials());
    assert!(!many.render().contains("fewer than 100"));
}

/// A trial that could not kill anything is not a trial, and must not be counted
/// as a fast recovery.
#[test]
fn a_trial_that_killed_nothing_is_discarded_rather_than_timed() {
    let patience = Duration::from_millis(50);
    let budget = Duration::from_millis(50);
    // No cluster, so the health probe fails and the kill is never reached.
    let stage = advance(Stage::Probing, Seen::NotServed(Duration::from_millis(10)), patience, budget);
    assert_eq!(stage, Stage::Probing);
    let stage = advance(stage, Seen::NotServed(Duration::from_millis(50)), patience, budget);
    assert_eq!(stage, Stage::Over(Trial::NotHealthyBefore));
    // And a healthy one whose leader could not be killed is discarded as well.
    let stage = advance(Stage::Killing, Seen::Killed(false), patience, budget);
    assert_eq!(stage, Stage::Over(Trial::NotHealthyBefore));
}

#[test]
fn a_trial_is_timed_from_the_kill_to_the_first_answer() {
    let patience = Duration::from_secs(5);
    let budget = Duration::from_secs(30);
    let stage = advance(Stage::Probing, Seen::Served(Duration::from_millis(3)), patience, budget);
    assert_eq!(stage, Stage::Killing);
    let stage = advance(stage, Seen::Killed(true), patience, budget);
    assert_eq!(stage, Stage::Waiting);
    let stage = advance(stage, Seen::NotServed(Duration::from_millis(400)), patience, budget);
    assert_eq!(stage, Stage::Waiting);
    let stage = advance(stage, Seen::Served(Duration::from_millis(812)), patience, budget);
    assert_eq!(stage, Stage::Over(Trial::Recovered(Duration::from_millis(812))));
    let late = advance(Stage::Waiting, Seen::NotServed(budget), patience, budget);
    assert_eq!(late, Stage::Over(Trial::TimedOut));
}

#[test]
fn a_report_quotes_its_percentiles_in_tenths_of_a_millisecond() {
    let trials: Vec<Trial> =
        (1..=4).map(|i| Trial::Recovered(Duration::from_nanos(i * 1_250_000))).collect();
    let summary = summarise(&trials);
    let (first, second) = summary.median_halves().unwrap();
    assert!(first < second);
    assert!(summary.p99() >= summary.median());
    assert!(summary.quantile(1, 1) >= Duration::from_nanos(5_000_000));
    assert!(summary.render().contains("5.0"), "{}", summary.render());
    // A quarter is written to the even tenth.
    let one = summarise(&[Trial::Recovered(Duration::from_nanos(250_000))]);
    assert!(one.render().contains("max     0.2 ms"), "{}", one.render());
}
