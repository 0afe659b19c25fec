use keel::bench::environment::{Environment, Filesystem};
use keel::bench::publishable::{Admitted, Publishable, Refusal, Tier, MINIMUM_RUNS};
use keel::log::fs::SyncMode;

fn durable_host() -> Environment {
    Environment {
        cpu: "Test CPU".into(),
        cores: 8,
        memory_gib: 16,
        os: "TestOS 1".into(),
        kernel: "1.0".into(),
        arch: "aarch64".into(),
        filesystem: Filesystem::Durable("apfs".into()),
        data_dir: "/data".into(),
        commit: "abc1234".into(),
        tree_modified: false,
        date: "2026-01-01T00:00:00Z".into(),
    }
}

#[test]
fn a_stated_durable_host_with_enough_runs_passes() {
    let p = Publishable::check(&durable_host(), Tier::Exploratory, 3).expect("passes");
    assert_eq!(p.runs(), 3);
    assert!(p.header().contains("Exploratory"));
    assert!(
        p.header().contains("not a headline number"),
        "an Exploratory result must say so in its own header"
    );
}

/// The refusal this whole crate exists for.
#[test]
fn a_run_on_memory_is_refused() {
    let mut env = durable_host();
    env.filesystem = Filesystem::Memory("tmpfs".into());
    assert_eq!(
        Publishable::check(&env, Tier::Reference, 5),
        Err(Refusal::FilesystemIsMemory("tmpfs".into()))
    );
}

#[test]
fn a_run_without_fsync_is_refused() {
    for mode in [SyncMode::Off, SyncMode::Barrier] {
        let outcome = Publishable::check_with_sync(&durable_host(), Tier::Reference, mode, 5);
        assert!(
            matches!(outcome, Err(Refusal::SyncNotDurable(_, _))),
            "{mode:?} produced {outcome:?}"
        );
    }
}

/// A number that cannot say which code produced it is not reproducible.
#[test]
fn a_modified_tree_and_an_unknown_commit_are_both_refused() {
    let mut env = durable_host();
    env.tree_modified = true;
    assert_eq!(
        Publishable::check(&env, Tier::Exploratory, 3),
        Err(Refusal::TreeModified)
    );

    let mut env = durable_host();
    env.commit = String::new();
    assert_eq!(
        Publishable::check(&env, Tier::Exploratory, 3),
        Err(Refusal::CommitUnknown)
    );
}

#[test]
fn a_host_nobody_described_is_refused() {
    assert_eq!(
        Publishable::check(&Environment::unknown(), Tier::Exploratory, 9),
        Err(Refusal::HardwareNotStated)
    );
}

#[test]
fn a_filesystem_nobody_could_identify_is_refused() {
    let mut env = durable_host();
    env.filesystem = Filesystem::Unknown;
    // `is_stated` already rejects an unknown filesystem, so this arrives as
    // HardwareNotStated — which is the same refusal for the same reason and
    // is checked here so a change to either cannot silently open a door.
    assert!(Publishable::check(&env, Tier::Exploratory, 9).is_err());
}

#[test]
fn one_run_is_refused_and_three_is_the_floor() {
    assert_eq!(
        Publishable::check(&durable_host(), Tier::Exploratory, 1),
        Err(Refusal::TooFewRuns(1))
    );
    assert_eq!(
        Publishable::check(&durable_host(), Tier::Exploratory, 2),
        Err(Refusal::TooFewRuns(2))
    );
    assert!(Publishable::check(&durable_host(), Tier::Exploratory, MINIMUM_RUNS).is_ok());
}

/// The other door, and it says what it is.
#[test]
fn an_admitted_run_carries_the_reason_it_cannot_be_published() {
    let mut env = durable_host();
    env.filesystem = Filesystem::Memory("tmpfs".into());
    let refusal = Publishable::check(&env, Tier::Exploratory, 3).unwrap_err();
    let admitted = Admitted::new(&env, refusal, "the tmpfs arm of the storage ablation");
    let header = admitted.header();
    assert!(header.contains("NOT PUBLISHABLE"), "{header}");
    assert!(header.contains("memcpy"), "{header}");
    assert!(header.contains("storage ablation"), "{header}");
}

/// Only one tier may be quoted without its qualifier, and it is not the one
/// every number in this repository currently comes from.
#[test]
fn only_the_reference_tier_may_be_headlined() {
    assert!(!Tier::Exploratory.may_be_headlined());
    assert!(Tier::Reference.may_be_headlined());
}

#[test]
fn a_refusal_says_what_is_wrong_with_the_run() {
    assert!(Refusal::TooFewRuns(1).message().contains('1'));
    assert!(Refusal::FilesystemIsMemory("tmpfs".into()).message().contains("tmpfs"));
    assert!(Refusal::TreeModified.message().contains("tree"));
    let p = Publishable::check(&durable_host(), Tier::Reference, 4).unwrap();
    assert_eq!(p.tier().name(), "Reference");
    assert_eq!(p.environment(), &durable_host());
    assert!(!p.header().contains("not a headline number"));
}
