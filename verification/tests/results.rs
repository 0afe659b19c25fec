use keel::bench::environment::{
    cpu_model, filesystem_at, memory_gib, os_name, Environment, Filesystem, Reported,
};
use keel::bench::publishable::{Admitted, Publishable, Refusal, Tier};
use keel::bench::record::{is_plain_name, path_for, result_text, Evidence, RecordError};
use keel::log::fs::SyncMode;

/// Where a result goes, and what is written there.
fn write_result<E: Evidence>(
    name: &str,
    evidence: &E,
    body: &str,
) -> Result<(String, String), RecordError> {
    let path = path_for("/work", name)?;
    Ok((path, result_text(evidence, body)))
}

fn host() -> Environment {
    Environment {
        cpu: "Test CPU".into(),
        cores: 8,
        memory_gib: 16,
        os: "TestOS".into(),
        kernel: "1.0".into(),
        arch: "aarch64".into(),
        filesystem: Filesystem::Durable("apfs".into()),
        data_dir: "/data".into(),
        commit: "abc1234".into(),
        tree_modified: false,
        date: "2026-01-01T00:00:00Z".into(),
    }
}

#[test]
fn a_publishable_result_is_written_with_its_header_first() {
    let p = Publishable::check(&host(), Tier::Exploratory, 3).unwrap();
    let (path, written) = write_result("throughput.txt", &p, "ops/s 1234\n").unwrap();

    assert!(written.starts_with("host:"), "{written}");
    assert!(written.contains("tier:   Exploratory"));
    assert!(written.contains("ops/s 1234"));
    assert!(
        written.find("tier:").unwrap() < written.find("ops/s").unwrap(),
        "the number appeared before the tier that qualifies it"
    );
    assert!(path.ends_with("/results/bench/throughput.txt"), "{path:?}");
}

/// An Exploratory result says so twice: once in the header, and once where
/// somebody who skimmed to the table will see it.
#[test]
fn an_unheadlineable_result_repeats_the_qualifier_above_the_numbers() {
    let p = Publishable::check(&host(), Tier::Exploratory, 3).unwrap();
    let (_, written) = write_result("a.txt", &p, "x").unwrap();
    assert!(
        written.contains("not a claim about how fast Keel"),
        "{written}"
    );
}

#[test]
fn an_admitted_result_is_written_and_says_why_it_is_not_publishable() {
    let admitted = Admitted::new(
        &host(),
        Refusal::TooFewRuns(1),
        "a smoke run, to check the harness starts",
    );
    let (_, written) = write_result("smoke.txt", &admitted, "ops/s 1\n").unwrap();
    assert!(written.contains("NOT PUBLISHABLE"), "{written}");
    assert!(written.contains("a smoke run"), "{written}");
}

/// The directory is not the caller's to choose, so every way of trying to
/// choose it is refused.
#[test]
fn anything_that_is_not_a_plain_file_name_is_refused() {
    let p = Publishable::check(&host(), Tier::Exploratory, 3).unwrap();
    for bad in [
        "../escape.txt",
        "results/bench/../../README.md",
        "/tmp/anywhere.txt",
        "sub/dir.txt",
        "",
        ".",
        "..",
    ] {
        assert!(
            write_result(bad, &p, "1").is_err(),
            "{bad:?} was accepted as a benchmark result name"
        );
    }
    // And a plain name is accepted.
    assert!(write_result("fine.txt", &p, "1").is_ok());
}

#[test]
fn a_name_is_plain_or_it_is_handed_back() {
    assert!(is_plain_name("a..b"));
    match path_for("/work", "a/b") {
        Err(RecordError::NotAFileName(name)) => assert_eq!(name, "a/b"),
        other => panic!("{other:?}"),
    }
    assert_eq!(path_for("/work", "a.txt").unwrap(), "/work/results/bench/a.txt");
}

// ------------------------------------------------------------------- the bar

fn probed() -> Environment {
    Environment {
        cpu: cpu_model("model name : Test CPU\n").unwrap(),
        cores: 4,
        memory_gib: memory_gib("MemTotal: 33554432 kB\n").unwrap(),
        os: os_name("PRETTY_NAME=\"Test Linux\"\n").unwrap(),
        kernel: "6.1.0".into(),
        arch: "x86_64".into(),
        filesystem: filesystem_at(Some(Reported::Number(0xEF53))),
        data_dir: "/data".into(),
        commit: "abc1234".into(),
        tree_modified: false,
        date: "2026-01-01T00:00:00Z".into(),
    }
}

/// The bar, against a host as its operating system describes it.
#[test]
fn this_host_can_produce_an_exploratory_result() {
    let env = probed();
    let exploratory =
        Publishable::check(&env, Tier::Exploratory, 3).expect("a stated durable host passes");
    assert!(!exploratory.tier().may_be_headlined());
    assert!(exploratory.header().contains("not a headline number"));
}

/// What the bar can and cannot enforce, stated rather than pretended past.
///
/// The tier is a label the caller chooses; nothing here can tell a dedicated
/// Linux box from a laptop. What stops a laptop number being headlined is that
/// somebody has to write `Tier::Reference` down, and that is the honest limit of what a type can do.
#[test]
fn the_tier_is_a_claim_the_caller_makes_and_the_gate_records() {
    let env = probed();
    assert!(Publishable::check(&env, Tier::Reference, 3).is_ok());
}

/// The two refusals, and the admitted controls.
#[test]
fn tmpfs_and_zero_fsync_are_refused_and_their_controls_are_admitted() {
    let mut env = probed();

    // Zero fsync, on a real disk.
    let refusal = Publishable::check_with_sync(&env, Tier::Exploratory, SyncMode::Off, 3)
        .expect_err("fsync off must be refused");
    assert!(matches!(refusal, Refusal::SyncNotDurable(_, _)));
    let control = Admitted::new(
        &env,
        refusal,
        "the fsync-off arm of the durability ablation",
    );
    assert!(control.header().contains("NOT PUBLISHABLE"));
    assert!(control.header().contains("durability ablation"));

    // Memory pretending to be a disk.
    env.filesystem = Filesystem::Memory("tmpfs".into());
    let refusal =
        Publishable::check(&env, Tier::Exploratory, 3).expect_err("memory must be refused");
    assert!(matches!(refusal, Refusal::FilesystemIsMemory(_)));
    let control = Admitted::new(&env, refusal, "the tmpfs arm of the storage ablation");
    assert!(control.header().contains("tmpfs"));
    assert!(control.header().contains("memcpy"));

    // And an admitted control is still writable, because an ablation is the
    // experiment rather than a mistake.
    let (_, written) = write_result("ablation.txt", &control, "ops/s 1\n").unwrap();
    assert!(written.contains("NOT PUBLISHABLE"));
}

/// Nothing reaches `results/bench/` without evidence.
///
/// The compiler enforces most of this: `write_result` takes an `impl Evidence`
/// and the trait is sealed to two types, so there is no third way to satisfy
/// it. What is left to test is the part the type system does not express —
/// that the caller cannot choose the directory.
#[test]
fn a_result_cannot_be_written_outside_the_bench_directory() {
    let env = probed();
    let p = Publishable::check(&env, Tier::Exploratory, 3).unwrap();
    for bad in ["../elsewhere.txt", "/tmp/anywhere.txt", "sub/dir.txt"] {
        assert!(
            write_result(bad, &p, "1").is_err(),
            "{bad} was accepted"
        );
    }
    let (path, _) = write_result("fine.txt", &p, "1").unwrap();
    assert!(path.ends_with("/results/bench/fine.txt"), "{path:?}");
}
