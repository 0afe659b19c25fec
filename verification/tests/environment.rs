use keel::bench::environment::{
    cpu_model, filesystem_at, memory_gib, os_name, tree_is_modified, Environment, Filesystem,
    Reported,
};

/// A host described by what its operating system said.
fn described() -> Environment {
    Environment {
        cpu: cpu_model("processor\t: 0\nmodel name\t: Test CPU @ 3.00GHz\n").unwrap(),
        cores: 8,
        memory_gib: memory_gib("MemTotal:       16384000 kB\nMemFree: 1 kB\n").unwrap(),
        os: os_name("NAME=\"Test\"\nPRETTY_NAME=\"Test Linux 1\"\n").unwrap(),
        kernel: "6.1.0".into(),
        arch: "x86_64".into(),
        filesystem: filesystem_at(Some(Reported::Number(0xEF53))),
        data_dir: "/data".into(),
        commit: "abc1234".into(),
        tree_modified: tree_is_modified(true, true, ""),
        date: "2026-01-01T00:00:00Z".into(),
    }
}

#[test]
fn a_probed_environment_is_stated_and_an_unknown_one_is_not() {
    assert!(!Environment::unknown().is_stated());
    let env = described();
    assert!(env.is_stated(), "{env:?}");
    assert!(env.cores > 0);
    assert!(env.memory_gib > 0);
}

/// The probe has to name a real filesystem for a real directory, or the bar
/// below it is refusing on a technicality rather than on a fact.
#[test]
fn a_temporary_directory_is_on_a_named_filesystem() {
    let fs = filesystem_at(Some(Reported::Number(0x0102_1994)));
    assert_ne!(fs, Filesystem::Unknown, "could not name the filesystem");
    assert!(!fs.name().is_empty());
}

#[test]
fn a_path_that_does_not_exist_is_unknown_rather_than_durable() {
    assert_eq!(filesystem_at(None), Filesystem::Unknown);
}

#[test]
fn the_header_names_the_hardware_and_the_filesystem() {
    let env = described();
    let header = env.render();
    assert!(header.contains("cores"), "{header}");
    assert!(header.contains(env.filesystem.name()), "{header}");
}

#[test]
fn a_filesystem_is_told_by_its_name_or_by_its_number() {
    assert_eq!(
        filesystem_at(Some(Reported::Name("tmpfs".into()))),
        Filesystem::Memory("tmpfs".into())
    );
    assert_eq!(
        filesystem_at(Some(Reported::Name("apfs".into()))),
        Filesystem::Durable("apfs".into())
    );
    assert_eq!(
        filesystem_at(Some(Reported::Number(0x0102_1994))),
        Filesystem::Memory("tmpfs".into())
    );
    assert!(filesystem_at(Some(Reported::Number(0x0102_1994))).is_memory());
    assert!(!described().filesystem.is_memory());
    assert_eq!(Filesystem::Unknown.name(), "unknown");
}

#[test]
fn what_a_host_says_of_itself_is_found_among_the_rest() {
    let env = described();
    assert_eq!(env.cpu, "Test CPU @ 3.00GHz");
    assert_eq!(env.memory_gib, 15);
    assert_eq!(env.os, "Test Linux 1");
    assert_eq!(cpu_model("flags\t: fpu\n"), None);
    assert_eq!(memory_gib("MemFree: 1 kB\n"), None);
    assert_eq!(os_name("NAME=x\n"), None);
    assert!(tree_is_modified(false, true, ""));
    assert!(tree_is_modified(true, false, ""));
    assert!(tree_is_modified(true, true, "new.rs\n"));
}
