use cargo_lockdiff::diff::{diff, Version};
use cargo_lockdiff::lockfile::{LockSnapshot, PackageRecord};

fn pkg(name: &str, version: &str) -> PackageRecord {
    PackageRecord {
        name: String::from(name),
        version: String::from(version),
        source: None,
    }
}

fn snapshot(pkgs: Vec<PackageRecord>) -> LockSnapshot {
    LockSnapshot { packages: pkgs }
}

fn assert_at(v: &Version, expected: &str) {
    match v {
        Version::At(s) => assert_eq!(s, expected),
        Version::New => panic!("expected a version, found the new marker"),
        Version::Removed => panic!("expected a version, found the removed marker"),
    }
}

#[test]
fn version_change_yields_one_row() {
    let from = snapshot(vec![pkg("serde", "1.0.0"), pkg("log", "0.4.0")]);
    let to = snapshot(vec![pkg("serde", "1.0.1"), pkg("log", "0.4.0")]);
    let d = diff(&from, &to);
    assert_eq!(d.len(), 1);
    assert_eq!(d.entries[0].name, "serde");
    assert_at(&d.entries[0].from, "1.0.0");
    assert_at(&d.entries[0].to, "1.0.1");
}

#[test]
fn removed_and_new_packages_are_both_reported_in_order() {
    let from = snapshot(vec![pkg("a", "1.0.0")]);
    let to = snapshot(vec![pkg("b", "2.0.0")]);
    let d = diff(&from, &to);
    assert_eq!(d.len(), 2);
    assert_eq!(d.entries[0].name, "a");
    assert_at(&d.entries[0].from, "1.0.0");
    assert!(matches!(d.entries[0].to, Version::Removed));
    assert_eq!(d.entries[1].name, "b");
    assert!(matches!(d.entries[1].from, Version::New));
    assert_at(&d.entries[1].to, "2.0.0");
}

#[test]
fn identical_lock_files_diff_to_nothing() {
    let from = snapshot(vec![pkg("x", "1.0.0")]);
    let to = snapshot(vec![pkg("x", "1.0.0")]);
    let d = diff(&from, &to);
    assert!(d.is_empty());
}

#[test]
fn larger_identical_lock_files_diff_to_nothing() {
    let mk = || snapshot(vec![pkg("a", "0.1.0"), pkg("b", "2.3.4"), pkg("c", "9.9.9")]);
    let d = diff(&mk(), &mk());
    assert!(d.is_empty());
}

#[test]
fn unchanged_packages_are_omitted_changed_ones_kept() {
    let from = snapshot(vec![pkg("same", "1.0.0"), pkg("bump", "0.1.0")]);
    let to = snapshot(vec![pkg("same", "1.0.0"), pkg("bump", "0.2.0")]);
    let d = diff(&from, &to);
    assert_eq!(d.len(), 1);
    assert_eq!(d.entries[0].name, "bump");
    assert_at(&d.entries[0].from, "0.1.0");
    assert_at(&d.entries[0].to, "0.2.0");
}

#[test]
fn names_come_out_in_lexicographic_order() {
    let from = snapshot(vec![pkg("zeta", "1.0.0"), pkg("alpha", "1.0.0"), pkg("mid", "1.0.0")]);
    let to = snapshot(vec![]);
    let d = diff(&from, &to);
    assert_eq!(d.len(), 3);
    assert_eq!(d.entries[0].name, "alpha");
    assert_eq!(d.entries[1].name, "mid");
    assert_eq!(d.entries[2].name, "zeta");
}

#[test]
fn duplicate_names_within_a_side_take_the_last_record() {
    let from = snapshot(vec![pkg("x", "1.0.0"), pkg("x", "2.0.0")]);
    let to = snapshot(vec![pkg("x", "3.0.0")]);
    let d = diff(&from, &to);
    assert_eq!(d.len(), 1);
    assert_at(&d.entries[0].from, "2.0.0");
    assert_at(&d.entries[0].to, "3.0.0");
}

#[test]
fn source_is_not_part_of_identity() {
    let from = snapshot(vec![PackageRecord {
        name: String::from("x"),
        version: String::from("1.0.0"),
        source: Some(String::from("registry+https://github.com/rust-lang/crates.io-index")),
    }]);
    let to = snapshot(vec![PackageRecord {
        name: String::from("x"),
        version: String::from("1.0.0"),
        source: Some(String::from("git+https://example.com/x")),
    }]);
    let d = diff(&from, &to);
    assert!(d.is_empty());
}

#[test]
fn duplicated_identical_records_resurface_as_new() {
    let from = snapshot(vec![pkg("x", "1.0.0"), pkg("x", "1.0.0")]);
    let to = snapshot(vec![pkg("x", "1.0.0"), pkg("x", "1.0.0")]);
    let d = diff(&from, &to);
    assert_eq!(d.len(), 1);
    assert!(matches!(d.entries[0].from, Version::New));
    assert_at(&d.entries[0].to, "1.0.0");
}
