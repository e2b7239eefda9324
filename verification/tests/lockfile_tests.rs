use cargo_lockdiff::diff::diff;
use cargo_lockdiff::lockfile::LockSnapshot;
use cargo_lockdiff::render::format_markdown;

const FROM_TEXT: &str = "\
[[package]]
name = \"log\"
version = \"0.4.0\"

[[package]]
name = \"serde\"
version = \"1.0.0\"
source = \"registry+https://github.com/rust-lang/crates.io-index\"
";

const TO_TEXT: &str = "\
[[package]]
name = \"log\"
version = \"0.4.0\"

[[package]]
name = \"serde\"
version = \"1.0.1\"
source = \"registry+https://github.com/rust-lang/crates.io-index\"
";

#[test]
fn lock_text_parses_into_its_package_records() {
    let snap = LockSnapshot::parse(FROM_TEXT).unwrap();
    assert_eq!(snap.packages.len(), 2);
    assert_eq!(snap.packages[0].name, "log");
    assert_eq!(snap.packages[0].version, "0.4.0");
    assert!(snap.packages[0].source.is_none());
    assert_eq!(snap.packages[1].name, "serde");
    assert_eq!(snap.packages[1].version, "1.0.0");
    assert_eq!(
        snap.packages[1].source.as_deref(),
        Some("registry+https://github.com/rust-lang/crates.io-index")
    );
}

#[test]
fn bad_lock_text_is_refused() {
    assert!(LockSnapshot::parse("this is not a lock file ]][[").is_err());
    assert!(LockSnapshot::parse("[[package]]\nname = \"x\"\n").is_err());
}

#[test]
fn parsed_snapshots_diff_end_to_end() {
    let from = LockSnapshot::parse(FROM_TEXT).unwrap();
    let to = LockSnapshot::parse(TO_TEXT).unwrap();
    let d = diff(&from, &to);
    assert_eq!(
        format_markdown(&d),
        "| Package | From | To |\n|---|---|---|\n| serde | 1.0.0 | 1.0.1 |\n"
    );
}
