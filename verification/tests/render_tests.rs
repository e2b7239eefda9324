use cargo_lockdiff::diff::{diff, Changes, Diff, Version};
use cargo_lockdiff::lockfile::{LockSnapshot, PackageRecord};
use cargo_lockdiff::metadata::{Entry, Metadata};
use cargo_lockdiff::render::{format_json, format_markdown, format_markdown_links, hex02, Format};

fn pkg(name: &str, version: &str) -> PackageRecord {
    PackageRecord {
        name: String::from(name),
        version: String::from(version),
        source: None,
    }
}

fn snapshot(pkgs: Vec<PackageRecord>) -> LockSnapshot {
    LockSnapshot { packages: pkgs }
}

const MARKER: &str = "registry+https://github.com/rust-lang/crates.io-index";

#[test]
fn markdown_single_version_change() {
    let from = snapshot(vec![pkg("serde", "1.0.0"), pkg("log", "0.4.0")]);
    let to = snapshot(vec![pkg("serde", "1.0.1"), pkg("log", "0.4.0")]);
    let d = diff(&from, &to);
    let out = format_markdown(&d);
    assert_eq!(
        out,
        "| Package | From | To |\n|---|---|---|\n| serde | 1.0.0 | 1.0.1 |\n"
    );
}

#[test]
fn markdown_removed_then_new_in_order() {
    let from = snapshot(vec![pkg("a", "1.0.0")]);
    let to = snapshot(vec![pkg("b", "2.0.0")]);
    let d = diff(&from, &to);
    let out = format_markdown(&d);
    assert_eq!(
        out,
        "| Package | From | To |\n|---|---|---|\n| a | 1.0.0 | REMOVED |\n| b | NEW | 2.0.0 |\n"
    );
}

#[test]
fn markdown_empty_diff_prints_sentinel() {
    let from = snapshot(vec![pkg("x", "1.0.0")]);
    let to = snapshot(vec![pkg("x", "1.0.0")]);
    let d = diff(&from, &to);
    assert_eq!(format_markdown(&d), "No changes\n");
    let meta = Metadata { entries: vec![] };
    assert_eq!(format_markdown_links(&d, &meta), "No changes\n");
}

#[test]
fn json_empty_diff_prints_empty_object() {
    let d = Diff { entries: vec![] };
    assert_eq!(format_json(&d), "{}\n");
}

#[test]
fn json_single_version_change() {
    let from = snapshot(vec![pkg("serde", "1.0.0"), pkg("log", "0.4.0")]);
    let to = snapshot(vec![pkg("serde", "1.0.1"), pkg("log", "0.4.0")]);
    let d = diff(&from, &to);
    assert_eq!(
        format_json(&d),
        "{\"serde\":{\"name\":\"serde\",\"from\":{\"At\":\"1.0.0\"},\"to\":{\"At\":\"1.0.1\"}}}\n"
    );
}

#[test]
fn json_markers_serialize_as_tagged_strings() {
    let from = snapshot(vec![pkg("a", "1.0.0")]);
    let to = snapshot(vec![pkg("b", "2.0.0")]);
    let d = diff(&from, &to);
    assert_eq!(
        format_json(&d),
        "{\"a\":{\"name\":\"a\",\"from\":{\"At\":\"1.0.0\"},\"to\":\"REMOVED\"},\"b\":{\"name\":\"b\",\"from\":\"NEW\",\"to\":{\"At\":\"2.0.0\"}}}\n"
    );
}

#[test]
fn json_escapes_quotes_and_controls() {
    let d = Diff {
        entries: vec![Changes {
            name: String::from("a"),
            from: Version::At(String::from("1\"\\\n\u{1f}")),
            to: Version::Removed,
            source: None,
        }],
    };
    assert_eq!(
        format_json(&d),
        "{\"a\":{\"name\":\"a\",\"from\":{\"At\":\"1\\\"\\\\\\n\\u001f\"},\"to\":\"REMOVED\"}}\n"
    );
}

#[test]
fn linked_markdown_numbers_links_in_first_use_order() {
    let from = snapshot(vec![pkg("serde", "1.0.0")]);
    let to = snapshot(vec![pkg("serde", "1.0.1")]);
    let d = diff(&from, &to);
    let meta = Metadata {
        entries: vec![Entry::new(
            String::from("serde"),
            Some(String::from(MARKER)),
            Some(String::from("https://github.com/serde-rs/serde.git")),
        )],
    };
    let out = format_markdown_links(&d, &meta);
    assert_eq!(
        out,
        "| Package | From | To | Compare |\n|---|---|---|---|\n| [serde][01] | 1.0.0 | 1.0.1 | [...][02] |\n\n[01]: https://crates.io/crates/serde\n[02]: https://github.com/serde-rs/serde/compare/1.0.0...1.0.1\n"
    );
}

#[test]
fn linked_markdown_gates_compare_for_new_and_removed() {
    let from = snapshot(vec![pkg("a", "1.0.0")]);
    let to = snapshot(vec![pkg("b", "2.0.0")]);
    let d = diff(&from, &to);
    let meta = Metadata {
        entries: vec![
            Entry::new(
                String::from("a"),
                Some(String::from(MARKER)),
                Some(String::from("https://github.com/x/a")),
            ),
            Entry::new(
                String::from("b"),
                Some(String::from(MARKER)),
                Some(String::from("https://github.com/x/b")),
            ),
        ],
    };
    let out = format_markdown_links(&d, &meta);
    assert_eq!(
        out,
        "| Package | From | To | Compare |\n|---|---|---|---|\n| [a][01] | 1.0.0 | REMOVED |  |\n| [b][02] | NEW | 2.0.0 |  |\n\n[01]: https://crates.io/crates/a\n[02]: https://crates.io/crates/b\n"
    );
}

#[test]
fn linked_markdown_without_metadata_renders_bare_names() {
    let from = snapshot(vec![pkg("a", "1.0.0")]);
    let to = snapshot(vec![pkg("a", "2.0.0")]);
    let d = diff(&from, &to);
    let meta = Metadata { entries: vec![] };
    let out = format_markdown_links(&d, &meta);
    assert_eq!(
        out,
        "| Package | From | To | Compare |\n|---|---|---|---|\n| a | 1.0.0 | 2.0.0 |  |\n\n"
    );
}

#[test]
fn reference_ids_render_as_two_digit_uppercase_hex() {
    assert_eq!(hex02(1), "01");
    assert_eq!(hex02(10), "0A");
    assert_eq!(hex02(15), "0F");
    assert_eq!(hex02(16), "10");
    assert_eq!(hex02(255), "FF");
    assert_eq!(hex02(256), "100");
}

#[test]
fn format_names_are_recognized() {
    assert!(matches!(Format::from_str("json"), Ok(Format::Json)));
    assert!(matches!(Format::from_str("markdown"), Ok(Format::Markdown)));
    let err = Format::from_str("yaml").unwrap_err();
    assert_eq!(err, "Unknown format; try one of [\"markdown\", \"json\"]");
}

#[test]
fn repository_link_is_used_when_not_from_the_registry() {
    let from = snapshot(vec![pkg("x", "1.0.0")]);
    let to = snapshot(vec![pkg("x", "2.0.0")]);
    let d = diff(&from, &to);
    let meta = Metadata {
        entries: vec![Entry::new(
            String::from("x"),
            None,
            Some(String::from("https://github.com/o/x")),
        )],
    };
    let out = format_markdown_links(&d, &meta);
    assert_eq!(
        out,
        "| Package | From | To | Compare |\n|---|---|---|---|\n| [x][01] | 1.0.0 | 2.0.0 | [...][02] |\n\n[01]: https://github.com/o/x\n[02]: https://github.com/o/x/compare/1.0.0...2.0.0\n"
    );
}

#[test]
fn change_sides_render_as_text() {
    assert_eq!(Version::New.render(), "NEW");
    assert_eq!(Version::Removed.render(), "REMOVED");
    assert_eq!(Version::At(String::from("1.2.3")).render(), "1.2.3");
}
