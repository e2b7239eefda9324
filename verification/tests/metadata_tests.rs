use cargo_lockdiff::load::Invocation;
use cargo_lockdiff::metadata::{format_err, load_metadata, metadata_invocation, Entry, Metadata};

const MARKER: &str = "registry+https://github.com/rust-lang/crates.io-index";

fn doc(packages: &str) -> Vec<u8> {
    let mut s = String::from("{\"packages\":[");
    s.push_str(packages);
    s.push_str("],\"workspace_members\":[]}");
    s.into_bytes()
}

#[test]
fn registry_package_links_to_the_registry_page() {
    let body = format!(
        "{{\"name\":\"serde\",\"source\":\"{}\",\"repository\":\"https://github.com/serde-rs/serde.git\"}}",
        MARKER
    );
    let m = load_metadata(&doc(&body)).unwrap();
    let e = m.get("serde").unwrap();
    assert_eq!(e.link().unwrap(), "https://crates.io/crates/serde");
    assert_eq!(
        e.compare_url("1.0.0", "1.0.1").unwrap(),
        "https://github.com/serde-rs/serde/compare/1.0.0...1.0.1"
    );
}

#[test]
fn non_registry_package_links_to_its_repository() {
    let body = "{\"name\":\"x\",\"source\":null,\"repository\":\"https://example.com/x\"}";
    let m = load_metadata(&doc(body)).unwrap();
    let e = m.get("x").unwrap();
    assert_eq!(e.link().unwrap(), "https://example.com/x");
    assert!(e.compare_url("1", "2").is_none());
}

#[test]
fn package_without_links_yields_none() {
    let body = "{\"name\":\"x\",\"source\":null,\"repository\":null}";
    let m = load_metadata(&doc(body)).unwrap();
    let e = m.get("x").unwrap();
    assert!(e.link().is_none());
    assert!(e.compare_url("1", "2").is_none());
}

#[test]
fn compare_url_encodes_both_refs() {
    let e = Entry::new(
        String::from("x"),
        None,
        Some(String::from("https://github.com/o/x")),
    );
    assert_eq!(
        e.compare_url("v 1", "v/2").unwrap(),
        "https://github.com/o/x/compare/v%201...v%2F2"
    );
}

#[test]
fn one_trailing_git_suffix_is_stripped() {
    let e = Entry::new(
        String::from("x"),
        None,
        Some(String::from("https://github.com/o/x.git")),
    );
    assert_eq!(
        e.compare_url("1", "2").unwrap(),
        "https://github.com/o/x/compare/1...2"
    );
}

#[test]
fn unknown_names_are_absent() {
    let m = load_metadata(&doc("{\"name\":\"x\",\"source\":null,\"repository\":null}")).unwrap();
    assert!(m.get("y").is_none());
}

#[test]
fn later_entries_win_under_one_name() {
    let body = "{\"name\":\"x\",\"source\":null,\"repository\":\"https://example.com/first\"},\
                {\"name\":\"x\",\"source\":null,\"repository\":\"https://example.com/second\"}";
    let m = load_metadata(&doc(body)).unwrap();
    assert_eq!(m.get("x").unwrap().link().unwrap(), "https://example.com/second");
}

#[test]
fn missing_packages_key_is_refused() {
    let err = load_metadata(b"{\"other\":1}").unwrap_err();
    assert_eq!(err, "unexpected metadata format; 'packages' key is missing");
    let err = load_metadata(b"{\"packages\":7}").unwrap_err();
    assert_eq!(err, "unexpected metadata format; 'packages' key is missing");
    let err = load_metadata(b"[1,2]").unwrap_err();
    assert_eq!(err, "unexpected metadata format; 'packages' key is missing");
}

#[test]
fn non_object_package_entries_are_refused() {
    let err = load_metadata(b"{\"packages\":[7]}").unwrap_err();
    assert_eq!(err, "unexpected metadata format; packages is not an array of objects");
}

#[test]
fn missing_or_null_names_are_refused() {
    let err = load_metadata(&doc("{\"source\":null,\"repository\":null}")).unwrap_err();
    assert_eq!(err, "unexpected metadata format; expected key 'name' is missing");
    let err =
        load_metadata(&doc("{\"name\":null,\"source\":null,\"repository\":null}")).unwrap_err();
    assert_eq!(err, "unexpected metadata format; package name is empty");
}

#[test]
fn non_string_fields_are_refused() {
    let err =
        load_metadata(&doc("{\"name\":\"x\",\"source\":7,\"repository\":null}")).unwrap_err();
    assert_eq!(err, "unexpected metadata format; 'source' is not a string");
    let err =
        load_metadata(&doc("{\"name\":\"x\",\"source\":null,\"repository\":[]}")).unwrap_err();
    assert_eq!(err, "unexpected metadata format; 'repository' is not a string");
}

#[test]
fn unparseable_documents_are_refused() {
    assert!(load_metadata(b"not json at all").is_err());
}

#[test]
fn format_err_prefixes_the_complaint() {
    assert_eq!(format_err("boom"), "unexpected metadata format; boom");
}

#[test]
fn the_metadata_command_is_pinned() {
    match metadata_invocation() {
        Invocation::Run { program, args } => {
            assert_eq!(program, "cargo");
            assert_eq!(
                args,
                vec!["metadata", "--format-version", "1", "--all-features", "--offline"]
            );
        },
        Invocation::ReadFile { .. } => panic!("the enricher runs a command"),
    }
}

#[test]
fn empty_metadata_is_fine() {
    let m: Metadata = load_metadata(b"{\"packages\":[]}").unwrap();
    assert!(m.get("anything").is_none());
}

#[test]
fn absent_source_and_repository_count_as_empty() {
    let m = load_metadata(&doc("{\"name\":\"x\"}")).unwrap();
    let e = m.get("x").unwrap();
    assert!(e.link().is_none());
    assert!(e.compare_url("1", "2").is_none());
}

#[test]
fn absent_source_with_repository_links_to_the_repository() {
    let body = "{\"name\":\"x\",\"repository\":\"https://github.com/o/x\"}";
    let m = load_metadata(&doc(body)).unwrap();
    let e = m.get("x").unwrap();
    assert_eq!(e.link().unwrap(), "https://github.com/o/x");
    assert_eq!(
        e.compare_url("1", "2").unwrap(),
        "https://github.com/o/x/compare/1...2"
    );
}
