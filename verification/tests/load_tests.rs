use cargo_lockdiff::load::{parse_source_opt, plan_invocation, Invocation, LoadStep, Loader, Source};

const LOCK_TEXT: &str = "[[package]]\nname = \"serde\"\nversion = \"1.0.0\"\n";

#[test]
fn all_strategies_in_priority_order() {
    let all = Source::all();
    assert_eq!(all, vec![Source::File, Source::Git, Source::Mercurial]);
}

#[test]
fn strategy_names_round_trip() {
    assert_eq!(Source::File.as_str(), "file");
    assert_eq!(Source::Git.as_str(), "git");
    assert_eq!(Source::Mercurial.as_str(), "hg");
    assert_eq!(Source::from_str("file"), Some(Source::File));
    assert_eq!(Source::from_str("git"), Some(Source::Git));
    assert_eq!(Source::from_str("hg"), Some(Source::Mercurial));
    assert_eq!(Source::from_str("svn"), None);
}

#[test]
fn plain_options_try_every_strategy() {
    let (sources, rest) = parse_source_opt("");
    assert_eq!(sources, vec![Source::File, Source::Git, Source::Mercurial]);
    assert_eq!(rest, "");
    let (sources, rest) = parse_source_opt("HEAD");
    assert_eq!(sources.len(), 3);
    assert_eq!(rest, "HEAD");
}

#[test]
fn strategy_prefix_pins_one_strategy() {
    let (sources, rest) = parse_source_opt("hg:.");
    assert_eq!(sources, vec![Source::Mercurial]);
    assert_eq!(rest, ".");
    let (sources, rest) = parse_source_opt("git:abc123:sub/Cargo.lock");
    assert_eq!(sources, vec![Source::Git]);
    assert_eq!(rest, "abc123:sub/Cargo.lock");
}

#[test]
fn unknown_prefix_is_kept_verbatim() {
    let (sources, rest) = parse_source_opt("weird:thing");
    assert_eq!(sources.len(), 3);
    assert_eq!(rest, "weird:thing");
}

fn expect_run(inv: Invocation) -> (String, Vec<String>) {
    match inv {
        Invocation::Run { program, args } => (program, args),
        Invocation::ReadFile { .. } => panic!("expected a command"),
    }
}

#[test]
fn mercurial_invocation_prepends_base_to_default_path() {
    let (sources, rest) = parse_source_opt("hg:abc123");
    assert_eq!(sources, vec![Source::Mercurial]);
    let loader = Loader::new(sources, String::from(rest), "app/");
    let (program, args) = expect_run(loader.next_invocation().unwrap());
    assert_eq!(program, "hg");
    assert_eq!(args, vec!["cat", "-r", "abc123", "app/Cargo.lock"]);
}

#[test]
fn git_colon_form_passes_the_revspec_verbatim() {
    let (sources, rest) = parse_source_opt("git:abc123:sub/Cargo.lock");
    let loader = Loader::new(sources, String::from(rest), "app/");
    let (program, args) = expect_run(loader.next_invocation().unwrap());
    assert_eq!(program, "git");
    assert_eq!(args, vec!["show", "abc123:sub/Cargo.lock"]);
}

#[test]
fn git_ref_gets_base_and_default_lock_path() {
    let inv = plan_invocation(Source::Git, "HEAD", ".");
    let (program, args) = expect_run(inv);
    assert_eq!(program, "git");
    assert_eq!(args, vec!["show", "HEAD:./Cargo.lock"]);
}

#[test]
fn mercurial_rewrites_the_git_default_ref() {
    let (program, args) = expect_run(plan_invocation(Source::Mercurial, "HEAD", "."));
    assert_eq!(program, "hg");
    assert_eq!(args, vec!["cat", "-r", ".", "./Cargo.lock"]);
    let (_, args) = expect_run(plan_invocation(Source::Mercurial, "", "."));
    assert_eq!(args, vec!["cat", "-r", ".", "./Cargo.lock"]);
}

#[test]
fn mercurial_colon_form_keeps_the_path_verbatim() {
    let (_, args) = expect_run(plan_invocation(Source::Mercurial, "tip:other/Cargo.lock", "app"));
    assert_eq!(args, vec!["cat", "-r", "tip", "other/Cargo.lock"]);
}

#[test]
fn file_strategy_is_planned_first_and_wins_on_success() {
    let mut loader = Loader::new(Source::all(), String::from(""), "");
    match loader.next_invocation().unwrap() {
        Invocation::ReadFile { path } => assert_eq!(path, "./Cargo.lock"),
        Invocation::Run { .. } => panic!("the file strategy must come first"),
    }
    let step = loader.feed(Ok(String::from(LOCK_TEXT)));
    match step {
        LoadStep::Done(snapshot) => {
            assert_eq!(snapshot.packages.len(), 1);
            assert_eq!(snapshot.packages[0].name, "serde");
        },
        LoadStep::Failed => panic!("the walk failed on parseable text"),
        LoadStep::Pending => panic!("the walk went on past a success"),
    }
}

#[test]
fn empty_fileish_respects_base_prefix() {
    let loader = Loader::new(Source::all(), String::from(""), "sub");
    match loader.next_invocation().unwrap() {
        Invocation::ReadFile { path } => assert_eq!(path, "sub/Cargo.lock"),
        Invocation::Run { .. } => panic!("the file strategy must come first"),
    }
}

#[test]
fn every_failure_is_collected_and_rendered_per_strategy() {
    let mut loader = Loader::new(Source::all(), String::from("HEAD"), "");
    assert!(matches!(loader.feed(Err(String::from("no such file"))), LoadStep::Pending));
    assert!(matches!(loader.feed(Err(String::from("fatal: bad revision"))), LoadStep::Pending));
    assert!(matches!(
        loader.feed(Err(String::from("abort: no repository"))),
        LoadStep::Failed
    ));
    assert!(loader.next_invocation().is_none());
    assert_eq!(
        loader.render_errors(),
        "\n  file: no such file\n  git: fatal: bad revision\n  hg: abort: no repository"
    );
}

#[test]
fn unparseable_text_fails_that_strategy_only() {
    let mut loader = Loader::new(Source::all(), String::from(""), "");
    let step = loader.feed(Ok(String::from("this is not a lock file ]][[")));
    assert!(matches!(step, LoadStep::Pending));
    let step = loader.feed(Ok(String::from(LOCK_TEXT)));
    assert!(matches!(step, LoadStep::Done(_)));
}

#[test]
fn file_prefix_pins_the_file_strategy() {
    let (sources, rest) = parse_source_opt("file:sub/Cargo.lock");
    assert_eq!(sources, vec![Source::File]);
    let loader = Loader::new(sources, rest, "");
    match loader.next_invocation().unwrap() {
        Invocation::ReadFile { path } => assert_eq!(path, "./sub/Cargo.lock"),
        Invocation::Run { .. } => panic!("the file strategy reads, it runs nothing"),
    }
}
