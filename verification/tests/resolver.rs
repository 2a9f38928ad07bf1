use git_upstream::config::{Cli, Config, ConfigFile};
use git_upstream::errors::Error;
use git_upstream::remotes::KnownRemotes;
use git_upstream::text::{parse_remote_names, trim_str};

fn make_config(
    cli_remote: Option<&str>,
    file_remotes: &[&str],
    fail_fast: bool,
) -> Config {
    Config {
        file: ConfigFile {
            remotes: file_remotes.iter().map(|s| s.to_string()).collect(),
        },
        cli: Cli {
            log: "info".to_string(),
            fail_fast,
            force: false,
            force_unchecked: false,
            skip_hooks: false,
            branch: None,
            remote: cli_remote.map(|s| s.to_string()),
            git_push_args: Vec::new(),
        },
    }
}

fn known(names: &[&str]) -> KnownRemotes {
    KnownRemotes::from_names(names.iter().map(|s| s.to_string()).collect())
}

fn order_of(config: &Config, remotes: &KnownRemotes) -> Vec<String> {
    config
        .attempt_order(remotes)
        .expect("resolution should succeed")
        .order
}

#[test]
fn preferred_remote_then_lexicographic_remainder() {
    // KnownRemotes {origin, upstream, fork}, PreferenceList [upstream]:
    // "fork" < "origin" < "upstream", so the remainder is [fork, origin].
    let config = make_config(None, &["upstream"], false);
    let remotes = known(&["origin", "upstream", "fork"]);
    assert_eq!(order_of(&config, &remotes), vec!["upstream", "fork", "origin"]);
}

#[test]
fn no_remotes_at_all_is_fatal() {
    let config = make_config(None, &[], false);
    let remotes = known(&[]);
    match config.attempt_order(&remotes) {
        Err(Error::NoRemotesConfigured) => {}
        _ => panic!("expected NoRemotesConfigured"),
    }
}

#[test]
fn missing_cli_remote_under_fail_fast_is_fatal() {
    let config = make_config(Some("ghost"), &[], true);
    let remotes = known(&["origin"]);
    match config.attempt_order(&remotes) {
        Err(Error::MissingPreferredRemote { remote }) => assert_eq!(remote, "ghost"),
        _ => panic!("expected MissingPreferredRemote"),
    }
}

#[test]
fn missing_cli_remote_without_fail_fast_is_skipped() {
    let config = make_config(Some("ghost"), &[], false);
    let remotes = known(&["alpha", "beta"]);
    let resolution = config.attempt_order(&remotes).expect("should resolve");
    // the preference list is [ghost] alone: with a command-line remote
    // present, the "origin" default does not apply
    assert_eq!(resolution.order, vec!["alpha", "beta"]);
    assert_eq!(resolution.skipped, vec!["ghost"]);
}

#[test]
fn cli_remote_with_empty_config_list_adds_no_origin_default() {
    let config = make_config(Some("r"), &[], false);
    assert_eq!(config.remote_preferences(), vec!["r"]);
    let remotes = known(&["alpha", "origin", "r"]);
    let resolution = config.attempt_order(&remotes).expect("should resolve");
    // "origin" is not preferred here: it sorts into the remainder
    assert_eq!(resolution.order, vec!["r", "alpha", "origin"]);
    assert_eq!(resolution.skipped, Vec::<String>::new());
}

#[test]
fn empty_preferences_give_origin_first_then_lexicographic() {
    let config = make_config(None, &[], false);
    let remotes = known(&["zeta", "origin", "alpha"]);
    assert_eq!(order_of(&config, &remotes), vec!["origin", "alpha", "zeta"]);
}

#[test]
fn empty_preferences_without_origin_give_pure_lexicographic() {
    let config = make_config(None, &[], false);
    let remotes = known(&["beta", "alpha"]);
    let resolution = config.attempt_order(&remotes).expect("should resolve");
    assert_eq!(resolution.order, vec!["alpha", "beta"]);
    // the default "origin" preference does not exist: skipped, not fatal
    assert_eq!(resolution.skipped, vec!["origin"]);
}

#[test]
fn config_preferences_keep_their_relative_order() {
    let config = make_config(None, &["b", "a"], false);
    let remotes = known(&["a", "b", "c"]);
    assert_eq!(order_of(&config, &remotes), vec!["b", "a", "c"]);
}

#[test]
fn cli_remote_precedes_config_list() {
    let config = make_config(Some("up"), &["a", "b"], false);
    let remotes = known(&["a", "b", "up"]);
    assert_eq!(config.remote_preferences(), vec!["up", "a", "b"]);
    assert_eq!(order_of(&config, &remotes), vec!["up", "a", "b"]);
}

#[test]
fn default_preference_is_origin_when_nothing_is_set() {
    let config = make_config(None, &[], false);
    assert_eq!(config.remote_preferences(), vec!["origin"]);
}

#[test]
fn overlapping_preferences_never_duplicate() {
    let config = make_config(Some("origin"), &["origin", "origin"], false);
    let remotes = known(&["origin", "x"]);
    let resolution = config.attempt_order(&remotes).expect("should resolve");
    assert_eq!(resolution.order, vec!["origin", "x"]);
    // the repeated mentions were already consumed: skipped with a warning
    assert_eq!(resolution.skipped, vec!["origin", "origin"]);
}

#[test]
fn resolving_twice_yields_identical_output() {
    let config = make_config(Some("b"), &["ghost", "a"], false);
    let remotes = known(&["a", "b", "c"]);
    let first = config.attempt_order(&remotes).expect("should resolve");
    let second = config.attempt_order(&remotes).expect("should resolve");
    assert_eq!(first.order, second.order);
    assert_eq!(first.skipped, second.skipped);
    assert_eq!(first.order, vec!["b", "a", "c"]);
    assert_eq!(first.skipped, vec!["ghost"]);
}

#[test]
fn known_remotes_sort_and_deduplicate() {
    let remotes = known(&["b", "a", "b"]);
    assert_eq!(remotes.len(), 2);
    assert_eq!(remotes.get(0).as_str(), "a");
    assert_eq!(remotes.get(1).as_str(), "b");
    assert!(remotes.contains_name("a"));
    assert!(!remotes.contains_name("c"));
}

#[test]
fn listing_output_is_split_and_trimmed() {
    assert_eq!(parse_remote_names("origin\nupstream\n"), vec!["origin", "upstream"]);
    assert_eq!(parse_remote_names("b\na"), vec!["b", "a"]);
    assert_eq!(parse_remote_names("a\r\n b \n"), vec!["a", "b"]);
    assert_eq!(parse_remote_names(""), Vec::<String>::new());
}

#[test]
fn listing_output_to_known_remotes() {
    let remotes = KnownRemotes::from_listing_output("upstream\norigin\nupstream\n");
    assert_eq!(remotes.len(), 2);
    assert_eq!(remotes.get(0).as_str(), "origin");
    assert_eq!(remotes.get(1).as_str(), "upstream");
}

#[test]
fn trimming_strips_surrounding_whitespace_only() {
    assert_eq!(trim_str("  main\n"), "main");
    assert_eq!(trim_str("\t a b \r\n"), "a b");
    assert_eq!(trim_str("plain"), "plain");
    assert_eq!(trim_str("   "), "");
}

#[test]
fn branch_override_is_returned_unchanged() {
    let mut config = make_config(None, &[], false);
    config.cli.branch = Some(" spaced ".to_string());
    assert_eq!(config.branch_override().as_deref(), Some(" spaced "));
    config.cli.branch = None;
    assert_eq!(config.branch_override(), None);
}

#[test]
fn push_arguments_are_exact() {
    let config = make_config(None, &[], false);
    assert_eq!(
        config.push_command_args("main", "origin"),
        vec!["push", "--set-upstream", "origin", "main"]
    );
}

#[test]
fn push_arguments_carry_policy_flags_and_extras() {
    let mut config = make_config(None, &[], false);
    config.cli.force = true;
    config.cli.skip_hooks = true;
    config.cli.git_push_args = vec!["--quiet".to_string()];
    assert_eq!(
        config.push_command_args("dev", "fork"),
        vec!["push", "--set-upstream", "fork", "dev", "--force-with-lease", "--no-verify", "--quiet"]
    );
}

#[test]
fn force_with_lease_wins_over_unchecked_force() {
    let mut config = make_config(None, &[], false);
    config.cli.force = true;
    config.cli.force_unchecked = true;
    let args = config.push_command_args("main", "origin");
    assert!(args.contains(&"--force-with-lease".to_string()));
    assert!(!args.contains(&"--force".to_string()));
}

#[test]
fn unchecked_force_alone_uses_plain_force() {
    let mut config = make_config(None, &[], false);
    config.cli.force_unchecked = true;
    let args = config.push_command_args("main", "origin");
    assert!(args.contains(&"--force".to_string()));
}

#[test]
fn error_messages_are_exact() {
    assert_eq!(Error::NoRemotesConfigured.message(), "No Git remotes found");
    assert_eq!(
        Error::MissingPreferredRemote { remote: "ghost".to_string() }.message(),
        "Git remote not found: ghost"
    );
    assert_eq!(
        Error::PushFailed { remote: "fork".to_string() }.message(),
        "Failed to push to Git remote fork"
    );
    assert_eq!(
        Error::AllRemotesFailed {
            branch: "main".to_string(),
            attempted: vec!["a".to_string(), "b".to_string()],
        }
        .message(),
        "Failed to upstream main to any remote (attempted: a, b)"
    );
    assert_eq!(
        Error::Collaborator { message: "boom".to_string() }.message(),
        "boom"
    );
}
