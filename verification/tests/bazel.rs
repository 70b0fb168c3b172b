use bazel_language_server::bazel::{
    find_workspace, workspace_at, Workspace,
    floor_version, join_path, BazelClient, BazelConfig, Invocation, Outcome, ProbeError, Version,
};

#[test]
fn a_reported_line_names_its_release() {
    assert_eq!(Version::parse("bazel 8.7.0"), Some(Version::new(8, 7, 0)));
    assert_eq!(
        Version::parse("bazel release 8.7.0"),
        Some(Version::new(8, 7, 0))
    );
}

#[test]
fn a_candidate_reads_as_its_release() {
    assert_eq!(
        Version::parse("bazel 8.2.0rc2"),
        Some(Version::new(8, 2, 0))
    );
    assert_eq!(
        Version::parse("bazel 7.4.1-homebrew"),
        Some(Version::new(7, 4, 1))
    );
    assert_eq!(
        Version::parse("bazel 8.7.0- (@non-git)"),
        Some(Version::new(8, 7, 0))
    );
}

#[test]
fn a_build_from_source_names_no_release() {
    assert_eq!(Version::parse("bazel no_version"), None);
    assert_eq!(Version::parse(""), None);
}

#[test]
fn an_oracle_arrives_with_the_release_that_added_it() {
    let floor = floor_version();
    assert!(!floor.capabilities().query_output_file);
    assert!(Version::new(8, 2, 0).capabilities().query_output_file);
    assert!(floor.capabilities().rule_classes);
    assert!(floor.capabilities().repo_mapping);
}

#[test]
fn releases_order_by_component() {
    assert!(Version::new(8, 10, 0) > Version::new(8, 9, 9));
    assert!(Version::new(7, 99, 0) < floor_version());
}

#[test]
fn config_defaults_are_conservative() {
    let config = BazelConfig::default();
    assert!(config.enable, "Bazel is on by default when present");
    assert!(
        !config.private_output_base,
        "a second server costs over a gigabyte; opt in"
    );
    assert_eq!(config.path, "bazel");
    assert!(config.args.is_empty());
}

#[test]
fn at_least_compares_component_by_component() {
    assert!(Version::new(8, 0, 0).at_least(&Version::new(8, 0, 0)));
    assert!(Version::new(8, 1, 0).at_least(&Version::new(8, 0, 9)));
    assert!(!Version::new(7, 9, 9).at_least(&Version::new(8, 0, 0)));
    assert!(Version::new(7, 1, 0).capabilities().repo_mapping);
    assert!(!Version::new(7, 0, 9).capabilities().repo_mapping);
}

#[test]
fn an_exit_status_of_zero_is_success() {
    let run = Invocation { stdout: Vec::new(), stderr: String::new(), status: Some(0) };
    assert!(run.ok());
    let run = Invocation { stdout: Vec::new(), stderr: String::new(), status: Some(2) };
    assert!(!run.ok());
    let done = Outcome { stderr: String::new(), status: None };
    assert!(!done.ok());
}

fn enabled() -> BazelConfig {
    BazelConfig::default()
}

#[test]
fn private_output_base_is_stable_per_workspace() {
    let mut config = enabled();
    config.private_output_base = true;
    let a = BazelClient::new(config.clone(), "/ws/one".to_string(), "/tmp");
    let b = BazelClient::new(config.clone(), "/ws/one".to_string(), "/tmp");
    let c = BazelClient::new(config.clone(), "/ws/two".to_string(), "/tmp");
    assert_eq!(a.private_base(), b.private_base());
    assert_ne!(a.private_base(), c.private_base());
    let base = a.private_base().unwrap();
    assert!(base.starts_with("/tmp/bls-output-base-"));
    assert_eq!(base.len(), "/tmp/bls-output-base-".len() + 16);
    let shared = BazelClient::new(enabled(), "/ws/one".to_string(), "/tmp");
    assert_eq!(shared.private_base(), None);
    assert_eq!(shared.binary(), "bazel");
    assert_eq!(shared.workspace_dir(), "/ws/one");
}

#[test]
fn the_output_base_name_is_the_fnv1a_hash_of_the_workspace() {
    let mut config = enabled();
    config.private_output_base = true;
    // FNV-1a of the empty string is its offset basis.
    let client = BazelClient::new(config, String::new(), "/tmp");
    assert_eq!(client.private_base(), Some("/tmp/bls-output-base-cbf29ce484222325"));
}

#[test]
fn join_path_adds_one_separator() {
    assert_eq!(join_path("/tmp", "x"), "/tmp/x");
    assert_eq!(join_path("/tmp/", "x"), "/tmp/x");
}

#[test]
fn a_probe_names_how_it_failed() {
    let mut off = enabled();
    off.enable = false;
    let client = BazelClient::new(off, "/ws".to_string(), "/tmp");
    assert_eq!(client.probe(Err("gone".to_string())).unwrap_err(), ProbeError::Disabled);

    let client = BazelClient::new(enabled(), "/ws".to_string(), "/tmp");
    assert_eq!(
        client.probe(Err("no such file".to_string())).unwrap_err(),
        ProbeError::Unrunnable("no such file".to_string())
    );
    let failed = Invocation { stdout: Vec::new(), stderr: "boom".to_string(), status: Some(1) };
    assert_eq!(client.probe(Ok(failed)).unwrap_err(), ProbeError::Failed("boom".to_string()));
    let unnamed = Invocation {
        stdout: b"bazel no_version\n".to_vec(),
        stderr: String::new(),
        status: Some(0),
    };
    assert_eq!(
        client.probe(Ok(unnamed)).unwrap_err(),
        ProbeError::NoRelease("bazel no_version".to_string())
    );
    let old = Invocation { stdout: b"bazel 7.4.1\n".to_vec(), stderr: String::new(), status: Some(0) };
    assert_eq!(client.probe(Ok(old)).unwrap_err(), ProbeError::TooOld(Version::new(7, 4, 1)));
}

#[test]
fn a_probe_of_a_supported_release_reports_its_oracles() {
    let client = BazelClient::new(enabled(), "/ws".to_string(), "/tmp");
    let fine = Invocation { stdout: b"  bazel 8.1.0\n".to_vec(), stderr: String::new(), status: Some(0) };
    let probe = client.probe(Ok(fine)).unwrap();
    assert_eq!(probe.reported, "bazel 8.1.0");
    assert_eq!(probe.version, Version::new(8, 1, 0));
    assert!(probe.capabilities.rule_classes);
    assert!(probe.capabilities.repo_mapping);
    assert!(!probe.capabilities.query_output_file);
}

fn row(markers: [bool; 5]) -> Vec<bool> {
    markers.to_vec()
}

#[test]
fn the_nearest_directory_with_a_marker_is_the_root() {
    let dirs: Vec<String> = ["/ws/a/b", "/ws/a", "/ws"].iter().map(|d| d.to_string()).collect();
    let holds = vec![
        row([false, false, false, false, false]),
        row([false, false, false, true, false]),
        row([true, false, false, false, false]),
    ];
    assert_eq!(
        workspace_at(&dirs, &holds),
        Some(Workspace { root: "/ws/a".to_string(), marker: "WORKSPACE" })
    );
}

#[test]
fn within_a_directory_the_higher_ranked_marker_wins() {
    let dirs = vec!["/ws".to_string()];
    let holds = vec![row([false, true, false, true, true])];
    assert_eq!(
        workspace_at(&dirs, &holds),
        Some(Workspace { root: "/ws".to_string(), marker: "WORKSPACE.bazel" })
    );
    let holds = vec![row([true, true, true, true, true])];
    assert_eq!(workspace_at(&dirs, &holds).map(|w| w.marker), Some("MODULE.bazel"));
}

#[test]
fn no_marker_anywhere_is_no_workspace() {
    let dirs: Vec<String> = ["/ws/a", "/ws"].iter().map(|d| d.to_string()).collect();
    let holds = vec![row([false; 5]), row([false; 5])];
    assert_eq!(workspace_at(&dirs, &holds), None);
    assert_eq!(find_workspace("/nonexistent-workspace-root/a/b.bzl"), None);
}
