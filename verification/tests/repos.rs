use bazel_language_server::repos::{dump_failure, info_failure, output_base_of, Repos, Resolved};

const BASE: &str = "/nonexistent/bls-repos-test";

/// The mapping a real workspace answered with: a canonical name that gained
/// a `+`, one that did not, an alias, the module naming itself, and an
/// extension-generated repository.
fn measured() -> Repos {
    let pairs = [
        ("direct_repo_rule_target", "+_repo_rules+direct_repo_rule_target"),
        ("", ""),
        ("torture", ""),
        ("bazel_skylib", "bazel_skylib+"),
        ("platforms", "platforms"),
        ("sh", "rules_shell+"),
        ("bazel_tools", "bazel_tools"),
    ];
    Repos::new(
        pairs.iter().map(|(a, c)| (a.to_string(), c.to_string())).collect(),
        BASE.to_string(),
    )
}

#[test]
fn the_module_naming_itself_is_the_main_repository() {
    let repos = measured();
    assert_eq!(repos.locate(""), Resolved::Main);
    assert_eq!(repos.locate("torture"), Resolved::Main);
}

#[test]
fn a_name_in_the_mapping_that_is_not_on_disk_is_unfetched() {
    let repos = measured();
    assert_eq!(
        repos.locate("bazel_skylib"),
        Resolved::Unfetched("bazel_skylib+".to_string())
    );
    assert_eq!(
        repos.locate("platforms"),
        Resolved::Unfetched("platforms".to_string())
    );
    assert_eq!(
        repos.locate("sh"),
        Resolved::Unfetched("rules_shell+".to_string())
    );
}

#[test]
fn a_fetched_repository_resolves_to_its_root() {
    let repos = measured();
    let root = format!("{BASE}/external/bazel_skylib+");
    assert_eq!(repos.locate_with("bazel_skylib", true), Resolved::At(root.clone()));
    assert_eq!(repos.locate_with("bazel_skylib+", true), Resolved::At(root));
}

#[test]
fn a_name_the_workspace_does_not_know_is_not_an_unfetched_one() {
    assert_eq!(measured().locate("not_a_dependency"), Resolved::Unknown);
}

#[test]
fn no_mapping_says_so_rather_than_calling_every_name_unknown() {
    assert_eq!(Repos::default().locate("bazel_skylib"), Resolved::Unavailable);
    assert_eq!(Repos::default().locate(""), Resolved::Unavailable);
}

#[test]
fn the_last_of_repeated_names_wins() {
    let repos = Repos::new(
        vec![
            ("a".to_string(), "first".to_string()),
            ("a".to_string(), "second".to_string()),
        ],
        BASE.to_string(),
    );
    assert_eq!(repos.locate("a"), Resolved::Unfetched("second".to_string()));
    assert_eq!(repos.len(), 2);
    assert_eq!(repos.output_base(), BASE);
}

#[test]
fn a_wrapper_that_drops_the_empty_argument_is_named() {
    let message = dump_failure("bazelisk", "ERROR: No repository name(s) specified\n");
    assert!(message.starts_with("`bazelisk` reached Bazel without the empty argument"));
    assert_eq!(
        dump_failure("bazel", "Loading\nERROR: something broke\n"),
        "`bazel mod dump_repo_mapping` failed: ERROR: something broke"
    );
    assert_eq!(
        info_failure("one\ntwo"),
        "`bazel info output_base` failed: two"
    );
}

#[test]
fn the_output_base_is_trimmed() {
    assert_eq!(output_base_of(b"  /home/u/.cache/bazel/abc\n"), "/home/u/.cache/bazel/abc");
}
