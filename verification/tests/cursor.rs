use bazel_language_server::handlers::cursor::{enclosing_package, package_at, package_candidates};

/// The directories of the test workspace that hold a BUILD file: `lib`,
/// `lib/sub` and `app`, but neither `app/nested` nor the root, which has a
/// MODULE.bazel only.
const BUILD_DIRS: [&str; 3] = ["/ws/lib", "/ws/lib/sub", "/ws/app"];

/// The package of `file` in that workspace.
fn package_in_layout(root: &str, file: &str) -> Option<String> {
    let candidates = package_candidates(root, file)?;
    let has_build: Vec<bool> = candidates
        .iter()
        .map(|dir| BUILD_DIRS.contains(&dir.as_str()))
        .collect();
    package_at(root, &candidates, &has_build)
}

fn nearest_build_file_cases() {
    let root = "/ws";
    assert_eq!(package_in_layout(root, "/ws/lib/BUILD.bazel").as_deref(), Some("lib"));
    assert_eq!(
        package_in_layout(root, "/ws/lib/sub/BUILD.bazel").as_deref(),
        Some("lib/sub")
    );
    // `app/nested` has no BUILD file, so its contents belong to `//app`.
    assert_eq!(
        package_in_layout(root, "/ws/app/nested/data.txt").as_deref(),
        Some("app")
    );
    // The root has a MODULE.bazel and no BUILD file, so it is not a package.
    assert_eq!(package_in_layout(root, "/ws/MODULE.bazel"), None);
}

#[test]
fn cursor_a_package_is_the_nearest_build_file() {
    nearest_build_file_cases();
}

#[test]
fn handlers_a_package_is_the_nearest_build_file() {
    nearest_build_file_cases();
}

#[test]
fn candidates_run_from_the_file_up_to_the_root() {
    assert_eq!(
        package_candidates("/ws", "/ws/app/nested/data.txt"),
        Some(vec![
            "/ws/app/nested".to_string(),
            "/ws/app".to_string(),
            "/ws".to_string()
        ])
    );
    assert_eq!(package_candidates("/ws", "/ws/MODULE.bazel"), Some(vec!["/ws".to_string()]));
    // A root written with a trailing separator is the same directory.
    assert_eq!(
        package_candidates("/ws/", "/ws/lib/BUILD"),
        Some(vec!["/ws/lib".to_string(), "/ws".to_string()])
    );
}

#[test]
fn a_file_outside_the_root_has_no_package() {
    assert_eq!(package_candidates("/ws", "/elsewhere/lib/BUILD.bazel"), None);
    assert_eq!(enclosing_package("/ws", "/elsewhere/lib/BUILD.bazel"), None);
}

#[test]
fn the_first_candidate_with_a_build_file_wins() {
    let candidates = vec!["/ws/a/b".to_string(), "/ws/a".to_string(), "/ws".to_string()];
    assert_eq!(
        package_at("/ws", &candidates, &[false, true, true]).as_deref(),
        Some("a")
    );
    assert_eq!(package_at("/ws", &candidates, &[true, true, true]).as_deref(), Some("a/b"));
    // The root itself is the empty package.
    assert_eq!(package_at("/ws", &candidates, &[false, false, true]).as_deref(), Some(""));
    assert_eq!(package_at("/ws", &candidates, &[false, false, false]), None);
}

#[test]
fn a_tree_with_no_build_file_on_disk_has_no_package() {
    assert_eq!(
        enclosing_package("/no-such-workspace", "/no-such-workspace/lib/BUILD.bazel"),
        None
    );
}
