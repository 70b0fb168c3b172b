use bazel_language_server::bazelrc::index::{
    resolve_import, sort_candidates, ConfigurationFile, ConfigurationSnapshot, Disk, ProblemSeverity,
};
use bazel_language_server::bazelrc::syntax::parse;
use bazel_language_server::bazelrc::view::{ConfigurationView, OpenBuffer};

/// A disk holding `files` under `/ws`, every path its own canonical path.
fn disk(files: &[(&str, &str)]) -> Disk {
    let mut canonical = Vec::new();
    let mut read = Vec::new();
    for (relative, text) in files {
        let path = format!("/ws/{relative}");
        canonical.push((path.clone(), Ok(path.clone())));
        read.push((
            path.clone(),
            Ok(ConfigurationFile { path: path.clone(), text: text.to_string(), parsed: parse(text) }),
        ));
    }
    Disk { canonical, files: read }
}

fn build(files: &[(&str, &str)]) -> ConfigurationSnapshot {
    ConfigurationSnapshot::build_from("/ws", disk(files), Vec::new())
}

#[test]
fn imports_expand_in_place_and_relative_to_the_workspace() {
    let snapshot = build(&[
        (
            ".bazelrc",
            "build --define=before=1\nimport config/child.bazelrc\nbuild --define=after=1\n",
        ),
        ("config/child.bazelrc", "build:dev --define=child=1\nbuild --config=dev\n"),
    ]);
    assert_eq!(snapshot.files.len(), 2);
    assert_eq!(snapshot.entries.len(), 4);
    assert_eq!(snapshot.entries[1].file, "/ws/config/child.bazelrc");
    assert_eq!(snapshot.declarations("dev").len(), 1);
    assert_eq!(snapshot.references[0].name, "dev");
    assert_eq!(snapshot.references[0].owner, None);
    assert!(snapshot.problems.is_empty());
    assert!(snapshot.includes("/ws/config/child.bazelrc"));
    assert!(!snapshot.includes("/ws/other.bazelrc"));
}

#[test]
fn only_effective_config_sections_enter_the_graph() {
    let snapshot = build(&[(
        ".bazelrc",
        "build:empty\nstartup:dev --host_jvm_args=-Xmx1g\nfuture:dev --x\n\
         build:dev --define=mode=dev\nbuild --config=dev\nstartup --config=dev\n",
    )]);
    assert_eq!(snapshot.declarations.len(), 1);
    assert_eq!(snapshot.declarations[0].name, "dev");
    assert_eq!(snapshot.references.len(), 1);
    assert_eq!(snapshot.references[0].command, "build");
}

#[test]
fn optional_imports_are_quiet_and_hard_imports_are_not() {
    let mut image = disk(&[(
        ".bazelrc",
        "try-import absent\nimport missing\ntry-import-if-bazel-version <8.7.0 also-absent\n",
    )]);
    image.canonical.push(("/ws/absent".to_string(), Err("No such file or directory".to_string())));
    image.canonical.push(("/ws/missing".to_string(), Err("No such file or directory".to_string())));
    let snapshot = ConfigurationSnapshot::build_from("/ws", image, Vec::new());
    assert_eq!(snapshot.problems.len(), 1);
    assert!(snapshot.problems[0].message.contains("missing"));
    assert_eq!(
        snapshot.problems[0].message,
        "could not import /ws/missing: No such file or directory"
    );
    assert_eq!(snapshot.imports.len(), 3);
    assert!(!snapshot.imports[2].active);
    assert_eq!(snapshot.imports[2].loaded, None);
}

#[test]
fn a_cycle_is_an_error_but_a_diamond_replays_entries() {
    let snapshot = build(&[
        (".bazelrc", "import config/left.bazelrc\nimport config/right.bazelrc\n"),
        ("config/left.bazelrc", "import config/shared.bazelrc\nbuild --define=left=1\n"),
        ("config/right.bazelrc", "import config/shared.bazelrc\nbuild --define=right=1\n"),
        (
            "config/shared.bazelrc",
            "try-import config/left.bazelrc\nbuild:shared --define=shared=1\n",
        ),
    ]);
    assert_eq!(snapshot.entries.len(), 5);
    assert!(snapshot.problems.iter().any(|problem| problem.message.contains("cycle")));
    assert!(snapshot
        .problems
        .iter()
        .any(|problem| problem.severity == ProblemSeverity::Warning));
    assert_eq!(snapshot.files.len(), 4);
}

#[test]
fn imports_resolve_against_the_workspace() {
    assert_eq!(resolve_import("/ws", "%workspace%/tools/ci.bazelrc"), "/ws/tools/ci.bazelrc");
    assert_eq!(resolve_import("/ws", "/etc/bazel.bazelrc"), "/etc/bazel.bazelrc");
    assert_eq!(resolve_import("/ws", "user.bazelrc"), "/ws/user.bazelrc");
}

#[test]
fn candidates_are_sorted_once_each() {
    let kept = sort_candidates(vec![
        "/ws/b".to_string(),
        "/ws/a".to_string(),
        "/ws/b".to_string(),
        "/ws/a/c".to_string(),
    ]);
    assert_eq!(kept, vec!["/ws/a", "/ws/a/c", "/ws/b"]);
}

#[test]
fn a_missing_workspace_rc_is_no_problem() {
    let snapshot = ConfigurationSnapshot::build_from("/ws", Disk { canonical: Vec::new(), files: Vec::new() }, Vec::new());
    assert!(snapshot.problems.is_empty());
    assert!(snapshot.entries.is_empty());
    assert_eq!(snapshot.root.as_deref(), Some("/ws"));
}

#[test]
fn open_sites_replace_disk_sites_and_keep_owners() {
    let mut snapshot = build(&[(".bazelrc", "build:saved --define=x=1\n")]);
    assert_eq!(snapshot.declarations.len(), 1);
    snapshot.root = Some("/ws".to_string());
    let parsed = parse("build:open --config=nested\n");
    let open = [OpenBuffer { path: "/ws/.bazelrc", bazelrc: Some(&parsed) }];
    let view = ConfigurationView::new(&snapshot, &open);
    assert!(view.ready());
    assert!(view.declarations_named("saved").is_empty());
    assert_eq!(view.declarations_named("open").len(), 1);
    let reference = &view.references()[0];
    assert_eq!(reference.name, "nested");
    assert_eq!(reference.owner.as_deref(), Some("open"));
    assert_eq!(view.applicable_declarations("test", "open").len(), 1);
    assert_eq!(view.applicable_declarations("query", "open").len(), 0);
}

#[test]
fn a_file_imported_twice_is_read_once() {
    let snapshot = build(&[
        (".bazelrc", "import shared.bazelrc\nimport shared.bazelrc\ntry-import-if-bazel-version >9.0.0 shared.bazelrc\n"),
        ("shared.bazelrc", "build --jobs=1\n"),
    ]);
    assert_eq!(snapshot.files.len(), 2);
    assert_eq!(snapshot.entries.len(), 2);
    assert_eq!(snapshot.imports.len(), 3);
    assert_eq!(snapshot.imports[0].loaded.as_deref(), Some("/ws/shared.bazelrc"));
    assert_eq!(snapshot.imports[1].loaded.as_deref(), Some("/ws/shared.bazelrc"));
    assert!(!snapshot.imports[2].active);
    assert_eq!(snapshot.imports[2].loaded, None);
    assert_eq!(snapshot.problems.len(), 1);
    assert_eq!(snapshot.problems[0].severity, ProblemSeverity::Warning);
}
