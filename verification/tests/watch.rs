use bazel_language_server::watch::{
    excluded, invalidated, reached, wanted, EventState, Invalidates, Wake, MAX_FILES,
};

#[test]
fn only_a_build_file_reaches_the_target_table() {
    for path in ["/ws/lib/BUILD", "/ws/lib/BUILD.bazel"] {
        let reaches = invalidated(path);
        assert!(reaches.graph);
        assert_eq!(reaches.target_files, vec![path.to_string()]);
    }
    assert_eq!(invalidated("/ws/.bazelignore"), Invalidates::both());
}

#[test]
fn what_only_bazel_reads_refreshes_only_the_graph() {
    for path in [
        "/ws/lib/defs.bzl",
        "/ws/MODULE.bazel",
        "/ws/MODULE.bazel.lock",
        "/ws/WORKSPACE",
        "/ws/REPO.bazel",
    ] {
        assert_eq!(
            invalidated(path),
            Invalidates::graph_only(),
            "{path} is the graph tier's business alone"
        );
    }
}

#[test]
fn every_bazelrc_refreshes_the_configuration_and_graph() {
    for path in ["/ws/.bazelrc", "/ws/config/build.bazelrc"] {
        let reaches = invalidated(path);
        assert!(reaches.graph, "{path}");
        assert!(reaches.configuration, "{path}");
        assert!(!reaches.full_targets, "{path}");
    }
}

#[test]
fn everything_else_costs_nothing() {
    for path in ["/ws/lib/main.cc", "/ws/README.md", "/ws/lib/a.txt"] {
        assert_eq!(invalidated(path), Invalidates::nothing(), "{path}");
    }
}

#[test]
fn a_burst_reaches_the_union_of_its_files() {
    let bzl = invalidated("/ws/lib/defs.bzl");
    let text = invalidated("/ws/lib/a.txt");
    assert_eq!(bzl.clone().with(text.clone()), Invalidates::graph_only());
    let both = bzl.clone().with(invalidated("/ws/lib/BUILD.bazel"));
    assert!(both.graph);
    assert_eq!(both.target_files, vec!["/ws/lib/BUILD.bazel".to_string()]);
    assert!(!text.anything());
}

#[test]
fn the_convenience_symlinks_are_excluded_and_nothing_else_is() {
    let root = "/ws";
    assert!(excluded(root, "/ws/bazel-out/x/BUILD.bazel"));
    assert!(excluded(root, "/ws/bazel-ws/BUILD.bazel"));
    assert!(excluded(root, "/ws/.git/index"));
    assert!(excluded(root, "/ws/.jj/repo"));
    assert!(!excluded(root, "/ws/tools/bazel-helpers/BUILD.bazel"));
    assert!(!excluded(root, "/ws/lib/BUILD.bazel"));
    assert!(excluded(root, "/elsewhere/BUILD.bazel"));
}

#[test]
fn a_file_name_alone_is_no_extension() {
    assert_eq!(invalidated("/ws/.bzl"), Invalidates::nothing());
    assert_eq!(invalidated("/ws/a.b.bzl"), Invalidates::graph_only());
    assert_eq!(invalidated("/ws/.."), Invalidates::nothing());
    assert_eq!(invalidated("/"), Invalidates::nothing());
}

#[test]
fn filesystem_events_coalesce_before_the_watcher_wakes() {
    let mut events = EventState::new();
    let mut wakes = 0;
    for path in ["/ws/one/BUILD.bazel", "/ws/two/BUILD.bazel"] {
        if events.record(wanted("/ws", &[], false, false, &[path.to_string()])) {
            wakes += 1;
        }
    }
    assert_eq!(wakes, 1);
    let reaches = reached(Wake::Fs, &mut events);
    assert!(!reaches.full_targets);
    assert_eq!(reaches.target_files.len(), 2);
    assert!(!events.queued);
    assert!(!events.pending.anything());
}

#[test]
fn an_event_that_reaches_nothing_wakes_nobody() {
    let mut events = EventState::new();
    assert!(!events.record(invalidated("/ws/README.md")));
    assert!(!events.queued);
}

#[test]
fn too_many_files_become_a_full_rebuild() {
    let mut events = EventState::new();
    for n in 0..=MAX_FILES {
        events.record(Invalidates::file(&format!("/ws/p{n}/BUILD")));
    }
    assert!(events.pending.full_targets);
    assert!(events.pending.target_files.is_empty());
    assert!(events.pending.graph);
}

#[test]
fn a_manual_wake_rebuilds_everything_and_a_stop_nothing() {
    let mut events = EventState::new();
    assert_eq!(reached(Wake::Manual, &mut events), Invalidates::both());
    assert_eq!(reached(Wake::Stop, &mut events), Invalidates::nothing());
}

#[test]
fn ignored_and_excluded_paths_reach_nothing() {
    let ignored = vec!["ignored".to_string()];
    assert_eq!(
        wanted("/ws", &ignored, false, false, &["/ws/ignored".to_string()]),
        Invalidates::nothing()
    );
    assert_eq!(
        wanted("/ws", &ignored, false, true, &["/ws/ignored".to_string()]),
        Invalidates::nothing()
    );
    assert_eq!(
        wanted("/ws", &ignored, false, true, &["/ws/lib".to_string()]),
        Invalidates::both()
    );
    assert_eq!(
        wanted("/ws", &[], false, false, &["/ws/bazel-out/BUILD".to_string()]),
        Invalidates::nothing()
    );
    assert_eq!(wanted("/ws", &[], true, false, &[]), Invalidates::both());
}
