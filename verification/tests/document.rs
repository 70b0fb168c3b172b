use bazel_language_server::document::{apply_changes, is_bazelrc, Change, ChangeError, Document};
use bazel_language_server::source_kind::{classify, reading, SourceKind, StarlarkDialect};

fn partial(start: (u32, u32), end: (u32, u32), text: &str) -> Change {
    Change::Partial {
        start_line: start.0,
        start_character: start.1,
        end_line: end.0,
        end_character: end.1,
        text: text.to_string(),
    }
}

#[test]
fn incremental_changes_apply_in_order_and_in_utf16() {
    let changes = vec![partial((0, 1), (0, 3), "x"), partial((0, 2), (0, 3), "y")];
    assert_eq!(apply_changes("a😀b\n", changes).unwrap(), "axy\n");
}

#[test]
fn an_invalid_incremental_range_is_rejected() {
    let changes = vec![partial((9, 0), (9, 0), "x")];
    assert_eq!(apply_changes("a\n", changes), Err(ChangeError::OutsideDocument));
}

#[test]
fn a_range_that_ends_before_it_starts_is_rejected() {
    let changes = vec![partial((0, 2), (0, 1), "x")];
    assert_eq!(apply_changes("abc\n", changes), Err(ChangeError::EndsBeforeStart));
}

#[test]
fn a_whole_text_replaces_everything_and_later_edits_apply_to_it() {
    let changes = vec![
        Change::Whole("one\ntwo\n".to_string()),
        partial((1, 0), (1, 3), "three"),
    ];
    assert_eq!(apply_changes("anything", changes).unwrap(), "one\nthree\n");
    assert_eq!(apply_changes("kept", Vec::new()).unwrap(), "kept");
}

#[test]
fn rc_files_are_recognised_by_name() {
    assert!(is_bazelrc("/ws/.bazelrc"));
    assert!(is_bazelrc("/ws/config/build.bazelrc"));
    assert!(!is_bazelrc("/ws/BUILD.bazel"));
    assert!(!is_bazelrc("/ws/bazelrc.txt"));
}

#[test]
fn bazelrc_uses_its_own_syntax() {
    let document = Document::versioned(
        "/ws/config/build.bazelrc".to_string(),
        3,
        "build --config=dev\n".to_string(),
        Some("/ws"),
    );
    assert!(document.is_bazelrc());
    assert_eq!(document.bazelrc().unwrap().lines[0].tokens[0].text, "build");
    assert_eq!(document.version(), 3);
    assert_eq!(document.path(), "/ws/config/build.bazelrc");
    assert_eq!(document.position(8), (0, 8));
    assert_eq!(document.offset(0, 8), 8);

    let build = Document::versioned(
        "/ws/lib/BUILD.bazel".to_string(),
        1,
        "filegroup(name = \"a\")\n".to_string(),
        Some("/ws"),
    );
    assert!(!build.is_bazelrc());
    assert!(build.bazelrc().is_none());
    assert_eq!(build.kind(), SourceKind::Build);
    assert!(build.parse().errors().is_empty());
}

fn kind(path: &str) -> Option<(StarlarkDialect, SourceKind)> {
    classify(path, Some("/ws"))
}

#[test]
fn bazel_files_are_known_by_name() {
    assert_eq!(kind("a/BUILD"), Some((StarlarkDialect::Bazel, SourceKind::Build)));
    assert_eq!(kind("a/BUILD.bazel"), Some((StarlarkDialect::Bazel, SourceKind::Build)));
    assert_eq!(kind("a/defs.bzl"), Some((StarlarkDialect::Bazel, SourceKind::Bzl)));
    assert_eq!(kind("MODULE.bazel"), Some((StarlarkDialect::Bazel, SourceKind::Module)));
    assert_eq!(kind("x.MODULE.bazel"), Some((StarlarkDialect::Bazel, SourceKind::Module)));
    assert_eq!(kind("zlib.BUILD"), Some((StarlarkDialect::Bazel, SourceKind::Build)));
    assert_eq!(kind("WORKSPACE.bzlmod"), Some((StarlarkDialect::Bazel, SourceKind::Workspace)));
    assert_eq!(kind("REPO.bazel"), Some((StarlarkDialect::Bazel, SourceKind::Repo)));
    assert_eq!(kind("VENDOR.bazel"), Some((StarlarkDialect::Bazel, SourceKind::Vendor)));
    assert_eq!(kind("a/deps.query.bzl"), Some((StarlarkDialect::Bazel, SourceKind::Cquery)));
    assert_eq!(kind("PROJECT.scl"), Some((StarlarkDialect::Scl, SourceKind::Scl)));
}

#[test]
fn the_prelude_is_known_by_its_place() {
    assert_eq!(
        kind("/ws/tools/build_rules/prelude_bazel"),
        Some((StarlarkDialect::Bazel, SourceKind::Prelude))
    );
    assert_eq!(kind("/other/tools/build_rules/prelude_bazel"), None);
    assert_eq!(classify("/ws/tools/build_rules/prelude_bazel", None), None);
}

#[test]
fn a_hidden_name_is_no_extension() {
    assert_eq!(kind("a/.bzl"), None);
    assert_eq!(kind("a/notes.txt"), None);
    assert_eq!(reading("a/notes.txt", Some("/ws")), (StarlarkDialect::Standard, SourceKind::Bzl));
    assert_eq!(reading("a/BUILD", Some("/ws")), (StarlarkDialect::Bazel, SourceKind::Build));
}

#[test]
fn an_unnamed_kind_is_read_as_plain_starlark() {
    let document = Document::versioned("/ws/notes.txt".to_string(), 1, "x = 1\n".to_string(), Some("/ws"));
    assert!(!document.is_bazelrc());
    assert_eq!(document.kind(), SourceKind::Bzl);
    assert!(document.parse().errors().is_empty());
}
