use bazel_language_server::handlers::symbols::TopLevelCall;
use bazel_language_server::static_index::{collect_targets, package_label, target_label, FileId, Index, Target};

#[test]
fn package_labels() {
    let root = "/ws";
    assert_eq!(
        package_label(root, "/ws/lib/BUILD.bazel").as_deref(),
        Some("//lib")
    );
    assert_eq!(package_label(root, "/ws/BUILD.bazel").as_deref(), Some("//"));
}

#[test]
fn a_build_file_outside_the_root_has_no_package() {
    assert_eq!(package_label("/ws", "/elsewhere/BUILD.bazel"), None);
}

#[test]
fn a_root_target_label_has_no_package_text() {
    assert_eq!(target_label("//", "beacon"), "//:beacon");
    assert_eq!(target_label("//lib/sub", "srcs"), "//lib/sub:srcs");
}

fn srcs(file: FileId) -> Target {
    Target {
        name: "srcs".to_string(),
        rule: "filegroup".to_string(),
        file,
        offset: 0,
        line: 0,
        character: 0,
    }
}

#[test]
fn a_later_declaration_of_a_label_replaces_the_earlier() {
    let mut index = Index::new();
    assert!(index.is_empty());
    let first = index.add_file("/ws/lib/BUILD.bazel".to_string()).unwrap();
    let second = index.add_file("/ws/lib/BUILD".to_string()).unwrap();
    assert_eq!(first, FileId(0));
    assert_eq!(second, FileId(1));
    index.insert("//lib:srcs".to_string(), srcs(first));
    index.insert("//lib:srcs".to_string(), srcs(second));
    assert_eq!(index.len(), 1);
    assert_eq!(index.target("//lib:srcs").map(|t| t.file), Some(second));
    assert_eq!(index.target("//lib:other"), None);
    assert_eq!(index.path(second), Some("/ws/lib/BUILD"));
    assert_eq!(index.path(FileId(2)), None);
    assert!(!index.graph_loaded());
    index.mark_graph_loaded();
    assert!(index.graph_loaded());
}

fn call(rule: Option<&str>, start: u32, end: u32, name: Option<&str>, name_range: Option<(u32, u32)>) -> TopLevelCall {
    TopLevelCall {
        rule: rule.map(str::to_string),
        start,
        end,
        name: name.map(str::to_string),
        name_range,
    }
}

#[test]
fn a_build_file_declares_its_named_rule_calls() {
    let text = "cc_library(name = \"a\")\nx = 1\n  go_binary(\n    name = \"b\",\n)\n";
    let calls = vec![
        call(Some("cc_library"), 0, 23, Some("a"), Some((19, 20))),
        call(None, 30, 40, Some("skipped"), None),
        call(Some("go_binary"), 31, 60, Some("b"), None),
        call(Some("filegroup"), 40, 50, None, None),
    ];
    let mut index = Index::new();
    let file = index.add_file("/ws/lib/BUILD".to_string()).unwrap();
    collect_targets(text, &calls, file, "//lib", &mut index);
    assert_eq!(
        index.target("//lib:a"),
        Some(&Target { name: "a".to_string(), rule: "cc_library".to_string(), file, offset: 0, line: 0, character: 19 })
    );
    // Without a range for its name, a target is placed at its call.
    assert_eq!(
        index.target("//lib:b"),
        Some(&Target { name: "b".to_string(), rule: "go_binary".to_string(), file, offset: 31, line: 2, character: 2 })
    );
    assert_eq!(index.target("//lib:skipped"), None);
    assert_eq!(index.len(), 2);
}
