use bazel_language_server::index::{
    is_excluded, is_ignored, package_dir, parse_bazelignore, Index, Reference, Target, Tier,
};
use bazel_language_server::repos::Repos;

#[test]
fn package_dirs() {
    let root = "/ws";
    assert_eq!(
        package_dir(root, "/ws/lib/BUILD.bazel").as_deref(),
        Some("lib")
    );
    assert_eq!(package_dir(root, "/ws/BUILD.bazel").as_deref(), Some(""));
    assert_eq!(package_dir(root, "/elsewhere/BUILD.bazel"), None);
}

#[test]
fn bazelignore_lists_literal_directories() {
    assert_eq!(
        parse_bazelignore("# a comment\n\nbroken\nvendor/\n  spaced  \r\nwin\\dir//"),
        vec!["broken", "vendor", "spaced", "win/dir"]
    );
    assert!(parse_bazelignore("").is_empty());
}

#[test]
fn only_listed_directories_are_ignored() {
    let ignored = vec!["broken".to_string(), "vendor".to_string()];
    assert!(is_ignored("/ws", "/ws/broken", &ignored));
    assert!(!is_ignored("/ws", "/ws/broken/nested", &ignored));
    assert!(!is_ignored("/ws", "/other/broken", &ignored));
    assert!(!is_ignored("/ws", "/ws/broken", &[]));
}

#[test]
fn metadata_and_root_output_trees_are_not_walked() {
    assert!(is_excluded(".git", 3));
    assert!(is_excluded(".jj", 1));
    assert!(is_excluded("bazel-out", 1));
    assert!(!is_excluded("bazel-tools", 0));
    assert!(!is_excluded("bazel-helpers", 2));
    assert!(!is_excluded("lib", 1));
}

fn at(file: &str, line: u32, rule: &str) -> Target {
    Target {
        name: "t".to_string(),
        rule: rule.to_string(),
        file: file.to_string(),
        line,
        character: 0,
        length: 1,
    }
}

fn tier(entries: &[(&str, Target)], speaks_for: &[&str]) -> Tier {
    let mut tier = Tier::new();
    for (label, target) in entries {
        tier.declare((*label).to_string(), target.clone());
    }
    for path in speaks_for {
        tier.speak_for((*path).to_string());
    }
    tier
}

/// The four precedence rules, on one arrangement: a buffer open on
/// `lib/BUILD.bazel` that declares `kept` and no longer declares `gone`; a
/// disk that still has both plus `//app:other`; and a graph that knows a
/// macro-generated target and disagrees with the source about a rule class.
#[test]
fn a_buffer_speaks_for_its_file_and_bazel_for_what_no_parser_sees() {
    let open = "/ws/lib/BUILD.bazel";
    let index = Index {
        buffer: tier(&[("//lib:kept", at(open, 9, "filegroup"))], &[open]),
        disk: tier(
            &[
                ("//lib:kept", at(open, 1, "filegroup")),
                ("//lib:gone", at(open, 2, "filegroup")),
                ("//app:other", at("/ws/app/BUILD.bazel", 3, "filegroup")),
            ],
            &[],
        ),
        graph: tier(
            &[
                ("//lib:from_macro", at(open, 7, "filegroup")),
                ("//lib:kept", at(open, 1, "_private_rule")),
            ],
            &[],
        ),
        repos: Repos::default(),
    };

    assert_eq!(index.target("//lib:kept").map(|t| t.line), Some(9));
    assert_eq!(index.target("//lib:gone"), None);
    assert_eq!(index.target("//app:other").map(|t| t.line), Some(3));
    assert_eq!(index.target("//lib:from_macro").map(|t| t.line), Some(7));
    assert_eq!(
        index.target("//lib:kept").map(|t| t.rule.as_str()),
        Some("filegroup")
    );

    assert!(index.only_bazel_knows("//lib:from_macro"));
    assert!(!index.only_bazel_knows("//lib:kept"));
    assert!(!index.only_bazel_knows("//app:other"));
    assert!(!index.only_bazel_knows("//lib:nothing_at_all"));

    let mut listed: Vec<_> = index.targets().into_iter().map(|(label, _)| label).collect();
    listed.sort_unstable();
    assert_eq!(
        listed,
        vec!["//app:other", "//lib:from_macro", "//lib:kept"],
        "each target once, and the deleted one not at all"
    );
    assert_eq!(index.len(), 3);
}

fn reference(file: &str, line: u32) -> Reference {
    Reference { file: file.to_string(), line, character: 4, length: 4 }
}

#[test]
fn mentions_in_a_file_a_buffer_speaks_for_come_from_the_buffer() {
    let open = "/ws/lib/BUILD.bazel";
    let mut buffer = Tier::new();
    buffer.speak_for(open.to_string());
    buffer.mention("//lib:srcs".to_string(), reference(open, 12));
    let mut disk = Tier::new();
    disk.mention("//lib:srcs".to_string(), reference(open, 10));
    disk.mention("//lib:srcs".to_string(), reference("/ws/app/BUILD.bazel", 2));
    disk.mention("//lib:other".to_string(), reference("/ws/app/BUILD.bazel", 5));
    let index = Index { buffer, disk, graph: Tier::new(), repos: Repos::empty() };

    let found: Vec<(String, u32)> = index
        .references("//lib:srcs")
        .into_iter()
        .map(|r| (r.file.clone(), r.line))
        .collect();
    assert_eq!(
        found,
        vec![(open.to_string(), 12), ("/ws/app/BUILD.bazel".to_string(), 2)]
    );
    assert!(index.references("//lib:nothing").is_empty());
}

#[test]
fn a_disk_view_counts_what_the_walk_read() {
    let mut disk = Tier::new();
    disk.files = 4;
    disk.declare("//lib:srcs".to_string(), at("/ws/lib/BUILD.bazel", 0, "filegroup"));
    let index = Index::of_disk(disk);
    assert_eq!(index.files(), 4);
    assert_eq!(index.len(), 1);
    assert_eq!(index.repos().len(), 0);
    // A path spelled with a trailing separator is the same file.
    let mut buffer = Tier::new();
    buffer.speak_for("/ws/lib/BUILD.bazel/".to_string());
    let index = Index { buffer, ..index };
    assert_eq!(index.target("//lib:srcs"), None);
}
