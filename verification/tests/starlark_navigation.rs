use bazel_language_server::document::Document;
use bazel_language_server::handlers::cursor::{StringAt, StringRole};
use bazel_language_server::handlers::definition::definition_at;
use bazel_language_server::handlers::hover::{hover, hover_at};
use bazel_language_server::index::{Index, Reference, Target, Tier};
use bazel_language_server::repos::{Repos, Resolved};

const ROOT: &str = "/ws";

fn target(name: &str, rule: &str, file: &str, line: u32, character: u32) -> Target {
    Target {
        name: name.to_string(),
        rule: rule.to_string(),
        file: format!("{ROOT}/{file}"),
        line,
        character,
        length: name.len() as u32,
    }
}

/// The test workspace as its index holds it: `//lib:srcs` and the targets
/// around it, with five labels naming `//lib:srcs`.
fn workspace_index() -> Index {
    let mut disk = Tier::new();
    disk.declare("//lib:srcs".to_string(), target("srcs", "filegroup", "lib/BUILD.bazel", 1, 12));
    disk.declare("//lib:aliased".to_string(), target("aliased", "alias", "lib/BUILD.bazel", 34, 12));
    disk.declare(
        "//lib:double_aliased".to_string(),
        target("double_aliased", "alias", "lib/BUILD.bazel", 40, 12),
    );
    disk.declare(
        "//lib/sub:sub_srcs".to_string(),
        target("sub_srcs", "filegroup", "lib/sub/BUILD.bazel", 3, 12),
    );
    for line in [8, 13, 20, 35] {
        disk.mention(
            "//lib:srcs".to_string(),
            Reference { file: format!("{ROOT}/lib/BUILD.bazel"), line, character: 14, length: 4 },
        );
    }
    disk.mention(
        "//lib:srcs".to_string(),
        Reference { file: format!("{ROOT}/app/BUILD.bazel"), line: 2, character: 19, length: 4 },
    );
    Index { buffer: Tier::new(), disk, graph: Tier::new(), repos: Repos::empty() }
}

/// A buffer of `file` holding the string, and the string found in it.
fn buffer(file: &str, value: &str, role: StringRole) -> (Document, StringAt) {
    let text = format!("x = \"{value}\"\n");
    let document = Document::versioned(format!("{ROOT}/{file}"), 1, text, Some(ROOT));
    let found = StringAt { value: value.to_string(), start: 5, end: 5 + value.len() as u32, role };
    (document, found)
}

fn package_of(file: &str) -> &str {
    file.rsplit_once('/').map(|(dir, _)| dir).unwrap_or("")
}

/// Where goto-definition leads, as `path:line:character` relative to the
/// root.
fn go(file: &str, value: &str, role: StringRole, exists: bool) -> Option<String> {
    let index = workspace_index();
    let (document, found) = buffer(file, value, role);
    let jump = definition_at(&document, &found, Some(package_of(file)), ROOT, &index, exists)?;
    let path = jump.target_uri.strip_prefix("file:///ws/").expect("a file under the root").to_string();
    Some(format!("{path}:{}:{}", jump.line, jump.character))
}

/// The hover card's markdown.
fn card(file: &str, value: &str, role: StringRole, exists: bool) -> Option<String> {
    let index = workspace_index();
    let (document, found) = buffer(file, value, role);
    hover_at(&document, &found, Some(package_of(file)), ROOT, &index, exists, &Resolved::Main)
        .map(|card| card.markdown)
}

#[test]
fn definition_labels_resolve_through_the_index() {
    // An absolute label into another package.
    assert_eq!(
        go("lib/BUILD.bazel", "//lib/sub:sub_srcs", StringRole::Label, false).as_deref(),
        Some("lib/sub/BUILD.bazel:3:12")
    );
    // A relative one, against the package the file is in.
    assert_eq!(
        go("lib/BUILD.bazel", ":aliased", StringRole::Label, false).as_deref(),
        Some("lib/BUILD.bazel:34:12")
    );
    // A label pointing back up out of a subpackage, at a source file.
    assert_eq!(
        go("lib/sub/BUILD.bazel", "//lib:exported.txt", StringRole::Label, true).as_deref(),
        Some("lib/exported.txt:0:0")
    );
}

#[test]
fn definition_source_files_are_definitions() {
    assert_eq!(
        go("app/BUILD.bazel", "tool.sh", StringRole::Label, true).as_deref(),
        Some("app/tool.sh:0:0")
    );
    // A file in a subdirectory of the package that owns it.
    assert_eq!(
        go("lib/BUILD.bazel", "//app:nested/data.txt", StringRole::Label, true).as_deref(),
        Some("app/nested/data.txt:0:0")
    );
}

#[test]
fn definition_load_paths_and_their_symbols_reach_the_file() {
    assert_eq!(
        go("lib/BUILD.bazel", "//macros:legacy.bzl", StringRole::LoadModule, true).as_deref(),
        Some("macros/legacy.bzl:0:0")
    );
    // The symbol jumps to the file that defines it, not to the `def`.
    assert_eq!(
        go(
            "lib/BUILD.bazel",
            "legacy_macro",
            StringRole::LoadSymbol("//macros:legacy.bzl".to_string()),
            true
        )
        .as_deref(),
        Some("macros/legacy.bzl:0:0")
    );
    // A load path relative to the current package.
    assert_eq!(
        go("lib/BUILD.bazel", ":local.bzl", StringRole::LoadModule, true).as_deref(),
        Some("lib/local.bzl:0:0")
    );
    // An aliased symbol: the string is the original name.
    assert_eq!(
        go(
            "lib/BUILD.bazel",
            "renamed_in_load",
            StringRole::LoadSymbol(":local.bzl".to_string()),
            true
        )
        .as_deref(),
        Some("lib/local.bzl:0:0")
    );
}

#[test]
fn definition_of_a_declaration_goes_nowhere() {
    assert_eq!(go("lib/BUILD.bazel", "srcs", StringRole::TargetName, true), None);
    // Nothing declared and nothing on disk.
    assert_eq!(go("lib/sub/BUILD.bazel", "//lib:does_not_exist", StringRole::Label, false), None);
}

#[test]
fn hover_hover_on_a_label_says_what_it_resolves_to() {
    assert_eq!(
        card("lib/BUILD.bazel", "//lib/sub:sub_srcs", StringRole::Label, false).as_deref(),
        Some("```\n//lib/sub:sub_srcs\n```\n`filegroup` declared in `lib/sub/BUILD.bazel`")
    );
    // Written `":srcs"`, shown resolved.
    assert_eq!(
        card("lib/BUILD.bazel", ":srcs", StringRole::Label, false).as_deref(),
        Some("```\n//lib:srcs\n```\n`filegroup` declared in `lib/BUILD.bazel`")
    );
    // A label naming a source file says so.
    assert_eq!(
        card("lib/sub/BUILD.bazel", "//lib:exported.txt", StringRole::Label, true).as_deref(),
        Some("```\n//lib:exported.txt\n```\nsource file `lib/exported.txt`")
    );
}

/// The workspace has read no repository mapping, which is its own answer
/// and not the same as the repository being unknown.
#[test]
fn an_external_label_says_why_it_cannot_be_placed() {
    let index = workspace_index();
    let text = "x = \"@platforms//os:linux\"\n";
    let document = Document::versioned(format!("{ROOT}/lib/BUILD.bazel"), 1, text.to_string(), Some(ROOT));
    let found = StringAt {
        value: "@platforms//os:linux".to_string(),
        start: 5,
        end: 25,
        role: StringRole::Label,
    };
    let placed = index.repos().locate("platforms");
    let card = hover_at(&document, &found, Some("lib"), ROOT, &index, false, &placed)
        .expect("a card naming the limitation")
        .markdown;
    assert!(card.contains("repository mapping has not been read"), "got {card:?}");
    assert!(card.contains("@platforms//os:linux"), "got {card:?}");
}

#[test]
fn an_unfetched_repository_says_how_to_fetch_it() {
    let index = workspace_index();
    let (document, found) = buffer("lib/BUILD.bazel", "@rules_cc//cc:defs.bzl", StringRole::LoadModule);
    let placed = Resolved::Unfetched("rules_cc+".to_string());
    let card = hover_at(&document, &found, Some("lib"), ROOT, &index, false, &placed).expect("a card").markdown;
    assert_eq!(
        card,
        "```\n@rules_cc//cc:defs.bzl\n```\n`@rules_cc` is `rules_cc+` here and has not been fetched; \
         `bazel fetch @rules_cc` brings it down"
    );
    let placed = Resolved::Unknown;
    let card = hover_at(&document, &found, Some("lib"), ROOT, &index, false, &placed).expect("a card").markdown;
    assert_eq!(
        card,
        "```\n@rules_cc//cc:defs.bzl\n```\n`@rules_cc` is not a repository this workspace declares"
    );
    let placed = Resolved::At("/out/external/rules_cc+".to_string());
    let card = hover_at(&document, &found, Some("lib"), ROOT, &index, false, &placed).expect("a card").markdown;
    assert_eq!(
        card,
        "```\n@rules_cc//cc:defs.bzl\n```\n`cc/defs.bzl` in `/out/external/rules_cc+/cc/defs.bzl`"
    );
}

#[test]
fn hover_hover_on_a_declaration_counts_what_the_index_holds() {
    assert_eq!(
        card("lib/BUILD.bazel", "srcs", StringRole::TargetName, false).as_deref(),
        Some(
            "```\n//lib:srcs\n```\n\
             `filegroup` declared in `lib/BUILD.bazel`\n\n\
             5 references in the static index, which does not see macro-generated labels"
        )
    );
    // Nothing names `//lib:double_aliased`, and none is not a failure.
    assert_eq!(
        card("lib/BUILD.bazel", "double_aliased", StringRole::TargetName, false).as_deref(),
        Some(
            "```\n//lib:double_aliased\n```\n\
             `alias` declared in `lib/BUILD.bazel`\n\n\
             No references in the static index, which does not see macro-generated labels"
        )
    );
}

#[test]
fn hover_hover_on_a_load_path_resolves_the_file() {
    assert_eq!(
        card("lib/BUILD.bazel", "//macros:legacy.bzl", StringRole::LoadModule, true).as_deref(),
        Some("```\n//macros:legacy.bzl\n```\nStarlark file `macros/legacy.bzl`")
    );
    // Relative to the package doing the loading.
    assert_eq!(
        card("lib/BUILD.bazel", ":local.bzl", StringRole::LoadModule, true).as_deref(),
        Some("```\n//lib:local.bzl\n```\nStarlark file `lib/local.bzl`")
    );
}

#[test]
fn hover_hover_declines_wherever_it_would_have_to_guess() {
    // The deliberately dangling label.
    assert_eq!(card("lib/sub/BUILD.bazel", "//lib:does_not_exist", StringRole::Label, false), None);
    // A pseudo-label that never names a target.
    assert_eq!(card("lib/BUILD.bazel", "//visibility:public", StringRole::Label, false), None);
    // A symbol inside a `load()`.
    assert_eq!(
        card(
            "lib/BUILD.bazel",
            "local_helper",
            StringRole::LoadSymbol(":local.bzl".to_string()),
            true
        ),
        None
    );
    // A cursor on an identifier, a comment, or a rule name is on no string.
    let index = workspace_index();
    let text = "# Cross-package\nfilegroup(\n    name = \"srcs\",\n)\ncc_library_placeholder()\n";
    let document = Document::versioned(format!("{ROOT}/lib/BUILD.bazel"), 1, text.to_string(), Some(ROOT));
    for (line, character) in [(1, 3), (0, 4), (4, 5)] {
        assert!(hover(&document, &[], true, ROOT, &index, line, character).is_none());
    }
}
