use bazel_language_server::document::Document;
use bazel_language_server::handlers::cursor::{
    name_sites, string_at, NameSite, Place, StringAt, StringRole, StringSite,
};
use bazel_language_server::handlers::folding::{folding_ranges, selection_ranges};
use bazel_language_server::handlers::implementation::{implementation, FunctionDef, RuleCall};
use bazel_language_server::handlers::lens::lenses_at;
use bazel_language_server::handlers::links::{hints_at, links_at};
use bazel_language_server::handlers::references::{
    document_highlight, highlights_at, references, references_at,
};
use bazel_language_server::handlers::rename::{prepare_rename, rename, rename_at, validate_name};
use bazel_language_server::handlers::symbols::{
    declarations, document_symbols, workspace_symbols, SymbolClass, TopLevelCall,
};
use bazel_language_server::index::{Index, Reference, Target, Tier};
use bazel_language_server::repos::Repos;

const ROOT: &str = "/ws";

fn doc(relative: &str, text: &str) -> Document {
    Document::versioned(format!("{ROOT}/{relative}"), 1, text.to_string(), Some(ROOT))
}

/// The string literal `quoted` (quotes included) of `text`, where the
/// syntax tree places it at `place`.
fn site(text: &str, quoted: &str, place: Place) -> StringSite {
    let token_start = text.find(quoted).expect("the string") as u32;
    let token_end = token_start + quoted.len() as u32;
    StringSite {
        token_start,
        token_end,
        start: token_start + 1,
        end: token_end - 1,
        value: quoted[1..quoted.len() - 1].to_string(),
        place,
    }
}

fn role_at(sites: &[StringSite], text: &str, needle: &str, build_file: bool) -> Option<StringRole> {
    let offset = text.find(needle).expect("needle") as u32 + 1;
    string_at(sites, offset, build_file).map(|found| found.role)
}

fn top_level_name_cases() {
    let text = "filegroup(name = \"srcs\")\n";
    let sites = [site(text, "\"srcs\"", Place::TopLevelName)];
    assert_eq!(role_at(&sites, text, "srcs", true), Some(StringRole::TargetName));
    // An argument called `name` on a call nested inside another.
    let text = "filegroup(srcs = glob(name = \"inner\"))\n";
    let sites = [site(text, "\"inner\"", Place::Elsewhere)];
    assert_eq!(role_at(&sites, text, "inner", true), Some(StringRole::Label));
    // Any other attribute, at the top level.
    let text = "filegroup(srcs = [\"//lib:a\"])\n";
    let sites = [site(text, "\"//lib:a\"", Place::Elsewhere)];
    assert_eq!(role_at(&sites, text, "//lib:a", true), Some(StringRole::Label));
}

#[test]
fn cursor_only_a_top_level_name_declares_a_target() {
    top_level_name_cases();
}

#[test]
fn handlers_only_a_top_level_name_declares_a_target() {
    top_level_name_cases();
}

fn build_file_cases() {
    let text = "module(name = \"beacon\")\n";
    let sites = [site(text, "\"beacon\"", Place::TopLevelName)];
    // In a BUILD file the same cursor is a declaration.
    assert!(matches!(string_at(&sites, 15, true).map(|f| f.role), Some(StringRole::TargetName)));
    assert!(string_at(&sites, 15, false).is_none(), "a module's name is neither a declaration nor a label");

    let module = doc("MODULE.bazel", text);
    let index = Index::of_disk(Tier::new());
    assert!(references(&module, &sites, false, ROOT, &index, 0, 15, true).is_empty());
    assert!(document_highlight(&module, &sites, false, ROOT, &index, 0, 15).is_empty());
    assert!(prepare_rename(&module, &sites, false, ROOT, &index, 0, 15).is_none());
    assert!(rename(&module, &sites, false, ROOT, &index, 0, 15, "renamed").expect("a legal name").is_none());
}

#[test]
fn cursor_only_a_build_file_declares_targets() {
    build_file_cases();
}

#[test]
fn handlers_only_a_build_file_declares_targets() {
    build_file_cases();
}

#[test]
fn a_string_is_found_by_its_content_and_not_its_quotes() {
    let text = "x = [\"//lib:a\"]\n";
    let sites = [site(text, "\"//lib:a\"", Place::Elsewhere)];
    let quote = text.find('"').unwrap() as u32;
    // The opening quote holds the token but not the content.
    assert!(string_at(&sites, quote, true).is_none());
    let found = string_at(&sites, quote + 3, true).expect("the label");
    assert_eq!(found, StringAt { value: "//lib:a".into(), start: quote + 1, end: quote + 8, role: StringRole::Label });
    // The far end of the content counts: that is where the caret sits.
    assert!(string_at(&sites, quote + 8, true).is_some());
}

#[test]
fn a_label_inside_a_command_is_found() {
    let text = "genrule(cmd = \"cat $(location :srcs) > $@\")\n";
    let sites = [site(text, "\"cat $(location :srcs) > $@\"", Place::Elsewhere)];
    let at = text.find(":srcs").unwrap() as u32;
    let found = string_at(&sites, at + 1, true).expect("the label");
    assert_eq!(found.value, ":srcs");
    assert_eq!((found.start, found.end), (at, at + 5));
    // On the prose around it, the whole string.
    let found = string_at(&sites, at - 3, true).expect("the string");
    assert_eq!(found.value, "cat $(location :srcs) > $@");
}

fn illegal_name_cases() {
    for illegal in ["", "two words", "tab\there", "/leading", "trailing/", "back\\slash"] {
        assert!(validate_name(illegal).is_err(), "accepted {illegal:?}");
        let error = validate_name(illegal).unwrap_err();
        assert!(error.message().starts_with(&format!("{illegal:?} is not a Bazel target name")));
    }
    for legal in ["sources", "sub/dir.txt", "a+b", "v1.2.3-rc1"] {
        assert!(validate_name(legal).is_ok(), "refused {legal:?}");
    }
    // A rename with an illegal name is refused before anything else.
    let index = rename_index();
    let found = StringAt { value: "srcs".into(), start: 22, end: 26, role: StringRole::TargetName };
    assert!(rename_at(&found, Some("lib"), &index, "two words").is_err());
    assert!(rename_at(&found, Some("lib"), &index, "sources").is_ok());
}

#[test]
fn rename_an_illegal_new_name_is_refused() {
    illegal_name_cases();
}

#[test]
fn handlers_an_illegal_new_name_is_refused() {
    illegal_name_cases();
}

fn target(file: &str, line: u32, character: u32, rule: &str) -> Target {
    Target { name: "srcs".into(), rule: rule.into(), file: file.into(), line, character, length: 4 }
}

/// `//lib:srcs`, declared in `lib` and named relatively from `lib` and
/// absolutely from `app`.
fn rename_index() -> Index {
    let mut disk = Tier::new();
    disk.declare("//lib:srcs".into(), target("/ws/lib/BUILD.bazel", 1, 12, "filegroup"));
    disk.mention(
        "//lib:srcs".into(),
        Reference { file: "/ws/lib/BUILD.bazel".into(), line: 7, character: 15, length: 4 },
    );
    disk.mention(
        "//lib:srcs".into(),
        Reference { file: "/ws/app/BUILD.bazel".into(), line: 2, character: 20, length: 4 },
    );
    Index::of_disk(disk)
}

#[test]
fn name_sites_are_sorted_by_file_and_position() {
    let index = rename_index();
    let sites = name_sites(&index, "//lib:srcs", true);
    let flat: Vec<(String, u32, u32, u32)> =
        sites.iter().map(|s: &NameSite| (s.file.clone(), s.line, s.start, s.end)).collect();
    assert_eq!(
        flat,
        vec![
            ("/ws/app/BUILD.bazel".to_string(), 2, 20, 24),
            ("/ws/lib/BUILD.bazel".to_string(), 1, 12, 16),
            ("/ws/lib/BUILD.bazel".to_string(), 7, 15, 19),
        ]
    );
    // Without the declaration, the labels alone.
    assert_eq!(name_sites(&index, "//lib:srcs", false).len(), 2);
    // Files compare component by component: `a/b` before `a-b`.
    let mut disk = Tier::new();
    for file in ["/ws/a-b/BUILD", "/ws/a/b/BUILD", "/ws/a/BUILD"] {
        disk.mention("//x:y".into(), Reference { file: file.into(), line: 0, character: 0, length: 1 });
    }
    disk.mention("//x:y".into(), Reference { file: "/ws/a/BUILD".into(), line: 0, character: 0, length: 1 });
    let index = Index::of_disk(disk);
    let files: Vec<String> = name_sites(&index, "//x:y", false).into_iter().map(|s| s.file).collect();
    assert_eq!(files, vec!["/ws/a/BUILD", "/ws/a/b/BUILD", "/ws/a-b/BUILD"]);
}

#[test]
fn references_and_renames_cover_every_site() {
    let index = rename_index();
    let label = StringAt { value: ":srcs".into(), start: 0, end: 5, role: StringRole::Label };
    let found = references_at(&label, Some("lib"), &index, true);
    let uris: Vec<&str> = found.iter().map(|l| l.uri.as_str()).collect();
    assert_eq!(uris, vec!["file:///ws/app/BUILD.bazel", "file:///ws/lib/BUILD.bazel", "file:///ws/lib/BUILD.bazel"]);
    assert_eq!(references_at(&label, Some("lib"), &index, false).len(), 2);
    // A load path names no target.
    let load = StringAt { value: ":srcs".into(), start: 0, end: 5, role: StringRole::LoadModule };
    assert!(references_at(&load, Some("lib"), &index, true).is_empty());

    let edits = rename_at(&label, Some("lib"), &index, "sources").expect("legal").expect("declared");
    assert_eq!(edits.len(), 3);
    assert!(edits.iter().all(|e| e.new_text == "sources"));
    // A label naming no declaration renames nothing.
    let file = StringAt { value: "a.txt".into(), start: 0, end: 5, role: StringRole::Label };
    assert_eq!(rename_at(&file, Some("lib"), &index, "b.txt").expect("legal"), None);

    // In one file, the declaration is written and the label read.
    let marks = highlights_at(&label, Some("lib"), "/ws/lib/BUILD.bazel", &index);
    let kinds: Vec<(u32, bool)> = marks.iter().map(|h| (h.line, h.write)).collect();
    assert_eq!(kinds, vec![(1, true), (7, false)]);
}

#[test]
fn prepare_rename_selects_the_name_alone() {
    let index = rename_index();
    let text = "x = [\"//lib:srcs\"]\n";
    let document = doc("app/BUILD.bazel", text);
    let sites = [site(text, "\"//lib:srcs\"", Place::Elsewhere)];
    let found = string_at(&sites, 8, true).expect("the label");
    let range = bazel_language_server::handlers::rename::prepare_rename_at(&document, &found, Some("app"), &index)
        .expect("a declared target");
    let start = document.offset(range.0 .0, range.0 .1);
    let end = document.offset(range.1 .0, range.1 .1);
    assert_eq!(&text[start..end], "srcs");
}

const SYMBOLS: &str = "filegroup(\n    name = \"srcs\",\n    srcs = [],\n)\n\ncc_library(name = \"core\")\n";

fn call(text: &str, rule: &str, name: &str) -> TopLevelCall {
    let start = text.find(&format!("{rule}(")).expect("the call");
    let end = start + text[start..].find(')').expect("the close") + 1;
    let quoted = format!("\"{name}\"");
    let at = text[start..].find(&quoted).expect("the name") + start + 1;
    TopLevelCall {
        rule: Some(rule.to_string()),
        start: start as u32,
        end: end as u32,
        name: Some(name.to_string()),
        name_range: Some((at as u32, (at + name.len()) as u32)),
    }
}

fn symbol_calls() -> Vec<TopLevelCall> {
    vec![call(SYMBOLS, "filegroup", "srcs"), call(SYMBOLS, "cc_library", "core")]
}

fn finds_every_declaration_cases() {
    let found = declarations(&doc("BUILD.bazel", SYMBOLS), &symbol_calls(), true);
    assert_eq!(found.len(), 2);
    assert_eq!(found[0].name, "srcs");
    assert_eq!(found[0].rule, "filegroup");
    assert_eq!(found[1].name, "core");
    // The selection range covers the name only, not the whole call.
    assert_eq!(found[0].selection.0 .0, 1);
    assert!(found[0].selection.0 .1 > 0);
}

#[test]
fn symbols_finds_every_declaration() {
    finds_every_declaration_cases();
}

#[test]
fn handlers_finds_every_declaration() {
    finds_every_declaration_cases();
}

fn prefixed_cases() {
    let symbols = document_symbols(&doc("BUILD.bazel", SYMBOLS), &symbol_calls(), true);
    assert_eq!(symbols[0].name, ":srcs");
    assert_eq!(symbols[0].detail, "filegroup");
    assert_eq!(symbols[0].kind, SymbolClass::File);
    assert_eq!(symbols[1].kind, SymbolClass::Module);
}

#[test]
fn symbols_symbols_are_prefixed_like_labels() {
    prefixed_cases();
}

#[test]
fn handlers_symbols_are_prefixed_like_labels() {
    prefixed_cases();
}

fn module_cases() {
    let module = "bazel_dep(name = \"rules_shell\", version = \"0.3.0\")\n";
    let calls = [call(module, "bazel_dep", "rules_shell")];
    assert!(declarations(&doc("MODULE.bazel", module), &calls, false).is_empty());
    // The same text read as a BUILD file would look like a target.
    assert_eq!(declarations(&doc("BUILD.bazel", module), &calls, true).len(), 1);
}

#[test]
fn symbols_module_bazel_declares_no_targets() {
    module_cases();
}

#[test]
fn handlers_module_bazel_declares_no_targets() {
    module_cases();
}

#[test]
fn a_call_without_a_literal_name_declares_nothing() {
    let text = "cc_library(name = NAME)\n";
    let calls = [TopLevelCall { rule: Some("cc_library".into()), start: 0, end: 23, name: None, name_range: None }];
    assert!(declarations(&doc("BUILD.bazel", text), &calls, true).is_empty());
}

#[test]
fn workspace_symbols_list_matching_targets() {
    let index = rename_index();
    let found = workspace_symbols(&index, "SRCS");
    assert_eq!(found.len(), 1);
    assert_eq!(found[0].name, "//lib:srcs");
    assert_eq!(found[0].uri, "file:///ws/lib/BUILD.bazel");
    assert_eq!((found[0].line, found[0].character), (1, 12));
    assert!(workspace_symbols(&index, "client").is_empty());
}

const FOLDING: &str = "\
# a licence
# spanning three
# comment lines

# a separate remark
load(\"//tools:defs.bzl\", \"thing\")

filegroup(
    name = \"srcs\",
    srcs = [
        \"a.txt\",
        \"b.txt\",
    ],
)

filegroup(name = \"one_line\")
";

fn fold(text: &str, regions: &[(u32, u32)], comments: &[u32]) -> Vec<(u32, u32, bool)> {
    folding_ranges(&doc("BUILD.bazel", text), regions, comments)
        .into_iter()
        .map(|f| (f.start_line, f.end_line, f.comment))
        .collect()
}

fn folding_regions() -> (Vec<(u32, u32)>, Vec<u32>) {
    let text = FOLDING;
    let span = |open: &str, close: &str| {
        let start = text.find(open).unwrap();
        let end = start + text[start..].find(close).unwrap() + close.len();
        (start as u32, end as u32)
    };
    let regions = vec![
        span("load(", ")"),
        span("filegroup(\n", "\n)"),
        span("[\n", "]"),
        span("filegroup(name", ")"),
    ];
    let comments = ["# a licence", "# spanning", "# comment", "# a separate"]
        .iter()
        .map(|c| text.find(c).unwrap() as u32)
        .collect();
    (regions, comments)
}

#[test]
fn a_blank_line_ends_a_comment_run() {
    let (regions, comments) = folding_regions();
    let folds = fold(FOLDING, &regions, &comments);
    assert!(folds.contains(&(0, 2, true)), "{folds:?}");
    assert!(!folds.iter().any(|&(start, end, _)| start == 0 && end == 4), "{folds:?}");
}

#[test]
fn multi_line_calls_and_their_lists_fold() {
    let (regions, comments) = folding_regions();
    let folds = fold(FOLDING, &regions, &comments);
    assert!(folds.contains(&(7, 13, false)), "the filegroup: {folds:?}");
    assert!(folds.contains(&(9, 12, false)), "its srcs: {folds:?}");
}

#[test]
fn a_single_line_region_is_dropped() {
    let (regions, comments) = folding_regions();
    let folds = fold(FOLDING, &regions, &comments);
    assert!(folds.iter().all(|&(start, end, _)| end > start), "{folds:?}");
    assert!(fold("filegroup(name = \"x\")\n", &[(0, 21)], &[]).is_empty());
}

#[test]
fn a_broken_buffer_still_folds() {
    let broken = "filegroup(\n    name = \"a\",\n\ncc_library(name = \"b\")\n";
    // The recovering parser leaves the unclosed call running to the end.
    assert!(!fold(broken, &[(0, broken.len() as u32)], &[]).is_empty());
}

#[test]
fn a_selection_widens_from_the_string_to_the_file() {
    let text = "filegroup(srcs = [\"a\"])\n";
    let document = doc("BUILD.bazel", text);
    let nodes = [(0u32, 24u32), (0, 23), (10, 22), (17, 22), (18, 21)];
    let chains = selection_ranges(&document, &nodes, &[(0, 19), (5, 0)]);
    assert_eq!(chains.len(), 2, "one answer per position");
    let widths: Vec<(u32, u32)> = chains[0].iter().map(|r| (r.0 .1, r.1 .1)).collect();
    assert_eq!(widths, vec![(18, 21), (17, 22), (10, 22), (0, 23), (0, 0)]);
    // Past the end, still an answer: the file.
    assert_eq!(chains[1].len(), 1);
}

const BZL: &str = "\
def _beacon_impl(ctx):
    return []

beacon_component = rule(
    implementation = _beacon_impl,
    attrs = {},
)
";

fn range_of(text: &str, needle: &str) -> (u32, u32) {
    let start = text.find(needle).unwrap();
    (start as u32, (start + needle.len()) as u32)
}

fn jump(text: &str, rules: &[RuleCall], defs: &[FunctionDef], needle: &str) -> Option<String> {
    let document = doc("tools/scratch.bzl", text);
    let at = text.find(needle).expect("needle") + needle.len() / 2;
    let (line, character) = document.position(at);
    let (_, start, end) = implementation(&document, rules, defs, line, character)?;
    let start = document.offset(start.0, start.1);
    let end = document.offset(end.0, end.1);
    Some(text[start..end].lines().next().unwrap_or_default().to_string())
}

fn beacon() -> (Vec<RuleCall>, Vec<FunctionDef>) {
    let named = range_of(BZL, "_beacon_impl,");
    let rules = vec![RuleCall {
        implementation: Some("_beacon_impl".into()),
        triggers: vec![(named.0, named.1 - 1), range_of(BZL, "rule"), range_of(BZL, "beacon_component")],
    }];
    let def_end = BZL.find("return []").unwrap() + "return []".len();
    let defs = vec![FunctionDef { name: Some("_beacon_impl".into()), start: 0, end: def_end as u32 }];
    (rules, defs)
}

#[test]
fn the_identifier_leads_to_its_def() {
    let (rules, defs) = beacon();
    assert_eq!(jump(BZL, &rules, &defs, "_beacon_impl,"), Some("def _beacon_impl(ctx):".to_string()));
}

#[test]
fn a_name_with_no_def_here_yields_nothing() {
    let loaded = "load(\"//other:defs.bzl\", \"_impl\")\n\nr = rule(implementation = _impl)\n";
    let named = range_of(loaded, "_impl)");
    let rules = vec![RuleCall {
        implementation: Some("_impl".into()),
        triggers: vec![(named.0, named.1 - 1), range_of(loaded, "rule"), range_of(loaded, "r =")],
    }];
    assert_eq!(jump(loaded, &rules, &[], "_impl)"), None);
}

#[test]
fn the_rules_exported_name_leads_to_its_def() {
    let (rules, defs) = beacon();
    assert_eq!(jump(BZL, &rules, &defs, "beacon_component ="), Some("def _beacon_impl(ctx):".to_string()));
}

#[test]
fn a_cursor_elsewhere_in_the_call_yields_nothing() {
    let (rules, defs) = beacon();
    assert_eq!(jump(BZL, &rules, &defs, "attrs"), None);
}

#[test]
fn links_and_hints_follow_the_labels_that_resolve() {
    let index = rename_index();
    let text = "x = [\":srcs\", \"a.txt\", \"//lib:srcs\", \"missing\"]\n";
    let document = doc("lib/BUILD.bazel", text);
    let sites = [
        site(text, "\":srcs\"", Place::Elsewhere),
        site(text, "\"a.txt\"", Place::Elsewhere),
        site(text, "\"//lib:srcs\"", Place::Elsewhere),
        site(text, "\"missing\"", Place::Elsewhere),
    ];
    let links = links_at(&document, &sites, true, Some("lib"), ROOT, &index, &[false, true, false, false]);
    let found: Vec<(&str, &str)> = links.iter().map(|l| (l.target_uri.as_str(), l.tooltip.as_str())).collect();
    assert_eq!(
        found,
        vec![
            ("file:///ws/lib/BUILD.bazel", "//lib:srcs"),
            ("file:///ws/lib/a.txt", "//lib:a.txt"),
            ("file:///ws/lib/BUILD.bazel", "//lib:srcs"),
        ]
    );
    // Only the relative label naming a declared target gets its package.
    let hints = hints_at(&document, &sites, true, "lib", &index, 0, text.len());
    assert_eq!(hints.len(), 1);
    assert_eq!(hints[0].label, "//lib");
    assert_eq!(hints[0].position, (0, 6));
}

#[test]
fn only_a_test_target_offers_test() {
    let text = "sh_test(name = \"check\")\nfilegroup(name = \"srcs\")\n";
    let calls = [call(text, "sh_test", "check"), call(text, "filegroup", "srcs")];
    let lenses = lenses_at(&doc("lib/BUILD.bazel", text), &calls, "lib");
    let titles: Vec<&str> = lenses.iter().map(|l| l.title.as_str()).collect();
    assert_eq!(titles, vec!["build //lib:check", "test //lib:check", "build //lib:srcs"]);
    assert_eq!(lenses[2].position, (1, 0));
}
