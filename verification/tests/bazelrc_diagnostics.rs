use bazel_language_server::bazelrc::catalog::{Flag, FlagCatalog};
use bazel_language_server::bazelrc::diagnostics::{diagnostics, Level, RcFinding};
use bazel_language_server::bazelrc::index::ConfigurationSnapshot;
use bazel_language_server::bazelrc::syntax::parse;
use bazel_language_server::bazelrc::view::{ConfigurationView, OpenBuffer};

const PATH: &str = "/ws/.bazelrc";

fn analyze(text: &str, snapshot: &ConfigurationSnapshot, catalog: Option<&FlagCatalog>) -> Vec<RcFinding> {
    let parsed = parse(text);
    let open = [OpenBuffer { path: PATH, bazelrc: Some(&parsed) }];
    let view = ConfigurationView::new(snapshot, &open);
    diagnostics(PATH, text, &parsed, snapshot, &view, catalog)
}

fn catalog() -> FlagCatalog {
    FlagCatalog::from_flags(
        "bazel 8.7.0",
        vec![
            Flag {
                name: "jobs".into(),
                commands: vec!["build".into()],
                requires_value: true,
                old_name: Some("job_count".into()),
                ..Default::default()
            },
            Flag {
                name: "keep_going".into(),
                commands: vec!["build".into()],
                has_negative_flag: true,
                deprecation_warning: Some("use another flag".into()),
                ..Default::default()
            },
        ],
    )
}

#[test]
fn absence_is_qualified_and_build_settings_are_exempt() {
    let found = analyze(
        "build --future=value --//settings:mode=value --@repo//settings:mode=value\n",
        &ConfigurationSnapshot::empty(),
        Some(&catalog()),
    );
    assert_eq!(found.len(), 1);
    assert!(found[0].message.contains("native flag catalog"));
    assert!(found[0].message.starts_with("`--future`"));
}

#[test]
fn exact_catalog_contradictions_are_errors() {
    let found = analyze(
        "startup --jobs\nbuild --jobs\nbuild --nokeep_going=value\n",
        &ConfigurationSnapshot::empty(),
        Some(&catalog()),
    );
    assert_eq!(found.iter().filter(|finding| finding.level == Level::Error).count(), 4);
    assert!(found.iter().any(|finding| finding.message.contains("use another flag")));
}

#[test]
fn config_findings_respect_open_buffer_declarations() {
    let text = "build:outer --config inner\nbuild --config external\nbuild:external --jobs=1\n";
    let found = analyze(text, &ConfigurationSnapshot::empty(), None);
    assert_eq!(found.len(), 1);
    assert_eq!(found[0].level, Level::Error);
    assert!(found[0].message.contains("--config=name"));
}

fn rooted() -> ConfigurationSnapshot {
    let mut snapshot = ConfigurationSnapshot::empty();
    snapshot.root = Some("/ws".to_string());
    snapshot
}

#[test]
fn external_config_names_are_qualified_warnings() {
    let found = analyze("build --config=personal\n", &rooted(), None);
    assert_eq!(found[0].level, Level::Warning);
    assert!(found[0].message.contains("workspace Bazelrc graph"));
    assert_eq!(
        found[0].message,
        "configuration `personal` is not declared in the workspace Bazelrc graph"
    );
}

#[test]
fn unavailable_snapshots_do_not_claim_a_config_is_absent() {
    assert!(analyze("build --config=personal\n", &ConfigurationSnapshot::empty(), None).is_empty());
}

#[test]
fn malformed_directives_are_syntax_findings() {
    let found = analyze("import one two\n", &ConfigurationSnapshot::empty(), None);
    assert_eq!(found.len(), 1);
    assert!(found[0].message.contains("expects 1 argument"));
}

#[test]
fn an_unknown_section_is_a_warning_at_its_key() {
    let found = analyze("future:dev --x\n", &ConfigurationSnapshot::empty(), Some(&catalog()));
    assert_eq!(found.len(), 1);
    assert_eq!(found[0].level, Level::Warning);
    assert_eq!(found[0].message, "`future` is not a Bazel 8.7 command or rc scope");
    assert_eq!((found[0].range.start, found[0].range.end), (0, 10));
}

#[test]
fn old_spellings_and_statuses_are_reported() {
    let catalog = FlagCatalog::from_flags(
        "bazel 8.7.0",
        vec![Flag {
            name: "quiet".into(),
            commands: vec!["build".into()],
            old_name: Some("silent".into()),
            effect_tags: vec!["NO_OP".into()],
            metadata_tags: vec!["HIDDEN".into(), "DEPRECATED".into()],
            documentation_category: Some("UNDOCUMENTED".into()),
            ..Default::default()
        }],
    );
    let found = analyze("build --silent\n", &ConfigurationSnapshot::empty(), Some(&catalog));
    let messages: Vec<&str> = found.iter().map(|f| f.message.as_str()).collect();
    assert_eq!(
        messages,
        vec![
            "this is an old spelling; use `--quiet`",
            "`--quiet` is deprecated in the Bazel 8.7 catalog",
            "`--quiet` is catalogued as no-op, hidden, undocumented by Bazel 8.7",
        ]
    );
    assert_eq!(found[2].level, Level::Information);
}

#[test]
fn a_flag_outside_its_section_names_the_section() {
    let found = analyze("test --jobs=2\n", &ConfigurationSnapshot::empty(), Some(&catalog()));
    assert_eq!(found.len(), 1);
    assert_eq!(
        found[0].message,
        "`--jobs` is not accepted in `test` rc entries by the Bazel 8.7 catalog"
    );
}
