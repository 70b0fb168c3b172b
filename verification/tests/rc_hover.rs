use bazel_language_server::bazelrc::catalog::{Flag, FlagCatalog, FlagSpelling};
use bazel_language_server::bazelrc::hover::{hover, hover_at, render};
use bazel_language_server::bazelrc::syntax::parse;
use bazel_language_server::line_index::LineIndex;

fn jobs() -> FlagCatalog {
    let flag = Flag {
        name: "jobs".into(),
        documentation: Some("Number of concurrent jobs".into()),
        commands: vec!["build".into()],
        requires_value: true,
        default_value: Some("auto".into()),
        type_converter: Some("Jobs".into()),
        ..Default::default()
    };
    FlagCatalog::from_flags("bazel 8.7.0", vec![flag])
}

#[test]
fn a_separate_value_hovers_the_exact_catalog_flag() {
    let catalog = jobs();
    let text = "build --jobs 4\n";
    let index = LineIndex::new(text);
    let parsed = parse(text);
    let (line, character) = index.position(text, text.find('4').unwrap());
    let (card, start, end) = hover(text, &index, &parsed, &catalog, line, character).unwrap();
    assert!(card.contains("--jobs"));
    assert!(card.contains("Default: auto"));
    assert!(card.contains("Catalog: bazel 8.7.0"));
    assert_eq!(start, (0, 13));
    assert_eq!(end, (0, 14));
}

#[test]
fn the_card_lists_each_field_in_order() {
    let catalog = jobs();
    let flag = &catalog.flags()[0];
    assert_eq!(
        render(&catalog, "build", flag, FlagSpelling::Canonical),
        "--jobs\n\nNumber of concurrent jobs\nType: Jobs\nDefault: auto\nCommands: build\n\
         Current scope: supported\nCatalog: bazel 8.7.0\n"
    );
    assert!(render(&catalog, "query", flag, FlagSpelling::Canonical)
        .contains("Current scope: not reported for this command\n"));
}

#[test]
fn alternate_spellings_and_repeats_are_listed() {
    let catalog = FlagCatalog::from_flags(
        "bazel 8.7.0",
        vec![Flag {
            name: "keep_going".into(),
            has_negative_flag: true,
            abbreviation: Some("k".into()),
            old_name: Some("keepgoing".into()),
            allows_multiple: true,
            effect_tags: vec!["EAGERNESS_TO_EXIT".into(), "LOADING_AND_ANALYSIS".into()],
            commands: vec!["build".into(), "test".into()],
            ..Default::default()
        }],
    );
    let card = render(&catalog, "common", &catalog.flags()[0], FlagSpelling::NegativeAbbreviation);
    assert!(card.contains("Spelling: negative abbreviation\n"));
    assert!(card.contains(
        "Alternate spellings: --nokeep_going, -k, -k-, --keepgoing (deprecated name)\n"
    ));
    assert!(card.contains("Commands: build, test\n"));
    assert!(card.contains("Repeatable: yes\n"));
    assert!(card.contains("Effects: EAGERNESS_TO_EXIT, LOADING_AND_ANALYSIS\n"));
}

#[test]
fn an_unknown_option_or_a_key_hovers_nothing() {
    let catalog = jobs();
    let parsed = parse("build --nosuch 4\n");
    assert_eq!(hover_at(&parsed, &catalog, 9), None);
    assert_eq!(hover_at(&parsed, &catalog, 2), None);
    let parsed = parse("build --jobs=4\n");
    let (_, range) = hover_at(&parsed, &catalog, 8).unwrap();
    assert_eq!((range.start, range.end), (6, 14));
}
