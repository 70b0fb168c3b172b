use bazel_language_server::bazelrc::catalog::{flag_catalog_payload, Flag, FlagCatalog, FlagSpelling};
use bazel_language_server::bazelrc::native_options::uses;
use bazel_language_server::bazelrc::syntax::parse;

#[test]
fn option_spellings_resolve_without_claiming_build_settings() {
    let catalog = FlagCatalog::from_flags(
        "bazel 8.7.0",
        vec![Flag {
            name: "keep_going".into(),
            has_negative_flag: true,
            abbreviation: Some("k".into()),
            old_name: Some("keepgoing".into()),
            ..Default::default()
        }],
    );
    let spelling = |option| catalog.resolve_option(option).map(|found| found.spelling);
    assert_eq!(spelling("--keep_going"), Some(FlagSpelling::Canonical));
    assert_eq!(spelling("--nokeep_going"), Some(FlagSpelling::Negative));
    assert_eq!(spelling("-k-"), Some(FlagSpelling::NegativeAbbreviation));
    assert_eq!(spelling("--keepgoing"), Some(FlagSpelling::OldName));
    assert_eq!(spelling("--//settings:mode=value"), None);
    assert_eq!(spelling("--@repo//settings:mode=value"), None);
    assert_eq!(spelling("-k"), Some(FlagSpelling::Abbreviation));
    assert_eq!(spelling("--nokeepgoing"), Some(FlagSpelling::NegativeOldName));
    assert_eq!(spelling("--keep_going=1"), Some(FlagSpelling::Canonical));
    assert_eq!(spelling("-kk"), None);
    assert_eq!(spelling("keep_going"), None);
}

#[test]
fn a_later_flag_replaces_one_of_the_same_name() {
    let catalog = FlagCatalog::from_flags(
        "bazel 8.7.0",
        vec![
            Flag { name: "jobs".into(), requires_value: false, ..Default::default() },
            Flag { name: "jobs".into(), requires_value: true, ..Default::default() },
        ],
    );
    assert_eq!(catalog.flags().len(), 1);
    assert!(catalog.get("jobs").unwrap().requires_value);
    assert!(catalog.get("job").is_none());
    assert_eq!(catalog.reported(), "bazel 8.7.0");
}

#[test]
fn scopes_are_checked_against_the_whole_catalog() {
    let catalog = FlagCatalog::from_flags(
        "bazel 8.7.0",
        vec![
            Flag { name: "jobs".into(), commands: vec!["build".into(), "test".into()], ..Default::default() },
            Flag { name: "color".into(), commands: vec!["build".into()], ..Default::default() },
            Flag { name: "batch".into(), commands: vec!["startup".into()], ..Default::default() },
        ],
    );
    let jobs = catalog.get("jobs").unwrap();
    let color = catalog.get("color").unwrap();
    let batch = catalog.get("batch").unwrap();
    assert!(catalog.supports_scope(jobs, "common"));
    assert!(!catalog.supports_scope(batch, "common"));
    assert!(catalog.supports_scope(jobs, "always"));
    assert!(!catalog.supports_scope(color, "always"));
    assert!(catalog.supports_scope(color, "build"));
    assert!(!catalog.supports_scope(color, "test"));
    assert!(jobs.supports("test"));
}

#[test]
fn the_payload_is_base64_without_whitespace() {
    assert_eq!(flag_catalog_payload(b"aGVs\nbG8=\n"), Some(b"hello".to_vec()));
    assert_eq!(flag_catalog_payload(b""), Some(Vec::new()));
    assert_eq!(flag_catalog_payload(b"!!!"), None);
}

#[test]
fn a_value_flag_takes_the_next_token() {
    let catalog = FlagCatalog::from_flags(
        "bazel 8.7.0",
        vec![
            Flag { name: "jobs".into(), requires_value: true, ..Default::default() },
            Flag { name: "keep_going".into(), ..Default::default() },
        ],
    );
    let parsed = parse("build --jobs 4 --keep_going --jobs=2 --unknown\n");
    let found = uses(&parsed.lines[0], &catalog);
    assert_eq!(found.len(), 4);
    assert_eq!(found[0].option.text, "--jobs");
    assert_eq!(found[0].value.map(|v| v.text.as_str()), Some("4"));
    assert!(found[1].value.is_none());
    assert!(found[2].value.is_none());
    assert!(found[3].resolved.is_none());
}
