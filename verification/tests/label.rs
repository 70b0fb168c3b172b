use bazel_language_server::label::{is_external, make_variable_labels, parse_label, Label};

fn key(raw: &str, package: Option<&str>) -> Option<String> {
    parse_label(raw, package).map(|label| label.key())
}

#[test]
fn absolute_labels_are_already_keys() {
    assert_eq!(key("//lib:srcs", None).as_deref(), Some("//lib:srcs"));
    assert_eq!(
        key("//lib/sub:sub_srcs", None).as_deref(),
        Some("//lib/sub:sub_srcs")
    );
    assert_eq!(key("//:beacon", None).as_deref(), Some("//:beacon"));
    assert_eq!(
        key("//app:nested/data.txt", None).as_deref(),
        Some("//app:nested/data.txt")
    );
}

#[test]
fn a_package_alone_names_its_last_component() {
    assert_eq!(
        key("//lib/config", None).as_deref(),
        Some("//lib/config:config")
    );
    assert_eq!(key("//lib", None).as_deref(), Some("//lib:lib"));
}

#[test]
fn relative_labels_take_the_enclosing_package() {
    assert_eq!(key(":srcs", Some("lib")).as_deref(), Some("//lib:srcs"));
    assert_eq!(key("srcs", Some("lib")).as_deref(), Some("//lib:srcs"));
    assert_eq!(
        key("main.sh", Some("app/cli")).as_deref(),
        Some("//app/cli:main.sh")
    );
    assert_eq!(key(":beacon", Some("")).as_deref(), Some("//:beacon"));
    assert_eq!(key(":srcs", None), None);
    assert_eq!(key("srcs", None), None);
}

#[test]
fn every_label_ends_with_its_name() {
    for raw in [
        "//lib:srcs",
        "@//lib:srcs",
        "//:srcs",
        ":srcs",
        "srcs",
        "//lib/config",
    ] {
        let label = parse_label(raw, Some("app")).expect(raw);
        assert_eq!(&raw[label.name_offset(raw)..], label.name, "in {raw}");
    }
}

#[test]
fn the_main_repository_may_be_named_explicitly() {
    assert_eq!(key("@//lib:srcs", None).as_deref(), Some("//lib:srcs"));
    assert_eq!(key("@@//lib:srcs", None).as_deref(), Some("//lib:srcs"));
}

#[test]
fn external_repositories_are_refused() {
    assert_eq!(key("@platforms//os:linux", Some("lib")), None);
    assert_eq!(
        key("@bazel_skylib//rules:write_file.bzl", Some("lib")),
        None
    );
    assert_eq!(key("@@rules_go+//go:def.bzl", Some("lib")), None);
    assert_eq!(key("@sh//:__subpackages__", Some("lib")), None);
}

#[test]
fn target_patterns_are_not_labels() {
    assert_eq!(key("//lib:all", None), None);
    assert_eq!(key("//lib:*", None), None);
    assert_eq!(key("//lib:all-targets", None), None);
    assert_eq!(key("//...", None), None);
    assert_eq!(key("//lib/...", None), None);
    assert_eq!(key("...", Some("lib")), None);
    assert_eq!(key(":all", Some("lib")), None);
}

#[test]
fn strings_that_are_not_labels_resolve_to_nothing() {
    assert_eq!(key("", Some("lib")), None);
    assert_eq!(key(":", Some("lib")), None);
    assert_eq!(key("//", None), None);
    assert_eq!(key("//lib:", None), None);
    assert_eq!(key("///lib:srcs", None), None);
    assert_eq!(key("hello world", Some("lib")), None);
    assert_eq!(key("cat $(location :srcs) > $@", Some("lib")), None);
    assert_eq!(key("lib:srcs", Some("app")), None);
}

#[test]
fn a_label_knows_its_workspace_path() {
    assert_eq!(Label::new("lib", "srcs").path(), "lib/srcs");
    assert_eq!(Label::new("", "beacon").path(), "beacon");
    assert_eq!(Label::new("", "beacon").key(), "//:beacon");
}

#[test]
fn only_a_repository_marker_makes_a_label_external() {
    assert!(is_external("@platforms//os:linux"));
    assert!(is_external("@@rules_go+//go:def.bzl"));
    assert!(!is_external("@//lib:srcs"));
    assert!(!is_external("@@//lib:srcs"));
    assert!(!is_external("//lib:srcs"));
}

#[test]
fn make_variables_name_labels_with_their_offsets() {
    let found = make_variable_labels("cat $(location :srcs) > $(execpath //lib:x) $(FOO)");
    assert_eq!(
        found,
        vec![(":srcs".to_string(), 15), ("//lib:x".to_string(), 35)]
    );
}

#[test]
fn labels_hide_inside_make_variables() {
    let found = |text: &str| make_variable_labels(text);

    let text = "cat $(location :srcs) > $@";
    assert_eq!(found(text), vec![(":srcs".to_string(), 15)]);
    assert_eq!(&text[15..15 + 5], ":srcs");

    assert_eq!(
        found("$(rootpath //app:bin) $(locations :data)"),
        vec![("//app:bin".to_string(), 11), (":data".to_string(), 34)]
    );
    // Padding shifts the offset; the label still has to be sliceable.
    let padded = "$(location   :srcs )";
    let (label, offset) = found(padded).pop().expect("a label");
    assert_eq!(&padded[offset..offset + label.len()], ":srcs");

    // `$(BINDIR)` and friends take no label, and neither does bare `$@`.
    assert!(found("$(BINDIR)/out $@ $$(cat x)").is_empty());
}

#[test]
fn a_key_parses_back_to_its_label() {
    for (package, name) in [("lib", "srcs"), ("", "root_target"), ("a/b", "dir/file.txt")] {
        let label = Label::new(package, name);
        let written = label.key();
        assert_eq!(written, format!("//{package}:{name}"));
        for at in [None, Some("other"), Some(package)] {
            let parsed = parse_label(&written, at).unwrap();
            assert_eq!((parsed.package.as_str(), parsed.name.as_str()), (package, name));
        }
    }
}

#[test]
fn a_name_is_the_byte_tail_of_its_label() {
    for raw in ["//lib:srcs", "@//lib:srcs", "//:srcs", ":srcs", "srcs", "//lib/config", "//pkg:naïve"] {
        let label = parse_label(raw, Some("app")).unwrap();
        let at = label.name_offset(raw);
        assert_eq!(at, raw.len() - label.name.len());
        assert_eq!(&raw[at..], label.name.as_str());
    }
}

#[test]
fn expansion_labels_are_trimmed_and_their_offsets_rise() {
    let text = "$(location   //a:b  ) $(location $(execpath :c))";
    let found = make_variable_labels(text);
    assert_eq!(
        found,
        vec![
            ("//a:b".to_string(), 13),
            ("$(execpath :c".to_string(), 33),
            (":c".to_string(), 44),
        ]
    );
    for (label, at) in &found {
        assert_eq!(&text[*at..*at + label.len()], label.as_str());
    }
    assert!(found.windows(2).all(|pair| pair[0].1 < pair[1].1));
}
