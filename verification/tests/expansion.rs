use bazel_language_server::bazelrc::expansion::{decimal_string, findings, Finding, Severity};
use bazel_language_server::bazelrc::index::ConfigurationSnapshot;
use bazel_language_server::bazelrc::syntax::parse;
use bazel_language_server::bazelrc::view::{ConfigurationView, OpenBuffer};

fn analyze(text: &str) -> Vec<Finding> {
    let mut snapshot = ConfigurationSnapshot::empty();
    snapshot.root = Some("/ws".to_string());
    let parsed = parse(text);
    let open = [OpenBuffer { path: "/ws/.bazelrc", bazelrc: Some(&parsed) }];
    findings(&ConfigurationView::new(&snapshot, &open))
}

#[test]
fn cycles_are_branch_local_and_repetition_is_not_a_cycle() {
    let found = analyze(
        "build:a --config=b\nbuild:b --config=a\n\
         build:reuse --config=leaf\nbuild:leaf --jobs=1\n\
         build:left --config=reuse\nbuild:right --config=reuse\n\
         build --config=left --config=right\n",
    );
    assert_eq!(
        found
            .iter()
            .filter(|finding| finding.severity == Severity::Error)
            .count(),
        2
    );
    assert_eq!(
        found
            .iter()
            .filter(|finding| finding.message.contains("more than once"))
            .count(),
        2
    );
}

#[test]
fn ten_configs_is_the_deep_chain_boundary() {
    let mut text = String::new();
    for number in 0..9 {
        text.push_str(&format!("build:c{number} --config=c{}\n", number + 1));
    }
    text.push_str("build:c9 --jobs=1\nbuild --config=c0\n");
    let found = analyze(&text);
    let deep = found
        .iter()
        .find(|finding| finding.message.contains("10 configs"))
        .expect("deep-chain warning");
    assert_eq!(deep.site.name, "c9");
}

#[test]
fn nine_configs_draw_no_warning() {
    let mut text = String::new();
    for number in 0..8 {
        text.push_str(&format!("build:c{number} --config=c{}\n", number + 1));
    }
    text.push_str("build:c8 --jobs=1\nbuild --config=c0\n");
    assert!(analyze(&text).is_empty());
}

#[test]
fn a_cycle_names_its_chain() {
    let found = analyze("build:a --config=b\nbuild:b --config=a\n");
    assert_eq!(found.len(), 2);
    assert_eq!(found[0].message, "configuration expansion cycle: `a` → `b` → `a`");
    assert_eq!(found[1].message, "configuration expansion cycle: `b` → `a` → `b`");
    assert!(found[0].site.range.start < found[1].site.range.start);
}

#[test]
fn nothing_is_found_before_the_graph_is_ready() {
    let snapshot = ConfigurationSnapshot::empty();
    let parsed = parse("build:a --config=a\n");
    let open = [OpenBuffer { path: "/ws/.bazelrc", bazelrc: Some(&parsed) }];
    assert!(findings(&ConfigurationView::new(&snapshot, &open)).is_empty());
}

#[test]
fn decimal_strings_have_no_leading_zeros() {
    assert_eq!(decimal_string(0), vec!['0']);
    assert_eq!(decimal_string(10), vec!['1', '0']);
    assert_eq!(decimal_string(407), vec!['4', '0', '7']);
}

#[test]
fn findings_come_once_each_in_position_order() {
    let found = analyze(
        "build:a --config=b\nbuild:b --config=a\n\
         build:reuse --jobs=1\n\
         build:left --config=reuse\nbuild:right --config=reuse\n\
         build --config=left --config=right\n\
         test --config=left --config=right\n",
    );
    assert!(!found.is_empty());
    for pair in found.windows(2) {
        let (first, second) = (&pair[0], &pair[1]);
        assert!(
            first.site.range.start < second.site.range.start
                || (first.site.range.start == second.site.range.start && first.message <= second.message)
        );
        assert!(first.site.range != second.site.range || first.message != second.message);
    }
}
