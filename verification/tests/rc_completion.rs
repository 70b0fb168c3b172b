use bazel_language_server::bazelrc::catalog::{Flag, FlagCatalog};
use bazel_language_server::bazelrc::completion::{command_items, completions, Item, ItemKind};
use bazel_language_server::bazelrc::index::ConfigurationSnapshot;
use bazel_language_server::bazelrc::view::{open_buffers, ConfigurationView};
use bazel_language_server::document::Documents;

fn flag(name: &str, commands: &[&str]) -> Flag {
    Flag {
        name: name.into(),
        commands: commands.iter().map(|command| (*command).into()).collect(),
        ..Default::default()
    }
}

fn complete_items(text: &str, catalog: &FlagCatalog) -> Vec<Item> {
    let mut documents = Documents::new(Some("/ws".to_string()));
    let uri = "file:///ws/.bazelrc";
    documents.set(uri.to_string(), "/ws/.bazelrc".to_string(), 1, text.to_owned());
    let document = documents.get(uri).unwrap();
    let configuration = ConfigurationSnapshot::empty();
    let open = open_buffers(&documents);
    let view = ConfigurationView::new(&configuration, &open);
    let (line, character) = document.position(text.len());
    completions(document, &view, Some(catalog), line, character)
}

fn complete(text: &str, catalog: &FlagCatalog) -> Vec<String> {
    complete_items(text, catalog).into_iter().map(|item| item.label).collect()
}

#[test]
fn command_scope_controls_native_flags_and_negative_spellings() {
    let mut test = flag("test_output", &["test"]);
    test.has_negative_flag = true;
    let catalog = FlagCatalog::from_flags("bazel 8.7.0", vec![flag("jobs", &["build", "test"]), test]);
    let labels = complete("build ", &catalog);
    assert!(labels.contains(&"--jobs".to_owned()));
    assert!(!labels.contains(&"--test_output".to_owned()));
    let labels = complete("test ", &catalog);
    assert!(labels.contains(&"--test_output".to_owned()));
    assert!(labels.contains(&"--notest_output".to_owned()));
}

#[test]
fn always_is_the_intersection_and_common_is_the_union() {
    let catalog = FlagCatalog::from_flags(
        "bazel 8.7.0",
        vec![flag("shared", &["build", "test"]), flag("test_only", &["test"])],
    );
    assert_eq!(complete("always ", &catalog), vec!["--shared"]);
    assert_eq!(complete("common ", &catalog), vec!["--shared", "--test_only"]);
}

#[test]
fn values_and_build_settings_do_not_offer_native_flags() {
    let mut jobs = flag("jobs", &["build"]);
    jobs.requires_value = true;
    let catalog = FlagCatalog::from_flags("bazel 8.7.0", vec![jobs]);
    assert!(complete("build --jobs=", &catalog).is_empty());
    assert!(complete("build --//settings:mode=", &catalog).is_empty());
}

#[test]
fn config_completion_uses_only_effective_declarations() {
    let catalog = FlagCatalog::from_flags("bazel 8.7.0", Vec::new());
    let labels = complete(
        "build:empty\nstartup:dev --host_jvm_args=-Xmx1g\n\
         future:dev --x\nbuild:present --define=x=1\nbuild --config=",
        &catalog,
    );
    assert_eq!(labels, vec!["present"]);
    assert!(complete("startup --config=", &catalog).is_empty());
    assert!(complete("build:outer --config ", &catalog).is_empty());
}

#[test]
fn a_line_start_offers_sections_and_directives() {
    let catalog = FlagCatalog::from_flags("bazel 8.7.0", Vec::new());
    let items = complete_items("bui", &catalog);
    assert_eq!(items, command_items());
    assert_eq!(items.len(), 29);
    assert!(items.iter().all(|item| item.kind == ItemKind::Keyword));
    assert_eq!(items[0].label, "always");
    assert_eq!(items[0].detail, "Bazel 8.7 rc scope");
    assert_eq!(items[5].detail, "Bazel 8.7 command");
    assert_eq!(items[28].label, "try-import-if-bazel-version");
}

#[test]
fn a_flag_item_carries_its_type_and_inserts_its_equals() {
    let mut jobs = flag("jobs", &["build"]);
    jobs.requires_value = true;
    jobs.type_converter = Some("int".into());
    jobs.abbreviation = Some("j".into());
    let catalog = FlagCatalog::from_flags("bazel 8.7.0", vec![jobs]);
    let items = complete_items("build ", &catalog);
    let labels: Vec<&str> = items.iter().map(|item| item.label.as_str()).collect();
    assert_eq!(labels, vec!["--jobs", "-j"]);
    assert_eq!(items[0].detail, "Bazel 8.7 flag · int");
    assert_eq!(items[0].insert_text.as_deref(), Some("--jobs="));
    assert_eq!(items[1].insert_text, None);
    assert!(complete("build # comment", &catalog).is_empty());
}
