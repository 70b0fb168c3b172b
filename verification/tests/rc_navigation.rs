use bazel_language_server::bazelrc::index::{
    resolve_import, ConfigSite, ConfigurationFile, ConfigurationSnapshot, ImportSite,
};
use bazel_language_server::bazelrc::navigation::{
    config_reference_at, definitions, document_links, import_tokens, imported,
};
use bazel_language_server::bazelrc::syntax::{parse, Span};
use bazel_language_server::document::{Document, Documents};
use bazel_language_server::uri::file_uri_text;

fn rc(path: &str, text: &str) -> Document {
    Document::versioned(path.to_string(), 1, text.to_string(), Some("/ws"))
}

#[test]
fn an_inactive_exact_import_does_not_borrow_an_active_target() {
    let text = "try-import-if-bazel-version <8.7.0 imported.bazelrc\n";
    let document = rc("/ws/.bazelrc", text);
    let parsed = document.bazelrc().unwrap();
    let tokens = import_tokens(&parsed.lines);
    let token = tokens[0];
    let target = resolve_import("/ws", &token.text);
    let mut configuration = ConfigurationSnapshot::empty();
    configuration.imports = vec![
        ImportSite {
            file: "/ws/.bazelrc".to_string(),
            range: token.range,
            target: target.clone(),
            loaded: None,
            active: false,
        },
        ImportSite {
            file: "/ws/other.bazelrc".to_string(),
            range: Span::new(0, 1),
            target,
            loaded: Some("/ws/imported.bazelrc".to_string()),
            active: true,
        },
    ];
    assert!(imported(&configuration, document.path(), "/ws", token).is_none());
}

#[test]
fn an_import_the_graph_never_reached_borrows_an_active_one() {
    let document = rc("/ws/.bazelrc", "import %workspace%/shared.bazelrc\n");
    let token = import_tokens(&document.bazelrc().unwrap().lines)[0];
    let mut configuration = ConfigurationSnapshot::empty();
    configuration.imports = vec![ImportSite {
        file: "/ws/other.bazelrc".to_string(),
        range: Span::new(0, 1),
        target: "/ws/shared.bazelrc".to_string(),
        loaded: Some("/ws/shared.bazelrc".to_string()),
        active: true,
    }];
    assert_eq!(
        imported(&configuration, document.path(), "/ws", token).as_deref(),
        Some("/ws/shared.bazelrc")
    );
    let links = document_links(&document, &configuration, Some("/ws"));
    assert_eq!(links.len(), 1);
    assert_eq!(links[0].target_uri, "file:///ws/shared.bazelrc");
    assert_eq!(links[0].tooltip, "/ws/shared.bazelrc");
    assert_eq!(links[0].range, ((0, 7), (0, 33)));
    assert!(document_links(&document, &configuration, None).is_empty());

    let at_path = definitions(&document, &Documents::new(Some("/ws".to_string())), &configuration, Some("/ws"), 0, 10);
    assert_eq!(at_path.len(), 1);
    assert_eq!(at_path[0].target, ((0, 0), (0, 0)));
}

#[test]
fn a_reference_is_found_under_the_cursor_with_its_section() {
    let parsed = parse("build --config=dev\nquery --config dev\n");
    let (command, name, span) = config_reference_at(&parsed.lines, 16).unwrap();
    assert_eq!((command.as_str(), name.as_str()), ("build", "dev"));
    assert_eq!((span.start, span.end), (15, 18));
    let (command, name, _) = config_reference_at(&parsed.lines, 35).unwrap();
    assert_eq!((command.as_str(), name.as_str()), ("query", "dev"));
    assert!(config_reference_at(&parsed.lines, 2).is_none());
}

#[test]
fn a_configuration_leads_to_open_and_saved_declarations_sorted_and_once() {
    let text = "build --config=dev\n";
    let document = rc("/ws/.bazelrc", text);
    let mut documents = Documents::new(Some("/ws".to_string()));
    documents.set(
        "file:///ws/open.bazelrc".to_string(),
        "/ws/open.bazelrc".to_string(),
        1,
        "build:dev --jobs=2\nquery:dev --x\n".to_string(),
    );
    let saved = "common:dev --y\n";
    let mut configuration = ConfigurationSnapshot::empty();
    configuration.files.push(ConfigurationFile {
        path: "/ws/a.bazelrc".to_string(),
        text: saved.to_string(),
        parsed: parse(saved),
    });
    configuration.declarations.push(ConfigSite {
        name: "dev".to_string(),
        command: "common".to_string(),
        file: "/ws/a.bazelrc".to_string(),
        range: Span::new(7, 10),
        line: Span::new(0, 14),
        owner: None,
    });
    configuration.declarations.push(ConfigSite {
        name: "dev".to_string(),
        command: "build".to_string(),
        file: "/ws/open.bazelrc".to_string(),
        range: Span::new(6, 9),
        line: Span::new(0, 18),
        owner: None,
    });
    let links = definitions(&document, &documents, &configuration, Some("/ws"), 0, 16);
    let targets: Vec<(&str, ((u32, u32), (u32, u32)))> =
        links.iter().map(|l| (l.target_uri.as_str(), l.target)).collect();
    assert_eq!(
        targets,
        vec![
            ("file:///ws/a.bazelrc", ((0, 7), (0, 10))),
            ("file:///ws/open.bazelrc", ((0, 0), (0, 9))),
        ]
    );
    assert!(links.iter().all(|l| l.origin == ((0, 15), (0, 18))));
}

#[test]
fn paths_become_percent_encoded_file_uris() {
    assert_eq!(file_uri_text("/ws/a b/ü.bazelrc"), "file:///ws/a%20b/%C3%BC.bazelrc");
    assert_eq!(file_uri_text("/ws/x-y_z~1:2@3.rc"), "file:///ws/x-y_z~1:2@3.rc");
}
