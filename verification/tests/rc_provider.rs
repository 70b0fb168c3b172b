use bazel_language_server::bazelrc::index::{ConfigurationFile, ConfigurationSnapshot, Problem, ProblemSeverity};
use bazel_language_server::bazelrc::provider::{diagnostics, route, Route};
use bazel_language_server::bazelrc::syntax::{parse, Span};
use bazel_language_server::document::Document;

fn rc(text: &str) -> Document {
    Document::versioned("/ws/.bazelrc".to_string(), 1, text.to_string(), Some("/ws"))
}

#[test]
fn formatting_never_reaches_buildifier() {
    assert_eq!(route("textDocument/formatting"), Route::EmptyList);
    assert_eq!(route("textDocument/hover"), Route::Hover);
    assert_eq!(route("textDocument/semanticTokens/full"), Route::SemanticTokens);
    assert_eq!(route("textDocument/codeLens"), Route::EmptyList);
    assert_eq!(route("workspace/symbol"), Route::Null);
}

#[test]
fn malformed_directives_use_bazelrc_diagnostics() {
    let document = rc("import one two\n");
    let found = diagnostics(&document, &ConfigurationSnapshot::empty());
    assert_eq!(found.len(), 1);
    assert!(found[0].message.contains("expects 1 argument"));
    assert_eq!(found[0].severity, ProblemSeverity::Error);
}

fn snapshot(saved: &str) -> ConfigurationSnapshot {
    let mut configuration = ConfigurationSnapshot::empty();
    configuration.files.push(ConfigurationFile {
        path: "/ws/.bazelrc".to_string(),
        text: saved.to_string(),
        parsed: parse(saved),
    });
    configuration.problems.push(Problem {
        file: "/ws/.bazelrc".to_string(),
        range: Span::new(0, 6),
        severity: ProblemSeverity::Warning,
        message: "imported file is missing".to_string(),
    });
    configuration.problems.push(Problem {
        file: "/ws/other.bazelrc".to_string(),
        range: Span::new(0, 1),
        severity: ProblemSeverity::Error,
        message: "elsewhere".to_string(),
    });
    configuration
}

#[test]
fn graph_problems_show_only_while_the_buffer_matches_the_disk() {
    let text = "import %workspace%/missing.bazelrc\n";
    let found = diagnostics(&rc(text), &snapshot(text));
    assert_eq!(found.len(), 1);
    assert_eq!(found[0].message, "imported file is missing");
    assert_eq!(found[0].severity, ProblemSeverity::Warning);
    assert_eq!((found[0].start, found[0].end), ((0, 0), (0, 6)));

    let edited = diagnostics(&rc("import %workspace%/other.bazelrc\n"), &snapshot(text));
    assert!(edited.is_empty());
}

#[test]
fn a_starlark_buffer_gets_no_rc_findings() {
    let document = Document::versioned("/ws/BUILD".to_string(), 1, "x(\n".to_string(), Some("/ws"));
    assert!(diagnostics(&document, &ConfigurationSnapshot::empty()).is_empty());
}
