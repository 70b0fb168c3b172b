use bazel_language_server::handlers::semantic::{
    encode, legend, semantic_tokens, Mark, SemanticToken, FUNCTION, NAMESPACE, PARAMETER, STRING,
};
use bazel_language_server::line_index::LineIndex;

const BUILD: &str = "\
load(\"//tools:defs.bzl\", \"thing\")

filegroup(
    name = \"srcs\",
    srcs = [\":other\"],
)
";

fn at(text: &str, needle: &str) -> usize {
    text.find(needle).unwrap()
}

/// What a walk of `BUILD` finds, in tree order.
fn marks() -> Vec<Mark> {
    vec![
        Mark::LoadPath { start: at(BUILD, "//tools"), length: "//tools:defs.bzl".len() },
        Mark::StringLiteral {
            start: at(BUILD, "thing"),
            length: "thing".len(),
            value: "thing".to_string(),
        },
        Mark::Callee { start: at(BUILD, "filegroup"), length: "filegroup".len() },
        Mark::ArgumentName { start: at(BUILD, "name"), length: "name".len() },
        Mark::StringLiteral { start: at(BUILD, "\"srcs\"") + 1, length: 4, value: "srcs".to_string() },
        Mark::ArgumentName { start: at(BUILD, "srcs ="), length: "srcs".len() },
        Mark::StringLiteral { start: at(BUILD, ":other"), length: ":other".len(), value: ":other".to_string() },
    ]
}

fn decode(tokens: &[SemanticToken]) -> Vec<(u32, u32, u32, u32)> {
    let mut out = Vec::new();
    let (mut line, mut start) = (0, 0);
    for token in tokens {
        if token.delta_line == 0 {
            start += token.delta_start;
        } else {
            line += token.delta_line;
            start = token.delta_start;
        }
        out.push((line, start, token.length, token.token_type));
    }
    out
}

fn tokens_of(text: &str, marks: &[Mark]) -> Vec<(String, u32)> {
    let lines = LineIndex::new(text);
    decode(&semantic_tokens(text, &lines, marks))
        .into_iter()
        .map(|(line, start, length, token_type)| {
            let at = lines.offset(text, line, start);
            let end = lines.offset(text, line, start + length);
            (text[at..end].to_string(), token_type)
        })
        .collect()
}

#[test]
fn the_delta_encoding_round_trips() {
    assert_eq!(
        tokens_of(BUILD, &marks()),
        vec![
            ("//tools:defs.bzl".to_string(), NAMESPACE),
            ("filegroup".to_string(), FUNCTION),
            ("name".to_string(), PARAMETER),
            ("srcs".to_string(), PARAMETER),
            (":other".to_string(), STRING),
        ]
    );
}

#[test]
fn a_plain_string_is_not_a_label() {
    let text = "filegroup(name = \"srcs\", out = \"not a label\")\n";
    let found = tokens_of(
        text,
        &[Mark::StringLiteral {
            start: at(text, "not a label"),
            length: "not a label".len(),
            value: "not a label".to_string(),
        }],
    );
    assert!(found.is_empty());
}

#[test]
fn the_legend_covers_every_type_emitted() {
    let highest = tokens_of(BUILD, &marks()).iter().map(|&(_, t)| t).max().unwrap_or(0);
    assert!((highest as usize) < legend().len());
    assert_eq!(legend(), ["function", "parameter", "namespace", "string"]);
}

#[test]
fn a_column_resets_when_the_line_advances() {
    let encoded = encode(&[(0, 4, 2, 1), (0, 10, 3, 0), (2, 1, 1, 3)]);
    let deltas: Vec<(u32, u32)> = encoded.iter().map(|t| (t.delta_line, t.delta_start)).collect();
    assert_eq!(deltas, vec![(0, 4), (0, 6), (2, 1)]);
}

#[test]
fn an_open_build_file_is_coloured_from_its_tree() {
    let document = bazel_language_server::document::Document::versioned(
        "/ws/app/BUILD".to_string(),
        1,
        "load(\"//a:b.bzl\", \"x\")\ncc_library(name = \"lib\", deps = [\":d\"])\n".to_string(),
        Some("/ws"),
    );
    let tokens = bazel_language_server::handlers::semantic::document_semantic_tokens(&document).unwrap();
    let flat: Vec<[u32; 5]> = tokens
        .iter()
        .map(|t| [t.delta_line, t.delta_start, t.length, t.token_type, t.token_modifiers_bitset])
        .collect();
    // The load path, then `cc_library`, `name`, `deps` and the label `:d`;
    // the plain string "lib" is no label.
    assert_eq!(
        flat,
        vec![[0, 6, 9, 2, 0], [1, 0, 10, 0, 0], [0, 11, 4, 1, 0], [0, 14, 4, 1, 0], [0, 9, 2, 3, 0]]
    );
}
