use bazel_language_server::bazelrc::structural::{
    folding_ranges, selection_ranges, semantic_tokens, Fold, COMMENT, KEYWORD, NAMESPACE, OPERATOR,
    PROPERTY,
};
use bazel_language_server::document::Document;

fn rc(text: &str) -> Document {
    Document::versioned("/ws/.bazelrc".to_string(), 1, text.to_string(), Some("/ws"))
}

fn absolute(document: &Document) -> Vec<(u32, u32, u32, u32)> {
    let mut out = Vec::new();
    let (mut line, mut start) = (0, 0);
    for token in semantic_tokens(document) {
        if token.delta_line == 0 {
            start += token.delta_start;
        } else {
            line += token.delta_line;
            start = token.delta_start;
        }
        out.push((line, start, token.length, token.token_type));
    }
    out
}

#[test]
fn entries_directives_and_comments_are_coloured() {
    let document = rc("build --jobs=4 # fast\ntry-import-if-bazel-version >=8.0.0 user.bazelrc\nimport a.bazelrc\n");
    assert_eq!(
        absolute(&document),
        vec![
            (0, 0, 5, KEYWORD),
            (0, 6, 8, PROPERTY),
            (0, 15, 6, COMMENT),
            (1, 0, 27, KEYWORD),
            (1, 28, 7, OPERATOR),
            (1, 36, 12, NAMESPACE),
            (2, 0, 6, KEYWORD),
            (2, 7, 9, NAMESPACE),
        ]
    );
}

#[test]
fn a_token_joined_across_lines_is_coloured_on_each() {
    let document = rc("build --define=x=\\\ny\n");
    let found = absolute(&document);
    assert_eq!(found[0], (0, 0, 5, KEYWORD));
    assert_eq!(found[1], (0, 6, 12, PROPERTY));
    assert_eq!(found[2], (1, 0, 1, PROPERTY));
}

#[test]
fn continued_lines_and_comment_runs_fold() {
    let document = rc("# one\n# two\nbuild --a \\\n  --b\n# three\n");
    assert_eq!(
        folding_ranges(&document),
        vec![
            Fold { start_line: 0, end_line: 1, comment: true },
            Fold { start_line: 2, end_line: 3, comment: false },
        ]
    );
}

#[test]
fn a_selection_grows_from_token_to_line_to_file() {
    let document = rc("build --jobs=4\nquery --x\n");
    let ranges = selection_ranges(&document, &[(0, 8), (1, 100)]);
    assert_eq!(ranges.len(), 2);
    assert_eq!(ranges[0].len(), 3);
    assert_eq!(ranges[0][0], ((0, 6), (0, 14)));
    assert_eq!(ranges[0][1].0, (0, 0));
    assert_eq!(ranges[0][2], ((0, 0), (2, 0)));
    assert_eq!(ranges[1][0], ((1, 6), (1, 9)));
    assert_eq!(*ranges[1].last().unwrap(), ((0, 0), (2, 0)));
}
