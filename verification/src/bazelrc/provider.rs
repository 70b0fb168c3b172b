//! Which answer an rc buffer gets for each request, and the findings
//! published for it.

use vstd::prelude::*;
use vstd::utf8::encode_utf8;
use super::index::{ConfigurationFile, ConfigurationSnapshot, Problem, ProblemSeverity};
use super::syntax::Error;
use crate::document::Document;
use crate::line_index::text_position;
use crate::text::str_eq;

verus! {

/// What a request on an rc buffer is answered with.
#[derive(Debug, Clone, Copy, PartialEq, Eq)]
pub enum Route {
    Completion,
    Definition,
    Hover,
    FoldingRange,
    SelectionRange,
    DocumentLink,
    SemanticTokens,
    /// A request rc files have nothing for, answered with an empty list.
    EmptyList,
    /// Any other request, answered with `null`.
    Null,
}

/// The route each request method takes.
pub open spec fn spec_route(method: Seq<char>) -> Route {
    if method == "textDocument/completion"@ {
        Route::Completion
    } else if method == "textDocument/definition"@ {
        Route::Definition
    } else if method == "textDocument/hover"@ {
        Route::Hover
    } else if method == "textDocument/foldingRange"@ {
        Route::FoldingRange
    } else if method == "textDocument/selectionRange"@ {
        Route::SelectionRange
    } else if method == "textDocument/documentLink"@ {
        Route::DocumentLink
    } else if method == "textDocument/semanticTokens/full"@ {
        Route::SemanticTokens
    } else if method == "textDocument/documentSymbol"@ || method == "textDocument/references"@
        || method == "textDocument/documentHighlight"@ || method == "textDocument/formatting"@
        || method == "textDocument/implementation"@ || method == "textDocument/codeLens"@
        || method == "textDocument/inlayHint"@ {
        Route::EmptyList
    } else {
        Route::Null
    }
}

/// The route a request method takes. Formatting in particular is answered
/// with no edits: an rc file is never handed to a BUILD formatter.
pub fn route(method: &str) -> (r: Route)
    ensures
        r == spec_route(method@),
{
    if str_eq(method, "textDocument/completion") {
        Route::Completion
    } else if str_eq(method, "textDocument/definition") {
        Route::Definition
    } else if str_eq(method, "textDocument/hover") {
        Route::Hover
    } else if str_eq(method, "textDocument/foldingRange") {
        Route::FoldingRange
    } else if str_eq(method, "textDocument/selectionRange") {
        Route::SelectionRange
    } else if str_eq(method, "textDocument/documentLink") {
        Route::DocumentLink
    } else if str_eq(method, "textDocument/semanticTokens/full") {
        Route::SemanticTokens
    } else if str_eq(method, "textDocument/documentSymbol") || str_eq(method, "textDocument/references")
        || str_eq(method, "textDocument/documentHighlight") || str_eq(method, "textDocument/formatting")
        || str_eq(method, "textDocument/implementation") || str_eq(method, "textDocument/codeLens")
        || str_eq(method, "textDocument/inlayHint") {
        Route::EmptyList
    } else {
        Route::Null
    }
}

/// One finding in an rc buffer, placed by zero-based line and UTF-16
/// column.
#[derive(Debug, PartialEq, Eq)]
pub struct RcDiagnostic {
    pub start: (u32, u32),
    pub end: (u32, u32),
    pub severity: ProblemSeverity,
    pub message: String,
}

/// A finding as its ends, severity and message.
pub type DiagnosticView = ((u32, u32), (u32, u32), ProblemSeverity, Seq<char>);

pub open spec fn diagnostic_view(d: RcDiagnostic) -> DiagnosticView {
    (d.start, d.end, d.severity, d.message@)
}

/// The syntax errors of a buffer whose bytes are `bs`, as errors.
pub open spec fn error_diagnostics(bs: Seq<u8>, errors: Seq<Error>) -> Seq<DiagnosticView> {
    errors.map_values(
        |e: Error|
            (
                text_position(bs, e.range.start as int),
                text_position(bs, e.range.end as int),
                ProblemSeverity::Error,
                e.message@,
            ),
    )
}

/// The import-graph problems found in the file at `path`, in graph order.
pub open spec fn problem_diagnostics(bs: Seq<u8>, problems: Seq<Problem>, path: Seq<char>) -> Seq<DiagnosticView>
    decreases problems.len(),
{
    if problems.len() == 0 {
        Seq::empty()
    } else {
        let rest = problem_diagnostics(bs, problems.drop_last(), path);
        let p = problems.last();
        if p.file@ == path {
            rest.push((text_position(bs, p.range.start as int), text_position(bs, p.range.end as int), p.severity, p.message@))
        } else {
            rest
        }
    }
}

/// The text the configuration read for `path`: the first file of that
/// path.
pub open spec fn saved_text(files: Seq<ConfigurationFile>, path: Seq<char>) -> Option<Seq<char>>
    decreases files.len(),
{
    if files.len() == 0 {
        None
    } else if files[0].path@ == path {
        Some(files[0].text@)
    } else {
        saved_text(files.drop_first(), path)
    }
}

/// What is published for a buffer: its syntax errors, then, where the
/// buffer is what was last read from disk, the graph's problems in it.
/// Problems found in older text would sit on the wrong lines, so a buffer
/// with unsaved edits shows its syntax errors alone. A buffer that is no rc
/// file shows nothing here.
pub open spec fn spec_diagnostics(
    rc: bool,
    text: Seq<char>,
    path: Seq<char>,
    errors: Seq<Error>,
    files: Seq<ConfigurationFile>,
    problems: Seq<Problem>,
) -> Seq<DiagnosticView> {
    if !rc {
        Seq::empty()
    } else {
        let bs = encode_utf8(text);
        error_diagnostics(bs, errors) + (if saved_text(files, path) == Some(text) {
            problem_diagnostics(bs, problems, path)
        } else {
            Seq::empty()
        })
    }
}

/// Whether the configuration read `path` with exactly `text`.
fn saved_is_current(files: &[ConfigurationFile], path: &str, text: &str) -> (b: bool)
    ensures
        b == (saved_text(files@, path@) == Some(text@)),
{
    let mut i: usize = 0;
    assert(files@.skip(0) =~= files@);
    while i < files.len()
        invariant
            i <= files@.len(),
            saved_text(files@, path@) == saved_text(files@.skip(i as int), path@),
        decreases files.len() - i,
    {
        assert(files@.skip(i as int).drop_first() =~= files@.skip(i + 1));
        if str_eq(files[i].path.as_str(), path) {
            return str_eq(files[i].text.as_str(), text);
        }
        i = i + 1;
    }
    false
}

/// Structural and import-graph findings in one current rc buffer.
pub fn diagnostics(document: &Document, configuration: &ConfigurationSnapshot) -> (found: Vec<RcDiagnostic>)
    requires
        encode_utf8(document.text_view()).len() <= isize::MAX,
    ensures
        found@.map_values(|d: RcDiagnostic| diagnostic_view(d)) == spec_diagnostics(
            document.rc(),
            document.text_view(),
            document.path_view(),
            document.rc_parse().errors@,
            configuration.files@,
            configuration.problems@,
        ),
{
    let parsed = match document.bazelrc() {
        Some(parsed) => parsed,
        None => {
            let found: Vec<RcDiagnostic> = Vec::new();
            assert(found@.map_values(|d: RcDiagnostic| diagnostic_view(d)) =~= Seq::<DiagnosticView>::empty());
            return found;
        },
    };
    let ghost bs = encode_utf8(document.text_view());
    let ghost errors = parsed.errors@;
    let mut found: Vec<RcDiagnostic> = Vec::new();
    let mut i: usize = 0;
    while i < parsed.errors.len()
        invariant
            i <= errors.len(),
            errors == parsed.errors@,
            bs == encode_utf8(document.text_view()),
            bs.len() <= isize::MAX,
            found@.map_values(|d: RcDiagnostic| diagnostic_view(d)) == error_diagnostics(bs, errors.take(i as int)),
        decreases parsed.errors.len() - i,
    {
        let error = &parsed.errors[i];
        let d = RcDiagnostic {
            start: document.position(error.range.start),
            end: document.position(error.range.end),
            severity: ProblemSeverity::Error,
            message: error.message.clone(),
        };
        assert(d.message@ == errors[i as int].message@);
        assert(d.start == text_position(bs, errors[i as int].range.start as int));
        assert(diagnostic_view(d) == error_diagnostics(bs, errors.take(i + 1))[i as int]);
        let ghost old_map = found@.map_values(|d: RcDiagnostic| diagnostic_view(d));
        let ghost v = diagnostic_view(d);
        found.push(d);
        proof {
            assert(found@.map_values(|d: RcDiagnostic| diagnostic_view(d)) =~= old_map.push(v));
            assert(error_diagnostics(bs, errors.take(i + 1)) =~= error_diagnostics(bs, errors.take(i as int)).push(v));
            assert(errors.take(i + 1) =~= errors.take(i as int).push(errors[i as int]));
            assert(found@.map_values(|d: RcDiagnostic| diagnostic_view(d)) =~= error_diagnostics(bs, errors.take(i + 1)));
        }
        i = i + 1;
    }
    assert(errors.take(errors.len() as int) =~= errors);
    let ghost before = found@.map_values(|d: RcDiagnostic| diagnostic_view(d));
    if saved_is_current(configuration.files.as_slice(), document.path(), document.text()) {
        let ghost problems = configuration.problems@;
        let ghost path = document.path_view();
        let mut k: usize = 0;
        while k < configuration.problems.len()
            invariant
                k <= problems.len(),
                problems == configuration.problems@,
                path == document.path_view(),
                bs == encode_utf8(document.text_view()),
                bs.len() <= isize::MAX,
                found@.map_values(|d: RcDiagnostic| diagnostic_view(d)) == before + problem_diagnostics(bs, problems.take(k as int), path),
            decreases configuration.problems.len() - k,
        {
            let problem = &configuration.problems[k];
            assert(problems.take(k + 1).drop_last() =~= problems.take(k as int));
            if str_eq(problem.file.as_str(), document.path()) {
                let d = RcDiagnostic {
                    start: document.position(problem.range.start),
                    end: document.position(problem.range.end),
                    severity: problem.severity,
                    message: problem.message.clone(),
                };
                let ghost old_map = found@.map_values(|d: RcDiagnostic| diagnostic_view(d));
                let ghost v = diagnostic_view(d);
                found.push(d);
                assert(found@.map_values(|d: RcDiagnostic| diagnostic_view(d)) =~= old_map.push(v));
                assert(problem_diagnostics(bs, problems.take(k + 1), path) == problem_diagnostics(bs, problems.take(k as int), path).push(v));
                assert(found@.map_values(|d: RcDiagnostic| diagnostic_view(d)) =~= before + problem_diagnostics(bs, problems.take(k + 1), path));
            }
            k = k + 1;
        }
        assert(problems.take(problems.len() as int) =~= problems);
    } else {
        assert(before + Seq::<DiagnosticView>::empty() =~= before);
    }
    found
}

} // verus!
