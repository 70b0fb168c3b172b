use bazel_language_server::handlers::cursor::{Place, StringSite};
use bazel_language_server::handlers::semantic::Mark;
use bazel_language_server::collect::BuildCall;
use bazel_language_server::handlers::implementation::{FunctionDef, RuleCall};
use bazel_language_server::handlers::symbols::TopLevelCall;
use bazel_language_server::syntax_tree::{
    build_calls, comment_offsets, foldable_regions, function_defs, node_ranges, rule_calls, syntax_marks,
    syntax_string_sites, top_level_calls,
};
use starlark_cst::ast::{Arg, AstNode, CallExpr, Expr, File, LiteralExpr, LoadItem, LoadStmt, Stmt};
use starlark_cst::{Dialect, SyntaxElement, SyntaxKind};

/// The marks as the parser's own accessors find them, walking the tree.
fn marks_by_accessors(parsed: &starlark_cst::Parse) -> Vec<Mark> {
    let mut found = Vec::new();
    for node in parsed.syntax().descendants() {
        if let Some(load) = LoadStmt::cast(node.clone()) {
            if let Some(range) = load.module().and_then(|module| module.value_range()) {
                found.push(Mark::LoadPath { start: range.start().into(), length: range.len().into() });
            }
            continue;
        }
        if let Some(call) = CallExpr::cast(node.clone()) {
            if let Some(callee) = call.syntax().children().find(|child| child.kind() == SyntaxKind::IDENT_EXPR) {
                let range = callee.text_range();
                found.push(Mark::Callee { start: range.start().into(), length: range.len().into() });
            }
            continue;
        }
        if let Some(arg) = Arg::cast(node.clone()) {
            if arg.name().is_some() {
                let ident = arg
                    .syntax()
                    .children_with_tokens()
                    .filter_map(starlark_cst::SyntaxElement::into_token)
                    .find(|token| token.kind() == SyntaxKind::IDENT);
                if let Some(ident) = ident {
                    let range = ident.text_range();
                    found.push(Mark::ArgumentName { start: range.start().into(), length: range.len().into() });
                }
            }
            continue;
        }
        if let Some(literal) = LiteralExpr::cast(node.clone()) {
            if let (Some(range), Some(value)) = (literal.string_value_range(), literal.string_value()) {
                found.push(Mark::StringLiteral { start: range.start().into(), length: range.len().into(), value });
            }
        }
    }
    found
}

const BUILD: &str = "load(\"//a:b.bzl\", \"x\")\ncc_library(name = \"lib\", deps = [\":d\"])\n";

#[test]
fn marks_of_a_build_file() {
    let parsed = starlark_cst::parse(BUILD, Dialect::Bazel);
    let marks = syntax_marks(&parsed);
    assert_eq!(
        marks,
        vec![
            Mark::LoadPath { start: 6, length: 9 },
            Mark::Callee { start: 23, length: 10 },
            Mark::ArgumentName { start: 34, length: 4 },
            Mark::StringLiteral { start: 42, length: 3, value: "lib".to_string() },
            Mark::ArgumentName { start: 48, length: 4 },
            Mark::StringLiteral { start: 57, length: 2, value: ":d".to_string() },
        ]
    );
}

#[test]
fn marks_agree_with_the_parsers_accessors() {
    for text in [
        BUILD,
        "def f(x, y = 1):\n    return g(x, key = r'''raw''', other = b\"bytes\")\n",
        "x = [1, 2.5, 'one', \"two\"]\nload(':m.bzl', alias = 'sym')\nfoo.bar(baz = 3)\n",
        "broken(name = \n",
    ] {
        for dialect in [Dialect::Standard, Dialect::Bazel] {
            let parsed = starlark_cst::parse(text, dialect);
            assert_eq!(syntax_marks(&parsed), marks_by_accessors(&parsed), "{text:?}");
        }
    }
}

fn span(range: starlark_cst::TextRange) -> (u32, u32) {
    (range.start().into(), range.end().into())
}

/// Whether a literal is the `name` of a top-level call, by the accessors.
fn declares_by_accessors(literal: &LiteralExpr) -> bool {
    let Some(arg) = literal.syntax().parent().and_then(Arg::cast) else {
        return false;
    };
    if arg.name().as_deref() != Some("name") {
        return false;
    }
    arg.syntax()
        .parent()
        .and_then(|list| list.parent())
        .filter(|call| call.kind() == SyntaxKind::CALL_EXPR)
        .and_then(|call| call.parent())
        .filter(|stmt| stmt.kind() == SyntaxKind::EXPR_STMT)
        .and_then(|stmt| stmt.parent())
        .is_some_and(|file| file.kind() == SyntaxKind::FILE)
}

/// The string sites as the parser's own accessors find them.
fn sites_by_accessors(parsed: &starlark_cst::Parse) -> Vec<StringSite> {
    parsed
        .syntax()
        .descendants_with_tokens()
        .filter_map(SyntaxElement::into_token)
        .filter(|token| token.kind() == SyntaxKind::STRING)
        .filter_map(|token| {
            let parent = token.parent()?;
            let (token_start, token_end) = span(token.text_range());
            let (value, range, place) = if let Some(item) = LoadItem::cast(parent.clone()) {
                let load = LoadStmt::cast(parent.parent()?)?;
                let module = load.module()?;
                let place = if module == item { Place::LoadModule } else { Place::LoadSymbol(module.value()?) };
                (item.value()?, item.value_range()?, place)
            } else {
                let literal = LiteralExpr::cast(parent)?;
                let place = if declares_by_accessors(&literal) { Place::TopLevelName } else { Place::Elsewhere };
                (literal.string_value()?, literal.string_value_range()?, place)
            };
            let (start, end) = span(range);
            Some(StringSite { token_start, token_end, start, end, value, place })
        })
        .collect()
}

#[test]
fn string_sites_of_a_build_file() {
    let parsed = starlark_cst::parse(BUILD, Dialect::Bazel);
    let sites = syntax_string_sites(&parsed);
    let places: Vec<(&str, Place)> = sites.iter().map(|s| (s.value.as_str(), s.place.clone())).collect();
    assert_eq!(
        places,
        vec![
            ("//a:b.bzl", Place::LoadModule),
            ("x", Place::LoadSymbol("//a:b.bzl".to_string())),
            ("lib", Place::TopLevelName),
            (":d", Place::Elsewhere),
        ]
    );
    assert_eq!((sites[0].token_start, sites[0].token_end, sites[0].start, sites[0].end), (5, 16, 6, 15));
}

#[test]
fn string_sites_agree_with_the_parsers_accessors() {
    for text in [
        BUILD,
        "load(':m.bzl', alias = 'sym', 'other')\nx = rule(name = 'no')\nfoo(name = r'yes', srcs = glob(['*.c']))\n",
        "def f():\n    g(name = 'nested')\n",
        "load(\n",
    ] {
        for dialect in [Dialect::Standard, Dialect::Bazel] {
            let parsed = starlark_cst::parse(text, dialect);
            assert_eq!(syntax_string_sites(&parsed), sites_by_accessors(&parsed), "{text:?}");
        }
    }
}

#[test]
fn regions_comments_and_nodes_agree_with_the_tree() {
    let text = "# top\nload(':m.bzl', 'x')\nfoo(\n    srcs = [1, 2],  # inline\n    d = {'a': (1, 2)},\n)\ndef f():\n    return [x for x in y]\n";
    let parsed = starlark_cst::parse(text, Dialect::Bazel);
    let foldable: Vec<(u32, u32)> = parsed
        .syntax()
        .descendants()
        .filter(|node| {
            matches!(
                node.kind(),
                SyntaxKind::CALL_EXPR
                    | SyntaxKind::LIST_EXPR
                    | SyntaxKind::DICT_EXPR
                    | SyntaxKind::TUPLE_EXPR
                    | SyntaxKind::LIST_COMP
                    | SyntaxKind::DICT_COMP
                    | SyntaxKind::SUITE
                    | SyntaxKind::LOAD_STMT
            )
        })
        .map(|node| span(node.text_range()))
        .collect();
    assert_eq!(foldable_regions(&parsed), foldable);
    let comments: Vec<u32> = parsed
        .syntax()
        .descendants_with_tokens()
        .filter_map(SyntaxElement::into_token)
        .filter(|token| token.kind() == SyntaxKind::COMMENT)
        .map(|token| token.text_range().start().into())
        .collect();
    assert_eq!(comment_offsets(&parsed), comments);
    assert_eq!(comment_offsets(&parsed), vec![0, text.find("# inline").unwrap() as u32]);
    let nodes: Vec<(u32, u32)> = parsed.syntax().descendants().map(|node| span(node.text_range())).collect();
    assert_eq!(node_ranges(&parsed), nodes);
}

/// The top-level calls as the parser's own accessors find them.
fn calls_by_accessors(parsed: &starlark_cst::Parse) -> Vec<CallExpr> {
    let Some(file) = File::cast(parsed.syntax()) else {
        return Vec::new();
    };
    file.stmts()
        .filter_map(|stmt| match stmt {
            Stmt::Expr(expr) => expr.expr(),
            _ => None,
        })
        .filter_map(|expr| match expr {
            Expr::Call(call) => Some(call),
            _ => None,
        })
        .collect()
}

fn call_by_accessors(call: &CallExpr) -> TopLevelCall {
    let (start, end) = span(call.range());
    let literal = match call.arg("name") {
        Some(Expr::Literal(literal)) => Some(literal),
        _ => None,
    };
    let name = literal.as_ref().and_then(LiteralExpr::string_value);
    let name_range = literal.as_ref().and_then(LiteralExpr::string_value_range).map(span);
    TopLevelCall { rule: call.callee_name(), start, end, name, name_range }
}

fn strings_by_accessors(call: &CallExpr) -> Vec<(String, usize)> {
    let declared = call.arg("name").map(|name| name.range());
    let mut found = Vec::new();
    let Some(args) = call.arg_list() else {
        return found;
    };
    for token in args.syntax().descendants_with_tokens().filter_map(SyntaxElement::into_token) {
        if token.kind() != SyntaxKind::STRING || declared.is_some_and(|range| range.contains_range(token.text_range())) {
            continue;
        }
        let Some(literal) = token.parent().and_then(LiteralExpr::cast) else { continue };
        let (Some(value), Some(range)) = (literal.string_value(), literal.string_value_range()) else { continue };
        found.push((value, usize::from(range.start())));
    }
    found
}

fn defs_by_accessors(parsed: &starlark_cst::Parse) -> Vec<FunctionDef> {
    let Some(file) = File::cast(parsed.syntax()) else {
        return Vec::new();
    };
    file.stmts()
        .filter_map(|stmt| match stmt {
            Stmt::Def(def) => Some(def),
            _ => None,
        })
        .map(|def| {
            let (start, end) = span(def.range());
            FunctionDef { name: def.name(), start, end }
        })
        .collect()
}

const CALLS: &str = "load(':m.bzl', 'x')\ncc_library(name = 'lib', srcs = ['a.c', \"$(location :gen)\"], deps = select({':on': [':d']}))\nnative.genrule(name = NAME, cmd = 'c')\nctx.actions.run(\"x\")\n(lambda: 1)()\nfoo(name = 'a' + 'b', tags = ['t'])\ndef f(x):\n    g(name = 'inner')\ndef type(y): pass\n";

#[test]
fn top_level_calls_agree_with_the_parsers_accessors() {
    for text in [CALLS, BUILD, "broken(name = \n", "x = 1\n"] {
        for dialect in [Dialect::Standard, Dialect::Bazel] {
            let parsed = starlark_cst::parse(text, dialect);
            let expected: Vec<TopLevelCall> = calls_by_accessors(&parsed).iter().map(call_by_accessors).collect();
            assert_eq!(top_level_calls(&parsed), expected, "{text:?}");
            let with_strings: Vec<BuildCall> = calls_by_accessors(&parsed)
                .iter()
                .map(|call| BuildCall { call: call_by_accessors(call), strings: strings_by_accessors(call) })
                .collect();
            assert_eq!(build_calls(&parsed), with_strings, "{text:?}");
            assert_eq!(function_defs(&parsed), defs_by_accessors(&parsed), "{text:?}");
        }
    }
}

#[test]
fn a_dotted_callee_is_spelled_out() {
    let parsed = starlark_cst::parse(CALLS, Dialect::Bazel);
    let rules: Vec<Option<String>> = top_level_calls(&parsed).into_iter().map(|c| c.rule).collect();
    assert_eq!(
        rules,
        vec![
            Some("cc_library".to_string()),
            Some("native.genrule".to_string()),
            Some("ctx.actions.run".to_string()),
            None,
            Some("foo".to_string()),
        ]
    );
    let defs: Vec<Option<String>> = function_defs(&parsed).into_iter().map(|d| d.name).collect();
    // `type` lexes as a keyword, so that `def` has no name token.
    assert_eq!(defs, vec![Some("f".to_string()), None]);
}

/// The `rule()` calls as the parser's own accessors find them.
fn rules_by_accessors(parsed: &starlark_cst::Parse) -> Vec<RuleCall> {
    parsed
        .syntax()
        .descendants()
        .filter_map(|node| {
            let call = CallExpr::cast(node.clone())?;
            if call.callee_name().as_deref() != Some("rule") {
                return None;
            }
            let named = call
                .args()
                .find(|arg| arg.name().as_deref() == Some("implementation"))
                .and_then(|arg| {
                    arg.syntax()
                        .descendants_with_tokens()
                        .filter_map(SyntaxElement::into_token)
                        .find(|token| token.kind() == SyntaxKind::IDENT && token.text() != "implementation")
                });
            let Some(named) = named else {
                return Some(RuleCall { implementation: None, triggers: Vec::new() });
            };
            let mut triggers = vec![span(named.text_range())];
            if let Some(callee) = call.syntax().children().find(|child| child.kind() == SyntaxKind::IDENT_EXPR) {
                triggers.push(span(callee.text_range()));
            }
            if let Some(assigned) = node
                .parent()
                .filter(|parent| parent.kind() == SyntaxKind::ASSIGN_STMT)
                .and_then(|parent| parent.children().find(|child| child.kind() == SyntaxKind::IDENT_EXPR))
            {
                triggers.push(span(assigned.text_range()));
            }
            Some(RuleCall { implementation: Some(named.text().to_string()), triggers })
        })
        .collect()
}

const RULES: &str = "def _impl(ctx):\n    pass\nmy_rule = rule(implementation = _impl, attrs = {})\nrule(implementation = helpers.impl)\nother = rule(attrs = {})\nx = native.rule(implementation = f)\n";

#[test]
fn rule_calls_agree_with_the_parsers_accessors() {
    for text in [RULES, CALLS, "rule(implementation = \n"] {
        for dialect in [Dialect::Standard, Dialect::Bazel] {
            let parsed = starlark_cst::parse(text, dialect);
            assert_eq!(rule_calls(&parsed), rules_by_accessors(&parsed), "{text:?}");
        }
    }
    let parsed = starlark_cst::parse(RULES, Dialect::Bazel);
    let rules = rule_calls(&parsed);
    assert_eq!(rules[0].implementation.as_deref(), Some("_impl"));
    assert_eq!(rules[0].triggers.len(), 3);
    assert_eq!(rules[1].implementation.as_deref(), Some("helpers"));
    assert_eq!(rules[2], RuleCall { implementation: None, triggers: Vec::new() });
}
